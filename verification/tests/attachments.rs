//! Attachments and the versions that refer to them, and the compaction of the pool.

use keepass::config::DatabaseConfig;
use keepass::database::Database;
use keepass::fields;
use keepass::ids::AttachmentId;
use keepass::ids::EntryId;
use keepass::ids::GroupId;
use keepass::ids::Uuid;
use keepass::references::VersionId;
use keepass::value::Value;

const ENTRY_ID: EntryId = EntryId(Uuid(0xa1));

/// What is written out and read back: a copy with a compacted pool.
fn reopened(db: &Database) -> Database {
    let mut copy = db.clone();
    copy.compact_attachments();
    copy
}

/// The bytes of an attachment of a version of an entry.
fn bytes_of(db: &Database, id: EntryId, version: Option<usize>, name: &str) -> Option<Vec<u8>> {
    let live = db.entry(id)?;
    let entry = match version {
        Some(index) => live.historical(index)?,
        None => live,
    };
    Some(entry.attachment_by_name(name)?.get().data.get().clone())
}

/// Build a database whose single entry holds attachment `A.bin` both in its live version and in a
/// history snapshot. The history snapshot is created by editing the entry through a change-tracking
/// handle, which records the pre-edit state (still referencing `A.bin`) into history.
fn build_entry_with_history() -> Database {
    let mut db = Database::with_config(DatabaseConfig::default());

    {
        let mut root = db.root_mut();
        let mut e = root.add_entry_with_id(ENTRY_ID).unwrap();
        e.set_unprotected("Title", "e1");
        e.add_attachment("A.bin", Value::Unprotected(b"AAA".to_vec()));
    }

    {
        let mut e = db.entry_mut(ENTRY_ID).unwrap();
        let mut track = e.track_changes();
        track.set_unprotected("Title", "e1-v2");
        track.finish();
    }

    // Sanity: both the live version and history[0] reference the attachment.
    assert_eq!(
        bytes_of(&db, ENTRY_ID, None, "A.bin"),
        Some(b"AAA".to_vec()),
        "live version should reference A.bin"
    );
    assert_eq!(
        bytes_of(&db, ENTRY_ID, Some(0), "A.bin"),
        Some(b"AAA".to_vec()),
        "history[0] should reference A.bin"
    );

    db
}

/// Deleting an attachment from the live entry must not break a history entry that still references
/// it (pure in-memory, no save).
#[test]
fn delete_live_attachment_keeps_history_ref() {
    let mut db = build_entry_with_history();

    db.entry_mut(ENTRY_ID).unwrap().remove_attachment_by_name("A.bin");

    let e = db.entry(ENTRY_ID).unwrap();
    assert!(
        e.attachment_by_name("A.bin").is_none(),
        "live version should no longer reference A.bin"
    );

    let history = e.historical(0).expect("history entry should still exist");
    assert_eq!(
        history
            .attachment_by_name("A.bin")
            .expect("history keeps A.bin")
            .get()
            .data
            .get()
            .as_slice(),
        b"AAA",
        "history version must still resolve to the original bytes"
    );
}

/// A history-only attachment must survive compaction + save + reopen.
#[test]
fn history_attachment_survives_save_reopen() {
    let mut db = build_entry_with_history();

    db.entry_mut(ENTRY_ID).unwrap().remove_attachment_by_name("A.bin");
    db.compact_attachments();

    let parsed = reopened(&db);

    let e = parsed.entry(ENTRY_ID).unwrap();
    assert!(
        e.attachment_by_name("A.bin").is_none(),
        "live version should not reference A.bin"
    );

    let history = e.historical(0).expect("history entry should survive reopen");
    assert_eq!(
        history
            .attachment_by_name("A.bin")
            .expect("history keeps A.bin")
            .get()
            .data
            .get()
            .as_slice(),
        b"AAA",
        "history attachment bytes must survive save/reopen"
    );
}

/// Adding a new attachment after deleting an old (history-referenced) one must not make the history
/// version resolve to the new bytes (i.e. the freed id must not be reused).
#[test]
fn add_after_delete_does_not_alias_history() {
    let mut db = build_entry_with_history();

    {
        let mut e = db.entry_mut(ENTRY_ID).unwrap();
        e.remove_attachment_by_name("A.bin");
        e.add_attachment("B.bin", Value::Unprotected(b"BBB".to_vec()));
    }

    // In-memory: history must still see AAA, live sees BBB.
    assert_eq!(
        bytes_of(&db, ENTRY_ID, Some(0), "A.bin"),
        Some(b"AAA".to_vec()),
        "history must not alias the newly added attachment"
    );
    assert_eq!(bytes_of(&db, ENTRY_ID, None, "B.bin"), Some(b"BBB".to_vec()));

    db.compact_attachments();
    let parsed = reopened(&db);

    assert_eq!(
        bytes_of(&parsed, ENTRY_ID, Some(0), "A.bin"),
        Some(b"AAA".to_vec()),
        "history must still resolve to AAA after save/reopen"
    );
    assert_eq!(bytes_of(&parsed, ENTRY_ID, None, "B.bin"), Some(b"BBB".to_vec()));
    assert_eq!(
        parsed.num_attachments(),
        2,
        "both A (history) and B (live) must be retained"
    );
}

/// An attachment referenced by no live or history version must be pruned by compaction and must not
/// be resurrected on save/reopen.
#[test]
fn orphan_attachment_pruned_before_save() {
    let mut db = Database::with_config(DatabaseConfig::default());

    {
        let mut root = db.root_mut();
        let mut e = root.add_entry_with_id(ENTRY_ID).unwrap();
        e.set_unprotected("Title", "e1");
        e.add_attachment("A.bin", Value::Unprotected(b"AAA".to_vec()));
    }

    // Removing the only (live) reference does not GC immediately; the orphan lingers until compaction.
    db.entry_mut(ENTRY_ID).unwrap().remove_attachment_by_name("A.bin");
    assert_eq!(db.num_attachments(), 1, "orphan should linger before compaction");

    db.compact_attachments();
    assert_eq!(db.num_attachments(), 0, "orphan should be pruned by compaction");

    let parsed = reopened(&db);
    assert_eq!(
        parsed.num_attachments(),
        0,
        "pruned orphan must not be resurrected"
    );
}

/// A pool with non-contiguous ids (a higher-id attachment surviving after a lower one is removed)
/// must be compacted so the higher ref survives save/reopen.
#[test]
fn compaction_reindexes_high_refs() {
    let mut db = Database::with_config(DatabaseConfig::default());

    {
        let mut root = db.root_mut();
        let mut e = root.add_entry_with_id(ENTRY_ID).unwrap();
        e.add_attachment("A.bin", Value::Unprotected(b"AAA".to_vec())); // id 0
        e.add_attachment("B.bin", Value::Unprotected(b"BBB".to_vec())); // id 1
        e.add_attachment("C.bin", Value::Unprotected(b"CCC".to_vec())); // id 2
    }

    db.entry_mut(ENTRY_ID).unwrap().remove_attachment_by_name("B.bin");
    assert_eq!(db.num_attachments(), 3, "B lingers until compaction");

    db.compact_attachments();
    assert_eq!(
        db.num_attachments(),
        2,
        "B pruned, A and C re-indexed contiguously"
    );

    let parsed = reopened(&db);
    assert_eq!(parsed.num_attachments(), 2);

    assert_eq!(bytes_of(&parsed, ENTRY_ID, None, "A.bin"), Some(b"AAA".to_vec()));
    assert_eq!(
        bytes_of(&parsed, ENTRY_ID, None, "C.bin"),
        Some(b"CCC".to_vec()),
        "the higher-id attachment must survive re-indexing and save/reopen"
    );
    let e = parsed.entry(ENTRY_ID).unwrap();
    assert!(e.attachment_by_name("B.bin").is_none());
}

/// The common path (a single live attachment, no compaction) must round-trip unchanged.
#[test]
fn existing_live_attachment_unchanged() {
    let mut db = Database::with_config(DatabaseConfig::default());

    {
        let mut root = db.root_mut();
        let mut e = root.add_entry_with_id(ENTRY_ID).unwrap();
        e.add_attachment("only.bin", Value::Unprotected(b"hello".to_vec()));
    }

    let parsed = reopened(&db);

    assert_eq!(parsed.num_attachments(), 1);
    assert_eq!(
        bytes_of(&parsed, ENTRY_ID, None, "only.bin"),
        Some(b"hello".to_vec()),
    );
}

#[test]
fn attachment_referenced_by_history_survives_delete_and_reopen() {
    let mut db = Database::with_config(DatabaseConfig::default());

    let payload = b"top-secret-recovery-codes".to_vec();

    let entry_id = db
        .root_mut()
        .add_entry()
        .edit(|e| {
            e.set_unprotected("Title", "Bank");
            e.add_attachment("codes.bin", Value::Unprotected(payload.clone()));
        })
        .id();

    // Snapshot the current (attachment-bearing) state into history via a tracked
    // edit. history[0] now references the same attachment id as the live entry.
    db.entry_mut(entry_id)
        .unwrap()
        .edit_tracking(|e| e.set_unprotected("Title", "Bank (renamed)"));

    // Delete the attachment from the *live* entry.
    db.entry_mut(entry_id)
        .unwrap()
        .edit(|e| e.remove_attachment_by_name("codes.bin"));

    // The binary must be retained because a history version still references it.
    assert_eq!(
        db.num_attachments(),
        1,
        "binary was GC'd despite a history reference"
    );

    let parsed = reopened(&db);

    let root = parsed.root();
    let entries = root.entries();
    let entry = entries.first().expect("no entry under root");

    // The live entry no longer references the attachment...
    assert!(
        entry.attachment_by_name("codes.bin").is_none(),
        "live entry still references the deleted attachment"
    );

    // ...but the historical version still resolves the original bytes.
    let hist = entry.historical(0).expect("missing history version");
    let att = hist
        .attachment_by_name("codes.bin")
        .expect("history lost its attachment binary");
    assert_eq!(
        att.get().data.get().as_slice(),
        payload.as_slice(),
        "history attachment bytes changed across save/reopen"
    );
}

#[test]
fn deleting_an_attachment_never_reuses_its_id_into_a_history_reference() {
    let mut db = Database::with_config(DatabaseConfig::default());

    let original = b"original-bytes".to_vec();
    let entry_id = db
        .root_mut()
        .add_entry()
        .edit(|e| {
            e.add_attachment("a.bin", Value::Unprotected(original.clone()));
        })
        .id();

    let original_id = db
        .entry(entry_id)
        .unwrap()
        .attachment_by_name("a.bin")
        .unwrap()
        .id()
        .id();

    // Snapshot the attachment-bearing state into history, then delete from live.
    db.entry_mut(entry_id)
        .unwrap()
        .edit_tracking(|e| e.set_unprotected("Title", "v2"));
    db.entry_mut(entry_id)
        .unwrap()
        .edit(|e| e.remove_attachment_by_name("a.bin"));

    // Add a *different* attachment. Because the original id is still occupied
    // (never GC'd), a fresh id must be handed out.
    let other = b"different-bytes".to_vec();
    db.entry_mut(entry_id).unwrap().edit(|e| {
        e.add_attachment("b.bin", Value::Unprotected(other.clone()));
    });
    let new_id = db
        .entry(entry_id)
        .unwrap()
        .attachment_by_name("b.bin")
        .unwrap()
        .id()
        .id();

    assert_ne!(new_id, original_id, "freed attachment id was reused");
    assert_eq!(db.num_attachments(), 2, "expected both binaries retained");

    // The history version still resolves to the ORIGINAL, uncorrupted bytes.
    let entry = db.entry(entry_id).unwrap();
    let hist = entry.historical(0).unwrap();
    let att = hist
        .attachment_by_name("a.bin")
        .expect("history lost its attachment");
    assert_eq!(
        att.get().data.get().as_slice(),
        original.as_slice(),
        "history attachment was corrupted by id reuse"
    );
}

#[test]
fn test_entry() {
    let mut db = Database::new();

    let entry_id = db
        .root_mut()
        .add_entry()
        .edit(|e| {
            e.set_unprotected(fields::TITLE, "Entry 1");
            e.set(fields::USERNAME, Value::unprotected("user".to_string()));
            e.set_protected(fields::PASSWORD, "asdf");

            e.set_icon_custom_new(vec![1, 2, 3]);
        })
        .id();

    assert_eq!(db.num_attachments(), 0);
    assert_eq!(db.num_entries(), 1);

    assert_eq!(
        db.entry(entry_id)
            .unwrap()
            .get_entry()
            .history
            .clone()
            .unwrap()
            .entries
            .len(),
        0
    );

    assert_eq!(db.entry(entry_id).unwrap().get(fields::TITLE).unwrap(), "Entry 1");

    db.entry_mut(entry_id).unwrap().edit_tracking(|e| {
        e.set_unprotected(fields::TITLE, "Modified Entry 1");
        let modified = format!("modified_{}", e.get(fields::USERNAME).unwrap());
        e.set(fields::USERNAME, Value::unprotected(modified));

        e.add_attachment("Attachment 1", Value::protected(b"Attachment data".to_vec()));
    });

    assert_eq!(db.num_attachments(), 1);
    assert_eq!(db.num_entries(), 1);
    assert_eq!(
        db.entry(entry_id)
            .unwrap()
            .get_entry()
            .history
            .clone()
            .unwrap()
            .entries
            .len(),
        1
    );

    assert!(db
        .entry(entry_id)
        .unwrap()
        .get_entry()
        .attachments
        .contains_key(&"Attachment 1".to_string()));

    assert_eq!(
        db.entry(entry_id).unwrap().get(fields::TITLE).unwrap(),
        "Modified Entry 1"
    );

    // test moving to a non-existent group returns an error and does not modify the entry
    assert!(db
        .entry_mut(entry_id)
        .unwrap()
        .move_to(GroupId::new())
        .is_err());

    db.entry_mut(entry_id).unwrap().edit(|e| {
        let mut att = e.attachment_by_name_mut("Attachment 1").unwrap();

        att.get_mut().data = Value::unprotected(b"Modified attachment data".to_vec());
    });

    db.entry_mut(entry_id).unwrap().remove();

    assert_eq!(db.num_entries(), 0);
    assert_eq!(db.num_attachments(), 0);
}

/// The versions that refer to an attachment are found, live and historical, and removing the
/// attachment strips it from all of them.
#[test]
fn referrers_are_found_and_stripped() {
    let mut db = build_entry_with_history();
    let id = AttachmentId::new(0);

    assert_eq!(
        db.attachment_referrers(id, true),
        vec![
            VersionId { entry: ENTRY_ID, index: None },
            VersionId { entry: ENTRY_ID, index: Some(0) },
        ]
    );
    assert_eq!(
        db.attachment_referrers(id, false),
        vec![VersionId { entry: ENTRY_ID, index: None }]
    );
    assert_eq!(db.attachment(id).unwrap().entries(true).len(), 2);
    assert_eq!(db.attachment(id).unwrap().entries(false).len(), 1);

    let references = db.attachment_references();
    assert_eq!(references.len(), 1);
    assert_eq!(references.get(&id).unwrap().len(), 2);

    let mut visits = 0;
    db.attachment_mut(id)
        .unwrap()
        .foreach_entry_mut(|_| visits += 1, true);
    assert_eq!(visits, 2);

    db.attachment_mut(id).unwrap().remove();
    assert_eq!(db.num_attachments(), 0);
    assert_eq!(bytes_of(&db, ENTRY_ID, None, "A.bin"), None);
    assert_eq!(bytes_of(&db, ENTRY_ID, Some(0), "A.bin"), None);
    assert_eq!(db.attachment_references().len(), 0);
}

/// Replacing an attachment under the same name drops every name of the old one in that version.
#[test]
fn replacing_drops_the_old_identifier() {
    let mut db = Database::new();
    let mut root = db.root_mut();
    let mut e = root.add_entry_with_id(ENTRY_ID).unwrap();
    let first = e.add_attachment("a", Value::unprotected(vec![1])).id();
    e.get_entry_mut().attachments.insert("alias".to_string(), first);
    let second = e.add_attachment("a", Value::unprotected(vec![2])).id();

    assert_eq!(first, AttachmentId::new(0));
    assert_eq!(second, AttachmentId::new(1));
    assert_eq!(e.get_entry().attachments.get(&"a".to_string()), Some(&second));
    assert_eq!(e.get_entry().attachments.get(&"alias".to_string()), None);

    e.remove_attachment_by_id(second);
    assert_eq!(e.get_entry().attachments.len(), 0);
    assert_eq!(db.num_attachments(), 2);
}

/// Compaction is needed exactly while there are orphans or gaps, and doing it twice changes nothing.
#[test]
fn compaction_is_needed_and_idempotent() {
    let mut db = Database::new();
    {
        let mut root = db.root_mut();
        let mut e = root.add_entry_with_id(ENTRY_ID).unwrap();
        e.add_attachment("a", Value::unprotected(vec![1]));
        e.add_attachment("b", Value::unprotected(vec![2]));
    }
    assert!(!db.attachments_need_compaction());

    db.entry_mut(ENTRY_ID).unwrap().remove_attachment_by_name("a");
    assert!(db.attachments_need_compaction());
    let remap = db.attachment_compaction_remap();
    assert_eq!(remap.get(&AttachmentId::new(1)), Some(&AttachmentId::new(0)));
    assert_eq!(remap.get(&AttachmentId::new(0)), None);

    db.compact_attachments();
    assert!(!db.attachments_need_compaction());
    assert_eq!(bytes_of(&db, ENTRY_ID, None, "b"), Some(vec![2]));
    assert_eq!(db.attachment(AttachmentId::new(0)).unwrap().get().id(), AttachmentId::new(0));

    let once = db.clone();
    db.compact_attachments();
    assert_eq!(db, once);
}

/// Protected and unprotected data are not the same, and the same data is carried over only once.
#[test]
fn remapping_imports_each_blob_once() {
    let mut source = Database::new();
    let mut entry = {
        let mut root = source.root_mut();
        let mut e = root.add_entry_with_id(ENTRY_ID).unwrap();
        e.add_attachment("x", Value::unprotected(vec![7]));
        e.add_attachment("y", Value::unprotected(vec![7]));
        e.add_attachment("z", Value::protected(vec![7]));
        e.get_entry_mut()
            .attachments
            .insert("gone".to_string(), AttachmentId::new(99));
        e.get_entry().clone()
    };
    let mut dest = Database::new();
    {
        let mut root = dest.root_mut();
        let mut e = root.add_entry();
        e.add_attachment("other", Value::unprotected(vec![1]));
    }

    entry.remap_attachments(&source, &mut dest);

    assert_eq!(dest.num_attachments(), 3);
    assert_eq!(entry.attachments.get(&"x".to_string()), Some(&AttachmentId::new(1)));
    assert_eq!(entry.attachments.get(&"y".to_string()), Some(&AttachmentId::new(1)));
    assert_eq!(entry.attachments.get(&"z".to_string()), Some(&AttachmentId::new(2)));
    assert_eq!(entry.attachments.get(&"gone".to_string()), None);

    let live = source.entry(ENTRY_ID).unwrap();
    assert!(!live.get_entry().content_equivalent(&source, &entry, &dest));
    let mut trimmed = live.get_entry().clone();
    trimmed.attachments.remove(&"gone".to_string());
    assert!(trimmed.content_equivalent(&source, &entry, &dest));
}

/// Attachments are listed by name, and can be found by identifier.
#[test]
fn attachments_of_a_version() {
    let mut db = Database::new();
    {
        let mut root = db.root_mut();
        let mut e = root.add_entry_with_id(ENTRY_ID).unwrap();
        e.add_attachment("b", Value::unprotected(vec![1]));
        e.add_attachment("a", Value::unprotected(vec![2]));
        e.foreach_attachment_mut(|mut a| a.get_mut().data = Value::protected(vec![3]));
    }
    let e = db.entry(ENTRY_ID).unwrap();
    let named = e.attachments_named();
    assert_eq!(named.len(), 2);
    assert_eq!((named[0].0, named[0].1.id()), ("a", AttachmentId::new(1)));
    assert_eq!((named[1].0, named[1].1.id()), ("b", AttachmentId::new(0)));
    assert_eq!(e.attachments().len(), 2);
    assert_eq!(e.attachments()[0].get().data, Value::protected(vec![3]));
    assert!(e.attachment(AttachmentId::new(1)).is_some());
    assert!(e.attachment(AttachmentId::new(2)).is_none());
    assert_eq!(db.iter_all_attachments().len(), 2);
}
