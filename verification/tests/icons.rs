//! Custom icons and the versions that show them.

use keepass::config::DatabaseConfig;
use keepass::database::Database;
use keepass::icon::CustomIconNotFoundError;
use keepass::icon::Icon;
use keepass::ids::CustomIconId;
use keepass::ids::EntryId;
use keepass::ids::Uuid;

const ENTRY_ID: EntryId = EntryId(Uuid(0xc1));
const ICON_DATA: &[u8] = b"\x89PNG\r\n\x1a\nFAKE-ICON";

/// What is written out and read back: a copy with a compacted pool.
fn reopened(db: &Database) -> Database {
    let mut copy = db.clone();
    copy.compact_attachments();
    copy
}

/// Build a database whose single entry holds a custom icon both in its live version and in a history
/// snapshot. The history snapshot is created by editing the entry through a change-tracking handle,
/// which records the pre-edit state (still referencing the icon) into history.
fn build_entry_with_history() -> (Database, CustomIconId) {
    let mut db = Database::with_config(DatabaseConfig::default());

    let icon_id = {
        let mut root = db.root_mut();
        let mut e = root.add_entry_with_id(ENTRY_ID).unwrap();
        e.set_unprotected("Title", "e1");
        let id = e.set_icon_custom_new(ICON_DATA.to_vec()).id();
        id
    };

    {
        let mut e = db.entry_mut(ENTRY_ID).unwrap();
        let mut track = e.track_changes();
        track.set_unprotected("Title", "e1-v2");
        track.finish();
    }

    // Sanity: both the live version and history[0] reference the icon.
    let e = db.entry(ENTRY_ID).unwrap();
    assert_eq!(
        e.custom_icon().unwrap().id(),
        icon_id,
        "live version should reference the custom icon"
    );
    assert_eq!(
        e.historical(0).unwrap().custom_icon().unwrap().id(),
        icon_id,
        "history[0] should reference the custom icon"
    );

    (db, icon_id)
}

/// Removing the icon from the live entry must not break a history entry that still references it
/// (pure in-memory, no save).
#[test]
fn delete_live_icon_keeps_history_ref() {
    let (mut db, icon_id) = build_entry_with_history();

    db.entry_mut(ENTRY_ID).unwrap().set_icon_none();

    let e = db.entry(ENTRY_ID).unwrap();
    assert!(
        e.custom_icon().is_none(),
        "live version should no longer reference the icon"
    );
    assert_eq!(
        e.historical(0).unwrap().custom_icon().unwrap().id(),
        icon_id,
        "history version must still resolve to the icon"
    );
    assert_eq!(db.num_custom_icons(), 1, "the icon must remain in the pool");
}

/// Build a database, reopened, where the custom icon is referenced only by `history[0]`, then a
/// change-tracking edit inserts a new snapshot at index 0 (shifting the real reference to
/// `history[1]`). Returns the reopened, edited database.
fn history_only_icon_then_shifted() -> (Database, CustomIconId) {
    let (mut db, icon_id) = build_entry_with_history();

    // Make the icon history-only, then round-trip.
    db.entry_mut(ENTRY_ID).unwrap().set_icon_none();
    let mut db = reopened(&db);
    assert_eq!(
        db.num_custom_icons(),
        1,
        "icon is retained via history across save/reopen"
    );

    // A change-tracked edit pushes a new snapshot (which does not reference the icon) to index 0,
    // shifting the snapshot that does reference the icon from index 0 to index 1.
    {
        let mut e = db.entry_mut(ENTRY_ID).unwrap();
        let mut track = e.track_changes();
        track.set_unprotected("Title", "e1-v3");
        track.finish();
    }

    (db, icon_id)
}

/// After a history-index shift, the icon must still resolve to the correct (shifted) history version,
/// `entries(true)` must not be stale or panic, and a save must round-trip it.
#[test]
fn history_index_shift_resolves_correct_version() {
    let (db, icon_id) = history_only_icon_then_shifted();

    {
        let e = db.entry(ENTRY_ID).unwrap();
        assert!(
            e.historical(0).unwrap().custom_icon().is_none(),
            "the new snapshot at index 0 does not reference the icon"
        );
        assert_eq!(
            e.historical(1).unwrap().custom_icon().unwrap().id(),
            icon_id,
            "the shifted snapshot at index 1 still references the icon"
        );
    }

    // The derived back-reference enumeration finds exactly the shifted version, without panicking,
    // and every referrer it returns must actually reference the icon (a stale positional history
    // index would point at the icon-less snapshot at index 0 instead).
    let icon_ref = db.custom_icon(icon_id).unwrap();
    let referrers = icon_ref.entries(true);
    assert_eq!(referrers.len(), 1);
    assert!(
        referrers
            .iter()
            .all(|r| r.custom_icon().map(|ci| ci.id()) == Some(icon_id)),
        "derived referrer must actually reference the icon, not a stale history index"
    );

    // The icon survives a plain save/reopen and still resolves under the shifted index.
    let parsed = reopened(&db);
    assert_eq!(parsed.num_custom_icons(), 1);
    assert_eq!(
        parsed
            .entry(ENTRY_ID)
            .unwrap()
            .historical(1)
            .unwrap()
            .custom_icon()
            .unwrap()
            .id(),
        icon_id,
    );
}

/// After a history-index shift, removing the icon via `CustomIconMut::remove` must strip the reference
/// from the real (shifted) history version, not the wrong one, and must not panic.
#[test]
fn remove_after_history_shift_targets_correct_version() {
    let (mut db, icon_id) = history_only_icon_then_shifted();

    db.custom_icon_mut(icon_id).unwrap().remove();

    let e = db.entry(ENTRY_ID).unwrap();
    assert!(
        e.historical(1).unwrap().custom_icon().is_none(),
        "remove must strip the reference from the actual (shifted) history version"
    );
    assert!(e.historical(0).unwrap().custom_icon().is_none());
    assert_eq!(db.num_custom_icons(), 0);
}

/// Removing an entry that, after reopen, references the icon only through a history version must leave
/// no dangling reference for `CustomIconRef::entries(true)` to trip over.
#[test]
fn removing_entry_clears_history_only_icon_refs() {
    let (mut db, _icon_id) = build_entry_with_history();

    // Make the icon history-only, then round-trip.
    db.entry_mut(ENTRY_ID).unwrap().set_icon_none();
    let mut db = reopened(&db);
    assert_eq!(db.num_custom_icons(), 1);

    // Removing the entry must not leave a dangling history back-reference.
    db.entry_mut(ENTRY_ID).unwrap().remove();

    // Enumerating remaining custom icons (including historical referrers) must not panic on a
    // dangling EntryRef.
    for icon in db.iter_all_custom_icons() {
        assert_eq!(icon.entries(true).len(), 0);
    }
}

/// A custom icon that does not exist cannot be set, and the icon is cleared all the same.
#[test]
fn unknown_icon_is_refused() {
    let (mut db, icon_id) = build_entry_with_history();
    let unknown = CustomIconId(Uuid(0x5));

    let error = db
        .entry_mut(ENTRY_ID)
        .unwrap()
        .set_icon_custom(unknown)
        .unwrap_err();
    assert_eq!(error, CustomIconNotFoundError(unknown));
    assert_eq!(
        error.message(),
        "Custom icon 00000000-0000-0000-0000-000000000005 not found"
    );
    assert!(db.entry(ENTRY_ID).unwrap().get_entry().icon().is_none());

    db.entry_mut(ENTRY_ID).unwrap().set_icon_custom(icon_id).unwrap();
    assert_eq!(
        db.entry(ENTRY_ID).unwrap().get_entry().icon(),
        Some(&Icon::Custom(icon_id))
    );
    db.entry_mut(ENTRY_ID).unwrap().set_icon_builtin(12);
    assert_eq!(
        db.entry(ENTRY_ID).unwrap().get_entry().icon(),
        Some(&Icon::BuiltIn(12))
    );
}
