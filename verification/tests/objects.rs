//! Identifiers, times, groups, entries and the ways to reach them.

use keepass::database::Database;
use keepass::entry::Entry;
use keepass::entry::History;
use keepass::fields;
use keepass::group::DestinationGroupNotFoundError;
use keepass::group::DuplicateEntryIdError;
use keepass::group::DuplicateGroupIdError;
use keepass::group::MoveGroupError;
use keepass::handles::group::CannotRemoveRootError;
use keepass::ids::AttachmentId;
use keepass::ids::CustomIconId;
use keepass::ids::EntryId;
use keepass::ids::GroupId;
use keepass::ids::Uuid;
use keepass::merge::log::MergeError;
use keepass::sorted_map::SortedMap;
use keepass::sorted_set::SortedSet;
use keepass::times::Times;
use keepass::times::Timestamp;
use keepass::value::Value;

const ROOT: GroupId = GroupId(Uuid(1));
const A: GroupId = GroupId(Uuid(2));
const B: GroupId = GroupId(Uuid(3));
const C: GroupId = GroupId(Uuid(4));
const E1: EntryId = EntryId(Uuid(11));
const E2: EntryId = EntryId(Uuid(12));

/// root ── a ── b (e2), root ── c, root (e1)
fn sample() -> Database {
    let mut db = Database::new_with_root_id(ROOT);
    db.root_mut().add_group_with_id(A).unwrap().add_group_with_id(B).unwrap();
    db.root_mut().add_group_with_id(C).unwrap();
    db.root_mut().add_entry_with_id(E1).unwrap();
    db.group_mut(B).unwrap().add_entry_with_id(E2).unwrap();
    db
}

fn at(seconds: i64) -> Timestamp {
    Timestamp::new(seconds, 0).unwrap()
}

#[test]
fn identifiers_have_texts() {
    assert_eq!(
        EntryId(Uuid(0x0123_4567_89ab_cdef_0123_4567_89ab_cdef)).text(),
        "01234567-89ab-cdef-0123-456789abcdef"
    );
    assert_eq!(GroupId(Uuid(0)).text(), "00000000-0000-0000-0000-000000000000");
    assert_eq!(
        CustomIconId(Uuid(u128::MAX)).text(),
        "ffffffff-ffff-ffff-ffff-ffffffffffff"
    );
    assert_eq!(AttachmentId::new(0).text(), "0");
    assert_eq!(AttachmentId::new(1203).text(), "1203");
    assert_eq!(
        Uuid(0x9_87).text(),
        uuid::Uuid::from_u128(0x987).to_string()
    );
}

#[test]
fn random_identifiers_are_of_version_four() {
    let first = Uuid::new_v4();
    let second = Uuid::new_v4();
    assert_ne!(first, second);
    assert_eq!((first.as_u128() >> 76) & 0xf, 4);
    assert_eq!((first.as_u128() >> 62) & 0x3, 2);
    assert_eq!(EntryId::from(first).uuid(), first);
    assert_eq!(EntryId::from_uuid(first), EntryId(first));
    assert_eq!(&first.text()[14..15], "4");
}

#[test]
fn timestamps_are_checked_and_ordered() {
    assert!(Timestamp::new(i64::MAX, 0).is_none());
    assert!(Timestamp::new(0, 2_000_000_000).is_none());
    assert!(Timestamp::new(0, 1_000_000_000).is_none());
    assert!(Timestamp::new(59, 1_500_000_000).is_some());
    assert!(Timestamp::new(-1, 1_500_000_000).is_some());
    assert!(Timestamp::new(-8334601228800, 0).is_some());
    assert!(Timestamp::new(-8334601228801, 0).is_none());
    assert!(Timestamp::new(8210266876799, 1_999_999_999).is_some());
    assert!(Timestamp::new(8210266876800, 0).is_none());
    assert!(at(1).is_before(&at(2)));
    assert!(!at(2).is_before(&at(2)));
    assert!(at(2).is_before(&Timestamp::new(2, 1).unwrap()));
    assert_eq!((at(5).seconds(), at(5).nanos()), (5, 0));
}

#[test]
fn timestamps_have_texts() {
    assert_eq!(Times::epoch().text(), "1970-01-01 00:00:00");
    assert_eq!(at(1704110400).text(), "2024-01-01 12:00:00");
    assert_eq!(
        Timestamp::new(8210266876799, 1_999_999_999).unwrap().text(),
        "+262142-12-31 23:59:60.999999999"
    );
    assert_eq!(
        Timestamp::new(-8334601228800, 0).unwrap().text(),
        "-262143-01-01 00:00:00"
    );
}

#[test]
fn the_clock_shows_full_seconds() {
    let now = Times::now();
    assert_eq!(now.nanos(), 0);
    assert!(Times::epoch().is_before(&now));
    let times = Times::new();
    assert_eq!(times.creation, times.last_modification);
    assert_eq!(times.usage_count, Some(0));
    assert_eq!(Times::default().last_modification, None);
    let mut moved = Times::default();
    moved.location_changed = Some(at(7));
    assert_eq!(moved.last_update(), Some(at(7)));
    moved.last_modification = Some(at(3));
    assert_eq!(moved.last_update(), Some(at(3)));
}

#[test]
fn sorted_collections() {
    let mut map: SortedMap<String, AttachmentId> = SortedMap::new();
    for (name, id) in [("b", 1), ("a", 2), ("ab", 3), ("", 4), ("é", 5)] {
        assert!(map.insert(name.to_string(), AttachmentId::new(id)).is_none());
    }
    assert_eq!(map.keys(), vec!["", "a", "ab", "b", "é"]);
    assert_eq!(
        map.insert("a".to_string(), AttachmentId::new(9)),
        Some(AttachmentId::new(2))
    );
    assert_eq!(map.remove(&"b".to_string()), Some(AttachmentId::new(1)));
    assert_eq!(map.remove(&"b".to_string()), None);
    assert_eq!(map.len(), 4);
    *map.get_mut(&"ab".to_string()).unwrap() = AttachmentId::new(8);
    assert_eq!(map.get(&"ab".to_string()), Some(&AttachmentId::new(8)));
    assert_eq!(map.key_at(1), "a");
    assert_eq!(*map.value_at(1), AttachmentId::new(9));

    let mut set: SortedSet<AttachmentId> = SortedSet::new();
    assert!(set.insert(AttachmentId::new(2)));
    assert!(set.insert(AttachmentId::new(1)));
    assert!(!set.insert(AttachmentId::new(2)));
    assert_eq!(set.members(), vec![AttachmentId::new(1), AttachmentId::new(2)]);
    assert!(set.remove(&AttachmentId::new(1)));
    assert!(!set.contains(&AttachmentId::new(1)));
    assert_eq!(set.len(), 1);
}

#[test]
fn fields_of_an_entry() {
    let mut db = sample();
    {
        let mut e = db.entry_mut(E1).unwrap();
        e.set_unprotected(fields::TITLE, "title");
        e.set_protected(fields::PASSWORD, "secret");
        e.set(fields::URL, Value::unprotected("https://example.org".to_string()));
        e.set_unprotected(fields::USERNAME, "user");
        e.set_unprotected(fields::OTP, "otp");
    }
    let entry = db.entry(E1).unwrap();
    let entry = entry.get_entry();
    assert_eq!(entry.get_title(), Some("title"));
    assert_eq!(entry.get_password(), Some("secret"));
    assert_eq!(entry.get_url(), Some("https://example.org"));
    assert_eq!(entry.get_username(), Some("user"));
    assert_eq!(entry.get_raw_otp_value(), Some("otp"));
    assert_eq!(entry.get("nothing"), None);
    assert!(entry.fields.get(&"Password".to_string()).unwrap().is_protected());
    assert_eq!(entry.id(), E1);
}

#[test]
fn duplicates_are_refused() {
    let mut db = sample();
    let before = db.clone();
    assert_eq!(
        db.root_mut().add_group_with_id(B).err(),
        Some(DuplicateGroupIdError(B))
    );
    assert_eq!(
        db.root_mut().add_entry_with_id(E2).err(),
        Some(DuplicateEntryIdError(E2))
    );
    assert_eq!(db, before);
}

#[test]
fn groups_are_moved_but_not_into_themselves() {
    let mut db = sample();
    let missing = GroupId(Uuid(99));
    let error = db.root_mut().move_to(A).unwrap_err();
    assert_eq!(error, MoveGroupError::CannotMoveRoot(ROOT));
    assert_eq!(
        error.message(),
        "Cannot move root group 00000000-0000-0000-0000-000000000001"
    );
    let error = db.group_mut(A).unwrap().move_to(missing).unwrap_err();
    assert_eq!(error, MoveGroupError::DestinationNotFound(missing));
    assert_eq!(
        error.message(),
        "Destination group 00000000-0000-0000-0000-000000000063 not found"
    );
    let error = db.group_mut(A).unwrap().move_to(B).unwrap_err();
    assert_eq!(error, MoveGroupError::WouldCreateCycle(A, B));
    assert_eq!(
        error.message(),
        "Cannot move group 00000000-0000-0000-0000-000000000002 into its own subgroup 00000000-0000-0000-0000-000000000003"
    );
    assert_eq!(
        MergeError::from(error).message(),
        "Cannot move group 00000000-0000-0000-0000-000000000002 into its own subgroup 00000000-0000-0000-0000-000000000003"
    );
    assert!(db.is_within(B, A));
    assert!(!db.is_within(A, B));

    db.group_mut(B).unwrap().move_to(C).unwrap();
    let group = db.group(B).unwrap();
    assert_eq!(group.parent().unwrap().id(), C);
    assert_eq!(group.get().previous_parent_group, Some(A));
    assert_eq!(db.group(A).unwrap().groups().len(), 0);
    assert_eq!(db.group(C).unwrap().groups()[0].id(), B);
    assert!(!db.is_within(B, A));
}

#[test]
fn entries_are_moved() {
    let mut db = sample();
    let missing = GroupId(Uuid(99));
    let error = db.entry_mut(E1).unwrap().move_to(missing).unwrap_err();
    assert_eq!(error, DestinationGroupNotFoundError(missing));
    assert_eq!(
        error.message(),
        "Destination group 00000000-0000-0000-0000-000000000063 not found"
    );
    db.entry_mut(E1).unwrap().move_to(C).unwrap();
    let entry = db.entry(E1).unwrap();
    assert_eq!(entry.parent().id(), C);
    assert_eq!(entry.previous_parent().unwrap().id(), ROOT);
    assert_eq!(db.group(C).unwrap().entries()[0].id(), E1);
    assert_eq!(db.root().entries().len(), 0);

    let mut e = db.entry_mut(E1).unwrap();
    assert_eq!(e.parent_mut().id(), C);
    assert_eq!(e.previous_parent_mut().unwrap().id(), ROOT);
    assert!(e.database_mut().entry(E2).is_some());
}

/// The handle on a historical version moves and removes the entry itself.
#[test]
fn historical_handles_act_on_the_entry() {
    let mut db = sample();
    db.entry_mut(E1).unwrap().edit_tracking(|e| e.set_unprotected("Title", "new"));
    let mut old = keepass::handles::entry::EntryMut::new_historical(&mut db, E1, Some(0));
    old.set_unprotected("Title", "old");
    assert_eq!(old.get("Title"), Some("old"));
    old.move_to(C).unwrap();
    assert_eq!(db.entry(E1).unwrap().parent().id(), C);
    assert_eq!(db.entry(E1).unwrap().get("Title"), Some("new"));
    assert_eq!(db.entry(E1).unwrap().historical(0).unwrap().get("Title"), Some("old"));
    assert!(db.entry(E1).unwrap().historical(1).is_none());
    keepass::handles::entry::EntryMut::new_historical(&mut db, E1, Some(0)).remove();
    assert!(db.entry(E1).is_none());
}

#[test]
fn removing_a_group_takes_what_is_below() {
    let mut db = sample();
    db.group_mut(ROOT).unwrap().get_mut().last_top_visible_entry = Some(E2);
    db.group_mut(B).unwrap().get_mut().last_top_visible_entry = Some(E2);
    db.entry_mut(E2)
        .unwrap()
        .add_attachment("x", Value::unprotected(vec![1]));
    db.entry_mut(E1)
        .unwrap()
        .add_attachment("y", Value::unprotected(vec![2]));
    db.group_mut(A).unwrap().remove();
    assert!(db.group(A).is_none());
    assert!(db.group(B).is_none());
    assert!(db.entry(E2).is_none());
    assert_eq!(db.num_attachments(), 1);
    assert_eq!(db.num_groups(), 2);
    assert_eq!(db.root().get().last_top_visible_entry, None);
    assert_eq!(db.deleted_objects.len(), 0);

    let before = db.clone();
    db.root_mut().remove();
    assert_eq!(db, before);
    assert_eq!(
        db.root_mut().track_changes().remove(),
        Err(CannotRemoveRootError(ROOT))
    );
    assert_eq!(db, before);
}

/// Attachments that another entry shares survive the removal of an entry.
#[test]
fn shared_attachments_survive() {
    let mut db = sample();
    let id = db
        .entry_mut(E1)
        .unwrap()
        .add_attachment("x", Value::unprotected(vec![1]))
        .id();
    db.entry_mut(E2)
        .unwrap()
        .get_entry_mut()
        .attachments
        .insert("x".to_string(), id);
    db.entry_mut(E1).unwrap().remove();
    assert_eq!(db.num_attachments(), 1);
    db.entry_mut(E2).unwrap().remove();
    assert_eq!(db.num_attachments(), 0);
}

#[test]
fn tracking_notes_times_and_deletions() {
    let mut db = sample();
    let past = at(1000);
    for id in [E1, E2] {
        db.entry_mut(id).unwrap().get_entry_mut().times.last_modification = Some(past);
        db.entry_mut(id).unwrap().get_entry_mut().times.location_changed = Some(past);
    }
    {
        let mut e = db.entry_mut(E1).unwrap();
        let mut track = e.track_changes();
        track.set_icon_builtin(3);
        track.set_protected("Password", "p");
        track.move_to(C).unwrap();
        assert!(track.set_icon_custom(CustomIconId(Uuid(5))).is_err());
        track.set_icon_none();
        track.edit(|t| t.set_unprotected("Title", "t"));
        track.finish();
    }
    let entry = db.entry(E1).unwrap();
    assert!(past.is_before(&entry.get_entry().times.last_modification.unwrap()));
    assert!(past.is_before(&entry.get_entry().times.location_changed.unwrap()));
    let old = entry.historical(0).unwrap();
    assert_eq!(old.get_entry().times.last_modification, Some(past));
    assert_eq!(old.get_entry().parent, ROOT);
    assert!(old.get_entry().history.is_none());

    db.entry_mut(E1).unwrap().track_changes().remove();
    assert!(db.deleted_objects.contains_key(&E1.uuid()));
    db.group_mut(A).unwrap().track_changes().remove().unwrap();
    for object in [A.uuid(), B.uuid(), E2.uuid()] {
        assert!(db.deleted_objects.get(&object).unwrap().is_some());
    }
    assert_eq!(db.deleted_objects.len(), 4);
}

#[test]
fn everything_can_be_visited() {
    let mut db = sample();
    db.entry_mut(E1).unwrap().set_icon_custom_new(vec![1]);
    assert_eq!(db.iter_all_groups().len(), 4);
    assert_eq!(db.iter_all_entries().len(), 2);
    assert_eq!(db.iter_all_entries()[0].id(), E1);
    db.foreach_entry_mut(|mut e| e.set_unprotected("Title", "same"));
    assert_eq!(db.entry(E2).unwrap().get("Title"), Some("same"));
    db.foreach_group_mut(|mut g| g.get_mut().name = "group".to_string());
    assert_eq!(db.group(C).unwrap().get().name, "group");
    db.foreach_custom_icon_mut(|mut i| i.get_mut().data = vec![2]);
    assert_eq!(db.iter_all_custom_icons()[0].get().data, vec![2]);
    let mut count = 0;
    db.foreach_attachment_mut(|_| count += 1);
    assert_eq!(count, 0);

    assert!(db.recycle_bin().is_none());
    db.meta.recyclebin_uuid = Some(C.uuid());
    assert_eq!(db.recycle_bin().unwrap().id(), C);
    assert_eq!(db.recycle_bin_mut().unwrap().id(), C);
}

#[test]
fn history_puts_the_latest_first() {
    let mut history = History::new();
    let mut entry = Entry::with_id(E1, ROOT);
    entry.set_unprotected("Title", "one");
    history.add_entry(entry.clone());
    entry.set_unprotected("Title", "two");
    history.add_entry(entry);
    assert_eq!(history.entries[0].get_title(), Some("two"));
    assert_eq!(history.entries[1].get_title(), Some("one"));
    assert!(history.entries[0].history.is_none());
}

/// What is visited may be removed during the visit.
#[test]
fn the_visited_may_be_removed() {
    let mut db = sample();
    for (name, byte) in [("x", 1), ("y", 2)] {
        db.entry_mut(E1)
            .unwrap()
            .add_attachment(name, Value::unprotected(vec![byte]));
    }
    db.entry_mut(E1).unwrap().foreach_attachment_mut(|a| a.remove());
    assert_eq!(db.num_attachments(), 0);
    assert!(db.entry(E1).unwrap().attachment_by_name("x").is_none());

    let id = db
        .entry_mut(E1)
        .unwrap()
        .add_attachment("x", Value::unprotected(vec![1]))
        .id();
    db.entry_mut(E2)
        .unwrap()
        .get_entry_mut()
        .attachments
        .insert("x".to_string(), id);
    db.attachment_mut(id)
        .unwrap()
        .foreach_entry_mut(|e| e.remove(), false);
    assert_eq!(db.num_entries(), 0);
    assert_eq!(db.num_attachments(), 0);
}

/// A name that dangles is visited too.
#[test]
fn dangling_names_are_visited() {
    let mut db = sample();
    db.entry_mut(E1)
        .unwrap()
        .get_entry_mut()
        .attachments
        .insert("x".to_string(), AttachmentId::new(7));
    let mut seen = Vec::new();
    db.entry_mut(E1)
        .unwrap()
        .foreach_attachment_mut(|a| seen.push(a.id));
    assert_eq!(seen, vec![AttachmentId::new(7)]);
}

/// New objects get identifiers of version four that are not taken.
#[test]
fn new_objects_have_new_identifiers() {
    let mut db = Database::new();
    assert_eq!((db.root.uuid().as_u128() >> 76) & 0xf, 4);
    let first = db.root_mut().add_entry().id();
    let second = db.root_mut().add_entry().id();
    assert_ne!(first, second);
    assert_eq!((first.uuid().as_u128() >> 62) & 0x3, 2);
    let group = db.root_mut().add_group().id();
    assert_eq!((group.uuid().as_u128() >> 76) & 0xf, 4);
    assert_eq!(db.num_entries(), 2);
    assert_eq!(db.num_groups(), 2);
}

/// Edits that are tracked note the time of the clock, and change nothing else on their own.
#[test]
fn tracked_edits_note_the_time() {
    let mut db = sample();
    let before = Times::now();
    for id in [A, B] {
        db.group_mut(id).unwrap().get_mut().times.last_modification = None;
    }
    db.entry_mut(E1).unwrap().get_entry_mut().times.last_modification = None;
    let expected = db.clone();
    db.group_mut(A).unwrap().edit_tracking(|_| {});
    db.group_mut(B).unwrap().track_changes().edit(|_| {});
    {
        let mut e = db.entry_mut(E1).unwrap();
        let mut track = e.track_changes();
        track.edit(|_| {});
        track.finish();
    }
    for id in [A, B] {
        let mut g = db.group_mut(id).unwrap();
        let noted = g.get_mut().times.last_modification.unwrap();
        assert!(!noted.is_before(&before));
        assert_eq!(noted.nanos(), 0);
        g.get_mut().times.last_modification = None;
    }
    let mut e = db.entry_mut(E1).unwrap();
    let noted = e.get_entry_mut().times.last_modification.unwrap();
    assert!(!noted.is_before(&before));
    assert_eq!(noted.nanos(), 0);
    e.get_entry_mut().times.last_modification = None;
    e.get_entry_mut().history = Some(History::new());
    assert_eq!(db, expected);
}
