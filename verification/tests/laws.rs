//! Laws of merging, on concrete databases.

use keepass::database::Database;
use keepass::entry::Entry;
use keepass::entry::History;
use keepass::ids::CustomIconId;
use keepass::ids::EntryId;
use keepass::ids::GroupId;
use keepass::ids::Uuid;
use keepass::merge::groups::get_last_update;
use keepass::merge::history::merge_history;
use keepass::merge::log::MergeError;
use keepass::merge::log::MergeEventTarget;
use keepass::merge::log::MergeEventType;
use keepass::merge::log::MergeLog;
use keepass::times::Timestamp;
use keepass::value::Value;

const ROOT: GroupId = GroupId(Uuid(1));
const A: GroupId = GroupId(Uuid(2));
const B: GroupId = GroupId(Uuid(3));
const E1: EntryId = EntryId(Uuid(11));
const E2: EntryId = EntryId(Uuid(12));
const E3: EntryId = EntryId(Uuid(13));

fn at(seconds: i64) -> Timestamp {
    Timestamp::new(seconds, 0).unwrap()
}

/// root ── a (e2), root ── b, root (e1); everything from the same moment
fn sample() -> Database {
    let mut db = Database::new_with_root_id(ROOT);
    db.root_mut().add_group_with_id(A).unwrap();
    db.root_mut().add_group_with_id(B).unwrap();
    db.root_mut().add_entry_with_id(E1).unwrap();
    db.group_mut(A).unwrap().add_entry_with_id(E2).unwrap();
    db.foreach_entry_mut(|mut e| {
        e.get_entry_mut().times.last_modification = Some(at(100));
        e.get_entry_mut().times.location_changed = Some(at(100));
    });
    db.foreach_group_mut(|mut g| {
        g.get_mut().times.last_modification = Some(at(100));
        g.get_mut().times.location_changed = Some(at(100));
    });
    db
}

fn edit(db: &mut Database, id: EntryId, title: &str, time: i64) {
    let mut e = db.entry_mut(id).unwrap();
    e.set_unprotected("Title", title);
    e.get_entry_mut().times.last_modification = Some(at(time));
}

fn version(title: &str, time: Option<i64>) -> Entry {
    let mut entry = Entry::with_id(E1, ROOT);
    entry.set_unprotected("Title", title);
    entry.times.last_modification = time.map(at);
    entry
}

fn titles(history: &History) -> Vec<&str> {
    history.entries.iter().map(|e| e.get_title().unwrap()).collect()
}

#[test]
fn merging_with_itself_changes_nothing() {
    let mut db = sample();
    edit(&mut db, E1, "title", 200);
    let copy = db.clone();
    let log = db.merge(&copy).unwrap();
    assert_eq!(db, copy);
    assert_eq!((log.warnings.len(), log.events.len()), (0, 0));
    let log = db.merge_with_ancestor(&copy, &sample()).unwrap();
    assert_eq!(db, copy);
    assert_eq!((log.warnings.len(), log.events.len()), (0, 0));
}

#[test]
fn merging_again_changes_nothing() {
    let mut source = sample();
    let mut dest = source.clone();
    edit(&mut source, E1, "source", 300);
    edit(&mut dest, E2, "dest", 300);
    source.group_mut(B).unwrap().add_entry_with_id(E3).unwrap();
    source
        .entry_mut(E3)
        .unwrap()
        .add_attachment("x", Value::unprotected(vec![1]));
    dest.entry_mut(E1)
        .unwrap()
        .add_attachment("y", Value::unprotected(vec![2]));
    dest.merge(&source).unwrap();
    let once = dest.clone();
    let log = dest.merge(&source).unwrap();
    assert_eq!(dest, once);
    assert_eq!(log.events.len(), 0);
}

#[test]
fn merged_histories_are_ordered_and_complete() {
    let mut dest_db = sample();
    let source_db = sample();
    let mut log = MergeLog::new();
    let ours = History {
        entries: vec![version("d3", Some(30)), version("same", Some(20)), version("d1", Some(10))],
    };
    let theirs = History {
        entries: vec![version("s", Some(25)), version("same", Some(20)), version("s0", None)],
    };
    let merged = merge_history(&ours, &theirs, &mut dest_db, &source_db, &mut log);
    assert_eq!(titles(&merged), vec!["d3", "s", "same", "d1", "s0"]);
    assert_eq!(
        log.warnings,
        vec!["Source history entry 00000000-0000-0000-0000-00000000000b did not have a last modification timestamp"]
    );

    let mut log = MergeLog::new();
    let ours = History {
        entries: vec![version("ours", Some(20))],
    };
    let theirs = History {
        entries: vec![version("theirs", Some(20))],
    };
    let merged = merge_history(&ours, &theirs, &mut dest_db, &source_db, &mut log);
    assert_eq!(titles(&merged), vec!["ours", "theirs"]);
    assert_eq!(
        log.warnings,
        vec!["History entries for 00000000-0000-0000-0000-00000000000b have the same modification timestamp 1970-01-01 00:00:20 but have diverged."]
    );
}

#[test]
fn last_update_takes_children_into_account() {
    let mut db = sample();
    assert_eq!(get_last_update(&db, A), Some(at(100)));
    edit(&mut db, E2, "t", 500);
    assert_eq!(get_last_update(&db, A), Some(at(500)));
    assert_eq!(get_last_update(&db, ROOT), Some(at(100)));
    db.group_mut(B).unwrap().get_mut().times.last_modification = None;
    db.group_mut(B).unwrap().get_mut().times.location_changed = Some(at(600));
    assert_eq!(get_last_update(&db, ROOT), Some(at(600)));
    db.group_mut(B).unwrap().get_mut().times.location_changed = None;
    assert_eq!(get_last_update(&db, B), None);
}

#[test]
fn events_and_warnings_say_what_happened() {
    let ancestor = sample();
    let mut dest = ancestor.clone();
    let mut source = ancestor.clone();
    edit(&mut dest, E1, "dest", 200);
    edit(&mut source, E1, "source", 300);
    let log = dest.merge_with_ancestor(&source, &ancestor).unwrap();
    assert_eq!(log.events.len(), 1);
    assert_eq!(log.events[0].target, MergeEventTarget::Entry(E1));
    assert_eq!(log.events[0].event_type, MergeEventType::Updated);
    assert_eq!(
        log.warnings,
        vec!["Entry 00000000-0000-0000-0000-00000000000b was modified in both databases since the common ancestor. Resolving by keeping the most recently modified version."]
    );
}

#[test]
fn ties_without_ancestor_are_errors() {
    let mut dest = sample();
    let mut source = dest.clone();
    edit(&mut source, E1, "other", 100);
    let error = dest.merge(&source).unwrap_err();
    assert_eq!(error, MergeError::EntryModificationTimeNotUpdated(E1));
    assert_eq!(
        error.message(),
        "Entries with UUID 00000000-0000-0000-0000-00000000000b have the same modification time but have diverged."
    );
    assert_eq!(
        MergeError::GroupModificationTimeNotUpdated(A).message(),
        "Groups with UUID 00000000-0000-0000-0000-000000000002 have the same modification time but have diverged."
    );
    assert_eq!(
        MergeError::DuplicateHistoryEntries(at(0), E1).message(),
        "Found history entries with the same timestamp (1970-01-01 00:00:00) for entry 00000000-0000-0000-0000-00000000000b."
    );
}

/// Two groups that change places are not put below each other.
#[test]
fn groups_can_change_places() {
    let mut dest = sample();
    dest.group_mut(B).unwrap().move_to(A).unwrap();
    dest.group_mut(B).unwrap().get_mut().times.location_changed = Some(at(150));
    let mut source = sample();
    source.group_mut(A).unwrap().move_to(B).unwrap();
    source.group_mut(A).unwrap().get_mut().times.location_changed = Some(at(200));
    source.group_mut(B).unwrap().get_mut().times.location_changed = Some(at(200));
    let log = dest.merge(&source).unwrap();
    assert_eq!(log.events.len(), 2);
    assert_eq!(dest.group(A).unwrap().parent().unwrap().id(), B);
    assert_eq!(dest.group(B).unwrap().parent().unwrap().id(), ROOT);
}

/// A group that would end up below itself ends the merge with an error.
#[test]
fn impossible_moves_are_errors() {
    let mut dest = sample();
    dest.group_mut(B).unwrap().move_to(A).unwrap();
    dest.group_mut(B).unwrap().get_mut().times.location_changed = Some(at(300));
    let mut source = sample();
    source.group_mut(A).unwrap().move_to(B).unwrap();
    source.group_mut(A).unwrap().get_mut().times.location_changed = Some(at(200));
    let error = dest.merge(&source).unwrap_err();
    assert!(matches!(error, MergeError::MoveGroupError(_)));
}

/// An entry whose group was deleted in the destination is not added, and the merge says so.
#[test]
fn entries_need_their_group() {
    let mut dest = sample();
    let mut source = dest.clone();
    dest.group_mut(B).unwrap().remove();
    dest.deleted_objects.insert(B.uuid(), Some(at(900)));
    source.group_mut(B).unwrap().add_entry_with_id(E3).unwrap();
    source.entry_mut(E3).unwrap().get_entry_mut().times.last_modification = Some(at(800));
    let log = dest.merge(&source).unwrap();
    assert!(dest.entry(E3).is_none());
    assert!(dest.group(B).is_none());
    assert_eq!(
        log.warnings,
        vec!["Cannot add entry 00000000-0000-0000-0000-00000000000d because its parent group 00000000-0000-0000-0000-000000000003 does not exist in the destination database."]
    );
}

/// Deleted groups are added again with their parents if something in them was updated since.
#[test]
fn missing_parents_come_back_first() {
    let mut source = sample();
    source.group_mut(B).unwrap().add_group_with_id(GroupId(Uuid(0))).unwrap();
    let mut dest = sample();
    dest.group_mut(B).unwrap().remove();
    dest.deleted_objects.insert(B.uuid(), Some(at(i64::from(u32::MAX))));
    let log = dest.merge(&source).unwrap();
    assert_eq!(log.events.len(), 2);
    assert_eq!(log.events[0].target, MergeEventTarget::Group(B));
    assert_eq!(log.events[1].target, MergeEventTarget::Group(GroupId(Uuid(0))));
    assert!(dest.group(B).is_some());
}

/// The time of a merge stands in for a missing modification time.
#[test]
fn undated_entries_count_as_new_or_old() {
    let mut dest = sample();
    let mut source = dest.clone();
    edit(&mut source, E1, "source", 5000);
    dest.entry_mut(E1).unwrap().get_entry_mut().times.last_modification = None;
    let mut early = dest.clone();
    let log = early.merge_at(&source, at(4000)).unwrap();
    assert_eq!(early.entry(E1).unwrap().get("Title"), Some("source"));
    assert_eq!(
        log.warnings,
        vec!["Destination entry 00000000-0000-0000-0000-00000000000b did not have a last modification timestamp"]
    );
    dest.merge_at(&source, at(6000)).unwrap();
    assert_eq!(dest.entry(E1).unwrap().get("Title"), None);
}

/// Moves and deletions that a merge took over are not made again.
#[test]
fn merging_moves_and_deletions_again_changes_nothing() {
    let mut source = sample();
    let mut dest = source.clone();
    let c = GroupId(Uuid(4));
    dest.root_mut().add_group_with_id(c).unwrap();
    dest.group_mut(c).unwrap().add_entry_with_id(E3).unwrap();
    for db in [&mut dest] {
        let mut g = db.group_mut(c).unwrap();
        g.get_mut().times.last_modification = Some(at(100));
        let mut e = db.entry_mut(E3).unwrap();
        e.get_entry_mut().times.last_modification = Some(at(100));
    }
    source.deleted_objects.insert(c.uuid(), Some(at(200)));
    source.deleted_objects.insert(E3.uuid(), Some(at(200)));
    source.entry_mut(E1).unwrap().move_to(B).unwrap();
    source.entry_mut(E1).unwrap().get_entry_mut().times.location_changed = Some(at(300));
    source.group_mut(A).unwrap().move_to(B).unwrap();
    source.group_mut(A).unwrap().get_mut().times.location_changed = Some(at(300));
    edit(&mut source, E1, "moved", 300);
    let log = dest.merge(&source).unwrap();
    assert_eq!(log.events.len(), 5);
    assert!(dest.group(c).is_none());
    assert!(dest.entry(E3).is_none());
    assert_eq!(dest.deleted_objects.get(&E3.uuid()), Some(&Some(at(200))));
    assert_eq!(dest.deleted_objects.get(&c.uuid()), Some(&Some(at(200))));
    assert_eq!(dest.entry(E1).unwrap().parent().id(), B);
    assert_eq!(dest.entry(E1).unwrap().get("Title"), Some("moved"));
    assert_eq!(dest.group(A).unwrap().parent().unwrap().id(), B);
    let once = dest.clone();
    let log = dest.merge(&source).unwrap();
    assert_eq!(log.events.len(), 0);
    assert_eq!(dest, once);
}

/// An entry that the destination lacks comes with its history, its times and its data.
#[test]
fn new_entries_are_copied() {
    let mut source = sample();
    let mut dest = source.clone();
    dest.entry_mut(E1)
        .unwrap()
        .add_attachment("ours", Value::unprotected(vec![9]));
    edit(&mut dest, E1, "ours", 200);
    source.group_mut(B).unwrap().add_entry_with_id(E3).unwrap();
    source
        .entry_mut(E3)
        .unwrap()
        .add_attachment("x", Value::protected(vec![1, 2]));
    let archived = version("old", Some(50));
    let mut e = source.entry_mut(E3).unwrap();
    e.get_entry_mut().history = Some(History {
        entries: vec![archived],
    });
    dest.merge(&source).unwrap();
    let entry = dest.entry(E3).unwrap();
    assert_eq!(entry.parent().id(), B);
    assert_eq!(
        entry.attachment_by_name("x").unwrap().get().data,
        Value::protected(vec![1, 2])
    );
    assert_eq!(entry.historical(0).unwrap().get("Title"), Some("old"));
    assert!(entry
        .get_entry()
        .content_equivalent(&dest, source.entry(E3).unwrap().get_entry(), &source));
    assert_eq!(entry.get_entry().times, source.entry(E3).unwrap().get_entry().times);
    assert_eq!(
        dest.entry(E1).unwrap().attachment_by_name("ours").unwrap().get().data,
        Value::unprotected(vec![9])
    );
}

/// The newest side wins with its data, and both histories are kept.
#[test]
fn the_newest_side_wins() {
    let ancestor = sample();
    let mut source = ancestor.clone();
    let mut dest = ancestor.clone();
    source
        .entry_mut(E1)
        .unwrap()
        .add_attachment("x", Value::unprotected(vec![1]));
    edit(&mut source, E1, "source", 300);
    edit(&mut dest, E1, "dest", 200);
    for (db, title, time) in [(&mut source, "s", 150), (&mut dest, "d", 140)] {
        let mut e = db.entry_mut(E1).unwrap();
        e.get_entry_mut().history = Some(History {
            entries: vec![version(title, Some(time))],
        });
    }
    let untouched = dest.entry(E2).unwrap().get_entry().clone();
    dest.merge_with_ancestor(&source, &ancestor).unwrap();
    let entry = dest.entry(E1).unwrap();
    assert_eq!(entry.get("Title"), Some("source"));
    assert_eq!(
        entry.attachment_by_name("x").unwrap().get().data,
        Value::unprotected(vec![1])
    );
    assert_eq!(
        titles(entry.get_entry().history.as_ref().unwrap()),
        vec!["dest", "s", "d"]
    );
    assert_eq!(*dest.entry(E2).unwrap().get_entry(), untouched);
}

/// Of two moves of a group the later one is made.
#[test]
fn the_later_move_is_made() {
    for (ours, theirs, place) in [(200, 300, B), (300, 200, ROOT)] {
        let mut source = sample();
        let mut dest = sample();
        source.group_mut(A).unwrap().move_to(B).unwrap();
        source.group_mut(A).unwrap().get_mut().times.location_changed = Some(at(theirs));
        dest.group_mut(A).unwrap().get_mut().times.location_changed = Some(at(ours));
        dest.merge(&source).unwrap();
        assert_eq!(dest.group(A).unwrap().parent().unwrap().id(), place);
    }
}

/// An ancestor with an icon, and the identifier of the icon.
fn sample_with_icon() -> (Database, CustomIconId) {
    let mut db = sample();
    let id = db.entry_mut(E1).unwrap().set_icon_custom_new(vec![0]).id;
    db.custom_icon_mut(id).unwrap().get_mut().last_modification_time = Some(at(0));
    (db, id)
}

fn paint(db: &mut Database, id: CustomIconId, data: Vec<u8>) {
    db.custom_icon_mut(id).unwrap().get_mut().data = data;
}

/// An icon that only the other side changed is taken silently, though its time is unchanged.
#[test]
fn icon_changed_in_source_only_at_the_same_time_is_taken() {
    let (ancestor, id) = sample_with_icon();
    let mut dest = ancestor.clone();
    let mut source = ancestor.clone();
    paint(&mut source, id, vec![8]);
    let log = dest.merge_with_ancestor(&source, &ancestor).unwrap();
    assert_eq!(dest.custom_icon(id).unwrap().get().data, vec![8]);
    assert_eq!(log.warnings.len(), 0);
    assert_eq!(log.events.len(), 1);
    assert_eq!(log.events[0].target, MergeEventTarget::Icon(id));
    assert_eq!(log.events[0].event_type, MergeEventType::Updated);
    let once = dest.clone();
    let log = dest.merge_with_ancestor(&source, &ancestor).unwrap();
    assert_eq!((log.warnings.len(), log.events.len()), (0, 0));
    assert_eq!(dest, once);
}

/// An icon that only this side changed is kept silently, though its time is unchanged.
#[test]
fn icon_changed_in_destination_only_at_the_same_time_is_kept() {
    let (ancestor, id) = sample_with_icon();
    let mut dest = ancestor.clone();
    let source = ancestor.clone();
    paint(&mut dest, id, vec![7]);
    let log = dest.merge_with_ancestor(&source, &ancestor).unwrap();
    assert_eq!(dest.custom_icon(id).unwrap().get().data, vec![7]);
    assert_eq!((log.warnings.len(), log.events.len()), (0, 0));
}

/// An icon that both sides changed differently at the same time is a conflict, and so is one of
/// which no ancestor is known.
#[test]
fn icon_changed_in_both_at_the_same_time_is_a_conflict() {
    let (ancestor, id) = sample_with_icon();
    let mut dest = ancestor.clone();
    let mut source = ancestor.clone();
    paint(&mut dest, id, vec![7]);
    paint(&mut source, id, vec![8]);
    let expected = format!(
        "Custom icons with UUID {} have the same modification time but have diverged.",
        id.text()
    );
    let mut two_way = dest.clone();
    let log = dest.merge_with_ancestor(&source, &ancestor).unwrap();
    assert_eq!(dest.custom_icon(id).unwrap().get().data, vec![7]);
    assert_eq!(log.warnings, vec![expected.clone()]);
    assert_eq!(log.events.len(), 0);
    let log = two_way.merge(&source).unwrap();
    assert_eq!(two_way.custom_icon(id).unwrap().get().data, vec![7]);
    assert_eq!(log.warnings, vec![expected]);
}

/// An icon that both sides changed alike is no conflict.
#[test]
fn icon_changed_alike_is_no_conflict() {
    let (ancestor, id) = sample_with_icon();
    let mut dest = ancestor.clone();
    paint(&mut dest, id, vec![7]);
    let source = dest.clone();
    let log = dest.merge_with_ancestor(&source, &ancestor).unwrap();
    assert_eq!(dest, source);
    assert_eq!((log.warnings.len(), log.events.len()), (0, 0));
}

/// Merging without an ancestor is merging with a new database as the ancestor.
#[test]
fn a_new_database_is_no_ancestor() {
    let mut source = sample();
    let mut dest = source.clone();
    edit(&mut source, E1, "source", 300);
    edit(&mut dest, E2, "dest", 300);
    source.group_mut(B).unwrap().add_entry_with_id(E3).unwrap();
    let mut other = dest.clone();
    let log = dest.merge(&source).unwrap();
    let other_log = other.merge_with_ancestor(&source, &Database::new()).unwrap();
    assert_eq!(dest, other);
    assert_eq!(log.warnings, other_log.warnings);
    assert_eq!(log.events.len(), other_log.events.len());

    let mut dest = sample();
    let mut source = sample();
    dest.group_mut(A).unwrap().get_mut().name = "ours".to_string();
    source.group_mut(A).unwrap().get_mut().name = "theirs".to_string();
    let error = dest.merge_with_ancestor(&source, &Database::new()).unwrap_err();
    assert_eq!(error, MergeError::GroupModificationTimeNotUpdated(A));
}

/// The time of a merge does not matter where everything has a time.
#[test]
fn the_time_of_a_merge_does_not_matter() {
    let mut source = sample();
    edit(&mut source, E1, "source", 300);
    let mut early = sample();
    let mut late = sample();
    early.merge_at(&source, at(200)).unwrap();
    late.merge_at(&source, at(400)).unwrap();
    assert_eq!(early, late);
}

/// Databases that do not share their root group cannot be merged.
#[test]
fn databases_need_a_shared_root() {
    let db = sample();
    assert!(db.can_merge(&sample()));
    assert!(!db.can_merge(&Database::new()));
    let other = Database::new();
    let mut tombstoned = sample();
    tombstoned
        .deleted_objects
        .insert(other.root.uuid(), Some(at(i64::from(u32::MAX))));
    assert!(tombstoned.can_merge(&other));
}
