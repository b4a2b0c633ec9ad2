//! Merging two versions of a database, with and without a common ancestor.

use keepass::database::Database;
use keepass::entry::History;
use keepass::fields;
use keepass::handles::entry::EntryTrack;
use keepass::ids::AttachmentId;
use keepass::ids::CustomIconId;
use keepass::ids::EntryId;
use keepass::ids::GroupId;
use keepass::ids::Uuid;
use keepass::merge::log::MergeError;
use keepass::times::Times;
use keepass::times::Timestamp;
use keepass::value::Value;

const ROOT_GROUP_ID: GroupId = GroupId(Uuid(1));
const GROUP1_ID: GroupId = GroupId(Uuid(2));
const GROUP2_ID: GroupId = GroupId(Uuid(3));
const SUBGROUP1_ID: GroupId = GroupId(Uuid(4));
const SUBGROUP2_ID: GroupId = GroupId(Uuid(5));
const ENTRY1_ID: EntryId = EntryId(Uuid(6));
const ENTRY2_ID: EntryId = EntryId(Uuid(7));

/// Build up an example database for testing
///
/// The database structure is as follows:
///
/// root (ROOT_GROUP_ID)
/// ├── entry1 (ENTRY1_ID)
/// ├── group1 (GROUP1_ID)
/// │   └── subgroup1 (SUBGROUP1_ID)
/// │       └── entry2 (ENTRY2_ID)
/// └── group2 (GROUP2_ID)
///    └── subgroup2 (SUBGROUP2_ID)
///
fn create_test_database() -> Database {
    let mut db = Database::new_with_root_id(ROOT_GROUP_ID);

    // build up root -> group1 -> subgroup1 -> entry2
    db.root_mut()
        .add_group_with_id(GROUP1_ID)
        .unwrap()
        .edit(|g| g.get_mut().name = "group1".to_string())
        .add_group_with_id(SUBGROUP1_ID)
        .unwrap()
        .edit(|sg| sg.get_mut().name = "subgroup1".to_string())
        .add_entry_with_id(ENTRY2_ID)
        .unwrap()
        .edit(|e| e.set_unprotected("Title", "entry2"));

    // build up root -> group2 -> subgroup2
    db.root_mut()
        .add_group_with_id(GROUP2_ID)
        .unwrap()
        .edit(|g| g.get_mut().name = "group2".to_string())
        .add_group_with_id(SUBGROUP2_ID)
        .unwrap()
        .edit(|sg| sg.get_mut().name = "subgroup2".to_string());

    // Placing the first entry in the root group
    db.root_mut()
        .add_entry_with_id(ENTRY1_ID)
        .unwrap()
        .edit(|e| e.set_unprotected("Title", "entry1"));

    db
}

/// Wait for the next second, to ensure different timestamps
fn sleep() {
    let start = Times::now();
    while Times::now() == start {}
}

/// Changes an entry and puts what it was before into its history.
fn with_history<R>(db: &mut Database, id: EntryId, f: impl FnOnce(&mut EntryTrack<'_>) -> R) -> R {
    let mut entry = db.entry_mut(id).unwrap();
    let mut track = entry.track_changes();
    let result = f(&mut track);
    track.finish();
    result
}

fn assert_history_ordered(history: &History) {
    let mut last_modification_time: Option<Timestamp> = None;
    for entry in &history.entries {
        if last_modification_time.is_none() {
            last_modification_time = entry.times.last_modification;
        }

        if let Some(entry_modification_time) = entry.times.last_modification {
            if last_modification_time.unwrap().is_before(&entry_modification_time) {
                panic!(
                    "History entries are not ordered by last modification time: {:?} came after {:?}",
                    last_modification_time, entry_modification_time
                );
            }
            last_modification_time = Some(entry_modification_time);
        }
    }
}

/// Test that merging a database with itself results in no changes.
#[test]
fn test_idempotence() {
    let mut destination_db = create_test_database();
    let source_db = destination_db.clone();

    let entry_count_before = destination_db.entries.len();
    let group_count_before = destination_db.groups.len();

    let merge_result = destination_db.merge(&source_db).unwrap();
    assert_eq!(merge_result.warnings.len(), 0);
    assert_eq!(merge_result.events.len(), 0);
    assert_eq!(destination_db.root().entries().len(), 1);
    assert_eq!(destination_db.root().groups().len(), 2);

    assert_eq!(destination_db.entries.len(), entry_count_before);
    assert_eq!(destination_db.groups.len(), group_count_before);

    // The two groups should be exactly the same after merging, since
    // nothing was performed during the merge.
    assert_eq!(destination_db, source_db);

    sleep();

    // Now modify an entry in the destination database, and merge again.
    destination_db
        .entry_mut(ENTRY1_ID)
        .unwrap()
        .edit_tracking(|e| e.set_unprotected("Title", "entry1_updated"));

    // Merging should ignore the change, since destination is more recent.
    let merge_result = destination_db.merge(&source_db).unwrap();
    assert_eq!(merge_result.warnings.len(), 0);
    assert_eq!(merge_result.events.len(), 0);
    let destination_db_just_after_merge = destination_db.clone();

    let merge_result = destination_db.merge(&source_db).unwrap();
    assert_eq!(merge_result.warnings.len(), 0);
    assert_eq!(merge_result.events.len(), 0);

    // Merging twice in a row, even if the first merge updated the destination group,
    // should not create more changes.
    assert_eq!(destination_db_just_after_merge, destination_db);
}

/// Test that a new entry in source is added to destination when merging.
#[test]
fn test_add_new_entry() {
    let mut destination_db = create_test_database();
    let mut source_db = destination_db.clone();

    let entry_count_before = destination_db.entries.len();
    let group_count_before = destination_db.groups.len();

    // create a new entry in source_db and retain its id
    let new_entry_id = source_db
        .root_mut()
        .add_entry()
        .edit_tracking(|e| e.set_unprotected("Title", "new_entry"))
        .id();

    // merge source_db into destination_db -- this should add the new entry
    let merge_result = destination_db.merge(&source_db).unwrap();
    assert_eq!(merge_result.warnings.len(), 0);
    assert_eq!(merge_result.events.len(), 1);

    let entry_count_after = destination_db.entries.len();
    let group_count_after = destination_db.groups.len();
    assert_eq!(entry_count_after, entry_count_before + 1);
    assert_eq!(group_count_after, group_count_before);

    let root_entries_count = destination_db.root().entries().len();
    assert_eq!(root_entries_count, 2);

    let new_entry = destination_db
        .entry(new_entry_id)
        .expect("New entry should exist");
    assert_eq!(new_entry.get(fields::TITLE), Some("new_entry"));

    // Merging the same group again should not create a duplicate entry.
    let merge_result = destination_db.merge(&source_db).unwrap();
    assert_eq!(merge_result.warnings.len(), 0);
    assert_eq!(merge_result.events.len(), 0);

    let entry_count_after = destination_db.entries.len();
    let group_count_after = destination_db.groups.len();
    assert_eq!(entry_count_after, entry_count_before + 1);
    assert_eq!(group_count_after, group_count_before);

    let root_entries_count = destination_db.root().entries().len();
    assert_eq!(root_entries_count, 2);
}

/// Test that an entry that is marked as deleted in the destination database is not re-added
/// when merging from source
#[test]
fn test_deleted_entry_in_destination() {
    let mut destination_db = create_test_database();
    let mut source_db = destination_db.clone();

    let entry_count_before = destination_db.entries.len();
    let group_count_before = destination_db.groups.len();

    // add a new entry in source_db that will be marked as deleted in destination_db
    let deleted_entry_id = source_db
        .root_mut()
        .add_entry()
        .edit_tracking(|e| {
            e.set_unprotected("Title", "deleted_entry");
        })
        .id();

    // mark the entry as deleted in destination_db
    destination_db
        .deleted_objects
        .insert(deleted_entry_id.uuid(), Some(Times::now()));

    // merge source_db into destination_db -- the entry should not be added
    let merge_result = destination_db.merge(&source_db).unwrap();
    assert_eq!(merge_result.warnings.len(), 0);
    assert_eq!(merge_result.events.len(), 0);

    let entry_count_after = destination_db.entries.len();
    let group_count_after = destination_db.groups.len();
    assert_eq!(entry_count_after, entry_count_before);
    assert_eq!(group_count_after, group_count_before);

    assert!(destination_db.entry(deleted_entry_id).is_none());
}

/// Test that an entry that is updated and moved to a group in source but that group is deleted
/// later in dest should cause the group to be re-added and the entry to be moved there.
#[test]
fn test_updated_entry_under_deleted_group() {
    let mut destination_db = create_test_database();

    let modified_entry_id = destination_db
        .root_mut()
        .add_entry()
        .edit(|e| e.set_unprotected("Title", "original_title"))
        .id();

    let deleted_group_id = destination_db
        .root_mut()
        .add_group()
        .edit(|g| g.get_mut().name = "deleted_group".to_string())
        .id();

    let mut source_db = destination_db.clone();

    sleep();

    // perform the update of the entry in source_db and move it to the group that will be
    // deleted
    with_history(&mut source_db, modified_entry_id, |t| {
        t.edit(|e| {
            e.set_unprotected("Title", "modified_title");
        })
        .move_to(deleted_group_id)
    })
    .unwrap();

    sleep();

    // delete the group in destination_db
    destination_db.group_mut(deleted_group_id).unwrap().remove();

    let entry_count_before = destination_db.entries.len();
    let group_count_before = destination_db.groups.len();

    // perform the merge - the group should be re-added and the entry moved there
    let merge_result = destination_db.merge(&source_db).unwrap();
    assert_eq!(merge_result.warnings.len(), 0);
    assert_eq!(merge_result.events.len(), 3); // recreate group, move entry, update entry

    let entry_count_after = destination_db.entries.len();
    let group_count_after = destination_db.groups.len();
    assert_eq!(entry_count_after, entry_count_before);
    assert_eq!(group_count_after, group_count_before + 1);

    assert!(destination_db.group(deleted_group_id).is_some());
    assert!(destination_db.entry(modified_entry_id).is_some());
}

/// Test that a group that is marked as deleted in the destination database is not re-added
/// when merging from source
#[test]
fn test_deleted_group_in_destination() {
    let mut destination_db = create_test_database();
    let mut source_db = destination_db.clone();

    let entry_count_before = destination_db.entries.len();
    let group_count_before = destination_db.groups.len();

    // add a new group in source_db
    let deleted_group_id = source_db
        .root_mut()
        .add_group()
        .edit(|g| g.get_mut().name = "deleted_group".to_string())
        .id();

    // mark the group as deleted in destination_db
    destination_db
        .deleted_objects
        .insert(deleted_group_id.uuid(), Some(Times::now()));

    let merge_result = destination_db.merge(&source_db).unwrap();
    assert_eq!(merge_result.warnings.len(), 0);
    assert_eq!(merge_result.events.len(), 0);

    let entry_count_after = destination_db.entries.len();
    let group_count_after = destination_db.groups.len();
    assert_eq!(entry_count_after, entry_count_before);
    assert_eq!(group_count_after, group_count_before);

    assert!(destination_db.group(deleted_group_id).is_none());
}

/// Test that an entry that is marked as deleted in the source database is deleted from destination
#[test]
fn test_deleted_entry_in_source() {
    let mut destination_db = create_test_database();

    let deleted_entry_id = destination_db
        .root_mut()
        .add_entry()
        .edit_tracking(|e| e.set_unprotected("Title", "deleted_entry"))
        .id();

    let mut source_db = destination_db.clone();

    let entry_count_before = destination_db.entries.len();
    let group_count_before = destination_db.groups.len();

    // mark the entry as deleted in source_db
    source_db
        .entry_mut(deleted_entry_id)
        .unwrap()
        .track_changes()
        .remove();

    // perform the merge - the entry should be deleted
    let merge_result = destination_db.merge(&source_db).unwrap();
    assert_eq!(merge_result.warnings.len(), 0);
    assert_eq!(merge_result.events.len(), 1);

    // verify that the entry was deleted
    let entry_count_after = destination_db.entries.len();
    let group_count_after = destination_db.groups.len();
    assert_eq!(entry_count_after, entry_count_before - 1);
    assert_eq!(group_count_after, group_count_before);

    assert!(destination_db.entry(deleted_entry_id).is_none());
    assert!(destination_db
        .deleted_objects
        .contains_key(&deleted_entry_id.uuid()));
}

/// Test that a group that is marked as deleted in the source database is deleted from destination
#[test]
fn test_deleted_group_in_source() {
    let mut destination_db = create_test_database();

    let deleted_group_id = destination_db
        .root_mut()
        .add_group()
        .edit(|g| g.get_mut().name = "deleted_group".to_string())
        .id();

    let mut source_db = destination_db.clone();

    let entry_count_before = destination_db.entries.len();
    let group_count_before = destination_db.groups.len();

    // mark the entry as deleted in source_db
    source_db
        .group_mut(deleted_group_id)
        .unwrap()
        .track_changes()
        .remove()
        .unwrap();

    // perform the merge - the entry should be deleted
    let merge_result = destination_db.merge(&source_db).unwrap();
    assert_eq!(merge_result.warnings.len(), 0);
    assert_eq!(merge_result.events.len(), 1);

    // verify that the entry was deleted
    let entry_count_after = destination_db.entries.len();
    let group_count_after = destination_db.groups.len();
    assert_eq!(entry_count_after, entry_count_before);
    assert_eq!(group_count_after, group_count_before - 1);

    assert!(destination_db.group(deleted_group_id).is_none());
    assert!(destination_db
        .deleted_objects
        .contains_key(&deleted_group_id.uuid()));
}

/// Test that an entry that is marked as deleted in the source database but modified in
/// destination is not deleted
#[test]
fn test_deleted_entry_in_source_modified_in_destination() {
    let mut destination_db = create_test_database();

    let deleted_entry_id = destination_db
        .root_mut()
        .add_entry()
        .edit_tracking(|e| e.set_unprotected("Title", "deleted_entry"))
        .id();

    let entry_count_before = destination_db.entries.len();
    let group_count_before = destination_db.groups.len();

    let mut source_db = destination_db.clone();

    // mark the entry as deleted in source_db
    source_db
        .entry_mut(deleted_entry_id)
        .unwrap()
        .track_changes()
        .remove();

    sleep();

    // modify the entry in destination_db
    destination_db
        .entry_mut(deleted_entry_id)
        .unwrap()
        .edit_tracking(|e| e.set_unprotected("Title", "modified_in_destination"));

    let merge_result = destination_db.merge(&source_db).unwrap();
    assert_eq!(merge_result.warnings.len(), 0);
    assert_eq!(merge_result.events.len(), 0);

    let entry_count_after = destination_db.entries.len();
    let group_count_after = destination_db.groups.len();
    assert_eq!(entry_count_after, entry_count_before);
    assert_eq!(group_count_after, group_count_before);

    assert!(destination_db.entry(deleted_entry_id).is_some());
    assert!(!destination_db
        .deleted_objects
        .contains_key(&deleted_entry_id.uuid()));
}

/// Test that a group subtree that is marked as deleted in the source database is deleted from
/// destination
#[test]
fn test_group_subtree_deletion() {
    let mut destination_db = create_test_database();

    let deleted_group_id = destination_db
        .root_mut()
        .add_group()
        .edit(|g| {
            g.get_mut().name = "deleted_group".to_string();
        })
        .id();

    let deleted_subgroup_id = destination_db
        .group_mut(deleted_group_id)
        .unwrap()
        .add_group()
        .edit(|g| {
            g.get_mut().name = "deleted_subgroup".to_string();
        })
        .id();

    let deleted_entry_id = destination_db
        .group_mut(deleted_subgroup_id)
        .unwrap()
        .add_entry()
        .edit_tracking(|e| {
            e.set_unprotected("Title", "deleted_entry");
        })
        .id();

    let mut source_db = destination_db.clone();

    // mark the entire group subtree as deleted in source_db
    source_db
        .root_mut()
        .group_mut(deleted_group_id)
        .unwrap()
        .track_changes()
        .remove()
        .unwrap();

    let entry_count_before = destination_db.entries.len();
    let group_count_before = destination_db.groups.len();

    // perform the merge - the entire subtree should be deleted
    let merge_result = destination_db.merge(&source_db).unwrap();
    assert_eq!(merge_result.warnings.len(), 0);
    assert_eq!(merge_result.events.len(), 3);

    let entry_count_after = destination_db.entries.len();
    let group_count_after = destination_db.groups.len();
    assert_eq!(entry_count_after, entry_count_before - 1);
    assert_eq!(group_count_after, group_count_before - 2);

    assert!(destination_db.entry(deleted_entry_id).is_none());
    assert!(destination_db.group(deleted_subgroup_id).is_none());
    assert!(destination_db.group(deleted_group_id).is_none());

    assert!(destination_db
        .deleted_objects
        .contains_key(&deleted_entry_id.uuid()));
    assert!(destination_db
        .deleted_objects
        .contains_key(&deleted_subgroup_id.uuid()));
    assert!(destination_db
        .deleted_objects
        .contains_key(&deleted_group_id.uuid()));
}

/// Test that a tree that was deleted in source, but contains a group that is newer in
/// destination is only partially deleted.
#[test]
fn test_group_subtree_partial_deletion() {
    let mut destination_db = create_test_database();

    let deleted_group_id = destination_db
        .root_mut()
        .add_group()
        .edit(|g| {
            g.get_mut().name = "deleted_group".to_string();
        })
        .id();

    let deleted_subgroup_id = destination_db
        .group_mut(deleted_group_id)
        .unwrap()
        .add_group()
        .edit(|g| {
            g.get_mut().name = "deleted_subgroup".to_string();
        })
        .id();

    let deleted_entry_id = destination_db
        .group_mut(deleted_subgroup_id)
        .unwrap()
        .add_entry()
        .edit(|e| {
            e.set_unprotected("Title", "deleted_entry");
        })
        .id();

    let mut source_db = destination_db.clone();

    sleep();

    // mark the entire group subtree as deleted in source_db
    source_db
        .group_mut(deleted_group_id)
        .unwrap()
        .track_changes()
        .remove()
        .unwrap();

    sleep();

    // modify the deleted subgroup in destination_db to be newer than the deletion time
    destination_db
        .group_mut(deleted_group_id)
        .unwrap()
        .track_changes()
        .edit(|g| {
            g.get_mut().notes = Some("modified in destination".to_string());
        });

    let entry_count_before = destination_db.entries.len();
    let group_count_before = destination_db.groups.len();

    // perform the merge - the entry and subgroup should be deleted, but the group should
    // remain
    let merge_result = destination_db.merge(&source_db).unwrap();
    assert_eq!(merge_result.warnings.len(), 0);
    assert_eq!(merge_result.events.len(), 2);

    let entry_count_after = destination_db.entries.len();
    let group_count_after = destination_db.groups.len();
    assert_eq!(entry_count_after, entry_count_before - 1);
    assert_eq!(group_count_after, group_count_before - 1);

    assert!(destination_db.entry(deleted_entry_id).is_none());
    assert!(destination_db.group(deleted_subgroup_id).is_none());
    assert!(destination_db.group(deleted_group_id).is_some());

    assert!(destination_db
        .deleted_objects
        .contains_key(&deleted_entry_id.uuid()));
    assert!(destination_db
        .deleted_objects
        .contains_key(&deleted_subgroup_id.uuid()));
    assert!(!destination_db
        .deleted_objects
        .contains_key(&deleted_group_id.uuid()));
}

/// Test that a group that is marked as deleted in the source database but modified in
/// destination is not deleted
#[test]
fn test_deleted_group_in_source_modified_in_destination() {
    let mut destination_db = create_test_database();

    let deleted_group_id = destination_db
        .root_mut()
        .add_group()
        .edit(|g| g.get_mut().name = "deleted_group".to_string())
        .id();

    let mut source_db = destination_db.clone();

    // mark the group as deleted in source_db
    source_db
        .group_mut(deleted_group_id)
        .unwrap()
        .track_changes()
        .remove()
        .unwrap();

    sleep();

    // modify the group in destination_db
    destination_db
        .group_mut(deleted_group_id)
        .unwrap()
        .track_changes()
        .edit(|g| g.get_mut().notes = Some("modified_in_destination".to_string()));

    let entry_count_before = destination_db.entries.len();
    let group_count_before = destination_db.groups.len();

    // perform the merge - the group should not be deleted
    let merge_result = destination_db.merge(&source_db).unwrap();
    assert_eq!(merge_result.warnings.len(), 0);
    assert_eq!(merge_result.events.len(), 0);

    let entry_count_after = destination_db.entries.len();
    let group_count_after = destination_db.groups.len();
    assert_eq!(entry_count_after, entry_count_before);
    assert_eq!(group_count_after, group_count_before);

    assert!(destination_db.group(deleted_group_id).is_some());

    assert!(!destination_db
        .deleted_objects
        .contains_key(&deleted_group_id.uuid()));
}

/// Test that a group that is marked as deleted in the source database but has new entries
/// added in destination is not deleted
#[test]
fn test_deleted_group_has_new_entries() {
    let mut destination_db = create_test_database();

    let deleted_group_id = destination_db
        .root_mut()
        .add_group()
        .edit(|g| g.get_mut().name = "deleted_group".to_string())
        .id();

    let mut source_db = destination_db.clone();

    // mark the group as deleted in source_db
    source_db
        .group_mut(deleted_group_id)
        .unwrap()
        .track_changes()
        .remove()
        .unwrap();

    sleep();

    // add a new entry to the deleted group in destination_db
    let new_entry_id = destination_db
        .group_mut(deleted_group_id)
        .unwrap()
        .add_entry()
        .edit_tracking(|e| {
            e.set_unprotected("Title", "new_entry_in_deleted_group");
        })
        .id();

    let entry_count_before = destination_db.entries.len();
    let group_count_before = destination_db.groups.len();

    // perform the merge - the group should not be deleted
    let merge_result = destination_db.merge(&source_db).unwrap();
    assert_eq!(merge_result.warnings.len(), 0);
    assert_eq!(merge_result.events.len(), 0);

    let entry_count_after = destination_db.entries.len();
    let group_count_after = destination_db.groups.len();
    assert_eq!(entry_count_after, entry_count_before);
    assert_eq!(group_count_after, group_count_before);

    assert!(destination_db.group(deleted_group_id).is_some());
    assert!(destination_db.entry(new_entry_id).is_some());

    assert!(!destination_db
        .deleted_objects
        .contains_key(&deleted_group_id.uuid()));
    assert!(!destination_db.deleted_objects.contains_key(&new_entry_id.uuid()));
}

/// Test that a new entry in a non-root group in source is added to destination when merging.
#[test]
fn test_add_new_non_root_entry() {
    let mut destination_db = create_test_database();
    let mut source_db = destination_db.clone();

    let entry_count_before = destination_db.entries.len();
    let group_count_before = destination_db.groups.len();

    let new_entry_id = source_db
        .group_mut(GROUP1_ID)
        .unwrap()
        .add_entry()
        .edit_tracking(|e| {
            e.set_unprotected("Title", "new_entry");
        })
        .id();

    // perform the merge - this should add the new entry
    let merge_result = destination_db.merge(&source_db).unwrap();
    assert_eq!(merge_result.warnings.len(), 0);
    assert_eq!(merge_result.events.len(), 1);

    let entry_count_after = destination_db.entries.len();
    let group_count_after = destination_db.groups.len();
    assert_eq!(entry_count_after, entry_count_before + 1);
    assert_eq!(group_count_after, group_count_before);

    assert!(destination_db.entry(new_entry_id).is_some());
}

// Test that a new entry in source under a new group/subgroup is added to destination when
// merging.
#[test]
fn test_add_new_entry_new_group() {
    let mut destination_db = create_test_database();
    let mut source_db = destination_db.clone();

    let entry_count_before = destination_db.entries.len();
    let group_count_before = destination_db.groups.len();

    let new_group_id = source_db
        .root_mut()
        .add_group()
        .edit(|g| g.get_mut().name = "new_group".to_string())
        .id();

    let new_subgroup_id = source_db
        .group_mut(new_group_id)
        .unwrap()
        .add_group()
        .edit(|g| g.get_mut().name = "new_subgroup".to_string())
        .id();

    let new_entry_id = source_db
        .group_mut(new_subgroup_id)
        .unwrap()
        .add_entry()
        .edit_tracking(|e| {
            e.set_unprotected("Title", "new_entry");
        })
        .id();

    // perform the merge - this should add the new entry along with the new group and subgroup
    let merge_result = destination_db.merge(&source_db).unwrap();
    assert_eq!(merge_result.warnings.len(), 0);
    assert_eq!(merge_result.events.len(), 3);

    let entry_count_after = destination_db.entries.len();
    let group_count_after = destination_db.groups.len();
    assert_eq!(entry_count_after, entry_count_before + 1);
    assert_eq!(group_count_after, group_count_before + 2);

    assert!(destination_db.group(new_group_id).is_some());
    assert!(destination_db.group(new_subgroup_id).is_some());
    assert!(destination_db.entry(new_entry_id).is_some());
}

/// Test that an entry is relocated from one group to another in source and the relocation
/// is reflected in destination when merging.
#[test]
fn test_entry_relocation_existing_group() {
    let mut destination_db = create_test_database();
    let mut source_db = destination_db.clone();

    let entry_count_before = destination_db.entries.len();
    let group_count_before = destination_db.groups.len();

    sleep();

    // before
    // root (ROOT_GROUP_ID)
    // ├── entry1 (ENTRY1_ID)
    // ├── group1 (GROUP1_ID)
    // │   └── subgroup1 (SUBGROUP1_ID)
    // │       └── entry2 (ENTRY2_ID)   <-- this entry
    // └── group2 (GROUP2_ID)
    //    └── subgroup2 (SUBGROUP2_ID)
    //
    // after
    // root (ROOT_GROUP_ID)
    // ├── entry1 (ENTRY1_ID)
    // ├── group1 (GROUP1_ID)
    // │   └── subgroup1 (SUBGROUP1_ID)
    // └── group2 (GROUP2_ID)
    //     ├── entry2 (ENTRY2_ID)   <-- moved here
    //     └── subgroup2 (SUBGROUP2_ID)
    //
    with_history(&mut source_db, ENTRY2_ID, |t| t.move_to(GROUP2_ID)).expect("move successful");

    let location_changed_timestamp = source_db
        .entry(ENTRY2_ID)
        .unwrap()
        .get_entry()
        .times
        .location_changed
        .unwrap();

    // perform the merge - this should relocate the entry in destination_db
    let merge_result = destination_db.merge(&source_db).unwrap();
    assert_eq!(merge_result.warnings.len(), 0);
    assert_eq!(merge_result.events.len(), 1);

    let entry_count_after = destination_db.entries.len();
    let group_count_after = destination_db.groups.len();
    assert_eq!(group_count_after, group_count_before);
    assert_eq!(entry_count_after, entry_count_before);

    assert!(destination_db.entry(ENTRY2_ID).is_some());

    let entry = destination_db.entry(ENTRY2_ID).unwrap();
    assert_eq!(entry.parent().id(), GROUP2_ID);
    assert_eq!(entry.get_entry().times.location_changed, Some(location_changed_timestamp));
}

/// Test that an entry is relocated in source and modified in both source and destination
/// and the correct content is kept after merging.
#[test]
fn test_entry_relocation_and_update() {
    let mut destination_db = create_test_database();
    let mut source_db = destination_db.clone();

    let entry_count_before = destination_db.entries.len();
    let group_count_before = destination_db.groups.len();

    sleep();

    // perform first edit of entry in source
    source_db.entry_mut(ENTRY2_ID).unwrap().edit_tracking(|e| {
        e.set_unprotected("Title", "entry2_modified_in_source");
    });

    // relocate entry in source
    with_history(&mut source_db, ENTRY2_ID, |t| t.move_to(GROUP2_ID)).expect("move successful");

    let location_changed_timestamp = source_db
        .entry(ENTRY2_ID)
        .unwrap()
        .get_entry()
        .times
        .location_changed
        .unwrap();

    sleep();

    // perform second edit of entry in destination
    destination_db.entry_mut(ENTRY2_ID).unwrap().edit_tracking(|e| {
        e.set_unprotected("Title", "entry2_modified_in_destination");
    });

    let entry_modified_timestamp = destination_db
        .entry(ENTRY2_ID)
        .unwrap()
        .get_entry()
        .times
        .last_modification
        .unwrap();

    // perform the merge - this should relocate the entry in destination_db and keep the
    // content from destination_db since it was modified later
    let merge_result = destination_db.merge(&source_db).unwrap();
    assert_eq!(merge_result.warnings.len(), 0);
    assert_eq!(merge_result.events.len(), 1);

    let entry_count_after = destination_db.entries.len();
    let group_count_after = destination_db.groups.len();
    assert_eq!(group_count_after, group_count_before);
    assert_eq!(entry_count_after, entry_count_before);

    // check that move occurred
    assert!(destination_db.entry(ENTRY2_ID).is_some());
    let entry = destination_db.entry(ENTRY2_ID).unwrap();
    assert_eq!(entry.parent().id(), GROUP2_ID);
    assert_eq!(entry.get_entry().times.location_changed, Some(location_changed_timestamp));

    // check that content from destination is kept
    assert_eq!(entry.get(fields::TITLE), Some("entry2_modified_in_destination"));
    assert_eq!(entry.get_entry().times.last_modification, Some(entry_modified_timestamp));
}

/// Test that if an entry is moved in source and modified in destination, the entry stays
/// in the new location and gets the modifications.
#[test]
fn test_entry_relocation_in_destination_and_update() {
    let mut destination_db = create_test_database();
    let mut source_db = destination_db.clone();

    let entry_count_before = destination_db.entries.len();
    let group_count_before = destination_db.groups.len();

    sleep();

    // edit entry in source
    source_db.entry_mut(ENTRY2_ID).unwrap().edit_tracking(|e| {
        e.set_unprotected(fields::TITLE, "entry2_modified_in_source");
    });

    let entry_modified_timestamp = source_db
        .entry(ENTRY2_ID)
        .unwrap()
        .get_entry()
        .times
        .last_modification
        .unwrap();

    // relocate entry in destination
    with_history(&mut destination_db, ENTRY2_ID, |t| t.move_to(GROUP2_ID)).expect("move successful");

    let location_changed_timestamp = destination_db
        .entry(ENTRY2_ID)
        .unwrap()
        .get_entry()
        .times
        .location_changed
        .unwrap();

    // perform the merge - this should keep the location from destination and the content from
    // source
    let merge_result = destination_db.merge(&source_db).unwrap();
    assert_eq!(merge_result.warnings.len(), 0);
    assert_eq!(merge_result.events.len(), 1);

    let entry_count_after = destination_db.entries.len();
    let group_count_after = destination_db.groups.len();
    assert_eq!(group_count_after, group_count_before);
    assert_eq!(entry_count_after, entry_count_before);

    // check that move occurred
    assert!(destination_db.entry(ENTRY2_ID).is_some());

    let entry = destination_db.entry(ENTRY2_ID).unwrap();
    assert_eq!(entry.parent().id(), GROUP2_ID);
    assert_eq!(entry.get_entry().times.location_changed, Some(location_changed_timestamp));

    // check that content from source is kept
    assert_eq!(entry.get(fields::TITLE), Some("entry2_modified_in_source"));
    assert_eq!(entry.get_entry().times.last_modification, Some(entry_modified_timestamp));
}

/// Test that an entry can be relocated into a newly created group
#[test]
fn test_entry_relocation_new_group() {
    let mut destination_db = create_test_database();

    let new_entry_id = destination_db
        .root_mut()
        .add_entry()
        .edit(|e| {
            e.set_unprotected("Title", "new_entry");
        })
        .id();

    let entry_count_before = destination_db.entries.len();
    let group_count_before = destination_db.groups.len();

    let mut source_db = destination_db.clone();

    let new_group_id = source_db
        .root_mut()
        .add_group()
        .edit(|g| g.get_mut().name = "new_group".to_string())
        .id();

    sleep();

    // modify the entry in source
    source_db.entry_mut(new_entry_id).unwrap().edit_tracking(|e| {
        e.set_unprotected("Title", "new_entry_modified_in_source");
    });

    // relocate the entry to the new group in source
    with_history(&mut source_db, new_entry_id, |t| t.move_to(new_group_id)).expect("move successful");

    // perform the merge - this should create the new group and update and relocate the entry there
    let merge_result = destination_db.merge(&source_db).unwrap();
    assert_eq!(merge_result.warnings.len(), 0);
    assert_eq!(merge_result.events.len(), 3);

    let entry_count_after = destination_db.entries.len();
    let group_count_after = destination_db.groups.len();
    assert_eq!(entry_count_after, entry_count_before);
    assert_eq!(group_count_after, group_count_before + 1);

    assert!(destination_db.entry(new_entry_id).is_some());
    let entry = destination_db.entry(new_entry_id).unwrap();
    assert_eq!(entry.parent().id(), new_group_id);
    assert_eq!(entry.get(fields::TITLE), Some("new_entry_modified_in_source"));
}

/// Test that a group relocation in source is reflected in destination when merging.
#[test]
fn test_group_relocation() {
    let mut destination_db = create_test_database();
    let mut source_db = destination_db.clone();

    let entry_count_before = destination_db.entries.len();
    let group_count_before = destination_db.groups.len();

    sleep();

    // before
    // root (ROOT_GROUP_ID)
    // ├── entry1 (ENTRY1_ID)
    // ├── group1 (GROUP1_ID)
    // │   └── subgroup1 (SUBGROUP1_ID) <-- this group
    // │       └── entry2 (ENTRY2_ID)
    // └── group2 (GROUP2_ID)
    //    └── subgroup2 (SUBGROUP2_ID)
    //
    // after
    // root (ROOT_GROUP_ID)
    // ├── entry1 (ENTRY1_ID)
    // ├── group1 (GROUP1_ID)
    // └── group2 (GROUP2_ID)
    //    └── subgroup2 (SUBGROUP2_ID)
    //        └── subgroup1 (SUBGROUP1_ID) <-- moved here
    //            └── entry2 (ENTRY2_ID)

    source_db
        .group_mut(SUBGROUP1_ID)
        .unwrap()
        .track_changes()
        .move_to(GROUP2_ID)
        .expect("move successful");

    let location_changed_timestamp = source_db
        .group(SUBGROUP1_ID)
        .unwrap()
        .get()
        .times
        .location_changed
        .unwrap();

    // perform the merge - this should relocate the group in destination_db
    let merge_result = destination_db.merge(&source_db).unwrap();
    assert_eq!(merge_result.warnings.len(), 0);
    assert_eq!(merge_result.events.len(), 1);

    let entry_count_after = destination_db.entries.len();
    let group_count_after = destination_db.groups.len();
    assert_eq!(entry_count_after, entry_count_before);
    assert_eq!(group_count_after, group_count_before);

    assert!(destination_db.group(SUBGROUP1_ID).is_some());
    assert!(destination_db.entry(ENTRY2_ID).is_some());

    let group = destination_db.group(SUBGROUP1_ID).unwrap();
    assert_eq!(group.parent().unwrap().id(), GROUP2_ID);
    assert_eq!(group.get().times.location_changed, Some(location_changed_timestamp));
}

/// Test that an entry updated in destination is not touched when merging.
#[test]
fn test_update_in_destination_no_conflict() {
    let mut destination_db = create_test_database();
    let source_db = destination_db.clone();

    let entry_count_before = destination_db.entries.len();
    let group_count_before = destination_db.groups.len();

    sleep();

    // update entry in destination
    destination_db.entry_mut(ENTRY1_ID).unwrap().edit_tracking(|e| {
        e.set_unprotected("Title", "entry1_updated");
    });

    // perform the merge - this should not change anything since source is older
    let merge_result = destination_db.merge(&source_db).unwrap();
    assert_eq!(merge_result.warnings.len(), 0);
    assert_eq!(merge_result.events.len(), 0);

    // check that history is preserved
    let merged_history = destination_db.entry(ENTRY1_ID).unwrap().get_entry().history.clone().unwrap();
    assert_history_ordered(&merged_history);
    assert_eq!(merged_history.entries.len(), 1);

    // check that we can find the old version of the entry
    let merged_entry = &merged_history.entries[0];
    assert_eq!(merged_entry.get(fields::TITLE), Some("entry1"));

    let entry_count_after = destination_db.entries.len();
    let group_count_after = destination_db.groups.len();
    assert_eq!(entry_count_after, entry_count_before);
    assert_eq!(group_count_after, group_count_before);

    assert_eq!(
        destination_db.entry(ENTRY1_ID).unwrap().get(fields::TITLE),
        Some("entry1_updated")
    );
}

/// Test that an entry updated in source is merged into destination when merging.
#[test]
fn test_update_in_source_no_conflict() {
    let mut destination_db = create_test_database();
    let mut source_db = destination_db.clone();

    let entry_count_before = destination_db.entries.len();
    let group_count_before = destination_db.groups.len();

    sleep();

    // update entry in source
    source_db.entry_mut(ENTRY1_ID).unwrap().edit_tracking(|e| {
        e.set_unprotected("Title", "entry1_updated");
    });

    // perform the merge - this should update the entry in destination_db
    let merge_result = destination_db.merge(&source_db).unwrap();
    assert_eq!(merge_result.warnings.len(), 0);
    assert_eq!(merge_result.events.len(), 1);

    // check that history is preserved
    let merged_history = destination_db.entry(ENTRY1_ID).unwrap().get_entry().history.clone().unwrap();
    assert_history_ordered(&merged_history);
    assert_eq!(merged_history.entries.len(), 1);

    // check that we can find the old version of the entry
    let merged_entry = &merged_history.entries[0];
    assert_eq!(merged_entry.get(fields::TITLE), Some("entry1"));

    let entry_count_after = destination_db.entries.len();
    let group_count_after = destination_db.groups.len();
    assert_eq!(entry_count_after, entry_count_before);
    assert_eq!(group_count_after, group_count_before);

    // check that the entry was updated
    assert_eq!(
        destination_db.entry(ENTRY1_ID).unwrap().get(fields::TITLE),
        Some("entry1_updated")
    );
}

/// Test that an entry updated in both source and destination is merged correctly.
#[test]
fn test_update_with_conflicts() {
    let mut destination_db = create_test_database();
    let mut source_db = destination_db.clone();

    let entry_count_before = destination_db.entries.len();
    let group_count_before = destination_db.groups.len();

    sleep();

    // update entry in destination
    destination_db.entry_mut(ENTRY1_ID).unwrap().edit_tracking(|e| {
        e.set_unprotected("Title", "entry1_updated_from_destination");
    });

    sleep();

    // update entry in source
    source_db.entry_mut(ENTRY1_ID).unwrap().edit_tracking(|e| {
        e.set_unprotected("Title", "entry1_updated_from_source");
    });

    // perform the merge - this should merge the changes from both databases, keeping the newer
    let merge_result = destination_db.merge(&source_db).unwrap();
    assert_eq!(merge_result.warnings.len(), 0);
    assert_eq!(merge_result.events.len(), 1);

    let entry_count_after = destination_db.entries.len();
    let group_count_after = destination_db.groups.len();
    assert_eq!(entry_count_after, entry_count_before);
    assert_eq!(group_count_after, group_count_before);

    // check that the entry was updated with the source change (newer)
    let entry = destination_db.entry(ENTRY1_ID).unwrap();
    assert_eq!(entry.get(fields::TITLE), Some("entry1_updated_from_source"));

    // check that history is preserved and contains both older versions
    let merged_history = entry.get_entry().history.clone().unwrap();
    assert_history_ordered(&merged_history);
    assert_eq!(merged_history.entries.len(), 2);
    assert_eq!(
        merged_history.entries[0].get(fields::TITLE),
        Some("entry1_updated_from_destination")
    );
    assert_eq!(merged_history.entries[1].get(fields::TITLE), Some("entry1"));

    // Merging again should not result in any additional change.
    let merge_result = destination_db.merge(&destination_db.clone()).unwrap();
    assert_eq!(merge_result.warnings.len(), 0);
    assert_eq!(merge_result.events.len(), 0);
}

/// Test that a group updated in source is merged into destination when merging.
#[test]
fn test_group_update_in_source() {
    let mut destination_db = create_test_database();
    let mut source_db = destination_db.clone();

    let entry_count_before = destination_db.entries.len();
    let group_count_before = destination_db.groups.len();

    sleep();

    source_db.group_mut(SUBGROUP1_ID).unwrap().edit_tracking(|g| {
        g.get_mut().name = "subgroup1_updated_name".to_string();
    });

    let modification_timestamp = source_db
        .group(SUBGROUP1_ID)
        .unwrap()
        .get()
        .times
        .last_modification
        .unwrap();

    // perform the merge - this should update the group in destination
    let merge_result = destination_db.merge(&source_db).unwrap();
    assert_eq!(merge_result.warnings.len(), 0);
    assert_eq!(merge_result.events.len(), 1);

    let entry_count_after = destination_db.entries.len();
    let group_count_after = destination_db.groups.len();
    assert_eq!(entry_count_after, entry_count_before);
    assert_eq!(group_count_after, group_count_before);

    assert!(destination_db.group(SUBGROUP1_ID).is_some());

    assert_eq!(
        destination_db.group(SUBGROUP1_ID).unwrap().get().name,
        "subgroup1_updated_name"
    );
    assert_eq!(
        destination_db
            .group(SUBGROUP1_ID)
            .unwrap()
            .get()
            .times
            .last_modification,
        Some(modification_timestamp)
    );
}

/// Test that a group updated in destination is not changed when merging.
#[test]
fn test_group_update_in_destination() {
    let mut destination_db = create_test_database();
    let source_db = destination_db.clone();

    let entry_count_before = destination_db.entries.len();
    let group_count_before = destination_db.groups.len();

    sleep();

    destination_db
        .group_mut(SUBGROUP1_ID)
        .unwrap()
        .edit_tracking(|g| {
            g.get_mut().name = "subgroup1_updated_name".to_string();
        });

    let last_modification = destination_db
        .group(SUBGROUP1_ID)
        .unwrap()
        .get()
        .times
        .last_modification
        .unwrap();

    // perform the merge - this should not change anything since source is older
    let merge_result = destination_db.merge(&source_db).unwrap();
    assert_eq!(merge_result.warnings.len(), 0);
    assert_eq!(merge_result.events.len(), 0);

    let entry_count_after = destination_db.entries.len();
    let group_count_after = destination_db.groups.len();
    assert_eq!(entry_count_after, entry_count_before);
    assert_eq!(group_count_after, group_count_before);

    assert!(destination_db.group(SUBGROUP1_ID).is_some());
    assert_eq!(
        destination_db.group(SUBGROUP1_ID).unwrap().get().name,
        "subgroup1_updated_name"
    );

    assert_eq!(
        destination_db
            .group(SUBGROUP1_ID)
            .unwrap()
            .get()
            .times
            .last_modification,
        Some(last_modification)
    );
}

/// Test that a group updated in source and relocated is merged correctly.
#[test]
fn test_group_update_and_relocation() {
    let mut destination_db = create_test_database();
    let mut source_db = destination_db.clone();

    let entry_count_before = destination_db.entries.len();
    let group_count_before = destination_db.groups.len();

    sleep();

    source_db
        .group_mut(SUBGROUP1_ID)
        .unwrap()
        .track_changes()
        .edit(|g| {
            g.get_mut().name = "subgroup1_updated_name".to_string();
        })
        .move_to(GROUP2_ID)
        .expect("move successful");

    let modification_timestamp = source_db
        .group(SUBGROUP1_ID)
        .unwrap()
        .get()
        .times
        .last_modification
        .unwrap();

    let location_changed_timestamp = source_db
        .group(SUBGROUP1_ID)
        .unwrap()
        .get()
        .times
        .location_changed
        .unwrap();

    // perform the merge - this should update and relocate the group in destination
    let merge_result = destination_db.merge(&source_db).unwrap();
    assert_eq!(merge_result.warnings.len(), 0);
    assert_eq!(merge_result.events.len(), 2);

    let entry_count_after = destination_db.entries.len();
    let group_count_after = destination_db.groups.len();
    assert_eq!(entry_count_after, entry_count_before);
    assert_eq!(group_count_after, group_count_before);

    assert!(destination_db.group(SUBGROUP1_ID).is_some());
    let group = destination_db.group(SUBGROUP1_ID).unwrap();
    assert_eq!(group.get().name, "subgroup1_updated_name");
    assert_eq!(group.parent().unwrap().id(), GROUP2_ID);
    assert_eq!(group.get().times.last_modification, Some(modification_timestamp));
    assert_eq!(group.get().times.location_changed, Some(location_changed_timestamp));
}

/// Test that a group updated in source and relocated in destionation is merged correctly.
#[test]
fn test_group_update_in_destination_and_relocation_in_source() {
    let mut destination_db = create_test_database();
    let mut source_db = destination_db.clone();

    let entry_count_before = destination_db.entries.len();
    let group_count_before = destination_db.groups.len();

    sleep();

    // rename group in source
    source_db.group_mut(SUBGROUP1_ID).unwrap().edit_tracking(|g| {
        g.get_mut().name = "subgroup1_updated_name".to_string();
    });

    let modification_timestamp = source_db
        .group(SUBGROUP1_ID)
        .unwrap()
        .get()
        .times
        .last_modification
        .unwrap();

    // relocate group in destination
    destination_db
        .group_mut(SUBGROUP1_ID)
        .unwrap()
        .track_changes()
        .move_to(GROUP2_ID)
        .expect("move successful");

    let location_changed_timestamp = destination_db
        .group(SUBGROUP1_ID)
        .unwrap()
        .get()
        .times
        .location_changed
        .unwrap();

    // perform the merge - this should update the group name from source and keep the new
    // location from destination
    let merge_result = destination_db.merge(&source_db).unwrap();
    assert_eq!(merge_result.warnings.len(), 0);
    assert_eq!(merge_result.events.len(), 1);

    let entry_count_after = destination_db.entries.len();
    let group_count_after = destination_db.groups.len();
    assert_eq!(entry_count_after, entry_count_before);
    assert_eq!(group_count_after, group_count_before);

    assert!(destination_db.group(SUBGROUP1_ID).is_some());
    let group = destination_db.group(SUBGROUP1_ID).unwrap();
    assert_eq!(group.get().name, "subgroup1_updated_name");
    assert_eq!(group.parent().unwrap().id(), GROUP2_ID);
    assert_eq!(group.get().times.last_modification, Some(modification_timestamp));
    assert_eq!(group.get().times.location_changed, Some(location_changed_timestamp));
}

#[test]
fn test_merge_untracked_group_history() {
    let mut destination_db = create_test_database();
    let mut source_db = destination_db.clone();

    // this is an invalid edit as the last modified timestamp of the group is not updated
    source_db
        .group_mut(GROUP1_ID)
        .unwrap()
        .edit(|g| {
            g.get_mut().name = "group1_updated_name".to_string();
        })
        .move_to(GROUP2_ID)
        .expect("move successful");

    assert_eq!(
        destination_db.group(GROUP1_ID).unwrap().get().times,
        source_db.group(GROUP1_ID).unwrap().get().times
    );

    // there will be an error during merge since the edit in source_db is not tracked and has
    // the same timestamp as the group in destination_db
    assert!(destination_db.merge(&source_db).is_err());

    // remove the timestamps to test warnings
    destination_db
        .group_mut(GROUP1_ID)
        .unwrap()
        .get_mut()
        .times
        .last_modification = None;
    destination_db
        .group_mut(GROUP1_ID)
        .unwrap()
        .get_mut()
        .times
        .location_changed = None;
    source_db.group_mut(GROUP1_ID).unwrap().get_mut().times.last_modification = None;
    source_db.group_mut(GROUP1_ID).unwrap().get_mut().times.location_changed = None;

    let merge_result = destination_db.merge(&source_db).unwrap();
    assert_eq!(merge_result.warnings.len(), 3);
    assert_eq!(merge_result.events.len(), 0);
}

#[test]
fn test_merge_untracked_entry_history() {
    let mut destination_db = create_test_database();
    let mut source_db = destination_db.clone();

    // this is an invalid edit as the last modified timestamp of the entry is not updated
    source_db
        .entry_mut(ENTRY1_ID)
        .unwrap()
        .edit(|e| {
            e.set_unprotected("Title", "entry1_updated_title");
        })
        .move_to(GROUP2_ID)
        .expect("move successful");

    assert_eq!(
        destination_db.entry(ENTRY1_ID).unwrap().get_entry().times,
        source_db.entry(ENTRY1_ID).unwrap().get_entry().times
    );

    // there will be an error during merge since the edit in source_db is not tracked and has
    // the same timestamp as the entry in destination_db
    assert!(destination_db.merge(&source_db).is_err());

    // remove the timestamps to test warnings
    destination_db
        .entry_mut(ENTRY1_ID)
        .unwrap()
        .get_entry_mut()
        .times
        .last_modification = None;
    destination_db
        .entry_mut(ENTRY1_ID)
        .unwrap()
        .get_entry_mut()
        .times
        .location_changed = None;
    source_db.entry_mut(ENTRY1_ID).unwrap().get_entry_mut().times.last_modification = None;
    source_db.entry_mut(ENTRY1_ID).unwrap().get_entry_mut().times.location_changed = None;

    let merge_result = destination_db.merge(&source_db).unwrap();
    assert_eq!(merge_result.warnings.len(), 3);
    assert_eq!(merge_result.events.len(), 0);
}

#[test]
fn test_icon_added_in_source() {
    let mut destination_db = create_test_database();
    let mut source_db = destination_db.clone();

    sleep();

    // add a new icon in source
    let new_icon_id = with_history(&mut source_db, ENTRY1_ID, |t| {
        t.set_icon_custom_new(vec![1, 2, 3, 4]).id()
    });

    // perform the merge - this should add the new icon to destination and update the entry's icon reference
    let merge_result = destination_db.merge(&source_db).unwrap();
    assert_eq!(merge_result.warnings.len(), 0);
    assert_eq!(merge_result.events.len(), 2);

    assert!(destination_db.custom_icon(new_icon_id).is_some());
}

#[test]
fn test_icon_updated_in_source() {
    let mut destination_db = create_test_database();

    // add a new icon in destination
    let icon_id = with_history(&mut destination_db, ENTRY1_ID, |t| {
        t.as_mut().set_icon_custom_new(vec![1, 2, 3, 4]).id()
    });

    let mut source_db = destination_db.clone();

    sleep();

    // update the icon in source
    let mut source_entry = source_db.entry_mut(ENTRY1_ID).unwrap();
    let mut source_icon = source_entry.custom_icon_mut().unwrap();
    source_icon.get_mut().data = vec![5, 6, 7, 8];
    source_icon.get_mut().last_modification_time = Some(Times::now());

    // perform the merge - this should update the icon in destination
    let merge_result = destination_db.merge(&source_db).unwrap();
    assert_eq!(merge_result.warnings.len(), 0);
    assert_eq!(merge_result.events.len(), 1);

    let icon = destination_db.custom_icon(icon_id).unwrap();
    assert_eq!(icon.get().data, vec![5, 6, 7, 8]);
}

#[test]
fn test_icon_updated_in_destination() {
    let mut destination_db = create_test_database();

    // add a new icon in destination
    let icon_id = with_history(&mut destination_db, ENTRY1_ID, |t| {
        t.as_mut().set_icon_custom_new(vec![1, 2, 3, 4]).id()
    });

    let source_db = destination_db.clone();

    sleep();

    // update the icon in destination
    let mut destination_icon = destination_db.custom_icon_mut(icon_id).unwrap();
    destination_icon.get_mut().data = vec![5, 6, 7, 8];
    destination_icon.get_mut().last_modification_time = Some(Times::now());

    // perform the merge - this should keep the icon update in destination since it's newer
    let merge_result = destination_db.merge(&source_db).unwrap();
    assert_eq!(merge_result.warnings.len(), 0);
    assert_eq!(merge_result.events.len(), 0);

    let icon = destination_db.custom_icon(icon_id).unwrap();
    assert_eq!(icon.get().data, vec![5, 6, 7, 8]);
}

// ---- attachment merge tests ----
//
// These tests control modification times explicitly (instead of `sleep()`)
// because attachment adds/removes via `EntryMut` do not touch timestamps.

const ENTRY3_ID: EntryId = EntryId(Uuid(8));

fn ts_at(minute: u32) -> Timestamp {
    let time = chrono::NaiveDate::from_ymd_opt(2024, 1, 1)
        .unwrap()
        .and_hms_opt(12, minute, 0)
        .unwrap();
    Timestamp::new(time.and_utc().timestamp(), 0).unwrap()
}

fn set_last_modification(db: &mut Database, id: EntryId, at: Timestamp) {
    db.entry_mut(id).unwrap().get_entry_mut().times.last_modification = Some(at);
}

fn attach(db: &mut Database, id: EntryId, name: &str, bytes: &[u8]) {
    let mut entry = db.entry_mut(id).unwrap();
    entry.add_attachment(name, Value::unprotected(bytes.to_vec()));
}

fn attachment_bytes(db: &Database, id: EntryId, name: &str) -> Option<Vec<u8>> {
    db.entry(id)?
        .attachment_by_name(name)
        .map(|a| a.get().data.get().clone())
}

/// An attachment added on the newer source side must land in the
/// destination pool with its bytes, not be silently dropped.
#[test]
fn test_merge_attachment_added_in_source() {
    let mut destination_db = create_test_database();
    set_last_modification(&mut destination_db, ENTRY1_ID, ts_at(0));
    let mut source_db = destination_db.clone();

    attach(&mut source_db, ENTRY1_ID, "invoice.pdf", b"pdf bytes");
    set_last_modification(&mut source_db, ENTRY1_ID, ts_at(5));

    let merge_result = destination_db.merge(&source_db).unwrap();
    assert_eq!(merge_result.events.len(), 1);

    assert_eq!(
        attachment_bytes(&destination_db, ENTRY1_ID, "invoice.pdf").as_deref(),
        Some(b"pdf bytes".as_slice()),
        "attachment added on the newer source side must survive the merge"
    );
}

/// An attachment whose bytes were replaced on the newer source side must
/// carry the new bytes into the destination.
#[test]
fn test_merge_attachment_replaced_in_source() {
    let mut destination_db = create_test_database();
    attach(&mut destination_db, ENTRY1_ID, "doc.txt", b"v1");
    set_last_modification(&mut destination_db, ENTRY1_ID, ts_at(0));
    let mut source_db = destination_db.clone();

    attach(&mut source_db, ENTRY1_ID, "doc.txt", b"v2");
    set_last_modification(&mut source_db, ENTRY1_ID, ts_at(5));

    destination_db.merge(&source_db).unwrap();

    assert_eq!(
        attachment_bytes(&destination_db, ENTRY1_ID, "doc.txt").as_deref(),
        Some(b"v2".as_slice()),
        "replaced attachment bytes from the newer source side must win"
    );
}

/// An attachment removed on the newer source side must be removed from
/// the destination entry as well.
#[test]
fn test_merge_attachment_removed_in_source() {
    let mut destination_db = create_test_database();
    attach(&mut destination_db, ENTRY1_ID, "old.txt", b"old bytes");
    set_last_modification(&mut destination_db, ENTRY1_ID, ts_at(0));
    let mut source_db = destination_db.clone();

    source_db
        .entry_mut(ENTRY1_ID)
        .unwrap()
        .remove_attachment_by_name("old.txt");
    set_last_modification(&mut source_db, ENTRY1_ID, ts_at(5));

    destination_db.merge(&source_db).unwrap();

    assert!(
        attachment_bytes(&destination_db, ENTRY1_ID, "old.txt").is_none(),
        "attachment removed on the newer source side must be removed by the merge"
    );
}

/// A brand-new entry from the source arrives with `AttachmentId`s minted
/// in the *source* pool. Those ids must be remapped into the destination
/// pool — otherwise they dangle or, worse, collide with an unrelated
/// destination blob and show the wrong bytes.
#[test]
fn test_merge_new_entry_attachments_remapped_across_pools() {
    let mut destination_db = create_test_database();
    let mut source_db = destination_db.clone();

    // Destination pool: id 0 = "local blob".
    attach(&mut destination_db, ENTRY1_ID, "local.bin", b"local blob");
    set_last_modification(&mut destination_db, ENTRY1_ID, ts_at(5));
    set_last_modification(&mut source_db, ENTRY1_ID, ts_at(0));

    // Source pool: id 0 = "remote blob", on a new entry — colliding ids,
    // different bytes.
    source_db
        .root_mut()
        .add_entry_with_id(ENTRY3_ID)
        .unwrap()
        .edit(|e| e.set_unprotected("Title", "entry3"));
    attach(&mut source_db, ENTRY3_ID, "remote.bin", b"remote blob");
    set_last_modification(&mut source_db, ENTRY3_ID, ts_at(1));

    destination_db.merge(&source_db).unwrap();

    assert_eq!(
        attachment_bytes(&destination_db, ENTRY3_ID, "remote.bin").as_deref(),
        Some(b"remote blob".as_slice()),
        "new entry's attachment must resolve to its own bytes, not a colliding local blob"
    );
    assert_eq!(
        attachment_bytes(&destination_db, ENTRY1_ID, "local.bin").as_deref(),
        Some(b"local blob".as_slice()),
        "existing local attachment must be untouched"
    );
}

/// Re-merging the same source after attachment remapping must be a no-op,
/// even though the remapped destination ids no longer equal the source ids.
#[test]
fn test_remerge_after_attachment_remap_is_idempotent() {
    let mut destination_db = create_test_database();
    let mut source_db = destination_db.clone();

    attach(&mut destination_db, ENTRY1_ID, "local.bin", b"local blob");
    set_last_modification(&mut destination_db, ENTRY1_ID, ts_at(5));
    set_last_modification(&mut source_db, ENTRY1_ID, ts_at(0));

    source_db
        .root_mut()
        .add_entry_with_id(ENTRY3_ID)
        .unwrap()
        .edit(|e| e.set_unprotected("Title", "entry3"));
    attach(&mut source_db, ENTRY3_ID, "remote.bin", b"remote blob");
    set_last_modification(&mut source_db, ENTRY3_ID, ts_at(1));

    destination_db.merge(&source_db).unwrap();
    let after_first_merge = destination_db.clone();

    let merge_result = destination_db.merge(&source_db).unwrap();

    assert_eq!(merge_result.events.len(), 0, "re-merge must produce no events");
    assert_eq!(
        destination_db, after_first_merge,
        "re-merging the same source must not change the database"
    );
}

/// Entries whose content is identical — including attachment names and
/// bytes — must not count as diverged just because their pools assigned
/// different `AttachmentId`s.
#[test]
fn test_equal_content_with_different_attachment_ids_is_not_divergence() {
    let base = create_test_database();

    // Same (name, bytes) on both sides, added in opposite order so the
    // pool ids differ: dest has x.bin=0/same.txt=1, source the reverse.
    let mut destination_db = base.clone();
    attach(&mut destination_db, ENTRY2_ID, "x.bin", b"X");
    attach(&mut destination_db, ENTRY1_ID, "same.txt", b"S");

    let mut source_db = base;
    attach(&mut source_db, ENTRY1_ID, "same.txt", b"S");
    attach(&mut source_db, ENTRY2_ID, "x.bin", b"X");

    for db in [&mut destination_db, &mut source_db] {
        set_last_modification(db, ENTRY1_ID, ts_at(3));
        set_last_modification(db, ENTRY2_ID, ts_at(3));
    }

    let merge_result = destination_db
        .merge(&source_db)
        .expect("content-identical entries with drifted attachment ids must merge cleanly");

    assert_eq!(merge_result.events.len(), 0);
    assert_eq!(
        attachment_bytes(&destination_db, ENTRY1_ID, "same.txt").as_deref(),
        Some(b"S".as_slice())
    );
}

/// History versions imported from the source carry source-pool ids too;
/// after the merge they must resolve to the correct bytes in the
/// destination pool.
#[test]
fn test_merge_history_version_attachments_remapped() {
    let mut destination_db = create_test_database();
    let mut source_db = destination_db.clone();

    // Occupy destination id 0 with unrelated bytes to force a collision.
    attach(&mut destination_db, ENTRY2_ID, "pad.bin", b"PAD");
    set_last_modification(&mut destination_db, ENTRY2_ID, ts_at(1));
    set_last_modification(&mut destination_db, ENTRY1_ID, ts_at(0));
    set_last_modification(&mut source_db, ENTRY2_ID, ts_at(0));

    // Source: v1 attached, archived into history, then replaced by v2.
    attach(&mut source_db, ENTRY1_ID, "doc.txt", b"v1");
    set_last_modification(&mut source_db, ENTRY1_ID, ts_at(2));
    {
        let mut entry = source_db.entry_mut(ENTRY1_ID).unwrap();
        let pre_image = entry.get_entry().clone();
        entry
            .get_entry_mut()
            .history
            .get_or_insert_with(History::default)
            .add_entry(pre_image);
    }
    attach(&mut source_db, ENTRY1_ID, "doc.txt", b"v2");
    set_last_modification(&mut source_db, ENTRY1_ID, ts_at(5));

    destination_db.merge(&source_db).unwrap();

    assert_eq!(
        attachment_bytes(&destination_db, ENTRY1_ID, "doc.txt").as_deref(),
        Some(b"v2".as_slice()),
        "live version must carry the newest bytes"
    );
    // The merged history holds the imported v1 version (and the archived
    // destination pre-image, which carried no attachment) — find the
    // version that references doc.txt and check its bytes.
    let entry = destination_db.entry(ENTRY1_ID).unwrap();
    let history_len = entry.get_entry().history.as_ref().map_or(0, |h| h.entries.len());
    let historical_bytes = (0..history_len)
        .filter_map(|i| entry.historical(i))
        .find_map(|version| {
            version
                .attachment_by_name("doc.txt")
                .map(|a| a.get().data.get().clone())
        });
    assert_eq!(
        historical_bytes.as_deref(),
        Some(b"v1".as_slice()),
        "history version's attachment must resolve to v1 bytes, not a colliding blob"
    );
    assert_eq!(
        attachment_bytes(&destination_db, ENTRY2_ID, "pad.bin").as_deref(),
        Some(b"PAD".as_slice())
    );
}

fn attachment_id(db: &Database, id: EntryId, name: &str) -> Option<AttachmentId> {
    Some(db.entry(id)?.attachment_by_name(name)?.id())
}

/// Two source entries that reference byte-identical attachments (with
/// distinct source-pool ids) must collapse to a single shared blob in the
/// destination pool — cross-entry sharing is preserved, not duplicated.
#[test]
fn test_merge_cross_entry_attachment_sharing_is_preserved() {
    let mut destination_db = create_test_database();
    set_last_modification(&mut destination_db, ENTRY1_ID, ts_at(0));
    set_last_modification(&mut destination_db, ENTRY2_ID, ts_at(0));
    let mut source_db = destination_db.clone();

    // Same bytes attached to two different entries: `add_attachment` mints
    // distinct source-pool ids (no within-db dedup on add).
    attach(&mut source_db, ENTRY1_ID, "a.bin", b"shared payload");
    attach(&mut source_db, ENTRY2_ID, "b.bin", b"shared payload");
    assert_ne!(
        attachment_id(&source_db, ENTRY1_ID, "a.bin"),
        attachment_id(&source_db, ENTRY2_ID, "b.bin"),
        "precondition: the two source attachments must have distinct ids"
    );
    set_last_modification(&mut source_db, ENTRY1_ID, ts_at(5));
    set_last_modification(&mut source_db, ENTRY2_ID, ts_at(5));

    destination_db.merge(&source_db).unwrap();

    assert_eq!(
        attachment_id(&destination_db, ENTRY1_ID, "a.bin"),
        attachment_id(&destination_db, ENTRY2_ID, "b.bin"),
        "byte-identical attachments must share one destination id after merge"
    );
    assert_eq!(
        destination_db.num_attachments(),
        1,
        "the shared payload must be stored once, not duplicated per entry"
    );
}

/// A source attachment whose bytes already exist in the destination pool
/// (attached to an unrelated entry) must reuse that blob's id rather than
/// allocating a duplicate.
#[test]
fn test_merge_reuses_existing_destination_blob() {
    let mut destination_db = create_test_database();
    attach(&mut destination_db, ENTRY1_ID, "local.bin", b"shared");
    set_last_modification(&mut destination_db, ENTRY1_ID, ts_at(5));
    set_last_modification(&mut destination_db, ENTRY2_ID, ts_at(0));
    assert_eq!(destination_db.num_attachments(), 1);

    // Source brings the same bytes on a different entry (newer, so it
    // updates the destination entry).
    let mut source_db = destination_db.clone();
    attach(&mut source_db, ENTRY2_ID, "copy.bin", b"shared");
    set_last_modification(&mut source_db, ENTRY2_ID, ts_at(5));

    destination_db.merge(&source_db).unwrap();

    assert_eq!(
        attachment_id(&destination_db, ENTRY2_ID, "copy.bin"),
        attachment_id(&destination_db, ENTRY1_ID, "local.bin"),
        "imported attachment must reuse the byte-identical blob already in the pool"
    );
    assert_eq!(
        destination_db.num_attachments(),
        1,
        "reusing an existing blob must not grow the pool"
    );
}

/// A source `name -> AttachmentId` reference whose blob is missing from the
/// source pool (a dangling reference) must be dropped during remap, not
/// carried into the destination as a reference to nonexistent bytes.
#[test]
fn test_merge_drops_dangling_source_reference() {
    let mut destination_db = create_test_database();
    set_last_modification(&mut destination_db, ENTRY1_ID, ts_at(0));
    let mut source_db = destination_db.clone();

    attach(&mut source_db, ENTRY1_ID, "ghost.bin", b"soon gone");
    // Drop the blob from the pool but leave the entry's reference behind,
    // fabricating a dangling `name -> id` that remap must not propagate.
    let dangling = attachment_id(&source_db, ENTRY1_ID, "ghost.bin").unwrap();
    source_db.attachments.remove(&dangling);
    set_last_modification(&mut source_db, ENTRY1_ID, ts_at(5));

    destination_db
        .merge(&source_db)
        .expect("a dangling source reference must not break the merge");

    assert!(
        attachment_id(&destination_db, ENTRY1_ID, "ghost.bin").is_none(),
        "a reference whose blob is absent from the source pool must be dropped"
    );
}

/// Two distinct source attachments on the *same* entry that carry identical
/// bytes collapse to a single destination id. This matches the KDBX
/// format's byte-identical binary sharing.
#[test]
fn test_merge_distinct_equal_byte_attachments_dedup_on_same_entry() {
    let mut destination_db = create_test_database();
    set_last_modification(&mut destination_db, ENTRY1_ID, ts_at(0));
    let mut source_db = destination_db.clone();

    attach(&mut source_db, ENTRY1_ID, "one.bin", b"identical");
    attach(&mut source_db, ENTRY1_ID, "two.bin", b"identical");
    assert_ne!(
        attachment_id(&source_db, ENTRY1_ID, "one.bin"),
        attachment_id(&source_db, ENTRY1_ID, "two.bin"),
        "precondition: distinct source ids for the two equal-byte attachments"
    );
    set_last_modification(&mut source_db, ENTRY1_ID, ts_at(5));

    destination_db.merge(&source_db).unwrap();

    assert_eq!(
        attachment_bytes(&destination_db, ENTRY1_ID, "one.bin").as_deref(),
        Some(b"identical".as_slice()),
    );
    assert_eq!(
        attachment_bytes(&destination_db, ENTRY1_ID, "two.bin").as_deref(),
        Some(b"identical".as_slice()),
    );
    assert_eq!(
        attachment_id(&destination_db, ENTRY1_ID, "one.bin"),
        attachment_id(&destination_db, ENTRY1_ID, "two.bin"),
        "equal-byte attachments are content-addressed to one shared id (documented dedup)"
    );
    assert_eq!(destination_db.num_attachments(), 1);
}

// ---- three-way merge (merge_with_ancestor) tests ----
//
// `self` = destination, `other` = source, plus a common `ancestor`. Timestamps are set
// explicitly (no `sleep()`) so the one-sided-vs-conflict decision is deterministic.

/// Set an entry's title without touching its timestamps or history, so the test controls
/// modification times explicitly.
fn set_title(db: &mut Database, id: EntryId, t: &str) {
    db.entry_mut(id).unwrap().edit(|e| {
        e.set_unprotected(fields::TITLE, t);
    });
}

fn title(db: &Database, id: EntryId) -> Option<String> {
    db.entry(id)?.get(fields::TITLE).map(str::to_string)
}

/// Changed on the `other` side only since the ancestor: take other's value, no warning.
#[test]
fn test_ancestor_one_sided_change_in_other() {
    let mut ancestor_db = create_test_database();
    set_title(&mut ancestor_db, ENTRY1_ID, "base");
    set_last_modification(&mut ancestor_db, ENTRY1_ID, ts_at(0));

    let mut destination_db = ancestor_db.clone();
    let mut source_db = ancestor_db.clone();

    set_title(&mut source_db, ENTRY1_ID, "changed_in_other");
    set_last_modification(&mut source_db, ENTRY1_ID, ts_at(5));

    let result = destination_db
        .merge_with_ancestor(&source_db, &ancestor_db)
        .unwrap();

    assert_eq!(result.warnings.len(), 0, "a one-sided change must not warn");
    assert_eq!(result.events.len(), 1);
    assert_eq!(
        title(&destination_db, ENTRY1_ID).as_deref(),
        Some("changed_in_other")
    );
}

/// Changed on the `self` side only since the ancestor: keep self's value, no warning, no event.
#[test]
fn test_ancestor_one_sided_change_in_self() {
    let mut ancestor_db = create_test_database();
    set_title(&mut ancestor_db, ENTRY1_ID, "base");
    set_last_modification(&mut ancestor_db, ENTRY1_ID, ts_at(0));

    let mut destination_db = ancestor_db.clone();
    let source_db = ancestor_db.clone();

    set_title(&mut destination_db, ENTRY1_ID, "changed_in_self");
    set_last_modification(&mut destination_db, ENTRY1_ID, ts_at(5));

    let result = destination_db
        .merge_with_ancestor(&source_db, &ancestor_db)
        .unwrap();

    assert_eq!(result.warnings.len(), 0, "a one-sided change must not warn");
    assert_eq!(result.events.len(), 0, "self already holds the winning value");
    assert_eq!(
        title(&destination_db, ENTRY1_ID).as_deref(),
        Some("changed_in_self")
    );
}

/// Changed differently on both sides since the ancestor: exactly one warning, newest wins.
#[test]
fn test_ancestor_true_conflict_warns_and_newest_wins() {
    let mut ancestor_db = create_test_database();
    set_title(&mut ancestor_db, ENTRY1_ID, "base");
    set_last_modification(&mut ancestor_db, ENTRY1_ID, ts_at(0));

    let mut destination_db = ancestor_db.clone();
    let mut source_db = ancestor_db.clone();

    set_title(&mut destination_db, ENTRY1_ID, "changed_in_self");
    set_last_modification(&mut destination_db, ENTRY1_ID, ts_at(5));

    set_title(&mut source_db, ENTRY1_ID, "changed_in_other");
    set_last_modification(&mut source_db, ENTRY1_ID, ts_at(10));

    let result = destination_db
        .merge_with_ancestor(&source_db, &ancestor_db)
        .unwrap();

    assert_eq!(result.warnings.len(), 1, "a true conflict must warn exactly once");
    assert_eq!(
        title(&destination_db, ENTRY1_ID).as_deref(),
        Some("changed_in_other"),
        "the most recently modified side must win"
    );
}

/// Re-running the same three-way merge changes nothing (no events, no warnings).
#[test]
fn test_ancestor_merge_is_idempotent() {
    let mut ancestor_db = create_test_database();
    set_title(&mut ancestor_db, ENTRY1_ID, "base");
    set_last_modification(&mut ancestor_db, ENTRY1_ID, ts_at(0));

    let mut destination_db = ancestor_db.clone();
    let mut source_db = ancestor_db.clone();

    set_title(&mut destination_db, ENTRY1_ID, "changed_in_self");
    set_last_modification(&mut destination_db, ENTRY1_ID, ts_at(5));
    set_title(&mut source_db, ENTRY1_ID, "changed_in_other");
    set_last_modification(&mut source_db, ENTRY1_ID, ts_at(10));

    destination_db
        .merge_with_ancestor(&source_db, &ancestor_db)
        .unwrap();
    let after_first = destination_db.clone();

    let result = destination_db
        .merge_with_ancestor(&source_db, &ancestor_db)
        .unwrap();

    assert_eq!(result.events.len(), 0, "re-merge must produce no events");
    assert_eq!(result.warnings.len(), 0, "re-merge must produce no warnings");
    assert_eq!(
        destination_db, after_first,
        "re-merge must not change the database"
    );
}

/// The two-way `merge` must not raise the three-way
/// "modified in both databases" warning, even on a conflicting change.
#[test]
fn test_two_way_shim_no_ancestor_warning_on_conflict() {
    let mut ancestor_db = create_test_database();
    set_title(&mut ancestor_db, ENTRY1_ID, "base");
    set_last_modification(&mut ancestor_db, ENTRY1_ID, ts_at(0));

    let mut destination_db = ancestor_db.clone();
    let mut source_db = ancestor_db.clone();

    set_title(&mut destination_db, ENTRY1_ID, "changed_in_self");
    set_last_modification(&mut destination_db, ENTRY1_ID, ts_at(5));
    set_title(&mut source_db, ENTRY1_ID, "changed_in_other");
    set_last_modification(&mut source_db, ENTRY1_ID, ts_at(10));

    let result = destination_db.merge(&source_db).unwrap();

    assert_eq!(
        result.warnings.len(),
        0,
        "the two-way merge must not emit ancestor conflicts"
    );
    assert_eq!(
        title(&destination_db, ENTRY1_ID).as_deref(),
        Some("changed_in_other"),
        "two-way newest-wins still applies"
    );
}

/// Three-way × attachments: an attachment added only on the source side is imported silently.
#[test]
fn test_ancestor_one_sided_attachment_add_in_source() {
    let mut ancestor_db = create_test_database();
    set_last_modification(&mut ancestor_db, ENTRY1_ID, ts_at(0));

    let mut destination_db = ancestor_db.clone();
    let mut source_db = ancestor_db.clone();

    attach(&mut source_db, ENTRY1_ID, "file.pdf", b"pdf bytes");
    set_last_modification(&mut source_db, ENTRY1_ID, ts_at(5));

    let result = destination_db
        .merge_with_ancestor(&source_db, &ancestor_db)
        .unwrap();

    assert_eq!(
        result.warnings.len(),
        0,
        "a one-sided attachment add must not warn"
    );
    assert_eq!(
        attachment_bytes(&destination_db, ENTRY1_ID, "file.pdf").as_deref(),
        Some(b"pdf bytes".as_slice()),
    );
}

/// Three-way × attachments: the same attachment changed differently on both sides is a true
/// conflict — one warning, newest bytes win, and they resolve to the correct pool bytes.
#[test]
fn test_ancestor_attachment_conflict_warns_and_newest_bytes_win() {
    let mut ancestor_db = create_test_database();
    attach(&mut ancestor_db, ENTRY1_ID, "doc.txt", b"v0");
    set_last_modification(&mut ancestor_db, ENTRY1_ID, ts_at(0));

    let mut destination_db = ancestor_db.clone();
    let mut source_db = ancestor_db.clone();

    attach(&mut destination_db, ENTRY1_ID, "doc.txt", b"v-self");
    set_last_modification(&mut destination_db, ENTRY1_ID, ts_at(5));
    attach(&mut source_db, ENTRY1_ID, "doc.txt", b"v-other");
    set_last_modification(&mut source_db, ENTRY1_ID, ts_at(10));

    let result = destination_db
        .merge_with_ancestor(&source_db, &ancestor_db)
        .unwrap();

    assert_eq!(
        result.warnings.len(),
        1,
        "diverged attachments are a true conflict"
    );
    assert_eq!(
        attachment_bytes(&destination_db, ENTRY1_ID, "doc.txt").as_deref(),
        Some(b"v-other".as_slice()),
        "the newest side's attachment bytes must win and resolve correctly"
    );
}

/// Three-way × attachments: when the source did not change since the ancestor, the
/// destination's own attachment changes are kept and nothing is imported from the source.
#[test]
fn test_ancestor_source_unchanged_keeps_destination_attachments() {
    let mut ancestor_db = create_test_database();
    attach(&mut ancestor_db, ENTRY1_ID, "keep.txt", b"orig");
    set_last_modification(&mut ancestor_db, ENTRY1_ID, ts_at(0));

    let mut destination_db = ancestor_db.clone();
    let source_db = ancestor_db.clone();

    attach(&mut destination_db, ENTRY1_ID, "extra.txt", b"dest-only");
    set_last_modification(&mut destination_db, ENTRY1_ID, ts_at(5));

    let result = destination_db
        .merge_with_ancestor(&source_db, &ancestor_db)
        .unwrap();

    assert_eq!(result.warnings.len(), 0);
    assert_eq!(
        result.events.len(),
        0,
        "source unchanged since ancestor → nothing to apply"
    );
    assert_eq!(
        attachment_bytes(&destination_db, ENTRY1_ID, "extra.txt").as_deref(),
        Some(b"dest-only".as_slice()),
        "the destination's own attachment must be kept"
    );
    assert_eq!(
        attachment_bytes(&destination_db, ENTRY1_ID, "keep.txt").as_deref(),
        Some(b"orig".as_slice()),
    );
}

// ---- equal-timestamp three-way conflict tests ----
//
// KDBX timestamps have one-second precision, so two branches can make divergent edits within
// the same second. With an ancestor these must resolve (warn + deterministic keep-destination)
// instead of failing; without one, the two-way `merge` fails.

fn set_group_name(db: &mut Database, id: GroupId, name: &str) {
    db.group_mut(id).unwrap().get_mut().name = name.to_string();
}

fn set_group_lm(db: &mut Database, id: GroupId, at: Timestamp) {
    db.group_mut(id).unwrap().get_mut().times.last_modification = Some(at);
}

/// Both sides edited the same entry differently within the same second: one warning, and the
/// deterministic tie-break keeps the destination.
#[test]
fn test_equal_timestamp_true_conflict_keeps_destination() {
    let mut ancestor_db = create_test_database();
    set_title(&mut ancestor_db, ENTRY1_ID, "base");
    set_last_modification(&mut ancestor_db, ENTRY1_ID, ts_at(0));

    let mut destination_db = ancestor_db.clone();
    let mut source_db = ancestor_db.clone();

    set_title(&mut destination_db, ENTRY1_ID, "dest_edit");
    set_last_modification(&mut destination_db, ENTRY1_ID, ts_at(5));
    set_title(&mut source_db, ENTRY1_ID, "source_edit");
    set_last_modification(&mut source_db, ENTRY1_ID, ts_at(5));

    let result = destination_db
        .merge_with_ancestor(&source_db, &ancestor_db)
        .unwrap();

    assert_eq!(
        result.warnings.len(),
        1,
        "same-timestamp two-sided edit must warn once"
    );
    assert_eq!(result.events.len(), 0);
    assert_eq!(
        title(&destination_db, ENTRY1_ID).as_deref(),
        Some("dest_edit"),
        "the deterministic tie-break keeps the destination copy"
    );
}

/// Same timestamp, but only the source diverged from the ancestor: adopt the source, no warning.
#[test]
fn test_equal_timestamp_one_sided_source_adopts_source() {
    let mut ancestor_db = create_test_database();
    set_title(&mut ancestor_db, ENTRY1_ID, "base");
    set_last_modification(&mut ancestor_db, ENTRY1_ID, ts_at(0));

    let mut destination_db = ancestor_db.clone();
    let mut source_db = ancestor_db.clone();

    // Destination keeps the ancestor's content but shares the source's timestamp.
    set_last_modification(&mut destination_db, ENTRY1_ID, ts_at(5));
    set_title(&mut source_db, ENTRY1_ID, "source_edit");
    set_last_modification(&mut source_db, ENTRY1_ID, ts_at(5));

    let result = destination_db
        .merge_with_ancestor(&source_db, &ancestor_db)
        .unwrap();

    assert_eq!(result.warnings.len(), 0, "a one-sided change must not warn");
    assert_eq!(result.events.len(), 1);
    assert_eq!(title(&destination_db, ENTRY1_ID).as_deref(), Some("source_edit"));
}

/// Same timestamp, but only the destination diverged: keep the destination, no warning/event.
#[test]
fn test_equal_timestamp_one_sided_dest_keeps_destination() {
    let mut ancestor_db = create_test_database();
    set_title(&mut ancestor_db, ENTRY1_ID, "base");
    set_last_modification(&mut ancestor_db, ENTRY1_ID, ts_at(0));

    let mut destination_db = ancestor_db.clone();
    let mut source_db = ancestor_db.clone();

    set_title(&mut destination_db, ENTRY1_ID, "dest_edit");
    set_last_modification(&mut destination_db, ENTRY1_ID, ts_at(5));
    set_last_modification(&mut source_db, ENTRY1_ID, ts_at(5));

    let result = destination_db
        .merge_with_ancestor(&source_db, &ancestor_db)
        .unwrap();

    assert_eq!(result.warnings.len(), 0);
    assert_eq!(result.events.len(), 0);
    assert_eq!(title(&destination_db, ENTRY1_ID).as_deref(), Some("dest_edit"));
}

/// The two-way `merge` (no ancestor) must fail on an
/// equal-timestamp divergence.
#[test]
fn test_two_way_equal_timestamp_divergence_still_errors() {
    let base = create_test_database();
    let mut destination_db = base.clone();
    let mut source_db = base;

    set_title(&mut destination_db, ENTRY1_ID, "dest_edit");
    set_last_modification(&mut destination_db, ENTRY1_ID, ts_at(5));
    set_title(&mut source_db, ENTRY1_ID, "source_edit");
    set_last_modification(&mut source_db, ENTRY1_ID, ts_at(5));

    let err = destination_db.merge(&source_db).unwrap_err();
    assert!(
        matches!(err, MergeError::EntryModificationTimeNotUpdated(id) if id == ENTRY1_ID),
        "two-way equal-timestamp divergence must fail, got {:?}",
        err
    );
}

/// Groups get the same equal-timestamp treatment: three-way warns (not errors)...
#[test]
fn test_equal_timestamp_group_conflict_warns() {
    let mut ancestor_db = create_test_database();
    set_group_name(&mut ancestor_db, SUBGROUP1_ID, "base");
    set_group_lm(&mut ancestor_db, SUBGROUP1_ID, ts_at(0));

    let mut destination_db = ancestor_db.clone();
    let mut source_db = ancestor_db.clone();

    set_group_name(&mut destination_db, SUBGROUP1_ID, "dest_name");
    set_group_lm(&mut destination_db, SUBGROUP1_ID, ts_at(5));
    set_group_name(&mut source_db, SUBGROUP1_ID, "source_name");
    set_group_lm(&mut source_db, SUBGROUP1_ID, ts_at(5));

    let result = destination_db
        .merge_with_ancestor(&source_db, &ancestor_db)
        .unwrap();

    assert_eq!(result.warnings.len(), 1);
    assert_eq!(destination_db.group(SUBGROUP1_ID).unwrap().get().name, "dest_name");
}

/// ...while the two-way merge fails on an equal-timestamp group divergence.
#[test]
fn test_two_way_equal_timestamp_group_divergence_still_errors() {
    let base = create_test_database();
    let mut destination_db = base.clone();
    let mut source_db = base;

    set_group_name(&mut destination_db, SUBGROUP1_ID, "dest_name");
    set_group_lm(&mut destination_db, SUBGROUP1_ID, ts_at(5));
    set_group_name(&mut source_db, SUBGROUP1_ID, "source_name");
    set_group_lm(&mut source_db, SUBGROUP1_ID, ts_at(5));

    let err = destination_db.merge(&source_db).unwrap_err();
    assert!(
        matches!(err, MergeError::GroupModificationTimeNotUpdated(id) if id == SUBGROUP1_ID),
        "two-way equal-timestamp group divergence must fail, got {:?}",
        err
    );
}

// ---- tombstone delete-vs-edit conflict tests ----

/// Deleted in the destination, edited in the source since the ancestor → conflict warning.
#[test]
fn test_tombstone_conflict_deleted_in_dest_edited_in_source() {
    let mut ancestor_db = create_test_database();
    set_title(&mut ancestor_db, ENTRY1_ID, "base");
    set_last_modification(&mut ancestor_db, ENTRY1_ID, ts_at(0));

    let mut destination_db = ancestor_db.clone();
    let mut source_db = ancestor_db.clone();

    destination_db
        .entry_mut(ENTRY1_ID)
        .unwrap()
        .track_changes()
        .remove();
    set_title(&mut source_db, ENTRY1_ID, "edited_in_source");
    set_last_modification(&mut source_db, ENTRY1_ID, ts_at(5));

    let result = destination_db
        .merge_with_ancestor(&source_db, &ancestor_db)
        .unwrap();

    assert_eq!(
        result.warnings.len(),
        1,
        "editing an entry the other side deleted is a conflict"
    );
}

/// Edited in the destination, deleted in the source since the ancestor → conflict warning.
#[test]
fn test_tombstone_conflict_edited_in_dest_deleted_in_source() {
    let mut ancestor_db = create_test_database();
    set_title(&mut ancestor_db, ENTRY1_ID, "base");
    set_last_modification(&mut ancestor_db, ENTRY1_ID, ts_at(0));

    let mut destination_db = ancestor_db.clone();
    let mut source_db = ancestor_db.clone();

    set_title(&mut destination_db, ENTRY1_ID, "edited_in_dest");
    set_last_modification(&mut destination_db, ENTRY1_ID, ts_at(5));
    source_db.entry_mut(ENTRY1_ID).unwrap().track_changes().remove();

    let result = destination_db
        .merge_with_ancestor(&source_db, &ancestor_db)
        .unwrap();

    assert_eq!(result.warnings.len(), 1);
}

/// A one-sided delete (the surviving side is unchanged vs the ancestor) is not a conflict.
#[test]
fn test_tombstone_one_sided_delete_is_silent() {
    let mut ancestor_db = create_test_database();
    set_title(&mut ancestor_db, ENTRY1_ID, "base");
    set_last_modification(&mut ancestor_db, ENTRY1_ID, ts_at(0));

    let mut destination_db = ancestor_db.clone();
    let source_db = ancestor_db.clone();

    // Only the destination deletes; the source keeps the ancestor's version unchanged.
    destination_db
        .entry_mut(ENTRY1_ID)
        .unwrap()
        .track_changes()
        .remove();

    let result = destination_db
        .merge_with_ancestor(&source_db, &ancestor_db)
        .unwrap();

    assert_eq!(
        result.warnings.len(),
        0,
        "a one-sided delete with no competing edit must not warn"
    );
}

// ---- custom-icon three-way tests ----

fn old_time(year: i32, month: u32) -> Timestamp {
    let time = chrono::NaiveDate::from_ymd_opt(year, month, 1)
        .unwrap()
        .and_hms_opt(0, 0, 0)
        .unwrap();
    Timestamp::new(time.and_utc().timestamp(), 0).unwrap()
}

/// The two-way merge must take a newer source icon even when both timestamps
/// predate the Unix epoch.
#[test]
fn test_two_way_icon_pre_epoch_source_newer_wins() {
    let mut destination_db = create_test_database();
    let icon_id = destination_db
        .entry_mut(ENTRY1_ID)
        .unwrap()
        .set_icon_custom_new(vec![1, 2, 3, 4])
        .id();
    let mut source_db = destination_db.clone();

    destination_db
        .custom_icon_mut(icon_id)
        .unwrap()
        .get_mut()
        .last_modification_time = Some(old_time(1969, 1));
    {
        let mut source_icon = source_db.custom_icon_mut(icon_id).unwrap();
        source_icon.get_mut().data = vec![5, 6, 7, 8];
        source_icon.get_mut().last_modification_time = Some(old_time(1969, 6));
    }

    let result = destination_db.merge(&source_db).unwrap();

    assert_eq!(result.warnings.len(), 0);
    assert_eq!(
        destination_db.custom_icon(icon_id).unwrap().get().data,
        vec![5, 6, 7, 8],
        "a newer source icon must win even for pre-1970 timestamps"
    );
}

/// Three-way: an icon changed differently on both sides since the ancestor warns, newest wins.
#[test]
fn test_ancestor_icon_conflict_warns_and_newest_wins() {
    let mut ancestor_db = create_test_database();
    let icon_id = ancestor_db
        .entry_mut(ENTRY1_ID)
        .unwrap()
        .set_icon_custom_new(vec![0, 0, 0, 0])
        .id();
    ancestor_db
        .custom_icon_mut(icon_id)
        .unwrap()
        .get_mut()
        .last_modification_time = Some(ts_at(0));

    let mut destination_db = ancestor_db.clone();
    let mut source_db = ancestor_db.clone();

    {
        let mut di = destination_db.custom_icon_mut(icon_id).unwrap();
        di.get_mut().data = vec![9, 9, 9, 9];
        di.get_mut().last_modification_time = Some(ts_at(5));
    }
    {
        let mut si = source_db.custom_icon_mut(icon_id).unwrap();
        si.get_mut().data = vec![8, 8, 8, 8];
        si.get_mut().last_modification_time = Some(ts_at(10));
    }

    let result = destination_db
        .merge_with_ancestor(&source_db, &ancestor_db)
        .unwrap();

    assert_eq!(
        result.warnings.len(),
        1,
        "diverged icons since the ancestor are a conflict"
    );
    assert_eq!(
        destination_db.custom_icon(icon_id).unwrap().get().data,
        vec![8, 8, 8, 8],
        "the most recently modified icon must win"
    );
}

// ---- equal-timestamp history preservation + group/icon tombstone conflicts ----

fn history_titles(db: &Database, id: EntryId) -> Vec<String> {
    let entry = db.entry(id).unwrap();
    let n = entry.get_entry().history.as_ref().map_or(0, |h| h.entries.len());
    (0..n)
        .filter_map(|i| entry.historical(i))
        .filter_map(|v| v.get(fields::TITLE).map(str::to_string))
        .collect()
}

/// Give `source` an intermediate tracked version, then a final live value.
fn source_with_intermediate_history(source_db: &mut Database, intermediate: &str, final_title: &str) {
    set_title(source_db, ENTRY1_ID, intermediate);
    set_last_modification(source_db, ENTRY1_ID, ts_at(3));
    {
        let mut entry = source_db.entry_mut(ENTRY1_ID).unwrap();
        let pre_image = entry.get_entry().clone();
        entry
            .get_entry_mut()
            .history
            .get_or_insert_with(History::default)
            .add_entry(pre_image);
    }
    set_title(source_db, ENTRY1_ID, final_title);
    set_last_modification(source_db, ENTRY1_ID, ts_at(5));
}

/// Equal-timestamp true conflict: the destination's live value is kept, but the source's
/// intermediate history version must still be merged in (not discarded at the tie-break exit).
#[test]
fn test_equal_timestamp_conflict_preserves_source_history() {
    let mut ancestor_db = create_test_database();
    set_title(&mut ancestor_db, ENTRY1_ID, "base");
    set_last_modification(&mut ancestor_db, ENTRY1_ID, ts_at(0));

    let mut destination_db = ancestor_db.clone();
    let mut source_db = ancestor_db.clone();

    set_title(&mut destination_db, ENTRY1_ID, "dest_edit");
    set_last_modification(&mut destination_db, ENTRY1_ID, ts_at(5));
    source_with_intermediate_history(&mut source_db, "src_intermediate", "src_final");

    let result = destination_db
        .merge_with_ancestor(&source_db, &ancestor_db)
        .unwrap();

    assert_eq!(
        result.warnings.len(),
        1,
        "same-timestamp two-sided edit warns once"
    );
    assert_eq!(
        title(&destination_db, ENTRY1_ID).as_deref(),
        Some("dest_edit"),
        "tie-break keeps the destination's live value"
    );
    assert!(
        history_titles(&destination_db, ENTRY1_ID).contains(&"src_intermediate".to_string()),
        "the source's intermediate history version must survive the tie-break, got {:?}",
        history_titles(&destination_db, ENTRY1_ID)
    );
}

/// Equal-timestamp source adoption: the source's history is merged and the destination's
/// pre-image is archived.
#[test]
fn test_equal_timestamp_source_adoption_preserves_histories() {
    let mut ancestor_db = create_test_database();
    set_title(&mut ancestor_db, ENTRY1_ID, "base");
    set_last_modification(&mut ancestor_db, ENTRY1_ID, ts_at(0));

    let mut destination_db = ancestor_db.clone();
    let mut source_db = ancestor_db.clone();

    // Destination keeps the ancestor's content but shares the source's timestamp, so only the
    // source is the changed side.
    set_last_modification(&mut destination_db, ENTRY1_ID, ts_at(5));
    source_with_intermediate_history(&mut source_db, "src_intermediate", "src_final");

    let result = destination_db
        .merge_with_ancestor(&source_db, &ancestor_db)
        .unwrap();

    assert_eq!(result.warnings.len(), 0, "a one-sided change must not warn");
    assert_eq!(title(&destination_db, ENTRY1_ID).as_deref(), Some("src_final"));
    let hist = history_titles(&destination_db, ENTRY1_ID);
    assert!(
        hist.contains(&"src_intermediate".to_string()),
        "source's intermediate history version must survive, got {:?}",
        hist
    );
    assert!(
        hist.contains(&"base".to_string()),
        "destination's pre-image must be archived, got {:?}",
        hist
    );
}

// Uses the empty SUBGROUP2 (no entries) so a group deletion doesn't drag entries along.

/// Group deleted in the destination but edited in the source since the ancestor → conflict.
#[test]
fn test_group_tombstone_conflict_deleted_in_dest_edited_in_source() {
    let mut ancestor_db = create_test_database();
    set_group_name(&mut ancestor_db, SUBGROUP2_ID, "base");
    set_group_lm(&mut ancestor_db, SUBGROUP2_ID, ts_at(0));

    let mut destination_db = ancestor_db.clone();
    let mut source_db = ancestor_db.clone();

    destination_db
        .group_mut(SUBGROUP2_ID)
        .unwrap()
        .track_changes()
        .remove()
        .unwrap();
    set_group_name(&mut source_db, SUBGROUP2_ID, "edited_in_source");
    set_group_lm(&mut source_db, SUBGROUP2_ID, ts_at(5));

    let result = destination_db
        .merge_with_ancestor(&source_db, &ancestor_db)
        .unwrap();

    assert_eq!(
        result.warnings.len(),
        1,
        "editing a group the other side deleted is a conflict"
    );
}

/// Group edited in the destination but deleted in the source since the ancestor → conflict.
#[test]
fn test_group_tombstone_conflict_edited_in_dest_deleted_in_source() {
    let mut ancestor_db = create_test_database();
    set_group_name(&mut ancestor_db, SUBGROUP2_ID, "base");
    set_group_lm(&mut ancestor_db, SUBGROUP2_ID, ts_at(0));

    let mut destination_db = ancestor_db.clone();
    let mut source_db = ancestor_db.clone();

    set_group_name(&mut destination_db, SUBGROUP2_ID, "edited_in_dest");
    set_group_lm(&mut destination_db, SUBGROUP2_ID, ts_at(5));
    source_db
        .group_mut(SUBGROUP2_ID)
        .unwrap()
        .track_changes()
        .remove()
        .unwrap();

    let result = destination_db
        .merge_with_ancestor(&source_db, &ancestor_db)
        .unwrap();

    assert_eq!(result.warnings.len(), 1);
}

/// A one-sided group delete (the surviving side is unchanged vs the ancestor) is silent.
#[test]
fn test_group_tombstone_one_sided_delete_is_silent() {
    let mut ancestor_db = create_test_database();
    set_group_name(&mut ancestor_db, SUBGROUP2_ID, "base");
    set_group_lm(&mut ancestor_db, SUBGROUP2_ID, ts_at(0));

    let mut destination_db = ancestor_db.clone();
    let source_db = ancestor_db.clone();

    destination_db
        .group_mut(SUBGROUP2_ID)
        .unwrap()
        .track_changes()
        .remove()
        .unwrap();

    let result = destination_db
        .merge_with_ancestor(&source_db, &ancestor_db)
        .unwrap();

    assert_eq!(result.warnings.len(), 0);
}

/// Delete a custom icon and leave a tombstone (there is no public tracked-remove for icons).
fn tombstone_icon(db: &mut Database, icon_id: CustomIconId, at: Timestamp) {
    db.custom_icons.remove(&icon_id);
    db.deleted_objects.insert(icon_id.uuid(), Some(at));
}

/// Custom icon deleted in the destination but changed in the source since the ancestor → conflict.
#[test]
fn test_icon_tombstone_conflict_deleted_in_dest_changed_in_source() {
    let mut ancestor_db = create_test_database();
    let icon_id = ancestor_db
        .entry_mut(ENTRY1_ID)
        .unwrap()
        .set_icon_custom_new(vec![1, 2, 3, 4])
        .id();
    ancestor_db
        .custom_icon_mut(icon_id)
        .unwrap()
        .get_mut()
        .last_modification_time = Some(ts_at(0));

    let mut destination_db = ancestor_db.clone();
    let mut source_db = ancestor_db.clone();

    tombstone_icon(&mut destination_db, icon_id, ts_at(5));
    {
        let mut si = source_db.custom_icon_mut(icon_id).unwrap();
        si.get_mut().data = vec![5, 6, 7, 8];
        si.get_mut().last_modification_time = Some(ts_at(5));
    }

    let result = destination_db
        .merge_with_ancestor(&source_db, &ancestor_db)
        .unwrap();

    assert_eq!(
        result.warnings.len(),
        1,
        "changing an icon the other side deleted is a conflict"
    );
}

/// Custom icon changed in the destination but deleted in the source since the ancestor → conflict.
#[test]
fn test_icon_tombstone_conflict_changed_in_dest_deleted_in_source() {
    let mut ancestor_db = create_test_database();
    let icon_id = ancestor_db
        .entry_mut(ENTRY1_ID)
        .unwrap()
        .set_icon_custom_new(vec![1, 2, 3, 4])
        .id();
    ancestor_db
        .custom_icon_mut(icon_id)
        .unwrap()
        .get_mut()
        .last_modification_time = Some(ts_at(0));

    let mut destination_db = ancestor_db.clone();
    let mut source_db = ancestor_db.clone();

    {
        let mut di = destination_db.custom_icon_mut(icon_id).unwrap();
        di.get_mut().data = vec![9, 9, 9, 9];
        di.get_mut().last_modification_time = Some(ts_at(5));
    }
    tombstone_icon(&mut source_db, icon_id, ts_at(5));

    let result = destination_db
        .merge_with_ancestor(&source_db, &ancestor_db)
        .unwrap();

    assert_eq!(result.warnings.len(), 1);
}
