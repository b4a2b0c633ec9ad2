//! References to groups.

use vstd::prelude::*;
use crate::database;
use crate::database::Database;
use crate::database::DatabaseModel;
use crate::entry::Entry;
use crate::entry::EntryModel;
use crate::group::DuplicateEntryIdError;
use crate::group::DuplicateGroupIdError;
use crate::group::Group;
use crate::group::GroupModel;
use crate::group::MoveGroupError;
use crate::handles::entry::EntryMut;
use crate::handles::entry::EntryRef;
use crate::ids;
use crate::ids::EntryId;
use crate::ids::GroupId;
use crate::ids::Uuid;
use crate::merge::groups;
use crate::order;
use crate::removal;
use crate::times::Times;
use crate::times::Timestamp;
use crate::tree;

verus! {

/// An immutable reference to a [Group].
pub struct GroupRef<'a> {
    /// The database that owns the group.
    pub database: &'a Database,
    /// The identifier of the group.
    pub id: GroupId,
}

impl<'a> GroupRef<'a> {
    /// Whether the group exists.
    pub open spec fn valid(&self) -> bool {
        self.database.deep_view().groups.contains_key(self.id)
    }

    /// What the group holds.
    pub open spec fn model(&self) -> GroupModel {
        self.database.deep_view().groups[self.id]
    }

    /// A reference to the group with the given identifier.
    pub fn new(database: &'a Database, id: GroupId) -> (result: GroupRef<'a>)
        ensures
            result == (GroupRef { database, id }),
    {
        GroupRef { database, id }
    }

    /// Get an immutable reference to the database that owns this group.
    pub fn database(&self) -> (result: &'a Database)
        ensures
            *result == *self.database,
    {
        self.database
    }

    /// Get the unique identifier for the [Group]
    pub fn id(&self) -> (result: GroupId)
        ensures
            result == self.id,
    {
        self.id
    }

    /// The group itself.
    pub fn get(&self) -> (result: &'a Group)
        requires
            self.valid(),
        ensures
            result.deep_view() == self.model(),
    {
        self.database.groups.get(&self.id).unwrap()
    }

    /// Get a reference to the parent group; the root group has none.
    pub fn parent(&self) -> (result: Option<GroupRef<'a>>)
        requires
            self.valid(),
        ensures
            match result {
                Some(parent) => self.model().parent == Some(parent.id) && *parent.database
                    == *self.database,
                None => self.model().parent is None,
            },
    {
        match self.get().parent {
            Some(id) => Some(GroupRef::new(self.database, id)),
            None => None,
        }
    }

    /// Get the entries in this group, in the order of their identifiers.
    pub fn entries(&self) -> (result: Vec<EntryRef<'a>>)
        requires
            self.valid(),
        ensures
            result@ == order::ordered::<EntryId>(self.model().entries).map_values(
                |id: EntryId| EntryRef { database: self.database, id, history_index: None },
            ),
    {
        let ids = self.get().entries.members();
        let ghost listing = ids.deep_view();
        let ghost expected = listing.map_values(
            |id: EntryId| EntryRef { database: self.database, id, history_index: None },
        );
        let mut result: Vec<EntryRef<'a>> = Vec::new();
        let mut i: usize = 0;
        while i < ids.len()
            invariant
                listing == ids.deep_view(),
                expected == listing.map_values(
                    |id: EntryId| EntryRef { database: self.database, id, history_index: None },
                ),
                i <= ids@.len(),
                result@ == expected.take(i as int),
            decreases ids@.len() - i,
        {
            result.push(EntryRef::new(self.database, ids[i]));
            assert(result@ =~= expected.take(i + 1));
            i += 1;
        }
        assert(expected.take(ids@.len() as int) =~= expected);
        result
    }

    /// Get the groups in this group, in the order of their identifiers.
    pub fn groups(&self) -> (result: Vec<GroupRef<'a>>)
        requires
            self.valid(),
        ensures
            result@ == order::ordered::<GroupId>(self.model().groups).map_values(
                |id: GroupId| GroupRef { database: self.database, id },
            ),
    {
        let ids = self.get().groups.members();
        let ghost listing = ids.deep_view();
        let ghost expected = listing.map_values(
            |id: GroupId| GroupRef { database: self.database, id },
        );
        let mut result: Vec<GroupRef<'a>> = Vec::new();
        let mut i: usize = 0;
        while i < ids.len()
            invariant
                listing == ids.deep_view(),
                expected == listing.map_values(
                    |id: GroupId| GroupRef { database: self.database, id },
                ),
                i <= ids@.len(),
                result@ == expected.take(i as int),
            decreases ids@.len() - i,
        {
            result.push(GroupRef::new(self.database, ids[i]));
            assert(result@ =~= expected.take(i + 1));
            i += 1;
        }
        assert(expected.take(ids@.len() as int) =~= expected);
        result
    }
}

/// A mutable reference to a [Group].
pub struct GroupMut<'a> {
    /// The database that owns it.
    pub database: &'a mut Database,
    /// The identifier.
    pub id: GroupId,
}

impl<'a> GroupMut<'a> {
    /// What the database holds.
    pub open spec fn db(&self) -> DatabaseModel {
        self.database.deep_view()
    }

    /// Whether the object exists.
    pub open spec fn valid(&self) -> bool {
        self.db().groups.contains_key(self.id)
    }

    /// A reference to the object with the given identifier.
    pub fn new(database: &'a mut Database, id: GroupId) -> (result: GroupMut<'a>)
        ensures
            *result.database == *old(database),
            *final(result.database) == *final(database),
            result.id == id,
    {
        GroupMut { database, id }
    }

    /// Get the identifier.
    pub fn id(&self) -> (result: GroupId)
        ensures
            result == self.id,
    {
        self.id
    }

    /// The object itself.
    pub fn get(&self) -> (result: &Group)
        requires
            self.valid(),
        ensures
            result.deep_view() == self.db().groups[self.id],
    {
        self.database.groups.get(&self.id).unwrap()
    }

    /// The object itself, to be changed in place.
    pub fn get_mut(&mut self) -> (result: &mut Group)
        requires
            old(self).valid(),
        ensures
            (*result).deep_view() == old(self).db().groups[old(self).id],
            final(self).db() == (DatabaseModel {
                groups: old(self).db().groups.insert(
                    old(self).id,
                    (*final(result)).deep_view(),
                ),
                ..old(self).db()
            }),
            final(self).id == old(self).id,
            *final(final(self).database) == *final(old(self).database),
    {
        self.database.groups.get_mut(&self.id).unwrap()
    }

    /// Get an immutable reference.
    pub fn as_ref(&self) -> (result: GroupRef<'_>)
        ensures
            result.database.deep_view() == self.db(),
            result.id == self.id,
    {
        GroupRef { database: self.database, id: self.id }
    }

    /// Edit the object with a closure, which is passed a mutable reference to it.
    pub fn edit<F: FnOnce(&mut GroupMut<'_>)>(&mut self, f: F) -> (result: &mut Self)
        requires
            forall|h: &mut GroupMut<'_>| *h == *old(self) ==> call_requires(f, (h,)),
        ensures
            exists|h: &mut GroupMut<'_>|
                *h == *old(self) && #[trigger] call_ensures(f, (h,), ()) && *final(h) == *result,
            *final(result) == *final(self),
    {
        f(self);
        self
    }

    /// Get a mutable reference to the database that owns the object.
    pub fn database_mut(&mut self) -> (result: &mut Database)
        ensures
            *result == *old(self).database,
            *final(self).database == *final(result),
            final(self).id == old(self).id,
            *final(final(self).database) == *final(old(self).database),
    {
        self.database
    }

    /// What the group holds.
    pub open spec fn model(&self) -> GroupModel {
        self.db().groups[self.id]
    }

    /// Get a mutable reference to another group of the database, if it exists.
    pub fn group_mut(&mut self, id: GroupId) -> (result: Option<GroupMut<'_>>)
        ensures
            match result {
                Some(group) => {
                    &&& *group.database == *old(self).database
                    &&& group.id == id
                    &&& group.valid()
                    &&& *final(self).database == *final(group.database)
                },
                None => {
                    &&& !old(self).db().groups.contains_key(id)
                    &&& *final(self).database == *old(self).database
                },
            },
            final(self).id == old(self).id,
            *final(final(self).database) == *final(old(self).database),
    {
        self.database.group_mut(id)
    }

    /// Add a new group with a random identifier to this group.
    pub fn add_group(&mut self) -> (result: GroupMut<'_>)
        requires
            old(self).db().wf(),
            old(self).valid(),
        ensures
            ids::version_four(result.id.0.0),
            !old(self).db().groups.contains_key(result.id),
            exists|now: Timestamp|
                now.is_reading() && result.db() == tree::group_added(
                    old(self).db(),
                    old(self).id,
                    #[trigger] GroupModel::fresh(
                        result.id,
                        Some(old(self).id),
                        Times::fresh(now),
                    ),
                ),
            result.db().wf(),
            result.valid(),
            *final(self).database == *final(result.database),
            final(self).id == old(self).id,
            *final(final(self).database) == *final(old(self).database),
    {
        let id = self.database.unused_group_id();
        let group = Group::with_id(id, Some(self.id));
        let _ = self.database.insert_group(self.id, group);
        GroupMut::new(self.database, id)
    }

    /// Add a new group with the given identifier to this group.
    pub fn add_group_with_id(&mut self, id: GroupId) -> (result: Result<
        GroupMut<'_>,
        DuplicateGroupIdError,
    >)
        requires
            old(self).db().wf(),
            old(self).valid(),
        ensures
            match result {
                Ok(group) => {
                    &&& group.id == id
                    &&& !old(self).db().groups.contains_key(id)
                    &&& exists|now: Timestamp|
                        now.is_reading() && group.db() == tree::group_added(
                            old(self).db(),
                            old(self).id,
                            #[trigger] GroupModel::fresh(
                                id,
                                Some(old(self).id),
                                Times::fresh(now),
                            ),
                        )
                    &&& group.db().wf()
                    &&& group.valid()
                    &&& *final(self).database == *final(group.database)
                },
                Err(error) => {
                    &&& error == DuplicateGroupIdError(id)
                    &&& old(self).db().groups.contains_key(id)
                    &&& final(self).db() == old(self).db()
                },
            },
            final(self).id == old(self).id,
            *final(final(self).database) == *final(old(self).database),
    {
        let group = Group::with_id(id, Some(self.id));
        match self.database.insert_group(self.id, group) {
            Ok(_) => Ok(GroupMut::new(self.database, id)),
            Err(error) => Err(error),
        }
    }

    /// Add a new entry with a random identifier to this group.
    pub fn add_entry(&mut self) -> (result: EntryMut<'_>)
        requires
            old(self).db().wf(),
            old(self).valid(),
        ensures
            ids::version_four(result.id.0.0),
            result.history_index is None,
            !old(self).db().entries.contains_key(result.id),
            exists|now: Timestamp|
                now.is_reading() && result.db() == tree::entry_added(
                    old(self).db(),
                    old(self).id,
                    #[trigger] EntryModel::fresh(result.id, old(self).id, Times::fresh(now)),
                ),
            result.db().wf(),
            result.valid(),
            *final(self).database == *final(result.database),
            final(self).id == old(self).id,
            *final(final(self).database) == *final(old(self).database),
    {
        let id = self.database.unused_entry_id();
        let entry = Entry::with_id(id, self.id);
        let _ = self.database.insert_entry(self.id, entry);
        EntryMut::new(self.database, id)
    }

    /// Add a new entry with the given identifier to this group.
    pub fn add_entry_with_id(&mut self, id: EntryId) -> (result: Result<
        EntryMut<'_>,
        DuplicateEntryIdError,
    >)
        requires
            old(self).db().wf(),
            old(self).valid(),
        ensures
            match result {
                Ok(entry) => {
                    &&& entry.id == id
                    &&& entry.history_index is None
                    &&& !old(self).db().entries.contains_key(id)
                    &&& exists|now: Timestamp|
                        now.is_reading() && entry.db() == tree::entry_added(
                            old(self).db(),
                            old(self).id,
                            #[trigger] EntryModel::fresh(id, old(self).id, Times::fresh(now)),
                        )
                    &&& entry.db().wf()
                    &&& entry.valid()
                    &&& *final(self).database == *final(entry.database)
                },
                Err(error) => {
                    &&& error == DuplicateEntryIdError(id)
                    &&& old(self).db().entries.contains_key(id)
                    &&& final(self).db() == old(self).db()
                },
            },
            final(self).id == old(self).id,
            *final(final(self).database) == *final(old(self).database),
    {
        let entry = Entry::with_id(id, self.id);
        match self.database.insert_entry(self.id, entry) {
            Ok(_) => Ok(EntryMut::new(self.database, id)),
            Err(error) => Err(error),
        }
    }

    /// Move this group into another group.
    pub fn move_to(&mut self, group_id: GroupId) -> (result: Result<(), MoveGroupError>)
        requires
            old(self).db().wf(),
            old(self).valid(),
        ensures
            final(self).db().wf(),
            match result {
                Ok(_) => {
                    &&& tree::move_error(old(self).db(), old(self).id, group_id) is None
                    &&& final(self).db() == tree::group_moved(
                        old(self).db(),
                        old(self).id,
                        group_id,
                    )
                },
                Err(error) => {
                    &&& tree::move_error(old(self).db(), old(self).id, group_id) == Some(error)
                    &&& final(self).db() == old(self).db()
                },
            },
            final(self).id == old(self).id,
            *final(final(self).database) == *final(old(self).database),
    {
        self.database.move_group(self.id, group_id)
    }

    /// Remove this group from the database, with everything below it. The root group stays.
    pub fn remove(self)
        requires
            self.db().wf(),
            self.valid(),
        ensures
            (*final(self.database)).deep_view() == removal::group_removed(self.db(), self.id),
            (*final(self.database)).wf(),
    {
        self.database.remove_group(self.id);
    }

    /// Convert this mutable reference into a variant that notes the times of changes.
    pub fn track_changes(&mut self) -> (result: GroupTrack<'_>)
        ensures
            *result.database == *old(self).database,
            result.id == old(self).id,
            *final(self).database == *final(result.database),
            final(self).id == old(self).id,
            *final(final(self).database) == *final(old(self).database),
    {
        GroupTrack { database: self.database, id: self.id }
    }

    /// Convenience method to edit the group in a closure, noting the time.
    ///
    /// The closure must leave the reference on its database and must not remove the group.
    pub fn edit_tracking<F: FnOnce(&mut GroupMut<'_>)>(&mut self, f: F) -> (result: &mut Self)
        requires
            forall|h: &mut GroupMut<'_>| *h == *old(self) ==> call_requires(f, (h,)),
            forall|h: &mut GroupMut<'_>| #[trigger]
                call_ensures(f, (h,), ()) && *h == *old(self) ==> final(h).valid(),
        ensures
            exists|h: &mut GroupMut<'_>, now: Timestamp|
                {
                    &&& now.is_reading()
                    &&& *h == *old(self)
                    &&& #[trigger] call_ensures(f, (h,), ())
                    &&& result.db() == group_changed(
                        final(h).db(),
                        final(h).id,
                        #[trigger] modified_at(final(h).model(), now),
                    )
                    &&& result.id == final(h).id
                    &&& *final(result.database) == *final(final(h).database)
                },
            *final(result) == *final(self),
    {
        f(self);
        let ghost edited = self.model();
        let now = Times::now();
        let group = self.get_mut();
        group.times.last_modification = Some(now);
        assert(group.deep_view() == modified_at(edited, now));
        self
    }
}

/// The database with a group replaced.
pub open spec fn group_changed(db: DatabaseModel, g: GroupId, group: GroupModel) -> DatabaseModel {
    DatabaseModel { groups: db.groups.insert(g, group), ..db }
}

/// A group that was modified at the given time.
pub open spec fn modified_at(group: GroupModel, now: Timestamp) -> GroupModel {
    GroupModel { times: Times { last_modification: Some(now), ..group.times }, ..group }
}

/// The database with a group removed, with everything below it, and the deletion of each group and
/// entry noted.
pub open spec fn group_deleted(db: DatabaseModel, g: GroupId, now: Timestamp) -> DatabaseModel {
    let removed = removal::group_removed(db, g);
    DatabaseModel {
        deleted_objects: removed.deleted_objects.union_prefer_right(
            Map::new(
                |object: Uuid|
                    removal::subtree(db.groups, g).contains(GroupId(object))
                        || removal::entries_below(db, g).contains(EntryId(object)),
                |object: Uuid| Some(now),
            ),
        ),
        ..removed
    }
}

/// Error type for when the root group is to be removed.
#[derive(Debug, Clone, Copy, PartialEq, Eq, Structural)]
pub struct CannotRemoveRootError(pub GroupId);

/// A mutable reference to a [Group] that notes the times of changes.
pub struct GroupTrack<'a> {
    /// The database that owns the group.
    pub database: &'a mut Database,
    /// The identifier of the group.
    pub id: GroupId,
}

impl<'a> GroupTrack<'a> {
    /// What the database holds.
    pub open spec fn db(&self) -> DatabaseModel {
        self.database.deep_view()
    }

    /// Whether the group exists.
    pub open spec fn valid(&self) -> bool {
        self.db().groups.contains_key(self.id)
    }

    /// What the group holds.
    pub open spec fn model(&self) -> GroupModel {
        self.db().groups[self.id]
    }

    /// Turn this reference into a normal mutable reference to the group
    pub fn as_mut(&mut self) -> (result: GroupMut<'_>)
        ensures
            *result.database == *old(self).database,
            result.id == old(self).id,
            *final(self).database == *final(result.database),
            final(self).id == old(self).id,
            *final(final(self).database) == *final(old(self).database),
    {
        GroupMut { database: self.database, id: self.id }
    }

    /// The group itself, to be changed in place.
    pub fn get_mut(&mut self) -> (result: &mut Group)
        requires
            old(self).valid(),
        ensures
            (*result).deep_view() == old(self).model(),
            final(self).db() == group_changed(
                old(self).db(),
                old(self).id,
                (*final(result)).deep_view(),
            ),
            final(self).id == old(self).id,
            *final(final(self).database) == *final(old(self).database),
    {
        self.database.groups.get_mut(&self.id).unwrap()
    }

    /// Convenience method to edit the group in a closure, noting the time.
    pub fn edit<F: FnOnce(&mut GroupTrack<'_>)>(&mut self, f: F) -> (result: &mut Self)
        requires
            forall|t: &mut GroupTrack<'_>| *t == *old(self) ==> call_requires(f, (t,)),
            forall|t: &mut GroupTrack<'_>| #[trigger]
                call_ensures(f, (t,), ()) && *t == *old(self) ==> final(t).valid(),
        ensures
            exists|t: &mut GroupTrack<'_>, now: Timestamp|
                {
                    &&& now.is_reading()
                    &&& *t == *old(self)
                    &&& #[trigger] call_ensures(f, (t,), ())
                    &&& result.db() == group_changed(
                        final(t).db(),
                        final(t).id,
                        #[trigger] modified_at(final(t).model(), now),
                    )
                    &&& result.id == final(t).id
                    &&& *final(result.database) == *final(final(t).database)
                },
            *final(result) == *final(self),
    {
        f(self);
        let ghost edited = self.model();
        let now = Times::now();
        let group = self.get_mut();
        group.times.last_modification = Some(now);
        assert(group.deep_view() == modified_at(edited, now));
        self
    }

    /// Move this group into another group, noting the time.
    pub fn move_to(&mut self, group_id: GroupId) -> (result: Result<(), MoveGroupError>)
        requires
            old(self).db().wf(),
            old(self).valid(),
        ensures
            final(self).db().wf(),
            match result {
                Ok(_) => {
                    &&& tree::move_error(old(self).db(), old(self).id, group_id) is None
                    &&& exists|now: Timestamp|
                        now.is_reading() && final(self).db() == #[trigger] group_moved_at(
                            old(self).db(),
                            old(self).id,
                            group_id,
                            now,
                        )
                },
                Err(error) => {
                    &&& tree::move_error(old(self).db(), old(self).id, group_id) == Some(error)
                    &&& final(self).db() == old(self).db()
                },
            },
            final(self).id == old(self).id,
            *final(final(self).database) == *final(old(self).database),
    {
        let ghost before = self.db();
        match self.database.move_group(self.id, group_id) {
            Ok(_) => {
                let now = Times::now();
                let ghost moved = self.database.deep_view();
                proof {
                    assert(database::group_placed(before.groups, before.root, self.id));
                    assert(moved.groups.contains_key(self.id));
                }
                let group = self.get_mut();
                group.times.location_changed = Some(now);
                proof {
                    assert(group.deep_view() == groups::relocated_at(moved.groups[self.id], now));
                    groups::lemma_group_changed_wf(moved, old(self).id, group.deep_view());
                    assert(group_changed(moved, old(self).id, group.deep_view())
                        == group_moved_at(before, old(self).id, group_id, now));
                }
                Ok(())
            },
            Err(error) => Err(error),
        }
    }

    /// Remove this group from the database, with everything below it, noting the deletion of each
    /// group and entry. The root group cannot be removed.
    pub fn remove(self) -> (result: Result<(), CannotRemoveRootError>)
        requires
            self.db().wf(),
            self.valid(),
        ensures
            (*final(self.database)).wf(),
            match result {
                Ok(_) => {
                    &&& self.model().parent is Some
                    &&& exists|now: Timestamp|
                        now.is_reading() && (*final(self.database)).deep_view() == #[trigger] group_deleted(
                            self.db(),
                            self.id,
                            now,
                        )
                },
                Err(error) => {
                    &&& error == CannotRemoveRootError(self.id)
                    &&& self.model().parent is None
                    &&& (*final(self.database)).deep_view() == self.db()
                },
            },
    {
        let ghost before = self.db();
        let id = self.id;
        let database = self.database;
        let now = Times::now();
        let parent = database.groups.get(&id).unwrap().parent;
        if parent.is_none() {
            return Err(CannotRemoveRootError(id));
        }
        let doomed = database.subtree_of(id);
        let gone = database.entries_within(id);
        database.remove_group(id);
        let ghost removed = database.deep_view();
        let group_ids = doomed.members();
        let ghost first = group_ids.deep_view();
        let mut i: usize = 0;
        proof {
            assert(removed.deleted_objects =~= removed.deleted_objects.union_prefer_right(
                Map::new(
                    |object: Uuid| first.take(0).contains(GroupId(object)),
                    |object: Uuid| Some(now),
                ),
            ));
        }
        while i < group_ids.len()
            invariant
                first == group_ids.deep_view(),
                i <= group_ids@.len(),
                database.deep_view() == (DatabaseModel {
                    deleted_objects: database.deep_view().deleted_objects,
                    ..removed
                }),
                database.deep_view().deleted_objects
                    == removed.deleted_objects.union_prefer_right(
                    Map::new(
                        |object: Uuid| first.take(i as int).contains(GroupId(object)),
                        |object: Uuid| Some(now),
                    ),
                ),
            decreases group_ids@.len() - i,
        {
            database.deleted_objects.insert(group_ids[i].uuid(), Some(now));
            proof {
                order::lemma_take_next(first, i as int);
                assert(database.deep_view().deleted_objects
                    =~= removed.deleted_objects.union_prefer_right(
                    Map::new(
                        |object: Uuid| first.take(i + 1).contains(GroupId(object)),
                        |object: Uuid| Some(now),
                    ),
                ));
            }
            i += 1;
        }
        proof {
            assert(first.take(first.len() as int) =~= first);
        }
        let entry_ids = gone.members();
        let ghost second = entry_ids.deep_view();
        let mut i: usize = 0;
        proof {
            assert(database.deep_view().deleted_objects
                =~= removed.deleted_objects.union_prefer_right(
                Map::new(
                    |object: Uuid|
                        first.contains(GroupId(object)) || second.take(0).contains(
                            EntryId(object),
                        ),
                    |object: Uuid| Some(now),
                ),
            ));
        }
        while i < entry_ids.len()
            invariant
                second == entry_ids.deep_view(),
                i <= entry_ids@.len(),
                database.deep_view() == (DatabaseModel {
                    deleted_objects: database.deep_view().deleted_objects,
                    ..removed
                }),
                database.deep_view().deleted_objects
                    == removed.deleted_objects.union_prefer_right(
                    Map::new(
                        |object: Uuid|
                            first.contains(GroupId(object)) || second.take(i as int).contains(
                                EntryId(object),
                            ),
                        |object: Uuid| Some(now),
                    ),
                ),
            decreases entry_ids@.len() - i,
        {
            database.deleted_objects.insert(entry_ids[i].uuid(), Some(now));
            proof {
                order::lemma_take_next(second, i as int);
                assert(database.deep_view().deleted_objects
                    =~= removed.deleted_objects.union_prefer_right(
                    Map::new(
                        |object: Uuid|
                            first.contains(GroupId(object)) || second.take(i + 1).contains(
                                EntryId(object),
                            ),
                        |object: Uuid| Some(now),
                    ),
                ));
            }
            i += 1;
        }
        proof {
            assert(second.take(second.len() as int) =~= second);
            assert forall|object: Uuid| first.contains(GroupId(object)) <==> #[trigger]
                removal::subtree(before.groups, id).contains(GroupId(object)) by {
                assert(doomed.deep_view().contains(GroupId(object)) <==> first.contains(
                    GroupId(object),
                ));
            }
            assert forall|object: Uuid| second.contains(EntryId(object)) <==> #[trigger]
                removal::entries_below(before, id).contains(EntryId(object)) by {
                assert(gone.deep_view().contains(EntryId(object)) <==> second.contains(
                    EntryId(object),
                ));
            }
            assert(database.deep_view().deleted_objects =~= group_deleted(
                before,
                id,
                now,
            ).deleted_objects);
            assert(database.deep_view() =~= group_deleted(before, id, now));
        }
        Ok(())
    }
}

/// The database with a group moved into another at the given time.
pub open spec fn group_moved_at(
    db: DatabaseModel,
    g: GroupId,
    to: GroupId,
    now: Timestamp,
) -> DatabaseModel {
    let moved = tree::group_moved(db, g, to);
    group_changed(moved, g, groups::relocated_at(moved.groups[g], now))
}

} // verus!
