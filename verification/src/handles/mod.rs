//! References to the objects of a database, by which they are read and changed in their place.

pub mod attachment;
pub mod entry;
pub mod group;
pub mod icon;
pub mod visit;

use vstd::prelude::*;
use crate::database::Database;
use crate::database::DatabaseModel;
use crate::entry::Entry;
use crate::entry::EntryModel;
use crate::entry::History;
use crate::handles::attachment::AttachmentMut;
use crate::handles::attachment::AttachmentRef;
use crate::handles::entry::EntryMut;
use crate::handles::entry::EntryRef;
use crate::handles::group::GroupMut;
use crate::handles::group::GroupRef;
use crate::handles::icon::CustomIconMut;
use crate::handles::icon::CustomIconRef;
use crate::ids::AttachmentId;
use crate::ids::CustomIconId;
use crate::ids::EntryId;
use crate::ids::GroupId;
use crate::references::VersionId;
use crate::references::VersionModel;

verus! {

/// The database with a version of an entry replaced.
pub open spec fn version_changed(
    db: DatabaseModel,
    v: VersionModel,
    version: EntryModel,
) -> DatabaseModel {
    DatabaseModel {
        entries: db.entries.insert(
            v.entry,
            db.entries[v.entry].with_version_replaced(v.index, version),
        ),
        ..db
    }
}

/// Whether references refer to the listed versions, one by one.
pub open spec fn refers_to_versions(
    refs: Seq<EntryRef<'_>>,
    database: &Database,
    versions: Seq<VersionModel>,
) -> bool {
    &&& refs.len() == versions.len()
    &&& forall|i: int|
        0 <= i < refs.len() ==> (#[trigger] refs[i]).target() == versions[i] && *refs[i].database
            == *database
}

/// References to versions of entries.
pub(crate) fn references_to<'a>(database: &'a Database, versions: &Vec<VersionId>) -> (result: Vec<
    EntryRef<'a>,
>)
    ensures
        refers_to_versions(result@, database, versions.deep_view()),
        (forall|i: int|
            0 <= i < versions@.len() ==> database.deep_view().has_version(
                #[trigger] versions.deep_view()[i],
            )) ==> forall|i: int| 0 <= i < result@.len() ==> (#[trigger] result@[i]).valid(),
{
    let mut result: Vec<EntryRef<'a>> = Vec::new();
    let mut i: usize = 0;
    while i < versions.len()
        invariant
            i <= versions@.len(),
            result@.len() == i,
            forall|j: int|
                0 <= j < i ==> (#[trigger] result@[j]).target() == versions.deep_view()[j]
                    && *result@[j].database == *database,
        decreases versions@.len() - i,
    {
        let v = versions[i];
        result.push(EntryRef::new_historical(database, v.entry, v.index));
        i += 1;
    }
    proof {
        assert forall|j: int|
            0 <= j < result@.len() && database.deep_view().has_version(
                versions.deep_view()[j],
            ) implies (#[trigger] result@[j]).valid() by {
            assert(result@[j].target() == versions.deep_view()[j]);
        }
    }
    result
}

impl History {
    /// A version of the history, to be changed in place.
    pub fn entry_mut(&mut self, n: usize) -> (result: &mut Entry)
        requires
            n < old(self).entries@.len(),
        ensures
            (*result).model() == old(self).model()[n as int],
            final(self).model() == old(self).model().update(n as int, (*final(result)).model()),
    {
        let ghost versions = self.entries@;
        let ghost before = self.model();
        let result = &mut self.entries[n];
        proof {
            assert forall|history: History|
                history.entries@ == versions.update(n as int, history.entries@[n as int]) implies
                #[trigger] history.model() == before.update(
                n as int,
                history.entries@[n as int].model(),
            ) by {
                assert(history.model() =~= before.update(
                    n as int,
                    history.entries@[n as int].model(),
                ));
            }
        }
        result
    }
}

impl Database {
    /// A version of an entry, if it exists.
    pub fn version(&self, v: VersionId) -> (result: Option<&Entry>)
        ensures
            match result {
                Some(version) => self.deep_view().has_version(v.deep_view()) && version.model()
                    == self.deep_view().version(v.deep_view()),
                None => !self.deep_view().has_version(v.deep_view()),
            },
    {
        match self.entries.get(&v.entry) {
            Some(entry) => match v.index {
                None => Some(entry),
                Some(n) => match &entry.history {
                    Some(history) => if n < history.entries.len() {
                        Some(&history.entries[n])
                    } else {
                        None
                    },
                    None => None,
                },
            },
            None => None,
        }
    }

    /// A version of an entry, to be changed in place, if it exists.
    pub fn version_mut(&mut self, v: VersionId) -> (result: Option<&mut Entry>)
        ensures
            match result {
                Some(version) => {
                    &&& old(self).deep_view().has_version(v.deep_view())
                    &&& (*version).model() == old(self).deep_view().version(v.deep_view())
                    &&& final(self).deep_view() == version_changed(
                        old(self).deep_view(),
                        v.deep_view(),
                        (*final(version)).model(),
                    )
                },
                None => !old(self).deep_view().has_version(v.deep_view()) && *final(self) == *old(self),
            },
    {
        if self.version(v).is_none() {
            return None;
        }
        match self.entries.get_mut(&v.entry) {
            Some(entry) => match v.index {
                None => Some(entry),
                Some(n) => match &mut entry.history {
                    Some(history) => Some(history.entry_mut(n)),
                    None => None,
                },
            },
            None => None,
        }
    }

    /// Get an immutable reference to the root group of the database.
    pub fn root(&self) -> (result: GroupRef<'_>)
        ensures
            result == (GroupRef { database: self, id: self.root }),
    {
        GroupRef::new(self, self.root)
    }

    /// Get an immutable reference to the recycle bin group, if it exists
    pub fn recycle_bin(&self) -> (result: Option<GroupRef<'_>>)
        ensures
            match result {
                Some(group) => {
                    &&& self.meta.recyclebin_uuid == Some(group.id.0)
                    &&& *group.database == *self
                    &&& group.valid()
                },
                None => match self.meta.recyclebin_uuid {
                    Some(uuid) => !self.deep_view().groups.contains_key(GroupId(uuid)),
                    None => true,
                },
            },
    {
        match self.meta.recyclebin_uuid {
            Some(uuid) => self.group(GroupId::from_uuid(uuid)),
            None => None,
        }
    }

    /// Get an immutable reference to the attachment with the given ID, if it exists
    pub fn attachment(&self, id: AttachmentId) -> (result: Option<AttachmentRef<'_>>)
        ensures
            match result {
                Some(attachment) => attachment == (AttachmentRef { database: self, id })
                    && attachment.valid(),
                None => !self.deep_view().attachments.contains_key(id),
            },
    {
        if self.attachments.contains_key(&id) {
            Some(AttachmentRef::new(self, id))
        } else {
            None
        }
    }

    /// Get an immutable reference to the custom icon with the given ID, if it exists
    pub fn custom_icon(&self, id: CustomIconId) -> (result: Option<CustomIconRef<'_>>)
        ensures
            match result {
                Some(icon) => icon == (CustomIconRef { database: self, id }) && icon.valid(),
                None => !self.deep_view().custom_icons.contains_key(id),
            },
    {
        if self.custom_icons.contains_key(&id) {
            Some(CustomIconRef::new(self, id))
        } else {
            None
        }
    }

    /// Get an immutable reference to the entry with the given ID, if it exists
    pub fn entry(&self, id: EntryId) -> (result: Option<EntryRef<'_>>)
        ensures
            match result {
                Some(entry) => entry == (EntryRef { database: self, id, history_index: None })
                    && entry.valid(),
                None => !self.deep_view().entries.contains_key(id),
            },
    {
        if self.entries.contains_key(&id) {
            Some(EntryRef::new(self, id))
        } else {
            None
        }
    }

    /// Get an immutable reference to the group with the given ID, if it exists
    pub fn group(&self, id: GroupId) -> (result: Option<GroupRef<'_>>)
        ensures
            match result {
                Some(group) => group == (GroupRef { database: self, id }) && group.valid(),
                None => !self.deep_view().groups.contains_key(id),
            },
    {
        if self.groups.contains_key(&id) {
            Some(GroupRef::new(self, id))
        } else {
            None
        }
    }

    /// Get a mutable reference to the attachment with the given ID, if it exists
    pub fn attachment_mut(&mut self, id: AttachmentId) -> (result: Option<AttachmentMut<'_>>)
        ensures
            match result {
                Some(reference) => {
                    &&& *reference.database == *old(self)
                    &&& reference.id == id
                    &&& reference.valid()
                    &&& *final(self) == *final(reference.database)
                },
                None => !old(self).deep_view().attachments.contains_key(id) && *final(self) == *old(self),
            },
    {
        if self.attachments.contains_key(&id) {
            Some(AttachmentMut::new(self, id))
        } else {
            None
        }
    }

    /// Get a mutable reference to the custom icon with the given ID, if it exists
    pub fn custom_icon_mut(&mut self, id: CustomIconId) -> (result: Option<CustomIconMut<'_>>)
        ensures
            match result {
                Some(reference) => {
                    &&& *reference.database == *old(self)
                    &&& reference.id == id
                    &&& reference.valid()
                    &&& *final(self) == *final(reference.database)
                },
                None => !old(self).deep_view().custom_icons.contains_key(id) && *final(self) == *old(self),
            },
    {
        if self.custom_icons.contains_key(&id) {
            Some(CustomIconMut::new(self, id))
        } else {
            None
        }
    }

    /// Get a mutable reference to the entry with the given ID, if it exists
    pub fn entry_mut(&mut self, id: EntryId) -> (result: Option<EntryMut<'_>>)
        ensures
            match result {
                Some(reference) => {
                    &&& *reference.database == *old(self)
                    &&& reference.id == id
                    &&& reference.valid()
                    &&& *final(self) == *final(reference.database)
                    &&& reference.history_index is None
                },
                None => !old(self).deep_view().entries.contains_key(id) && *final(self) == *old(self),
            },
    {
        if self.entries.contains_key(&id) {
            Some(EntryMut::new(self, id))
        } else {
            None
        }
    }

    /// Get a mutable reference to the group with the given ID, if it exists
    pub fn group_mut(&mut self, id: GroupId) -> (result: Option<GroupMut<'_>>)
        ensures
            match result {
                Some(reference) => {
                    &&& *reference.database == *old(self)
                    &&& reference.id == id
                    &&& reference.valid()
                    &&& *final(self) == *final(reference.database)
                },
                None => !old(self).deep_view().groups.contains_key(id) && *final(self) == *old(self),
            },
    {
        if self.groups.contains_key(&id) {
            Some(GroupMut::new(self, id))
        } else {
            None
        }
    }

    /// Get a mutable reference to the root group of the database.
    pub fn root_mut(&mut self) -> (result: GroupMut<'_>)
        ensures
            *result.database == *old(self),
            result.id == old(self).root,
            *final(self) == *final(result.database),
    {
        let root = self.root;
        GroupMut::new(self, root)
    }

    /// Get a mutable reference to the recycle bin group, if it exists
    pub fn recycle_bin_mut(&mut self) -> (result: Option<GroupMut<'_>>)
        ensures
            match result {
                Some(group) => {
                    &&& old(self).meta.recyclebin_uuid == Some(group.id.0)
                    &&& *group.database == *old(self)
                    &&& group.valid()
                    &&& *final(self) == *final(group.database)
                },
                None => {
                    &&& match old(self).meta.recyclebin_uuid {
                        Some(uuid) => !old(self).deep_view().groups.contains_key(GroupId(uuid)),
                        None => true,
                    }
                    &&& *final(self) == *old(self)
                },
            },
    {
        match self.meta.recyclebin_uuid {
            Some(uuid) => self.group_mut(GroupId::from_uuid(uuid)),
            None => None,
        }
    }
}

} // verus!
