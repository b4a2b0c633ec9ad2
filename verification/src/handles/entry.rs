//! References to entries.

use vstd::prelude::*;
use crate::attachment;
use crate::attachment::Attachment;
use crate::attachment::AttachmentModel;
use crate::content::Content;
use crate::database::Database;
use crate::database::DatabaseModel;
use crate::entry;
use crate::entry::Entry;
use crate::entry::EntryModel;
use crate::entry::History;
use crate::group::DestinationGroupNotFoundError;
use crate::handles;
use crate::handles::attachment::AttachmentMut;
use crate::handles::attachment::AttachmentRef;
use crate::handles::group::GroupMut;
use crate::handles::group::GroupRef;
use crate::handles::icon::CustomIconMut;
use crate::handles::icon::CustomIconRef;
use crate::icon::CustomIcon;
use crate::icon::CustomIconModel;
use crate::icon::CustomIconNotFoundError;
use crate::icon::Icon;
use crate::ids;
use crate::ids::AttachmentId;
use crate::ids::CustomIconId;
use crate::ids::EntryId;
use crate::ids::GroupId;
use crate::laws::upkeep;
use crate::merge::entries;
use crate::order;
use crate::order::Key;
use crate::references;
use crate::references::VersionId;
use crate::references::VersionModel;
use crate::remap::Names;
use crate::removal;
use crate::sorted_map::SortedMap;
use crate::sorted_set::SortedSet;
use crate::times::Times;
use crate::times::Timestamp;
use crate::tree;
use crate::value::Value;

verus! {

/// An immutable reference to an [Entry], live or historical.
pub struct EntryRef<'a> {
    /// The database that owns the entry.
    pub database: &'a Database,
    /// The identifier of the entry.
    pub id: EntryId,
    /// The index of the version in the history; none for the live version.
    pub history_index: Option<usize>,
}

impl<'a> EntryRef<'a> {
    /// The version that is referred to.
    pub open spec fn target(&self) -> VersionModel {
        VersionModel { entry: self.id, index: references::position(self.history_index) }
    }

    /// Whether the version exists.
    pub open spec fn valid(&self) -> bool {
        self.database.deep_view().has_version(self.target())
    }

    /// What the version holds.
    pub open spec fn model(&self) -> EntryModel {
        self.database.deep_view().version(self.target())
    }

    /// A reference to the live version of an entry.
    pub fn new(database: &'a Database, id: EntryId) -> (result: EntryRef<'a>)
        ensures
            result == (EntryRef { database, id, history_index: None }),
    {
        EntryRef { database, id, history_index: None }
    }

    /// A reference to a version of an entry.
    pub fn new_historical(
        database: &'a Database,
        id: EntryId,
        history_index: Option<usize>,
    ) -> (result: EntryRef<'a>)
        ensures
            result == (EntryRef { database, id, history_index }),
    {
        EntryRef { database, id, history_index }
    }

    /// The version itself.
    pub fn get_entry(&self) -> (result: &'a Entry)
        requires
            self.valid(),
        ensures
            result.model() == self.model(),
    {
        self.database.version(VersionId { entry: self.id, index: self.history_index }).unwrap()
    }

    /// Get the unique identifier for the [Entry]
    pub fn id(&self) -> (result: EntryId)
        ensures
            result == self.id,
    {
        self.id
    }

    /// Get a field by name, taking care of unprotecting Protected values automatically
    pub fn get(&self, key: &str) -> (result: Option<&'a str>)
        requires
            self.valid(),
        ensures
            match result {
                Some(text) => self.model().fields.contains_key(key@)
                    && self.model().fields[key@].content() == text@,
                None => !self.model().fields.contains_key(key@),
            },
    {
        self.get_entry().get(key)
    }

    /// Get a reference to the parent group of this entry.
    pub fn parent(&self) -> (result: GroupRef<'a>)
        requires
            self.valid(),
            self.database.deep_view().groups.contains_key(self.model().parent),
        ensures
            result == (GroupRef { database: self.database, id: self.model().parent }),
            result.valid(),
    {
        GroupRef::new(self.database, self.get_entry().parent)
    }

    /// Get a reference to the previous parent group, if any
    pub fn previous_parent(&self) -> (result: Option<GroupRef<'a>>)
        requires
            self.valid(),
        ensures
            match result {
                Some(group) => {
                    &&& self.model().previous_parent_group == Some(group.id)
                    &&& *group.database == *self.database
                    &&& group.valid()
                },
                None => match self.model().previous_parent_group {
                    Some(id) => !self.database.deep_view().groups.contains_key(id),
                    None => true,
                },
            },
    {
        match self.get_entry().previous_parent_group {
            Some(id) => self.database.group(id),
            None => None,
        }
    }

    /// Gets an [EntryRef] to a historical version of the [Entry], if it exists
    pub fn historical(&self, index: usize) -> (result: Option<EntryRef<'a>>)
        requires
            self.valid(),
        ensures
            match result {
                Some(version) => {
                    &&& self.model().has_version(Some(index as int))
                    &&& version == (EntryRef { history_index: Some(index), ..*self })
                    &&& self.history_index is None ==> version.valid()
                },
                None => !self.model().has_version(Some(index as int)),
            },
    {
        match &self.get_entry().history {
            Some(history) => if index < history.entries.len() {
                Some(
                    EntryRef {
                        database: self.database,
                        id: self.id,
                        history_index: Some(index),
                    },
                )
            } else {
                None
            },
            None => None,
        }
    }

    /// Get a reference to the underlying database
    pub fn database(&self) -> (result: &'a Database)
        ensures
            *result == *self.database,
    {
        self.database
    }

    /// Get a reference to an attachment by id, if it exists.
    pub fn attachment(&self, id: AttachmentId) -> (result: Option<AttachmentRef<'a>>)
        requires
            self.valid(),
        ensures
            match result {
                Some(attachment) => {
                    &&& references::refers(self.model().attachments, id)
                    &&& attachment == (AttachmentRef { database: self.database, id })
                },
                None => !references::refers(self.model().attachments, id),
            },
    {
        if references::refers_to(&self.get_entry().attachments, id) {
            Some(AttachmentRef::new(self.database, id))
        } else {
            None
        }
    }

    /// Get a reference to an attachment by name, if it exists.
    pub fn attachment_by_name(&self, name: &str) -> (result: Option<AttachmentRef<'a>>)
        requires
            self.valid(),
        ensures
            match result {
                Some(attachment) => {
                    &&& self.model().attachments.contains_key(name@)
                    &&& attachment == (AttachmentRef {
                        database: self.database,
                        id: self.model().attachments[name@],
                    })
                },
                None => !self.model().attachments.contains_key(name@),
            },
    {
        match self.get_entry().attachments.get(&name.to_owned()) {
            Some(id) => Some(AttachmentRef::new(self.database, *id)),
            None => None,
        }
    }

    /// Get the attachments of this entry, in the order of their names.
    pub fn attachments(&self) -> (result: Vec<AttachmentRef<'a>>)
        requires
            self.valid(),
        ensures
            result@ == order::ordered::<String>(self.model().attachments.dom()).map_values(
                |name: Seq<char>|
                    AttachmentRef {
                        database: self.database,
                        id: self.model().attachments[name],
                    },
            ),
    {
        let names = &self.get_entry().attachments;
        let ghost listing = order::ordered::<String>(names.deep_view().dom());
        let ghost expected = listing.map_values(
            |name: Seq<char>|
                AttachmentRef { database: self.database, id: names.deep_view()[name] },
        );
        let count: usize = names.len();
        let mut result: Vec<AttachmentRef<'a>> = Vec::new();
        let mut i: usize = 0;
        while i < count
            invariant
                listing == order::ordered::<String>(names.deep_view().dom()),
                expected == listing.map_values(
                    |name: Seq<char>|
                        AttachmentRef { database: self.database, id: names.deep_view()[name] },
                ),
                i <= count == listing.len(),
                result@ == expected.take(i as int),
            decreases count - i,
        {
            result.push(AttachmentRef::new(self.database, *names.value_at(i)));
            assert(result@ =~= expected.take(i + 1));
            i += 1;
        }
        assert(expected.take(count as int) =~= expected);
        result
    }

    /// Get the (name, attachment) pairs of this entry, in the order of the names.
    ///
    /// Useful when callers need both the attachment's filename (the key under which it is stored on
    /// the entry) and its data, since [`AttachmentRef`] itself does not expose the per-entry name.
    pub fn attachments_named(&self) -> (result: Vec<(&'a str, AttachmentRef<'a>)>)
        requires
            self.valid(),
        ensures
            result@.len() == order::ordered::<String>(self.model().attachments.dom()).len(),
            forall|i: int|
                0 <= i < result@.len() ==> {
                    &&& (#[trigger] result@[i]).0@ == order::ordered::<String>(
                        self.model().attachments.dom(),
                    )[i]
                    &&& result@[i].1 == (AttachmentRef {
                        database: self.database,
                        id: self.model().attachments[result@[i].0@],
                    })
                },
    {
        let names = &self.get_entry().attachments;
        let ghost listing = order::ordered::<String>(names.deep_view().dom());
        let count: usize = names.len();
        let mut result: Vec<(&'a str, AttachmentRef<'a>)> = Vec::new();
        let mut i: usize = 0;
        while i < count
            invariant
                listing == order::ordered::<String>(names.deep_view().dom()),
                i <= count == listing.len(),
                result@.len() == i,
                forall|j: int|
                    0 <= j < i ==> {
                        &&& (#[trigger] result@[j]).0@ == listing[j]
                        &&& result@[j].1 == (AttachmentRef {
                            database: self.database,
                            id: names.deep_view()[result@[j].0@],
                        })
                    },
            decreases count - i,
        {
            result.push(
                (
                    names.key_at(i).as_str(),
                    AttachmentRef::new(self.database, *names.value_at(i)),
                ),
            );
            i += 1;
        }
        result
    }

    /// Get the custom icon of this entry, if it exists and is a custom icon.
    pub fn custom_icon(&self) -> (result: Option<CustomIconRef<'a>>)
        requires
            self.valid(),
        ensures
            match result {
                Some(icon) => {
                    &&& self.model().icon == Some(Icon::Custom(icon.id))
                    &&& *icon.database == *self.database
                },
                None => !(self.model().icon matches Some(Icon::Custom(_))),
            },
    {
        match self.get_entry().icon {
            Some(Icon::Custom(id)) => Some(CustomIconRef::new(self.database, id)),
            _ => None,
        }
    }
}

/// A version with one field set.
pub open spec fn with_field(
    version: EntryModel,
    key: Seq<char>,
    value: Value<Seq<char>>,
) -> EntryModel {
    EntryModel { fields: version.fields.insert(key, value), ..version }
}

/// A version with another icon.
pub open spec fn with_icon(version: EntryModel, icon: Option<Icon>) -> EntryModel {
    EntryModel { icon, ..version }
}

/// A version that was modified at the given time.
pub open spec fn modified_at(version: EntryModel, now: Timestamp) -> EntryModel {
    EntryModel { times: Times { last_modification: Some(now), ..version.times }, ..version }
}

/// The names that do not stand for an attachment.
pub open spec fn names_without(names: Names, a: AttachmentId) -> Names {
    Map::new(
        |name: Seq<char>| names.contains_key(name) && names[name] != a,
        |name: Seq<char>| names[name],
    )
}

/// The database with new data under the least free identifier, and a name for it in a version of
/// an entry. What the name stood for before is dropped from that version.
pub open spec fn attachment_added(
    db: DatabaseModel,
    v: VersionModel,
    name: Seq<char>,
    data: Value<Seq<u8>>,
) -> DatabaseModel {
    let id = attachment::least_free(db.attachments);
    let version = db.version(v);
    let names = version.attachments.insert(name, id);
    handles::version_changed(
        DatabaseModel { attachments: db.attachments.insert(id, AttachmentModel { id, data }), ..db },
        v,
        EntryModel {
            attachments: if version.attachments.contains_key(name) {
                names_without(names, version.attachments[name])
            } else {
                names
            },
            ..version
        },
    )
}

/// A new custom icon.
pub open spec fn fresh_icon(id: CustomIconId, data: Seq<u8>, now: Timestamp) -> CustomIconModel {
    CustomIconModel {
        id,
        groups: Set::empty(),
        name: None,
        last_modification_time: Some(now),
        data,
    }
}

/// The database with a new custom icon, which a version of an entry shows.
pub open spec fn icon_created(
    db: DatabaseModel,
    v: VersionModel,
    icon: CustomIconModel,
) -> DatabaseModel {
    handles::version_changed(
        DatabaseModel { custom_icons: db.custom_icons.insert(icon.id, icon), ..db },
        v,
        with_icon(db.version(v), Some(Icon::Custom(icon.id))),
    )
}

/// Drops all names that stand for an attachment.
pub(crate) fn drop_names(names: &mut SortedMap<String, AttachmentId>, a: AttachmentId)
    ensures
        final(names).deep_view() == names_without(old(names).deep_view(), a),
        upkeep::left_without(final(names).deep_view(), old(names).deep_view(), a),
{
    let ghost before = names.deep_view();
    let all = names.keys();
    let ghost listing = all.deep_view();
    let mut i: usize = 0;
    while i < all.len()
        invariant
            listing == all.deep_view(),
            order::lists::<String>(listing, before.dom()),
            i <= all@.len(),
            forall|name: Seq<char>| #[trigger]
                names.deep_view().contains_key(name) <==> before.contains_key(name) && !(
                listing.take(i as int).contains(name) && before[name] == a),
            forall|name: Seq<char>| #[trigger]
                names.deep_view().contains_key(name) ==> names.deep_view()[name] == before[name],
        decreases all@.len() - i,
    {
        let ghost name = listing[i as int];
        proof {
            order::lemma_take_next(listing, i as int);
            assert(all@[i as int]@ == name);
            assert(listing.contains(name));
            assert(before.dom().contains(name));
        }
        let found = match names.get(&all[i]) {
            Some(id) => *id == a,
            None => false,
        };
        if found {
            names.remove(&all[i]);
        }
        i += 1;
    }
    proof {
        assert(listing.take(listing.len() as int) =~= listing);
        assert forall|name: Seq<char>| #[trigger] before.contains_key(name) implies listing.contains(
            name,
        ) by {
            assert(before.dom().contains(name));
        }
        assert(names.deep_view() =~= names_without(before, a));
    }
}

/// A mutable reference to an [Entry], live or historical.
pub struct EntryMut<'a> {
    /// The database that owns the entry.
    pub database: &'a mut Database,
    /// The identifier of the entry.
    pub id: EntryId,
    /// The index of the version in the history; none for the live version.
    pub history_index: Option<usize>,
}

/// Whether some name stands for the one attachment, and a later name for the other.
pub open spec fn stands_later(
    names: Map<Seq<char>, AttachmentId>,
    visited: AttachmentId,
    other: AttachmentId,
) -> bool {
    exists|a: Seq<char>, b: Seq<char>|
        #![trigger names[a], names[b]]
        names.contains_key(a) && names.contains_key(b) && String::precedes(a, b) && names[a]
            == visited && names[b] == other
}

impl<'a> EntryMut<'a> {
    /// The version that is referred to.
    pub open spec fn target(&self) -> VersionModel {
        VersionModel { entry: self.id, index: references::position(self.history_index) }
    }

    /// What the database holds.
    pub open spec fn db(&self) -> DatabaseModel {
        self.database.deep_view()
    }

    /// Whether the version exists.
    pub open spec fn valid(&self) -> bool {
        self.db().has_version(self.target())
    }

    /// What the version holds.
    pub open spec fn model(&self) -> EntryModel {
        self.db().version(self.target())
    }

    /// A reference to the live version of an entry.
    pub fn new(database: &'a mut Database, id: EntryId) -> (result: EntryMut<'a>)
        ensures
            *result.database == *old(database),
            *final(result.database) == *final(database),
            result.id == id,
            result.history_index is None,
    {
        EntryMut { database, id, history_index: None }
    }

    /// A reference to a version of an entry.
    pub fn new_historical(
        database: &'a mut Database,
        id: EntryId,
        history_index: Option<usize>,
    ) -> (result: EntryMut<'a>)
        ensures
            *result.database == *old(database),
            *final(result.database) == *final(database),
            result.id == id,
            result.history_index == history_index,
    {
        EntryMut { database, id, history_index }
    }

    /// Get the unique identifier for the [Entry]
    pub fn id(&self) -> (result: EntryId)
        ensures
            result == self.id,
    {
        self.id
    }

    /// The version itself.
    pub fn get_entry(&self) -> (result: &Entry)
        requires
            self.valid(),
        ensures
            result.model() == self.model(),
    {
        self.database.version(VersionId { entry: self.id, index: self.history_index }).unwrap()
    }

    /// The version itself, to be changed in place.
    pub fn get_entry_mut(&mut self) -> (result: &mut Entry)
        requires
            old(self).valid(),
        ensures
            (*result).model() == old(self).model(),
            final(self).db() == handles::version_changed(
                old(self).db(),
                old(self).target(),
                (*final(result)).model(),
            ),
            final(self).id == old(self).id,
            final(self).history_index == old(self).history_index,
            *final(final(self).database) == *final(old(self).database),
    {
        self.database.version_mut(VersionId { entry: self.id, index: self.history_index }).unwrap()
    }

    /// Get an immutable reference to the entry.
    pub fn as_ref(&self) -> (result: EntryRef<'_>)
        ensures
            result.database.deep_view() == self.db(),
            result.id == self.id,
            result.history_index == self.history_index,
    {
        EntryRef { database: self.database, id: self.id, history_index: self.history_index }
    }

    /// Convenience method to edit the entry in a closure.
    pub fn edit<F: FnOnce(&mut EntryMut<'_>)>(&mut self, f: F) -> (result: &mut Self)
        requires
            forall|h: &mut EntryMut<'_>| *h == *old(self) ==> call_requires(f, (h,)),
        ensures
            exists|h: &mut EntryMut<'_>|
                *h == *old(self) && #[trigger] call_ensures(f, (h,), ()) && *final(h) == *result,
            *final(result) == *final(self),
    {
        f(self);
        self
    }

    /// Convenience method to edit the entry in a closure, tracking changes.
    ///
    /// The closure must leave the reference on its database.
    pub fn edit_tracking<F: FnOnce(&mut EntryTrack<'_>)>(&mut self, f: F) -> (result: &mut Self)
        requires
            old(self).db().entries.contains_key(old(self).id),
            forall|t: &mut EntryTrack<'_>|
                *t.database == *old(self).database && t.id == old(self).id && t.historical.model()
                    == old(self).db().entries[old(self).id].without_history() ==> call_requires(
                    f,
                    (t,),
                ),
            forall|t: &mut EntryTrack<'_>| #[trigger]
                call_ensures(f, (t,), ()) ==> *final(final(t).database) == *final(t.database),
        ensures
            exists|t: &mut EntryTrack<'_>|
                {
                    &&& *t.database == *old(self).database
                    &&& t.id == old(self).id
                    &&& t.historical.model() == old(self).db().entries[old(self).id].without_history()
                    &&& #[trigger] call_ensures(f, (t,), ())
                    &&& result.db() == tracking_finished(
                        final(t).db(),
                        final(t).id,
                        final(t).historical.model(),
                    )
                },
            result.id == old(self).id,
            result.history_index == old(self).history_index,
            *final(result.database) == *final(old(self).database),
            *final(result) == *final(self),
    {
        let mut track = self.track_changes();
        f(&mut track);
        track.finish();
        self
    }

    /// Convert this mutable reference into a history-tracking variant that will persist the
    /// current state of the entry into its history when finished.
    ///
    /// NOTE: will always operate on the main Entry, not a historical version of it.
    pub fn track_changes(&mut self) -> (result: EntryTrack<'_>)
        requires
            old(self).db().entries.contains_key(old(self).id),
        ensures
            *result.database == *old(self).database,
            result.id == old(self).id,
            result.historical.model() == old(self).db().entries[old(self).id].without_history(),
            *final(self).database == *final(result.database),
            final(self).id == old(self).id,
            final(self).history_index == old(self).history_index,
            *final(final(self).database) == *final(old(self).database),
    {
        let mut historical = self.database.entries.get(&self.id).unwrap().duplicate();
        // Remove history from the historical entry to avoid exponential growth
        historical.history = None;
        EntryTrack { database: self.database, id: self.id, historical }
    }

    /// Get a field by name, taking care of unprotecting Protected values automatically
    pub fn get(&self, key: &str) -> (result: Option<&str>)
        requires
            self.valid(),
        ensures
            match result {
                Some(text) => self.model().fields.contains_key(key@)
                    && self.model().fields[key@].content() == text@,
                None => !self.model().fields.contains_key(key@),
            },
    {
        self.get_entry().get(key)
    }

    /// Set a field's value by name
    pub fn set(&mut self, key: &str, value: Value<String>)
        requires
            old(self).valid(),
        ensures
            final(self).db() == handles::version_changed(
                old(self).db(),
                old(self).target(),
                with_field(old(self).model(), key@, value.deep_view()),
            ),
            final(self).id == old(self).id,
            final(self).history_index == old(self).history_index,
            *final(final(self).database) == *final(old(self).database),
    {
        self.get_entry_mut().set(key, value);
    }

    /// Set a field's unprotected value by name
    pub fn set_unprotected(&mut self, key: &str, value: &str)
        requires
            old(self).valid(),
        ensures
            final(self).db() == handles::version_changed(
                old(self).db(),
                old(self).target(),
                with_field(old(self).model(), key@, Value::Unprotected(value@)),
            ),
            final(self).id == old(self).id,
            final(self).history_index == old(self).history_index,
            *final(final(self).database) == *final(old(self).database),
    {
        self.get_entry_mut().set_unprotected(key, value);
    }

    /// Set a field's protected value by name
    pub fn set_protected(&mut self, key: &str, value: &str)
        requires
            old(self).valid(),
        ensures
            final(self).db() == handles::version_changed(
                old(self).db(),
                old(self).target(),
                with_field(old(self).model(), key@, Value::Protected(value@)),
            ),
            final(self).id == old(self).id,
            final(self).history_index == old(self).history_index,
            *final(final(self).database) == *final(old(self).database),
    {
        self.get_entry_mut().set_protected(key, value);
    }

    /// Get a mutable reference to the parent group of this entry.
    pub fn parent_mut(&mut self) -> (result: GroupMut<'_>)
        requires
            old(self).valid(),
            old(self).db().groups.contains_key(old(self).model().parent),
        ensures
            *result.database == *old(self).database,
            result.id == old(self).model().parent,
            result.valid(),
            *final(self).database == *final(result.database),
            final(self).id == old(self).id,
            final(self).history_index == old(self).history_index,
            *final(final(self).database) == *final(old(self).database),
    {
        let id = self.get_entry().parent;
        GroupMut::new(self.database, id)
    }

    /// Get a mutable reference to the previous parent group, if any
    pub fn previous_parent_mut(&mut self) -> (result: Option<GroupMut<'_>>)
        requires
            old(self).valid(),
        ensures
            match result {
                Some(group) => {
                    &&& *group.database == *old(self).database
                    &&& old(self).model().previous_parent_group == Some(group.id)
                    &&& group.valid()
                    &&& *final(self).database == *final(group.database)
                },
                None => {
                    &&& match old(self).model().previous_parent_group {
                        Some(id) => !old(self).db().groups.contains_key(id),
                        None => true,
                    }
                    &&& *final(self).database == *old(self).database
                },
            },
            final(self).id == old(self).id,
            final(self).history_index == old(self).history_index,
            *final(final(self).database) == *final(old(self).database),
    {
        let previous = self.get_entry().previous_parent_group;
        match previous {
            Some(id) => self.database.group_mut(id),
            None => None,
        }
    }

    /// Get a mutable reference to an attachment by id, if it exists.
    pub fn attachment_mut(&mut self, id: AttachmentId) -> (result: Option<AttachmentMut<'_>>)
        requires
            old(self).valid(),
        ensures
            match result {
                Some(attachment) => {
                    &&& references::refers(old(self).model().attachments, id)
                    &&& *attachment.database == *old(self).database
                    &&& attachment.id == id
                    &&& *final(self).database == *final(attachment.database)
                },
                None => {
                    &&& !references::refers(old(self).model().attachments, id)
                    &&& *final(self).database == *old(self).database
                },
            },
            final(self).id == old(self).id,
            final(self).history_index == old(self).history_index,
            *final(final(self).database) == *final(old(self).database),
    {
        if references::refers_to(&self.get_entry().attachments, id) {
            Some(AttachmentMut::new(self.database, id))
        } else {
            None
        }
    }

    /// Get a mutable reference to an attachment by name, if it exists.
    pub fn attachment_by_name_mut(&mut self, name: &str) -> (result: Option<AttachmentMut<'_>>)
        requires
            old(self).valid(),
        ensures
            match result {
                Some(attachment) => {
                    &&& old(self).model().attachments.contains_key(name@)
                    &&& *attachment.database == *old(self).database
                    &&& attachment.id == old(self).model().attachments[name@]
                    &&& *final(self).database == *final(attachment.database)
                },
                None => {
                    &&& !old(self).model().attachments.contains_key(name@)
                    &&& *final(self).database == *old(self).database
                },
            },
            final(self).id == old(self).id,
            final(self).history_index == old(self).history_index,
            *final(final(self).database) == *final(old(self).database),
    {
        let found = match self.get_entry().attachments.get(&name.to_owned()) {
            Some(id) => Some(*id),
            None => None,
        };
        match found {
            Some(id) => Some(AttachmentMut::new(self.database, id)),
            None => None,
        }
    }

    /// Apply a closure to each attachment of this entry, in the order of their names, with mutable
    /// access. A closure that asks for valid references must not meet a name that dangles, nor
    /// remove an attachment that a later name stands for.
    pub fn foreach_attachment_mut<F: FnMut(AttachmentMut<'_>)>(&mut self, f: F)
        requires
            old(self).valid(),
            ({
                ||| forall|h: AttachmentMut<'_>| #[trigger] call_requires(f, (h,))
                ||| {
                    &&& references::resolves(
                        old(self).model().attachments,
                        old(self).db().attachments,
                    )
                    &&& {
                        ||| forall|h: AttachmentMut<'_>|
                            h.valid() ==> #[trigger] call_requires(f, (h,))
                        ||| {
                            &&& old(self).db().wf()
                            &&& forall|h: AttachmentMut<'_>|
                                h.valid() && h.db().wf() ==> #[trigger] call_requires(f, (h,))
                            &&& forall|h: AttachmentMut<'_>|
                                h.db().wf() && #[trigger] call_ensures(f, (h,), ())
                                    ==> (*final(h.database)).wf()
                        }
                    }
                    &&& forall|h: AttachmentMut<'_>, k: AttachmentId|
                        #![trigger call_ensures(f, (h,), ()), h.db().attachments.contains_key(k)]
                        call_ensures(f, (h,), ()) && stands_later(
                            old(self).model().attachments,
                            h.id,
                            k,
                        ) && h.db().attachments.contains_key(k)
                            ==> (*final(h.database)).deep_view().attachments.contains_key(k)
                }
            }),
        ensures
            exists|states: Seq<Database>|
                {
                    &&& states.len() == order::ordered::<String>(
                        old(self).model().attachments.dom(),
                    ).len() + 1
                    &&& states[0] == *old(self).database
                    &&& states.last() == *final(self).database
                    &&& forall|i: int|
                        0 <= i < states.len() - 1 ==> exists|h: AttachmentMut<'_>|
                            *h.database == #[trigger] states[i] && *final(h.database) == states[i
                                + 1] && h.id == old(self).model().attachments[order::ordered::<
                                String,
                            >(old(self).model().attachments.dom())[i]] && #[trigger] call_ensures(
                                f,
                                (h,),
                                (),
                            )
                },
            final(self).id == old(self).id,
            final(self).history_index == old(self).history_index,
            *final(final(self).database) == *final(old(self).database),
    {
        let mut visitor = f;
        let names = self.get_entry().attachments.duplicate();
        let count: usize = names.len();
        let ghost map = names.deep_view();
        let ghost listing = order::ordered::<String>(map.dom());
        let ghost undemanding = forall|h: AttachmentMut<'_>| #[trigger] call_requires(f, (h,));
        let ghost tidy = !(forall|h: AttachmentMut<'_>|
            h.valid() ==> #[trigger] call_requires(f, (h,)));
        let ghost mut states: Seq<Database> = seq![*self.database];
        proof {
            order::lemma_ordered_lists::<String>(map.dom());
            assert forall|j: int| 0 <= j < listing.len() implies map.contains_key(
                #[trigger] listing[j],
            ) by {
                assert(listing.contains(listing[j]));
                assert(map.dom().contains(listing[j]));
            }
        }
        let mut i: usize = 0;
        while i < count
            invariant
                visitor == f,
                map == names.deep_view(),
                map == old(self).model().attachments,
                undemanding ==> forall|h: AttachmentMut<'_>| #[trigger] call_requires(f, (h,)),
                !undemanding && !tidy ==> forall|h: AttachmentMut<'_>|
                    h.valid() ==> #[trigger] call_requires(f, (h,)),
                !undemanding && tidy ==> forall|h: AttachmentMut<'_>|
                    h.valid() && h.db().wf() ==> #[trigger] call_requires(f, (h,)),
                !undemanding && tidy ==> forall|h: AttachmentMut<'_>|
                    h.db().wf() && #[trigger] call_ensures(f, (h,), ())
                        ==> (*final(h.database)).wf(),
                !undemanding && tidy ==> self.database.wf(),
                !undemanding ==> forall|h: AttachmentMut<'_>, k: AttachmentId|
                    #![trigger call_ensures(f, (h,), ()), h.db().attachments.contains_key(k)]
                    call_ensures(f, (h,), ()) && stands_later(map, h.id, k)
                        && h.db().attachments.contains_key(k)
                        ==> (*final(h.database)).deep_view().attachments.contains_key(k),
                order::increasing::<String>(listing),
                forall|j: int|
                    0 <= j < listing.len() ==> map.contains_key(#[trigger] listing[j]),
                listing == order::ordered::<String>(map.dom()),
                i <= count == listing.len(),
                states.len() == i + 1,
                states[0] == *old(self).database,
                states.last() == *self.database,
                self.id == old(self).id,
                self.history_index == old(self).history_index,
                *final(self.database) == *final(old(self).database),
                !undemanding ==> forall|j: int|
                    i <= j < listing.len() ==> self.database.deep_view().attachments.contains_key(
                        map[#[trigger] listing[j]],
                    ),
                forall|j: int|
                    0 <= j < i ==> exists|h: AttachmentMut<'_>|
                        *h.database == #[trigger] states[j] && *final(h.database) == states[j + 1]
                            && h.id == map[listing[j]] && #[trigger] call_ensures(f, (h,), ()),
            decreases count - i,
        {
            let id = *names.value_at(i);
            let h = AttachmentMut::new(self.database, id);
            let ghost visited = h;
            assert(id == map[listing[i as int]]);
            assert(!undemanding ==> h.valid());
            visitor(h);
            proof {
                assert forall|j: int| !undemanding && i + 1 <= j < listing.len() implies
                    self.database.deep_view().attachments.contains_key(
                    map[#[trigger] listing[j]],
                ) by {
                    assert(map.contains_key(listing[i as int]));
                    assert(String::precedes(listing[i as int], listing[j]));
                    assert(stands_later(map, id, map[listing[j]]));
                    assert(visited.db().attachments.contains_key(map[listing[j]]));
                }
                let longer = states.push(*self.database);
                assert forall|j: int| 0 <= j < i + 1 implies exists|h: AttachmentMut<'_>|
                    *h.database == #[trigger] longer[j] && *final(h.database) == longer[j + 1]
                        && h.id == map[listing[j]] && #[trigger] call_ensures(f, (h,), ()) by {
                    if j < i {
                        assert(longer[j] == states[j]);
                        assert(longer[j + 1] == states[j + 1]);
                    } else {
                        assert(call_ensures(f, (visited,), ()));
                    }
                }
                states = longer;
            }
            i += 1;
        }
    }

    /// Add an attachment to this entry with the given name and data.
    pub fn add_attachment(&mut self, name: &str, data: Value<Vec<u8>>) -> (result: AttachmentMut<
        '_,
    >)
        requires
            old(self).valid(),
        ensures
            result.db() == attachment_added(
                old(self).db(),
                old(self).target(),
                name@,
                data.deep_view(),
            ),
            result.id == attachment::least_free(old(self).db().attachments),
            !old(self).db().attachments.contains_key(result.id),
            result.valid(),
            *final(self).database == *final(result.database),
            final(self).id == old(self).id,
            final(self).history_index == old(self).history_index,
            *final(final(self).database) == *final(old(self).database),
    {
        let id = attachment::next_free_id(&self.database.attachments);
        self.database.attachments.insert(id, Attachment { id, data });
        let entry = self.database.version_mut(
            VersionId { entry: self.id, index: self.history_index },
        ).unwrap();
        let previous = entry.attachments.insert(name.to_owned(), id);
        if let Some(old_id) = previous {
            // if there was an old attachment with this name, remove it
            drop_names(&mut entry.attachments, old_id);
        }
        AttachmentMut::new(self.database, id)
    }

    /// Remove an attachment by name from this entry version.
    ///
    /// This drops only this exact entry version's `name -> AttachmentId` reference; references from
    /// other versions (including history) are left intact. The binary is not garbage-collected from
    /// the in-memory pool here: an attachment still referenced by a history version must survive,
    /// and freed ids must not be reused while any version still points at them. Call
    /// [`Database::compact_attachments`] to also drop it from the in-memory pool.
    pub fn remove_attachment_by_name(&mut self, name: &str)
        requires
            old(self).valid(),
        ensures
            final(self).db() == handles::version_changed(
                old(self).db(),
                old(self).target(),
                EntryModel {
                    attachments: old(self).model().attachments.remove(name@),
                    ..old(self).model()
                },
            ),
            final(self).id == old(self).id,
            final(self).history_index == old(self).history_index,
            *final(final(self).database) == *final(old(self).database),
    {
        let entry = self.get_entry_mut();
        entry.attachments.remove(&name.to_owned());
    }

    /// Remove an attachment by id from this entry version.
    ///
    /// Drops every `name -> AttachmentId` reference for `attachment_id` held by this exact entry
    /// version; see [`Self::remove_attachment_by_name`] for the retention and garbage-collection
    /// semantics.
    pub fn remove_attachment_by_id(&mut self, attachment_id: AttachmentId)
        requires
            old(self).valid(),
        ensures
            final(self).db() == handles::version_changed(
                old(self).db(),
                old(self).target(),
                EntryModel {
                    attachments: names_without(old(self).model().attachments, attachment_id),
                    ..old(self).model()
                },
            ),
            final(self).id == old(self).id,
            final(self).history_index == old(self).history_index,
            *final(final(self).database) == *final(old(self).database),
    {
        let entry = self.get_entry_mut();
        drop_names(&mut entry.attachments, attachment_id);
    }

    /// Remove the icon from this entry, if it exists.
    ///
    /// This clears only this exact entry version's `icon` field; other versions (including history)
    /// keep their own icon. Custom-icon referrers are derived from the `icon` field on demand (see
    /// [`Database::custom_icon_referrers`]), so no back-reference bookkeeping is needed here.
    pub fn set_icon_none(&mut self)
        requires
            old(self).valid(),
        ensures
            final(self).db() == handles::version_changed(
                old(self).db(),
                old(self).target(),
                with_icon(old(self).model(), None),
            ),
            final(self).id == old(self).id,
            final(self).history_index == old(self).history_index,
            *final(final(self).database) == *final(old(self).database),
    {
        let entry = self.get_entry_mut();
        entry.icon = None;
    }

    /// Set a built-in icon for this entry by its ID, removing any existing icon.
    pub fn set_icon_builtin(&mut self, icon_id: usize)
        requires
            old(self).valid(),
        ensures
            final(self).db() == handles::version_changed(
                old(self).db(),
                old(self).target(),
                with_icon(old(self).model(), Some(Icon::BuiltIn(icon_id))),
            ),
            final(self).id == old(self).id,
            final(self).history_index == old(self).history_index,
            *final(final(self).database) == *final(old(self).database),
    {
        let entry = self.get_entry_mut();
        entry.icon = Some(Icon::BuiltIn(icon_id));
    }

    /// Set a custom icon for this entry by its ID, removing any existing icon, also where there is
    /// no such icon.
    pub fn set_icon_custom(&mut self, custom_icon_id: CustomIconId) -> (result: Result<
        (),
        CustomIconNotFoundError,
    >)
        requires
            old(self).valid(),
        ensures
            match result {
                Ok(_) => {
                    &&& old(self).db().custom_icons.contains_key(custom_icon_id)
                    &&& final(self).db() == handles::version_changed(
                        old(self).db(),
                        old(self).target(),
                        with_icon(old(self).model(), Some(Icon::Custom(custom_icon_id))),
                    )
                },
                Err(error) => {
                    &&& error == CustomIconNotFoundError(custom_icon_id)
                    &&& !old(self).db().custom_icons.contains_key(custom_icon_id)
                    &&& final(self).db() == handles::version_changed(
                        old(self).db(),
                        old(self).target(),
                        with_icon(old(self).model(), None),
                    )
                },
            },
            final(self).id == old(self).id,
            final(self).history_index == old(self).history_index,
            *final(final(self).database) == *final(old(self).database),
    {
        let known = self.database.custom_icons.contains_key(&custom_icon_id);
        let entry = self.get_entry_mut();
        if !known {
            entry.icon = None;
            return Err(CustomIconNotFoundError(custom_icon_id));
        }
        entry.icon = Some(Icon::Custom(custom_icon_id));
        Ok(())
    }

    /// Set a custom icon for this entry by providing the raw data, removing any existing icon.
    /// Returns a mutable reference to the newly created custom icon.
    pub fn set_icon_custom_new(&mut self, data: Vec<u8>) -> (result: CustomIconMut<'_>)
        requires
            old(self).valid(),
        ensures
            ids::version_four(result.id.0.0),
            exists|now: Timestamp|
                now.is_reading() && result.db() == icon_created(
                    old(self).db(),
                    old(self).target(),
                    #[trigger] fresh_icon(result.id, data.deep_view(), now),
                ),
            result.valid(),
            *final(self).database == *final(result.database),
            final(self).id == old(self).id,
            final(self).history_index == old(self).history_index,
            *final(final(self).database) == *final(old(self).database),
    {
        let now = Times::now();
        let id = CustomIconId::new();
        let icon = CustomIcon {
            id,
            groups: SortedSet::new(),
            name: None,
            last_modification_time: Some(now),
            data,
        };
        assert(icon.deep_view() == fresh_icon(id, data.deep_view(), now));
        self.database.custom_icons.insert(id, icon);
        let entry = self.database.version_mut(
            VersionId { entry: self.id, index: self.history_index },
        ).unwrap();
        entry.icon = Some(Icon::Custom(id));
        CustomIconMut::new(self.database, id)
    }

    /// Get a mutable reference to the custom icon of this entry, if it exists and is a custom
    /// icon.
    pub fn custom_icon_mut(&mut self) -> (result: Option<CustomIconMut<'_>>)
        requires
            old(self).valid(),
        ensures
            match result {
                Some(icon) => {
                    &&& old(self).model().icon == Some(Icon::Custom(icon.id))
                    &&& *icon.database == *old(self).database
                    &&& *final(self).database == *final(icon.database)
                },
                None => {
                    &&& !(old(self).model().icon matches Some(Icon::Custom(_)))
                    &&& *final(self).database == *old(self).database
                },
            },
            final(self).id == old(self).id,
            final(self).history_index == old(self).history_index,
            *final(final(self).database) == *final(old(self).database),
    {
        let icon = self.get_entry().icon;
        match icon {
            Some(Icon::Custom(id)) => Some(CustomIconMut::new(self.database, id)),
            _ => None,
        }
    }

    /// Move this entry to another group.
    ///
    /// NOTE: will always operate on the main Entry, not a historical version of it.
    pub fn move_to(&mut self, group_id: GroupId) -> (result: Result<
        (),
        DestinationGroupNotFoundError,
    >)
        requires
            old(self).db().wf(),
            old(self).db().entries.contains_key(old(self).id),
        ensures
            final(self).db().wf(),
            match result {
                Ok(_) => {
                    &&& old(self).db().groups.contains_key(group_id)
                    &&& final(self).db() == tree::entry_moved(
                        old(self).db(),
                        old(self).id,
                        group_id,
                    )
                },
                Err(error) => {
                    &&& error == DestinationGroupNotFoundError(group_id)
                    &&& !old(self).db().groups.contains_key(group_id)
                    &&& final(self).db() == old(self).db()
                },
            },
            final(self).id == old(self).id,
            final(self).history_index == old(self).history_index,
            *final(final(self).database) == *final(old(self).database),
    {
        self.database.move_entry(self.id, group_id)
    }

    /// Get a mutable reference to the underlying database
    pub fn database_mut(&mut self) -> (result: &mut Database)
        ensures
            *result == *old(self).database,
            *final(self).database == *final(result),
            final(self).id == old(self).id,
            final(self).history_index == old(self).history_index,
            *final(final(self).database) == *final(old(self).database),
    {
        self.database
    }

    /// Remove this entry from the database, including all its attachments that no other entry
    /// refers to.
    ///
    /// NOTE: will always operate on the main Entry, not a historical version of it.
    pub fn remove(self)
        requires
            self.db().wf(),
            self.db().entries.contains_key(self.id),
        ensures
            (*final(self.database)).deep_view() == removal::entries_removed(
                self.db(),
                Set::<EntryId>::empty().insert(self.id),
            ),
            (*final(self.database)).wf(),
    {
        self.database.remove_entry(self.id);
    }
}

/// The database once the tracking of changes to an entry has ended: what the entry was before is
/// the latest version of its history. An entry that was removed meanwhile has none.
pub open spec fn tracking_finished(
    db: DatabaseModel,
    id: EntryId,
    historical: EntryModel,
) -> DatabaseModel {
    if db.entries.contains_key(id) {
        DatabaseModel {
            entries: db.entries.insert(
                id,
                EntryModel {
                    history: Some(
                        entry::with_version(
                            entries::versions_or_none(db.entries[id].history),
                            historical,
                        ),
                    ),
                    ..db.entries[id]
                },
            ),
            ..db
        }
    } else {
        db
    }
}

/// A mutable reference to the live version of an [Entry] that keeps what the entry was before, and
/// puts it into the entry's history by [`EntryTrack::finish`].
#[must_use]
pub struct EntryTrack<'a> {
    /// The database that owns the entry.
    pub database: &'a mut Database,
    /// The identifier of the entry.
    pub id: EntryId,
    /// What the entry was before.
    pub historical: Entry,
}

impl<'a> EntryTrack<'a> {
    /// What the database holds.
    pub open spec fn db(&self) -> DatabaseModel {
        self.database.deep_view()
    }

    /// The live version of the entry.
    pub open spec fn target(&self) -> VersionModel {
        VersionModel { entry: self.id, index: None }
    }

    /// Whether the entry exists.
    pub open spec fn valid(&self) -> bool {
        self.db().entries.contains_key(self.id)
    }

    /// What the entry holds.
    pub open spec fn model(&self) -> EntryModel {
        self.db().entries[self.id]
    }

    /// Ends the tracking: what the entry was before becomes the latest version of its history, if
    /// the entry is still there.
    pub fn finish(self)
        ensures
            (*final(self.database)).deep_view() == tracking_finished(
                self.db(),
                self.id,
                self.historical.model(),
            ),
    {
        if let Some(entry) = self.database.entries.get_mut(&self.id) {
            let mut history = match &entry.history {
                Some(history) => history.duplicate(),
                None => History::new(),
            };
            history.add_entry(self.historical);
            entry.history = Some(history);
        }
    }

    /// Get the unique identifier for the [Entry]
    pub fn id(&self) -> (result: EntryId)
        ensures
            result == self.id,
    {
        self.id
    }

    /// The entry itself.
    pub fn get_entry(&self) -> (result: &Entry)
        requires
            self.valid(),
        ensures
            result.model() == self.model(),
    {
        self.database.entries.get(&self.id).unwrap()
    }

    /// The entry itself, to be changed in place.
    pub fn get_entry_mut(&mut self) -> (result: &mut Entry)
        requires
            old(self).valid(),
        ensures
            (*result).model() == old(self).model(),
            final(self).db() == handles::version_changed(
                old(self).db(),
                old(self).target(),
                (*final(result)).model(),
            ),
            final(self).id == old(self).id,
            final(self).historical == old(self).historical,
            *final(final(self).database) == *final(old(self).database),
    {
        self.database.entries.get_mut(&self.id).unwrap()
    }

    /// Get a field by name, taking care of unprotecting Protected values automatically
    pub fn get(&self, key: &str) -> (result: Option<&str>)
        requires
            self.valid(),
        ensures
            match result {
                Some(text) => self.model().fields.contains_key(key@)
                    && self.model().fields[key@].content() == text@,
                None => !self.model().fields.contains_key(key@),
            },
    {
        self.get_entry().get(key)
    }

    /// Turn this reference into a normal mutable reference to the entry
    pub fn as_mut(&mut self) -> (result: EntryMut<'_>)
        ensures
            *result.database == *old(self).database,
            result.id == old(self).id,
            result.history_index is None,
            *final(self).database == *final(result.database),
            final(self).id == old(self).id,
            final(self).historical == old(self).historical,
            *final(final(self).database) == *final(old(self).database),
    {
        EntryMut { database: self.database, id: self.id, history_index: None }
    }

    /// Move this entry to another group, noting the time.
    pub fn move_to(&mut self, group_id: GroupId) -> (result: Result<
        (),
        DestinationGroupNotFoundError,
    >)
        requires
            old(self).db().wf(),
            old(self).valid(),
        ensures
            final(self).db().wf(),
            match result {
                Ok(_) => {
                    &&& old(self).db().groups.contains_key(group_id)
                    &&& exists|now: Timestamp|
                        now.is_reading() && final(self).db() == handles::version_changed(
                            tree::entry_moved(old(self).db(), old(self).id, group_id),
                            old(self).target(),
                            #[trigger] old(self).model().moved_to(group_id).relocated_at(
                                Some(now),
                            ),
                        )
                },
                Err(error) => {
                    &&& error == DestinationGroupNotFoundError(group_id)
                    &&& !old(self).db().groups.contains_key(group_id)
                    &&& final(self).db() == old(self).db()
                },
            },
            final(self).id == old(self).id,
            final(self).historical == old(self).historical,
            *final(final(self).database) == *final(old(self).database),
    {
        match self.database.move_entry(self.id, group_id) {
            Ok(_) => {
                let now = Times::now();
                let ghost moved = self.database.deep_view();
                let entry = self.get_entry_mut();
                entry.times.location_changed = Some(now);
                proof {
                    assert(entry.model() == old(self).model().moved_to(group_id).relocated_at(
                        Some(now),
                    ));
                    entries::lemma_entry_changed_wf(moved, old(self).id, entry.model());
                }
                Ok(())
            },
            Err(error) => Err(error),
        }
    }

    /// Remove this entry from the database, noting the deletion and its time.
    pub fn remove(self)
        requires
            self.db().wf(),
            self.valid(),
        ensures
            exists|now: Timestamp|
                now.is_reading() && (*final(self.database)).deep_view() == #[trigger] entry_deleted(
                    self.db(),
                    self.id,
                    now,
                ),
            (*final(self.database)).wf(),
    {
        let ghost before = self.database.deep_view();
        let now = Times::now();
        self.database.remove_entry(self.id);
        self.database.deleted_objects.insert(self.id.uuid(), Some(now));
        assert(self.database.deep_view() == entry_deleted(before, self.id, now));
    }

    /// Convenience method to edit the entry in a closure, noting the time.
    pub fn edit<F: FnOnce(&mut EntryTrack<'_>)>(&mut self, f: F) -> (result: &mut Self)
        requires
            forall|t: &mut EntryTrack<'_>| *t == *old(self) ==> call_requires(f, (t,)),
            forall|t: &mut EntryTrack<'_>| #[trigger]
                call_ensures(f, (t,), ()) && *t == *old(self) ==> final(t).valid(),
        ensures
            exists|t: &mut EntryTrack<'_>, now: Timestamp|
                {
                    &&& now.is_reading()
                    &&& *t == *old(self)
                    &&& #[trigger] call_ensures(f, (t,), ())
                    &&& result.db() == handles::version_changed(
                        final(t).db(),
                        final(t).target(),
                        #[trigger] modified_at(final(t).model(), now),
                    )
                    &&& result.id == final(t).id
                    &&& result.historical == final(t).historical
                    &&& *final(result.database) == *final(final(t).database)
                },
            *final(result) == *final(self),
    {
        f(self);
        let ghost edited = self.model();
        let now = Times::now();
        let entry = self.get_entry_mut();
        entry.times.last_modification = Some(now);
        assert(entry.model() == modified_at(edited, now));
        self
    }

    /// Set a field value, tracking changes. See [crate::fields] for common field names.
    pub fn set(&mut self, key: &str, value: Value<String>)
        requires
            old(self).valid(),
        ensures
            exists|now: Timestamp|
                now.is_reading() && final(self).db() == handles::version_changed(
                    old(self).db(),
                    old(self).target(),
                    #[trigger] modified_at(
                        with_field(old(self).model(), key@, value.deep_view()),
                        now,
                    ),
                ),
            final(self).id == old(self).id,
            final(self).historical == old(self).historical,
            *final(final(self).database) == *final(old(self).database),
    {
        let now = Times::now();
        let entry = self.get_entry_mut();
        entry.set(key, value);
        entry.times.last_modification = Some(now);
        assert(entry.model() == modified_at(
            with_field(old(self).model(), key@, value.deep_view()),
            now,
        ));
    }

    /// Set a protected field value, tracking changes. See [crate::fields] for common field names.
    pub fn set_protected(&mut self, key: &str, value: &str)
        requires
            old(self).valid(),
        ensures
            exists|now: Timestamp|
                now.is_reading() && final(self).db() == handles::version_changed(
                    old(self).db(),
                    old(self).target(),
                    #[trigger] modified_at(
                        with_field(old(self).model(), key@, Value::Protected(value@)),
                        now,
                    ),
                ),
            final(self).id == old(self).id,
            final(self).historical == old(self).historical,
            *final(final(self).database) == *final(old(self).database),
    {
        self.set(key, Value::protected(value.to_owned()));
    }

    /// Set an unprotected field value, tracking changes. See [crate::fields] for common field
    /// names.
    pub fn set_unprotected(&mut self, key: &str, value: &str)
        requires
            old(self).valid(),
        ensures
            exists|now: Timestamp|
                now.is_reading() && final(self).db() == handles::version_changed(
                    old(self).db(),
                    old(self).target(),
                    #[trigger] modified_at(
                        with_field(old(self).model(), key@, Value::Unprotected(value@)),
                        now,
                    ),
                ),
            final(self).id == old(self).id,
            final(self).historical == old(self).historical,
            *final(final(self).database) == *final(old(self).database),
    {
        self.set(key, Value::unprotected(value.to_owned()));
    }

    /// Add an attachment, tracking changes.
    pub fn add_attachment(&mut self, name: &str, data: Value<Vec<u8>>) -> (result: AttachmentMut<
        '_,
    >)
        requires
            old(self).valid(),
        ensures
            exists|now: Timestamp|
                now.is_reading() && result.db() == #[trigger] attachment_added(
                    handles::version_changed(
                        old(self).db(),
                        old(self).target(),
                        modified_at(old(self).model(), now),
                    ),
                    old(self).target(),
                    name@,
                    data.deep_view(),
                ),
            result.id == attachment::least_free(old(self).db().attachments),
            result.valid(),
            *final(self).database == *final(result.database),
            final(self).id == old(self).id,
            final(self).historical == old(self).historical,
            *final(final(self).database) == *final(old(self).database),
    {
        let now = Times::now();
        let entry = self.get_entry_mut();
        entry.times.last_modification = Some(now);
        let ghost between = self.database.deep_view();
        assert(between == handles::version_changed(
            old(self).db(),
            old(self).target(),
            modified_at(old(self).model(), now),
        ));
        let id = self.as_mut().add_attachment(name, data).id;
        AttachmentMut::new(self.database, id)
    }

    /// Remove the entry's icon, tracking changes.
    pub fn set_icon_none(&mut self)
        requires
            old(self).valid(),
        ensures
            exists|now: Timestamp|
                now.is_reading() && final(self).db() == handles::version_changed(
                    old(self).db(),
                    old(self).target(),
                    #[trigger] modified_at(with_icon(old(self).model(), None), now),
                ),
            final(self).id == old(self).id,
            final(self).historical == old(self).historical,
            *final(final(self).database) == *final(old(self).database),
    {
        let now = Times::now();
        let entry = self.get_entry_mut();
        entry.icon = None;
        entry.times.last_modification = Some(now);
        assert(entry.model() == modified_at(with_icon(old(self).model(), None), now));
    }

    /// Set a built-in icon for this entry by its ID, tracking changes.
    pub fn set_icon_builtin(&mut self, icon_id: usize)
        requires
            old(self).valid(),
        ensures
            exists|now: Timestamp|
                now.is_reading() && final(self).db() == handles::version_changed(
                    old(self).db(),
                    old(self).target(),
                    #[trigger] modified_at(
                        with_icon(old(self).model(), Some(Icon::BuiltIn(icon_id))),
                        now,
                    ),
                ),
            final(self).id == old(self).id,
            final(self).historical == old(self).historical,
            *final(final(self).database) == *final(old(self).database),
    {
        let now = Times::now();
        let entry = self.get_entry_mut();
        entry.icon = Some(Icon::BuiltIn(icon_id));
        entry.times.last_modification = Some(now);
        assert(entry.model() == modified_at(
            with_icon(old(self).model(), Some(Icon::BuiltIn(icon_id))),
            now,
        ));
    }

    /// Set a custom icon for this entry by its ID, tracking changes. Where there is no such icon,
    /// the icon is removed and no time is noted.
    pub fn set_icon_custom(&mut self, custom_icon_id: CustomIconId) -> (result: Result<
        (),
        CustomIconNotFoundError,
    >)
        requires
            old(self).valid(),
        ensures
            match result {
                Ok(_) => {
                    &&& old(self).db().custom_icons.contains_key(custom_icon_id)
                    &&& exists|now: Timestamp|
                        now.is_reading() && final(self).db() == handles::version_changed(
                            old(self).db(),
                            old(self).target(),
                            #[trigger] modified_at(
                                with_icon(
                                    old(self).model(),
                                    Some(Icon::Custom(custom_icon_id)),
                                ),
                                now,
                            ),
                        )
                },
                Err(error) => {
                    &&& error == CustomIconNotFoundError(custom_icon_id)
                    &&& !old(self).db().custom_icons.contains_key(custom_icon_id)
                    &&& final(self).db() == handles::version_changed(
                        old(self).db(),
                        old(self).target(),
                        with_icon(old(self).model(), None),
                    )
                },
            },
            final(self).id == old(self).id,
            final(self).historical == old(self).historical,
            *final(final(self).database) == *final(old(self).database),
    {
        let known = self.database.custom_icons.contains_key(&custom_icon_id);
        let now = Times::now();
        let entry = self.get_entry_mut();
        if !known {
            entry.icon = None;
            return Err(CustomIconNotFoundError(custom_icon_id));
        }
        entry.icon = Some(Icon::Custom(custom_icon_id));
        entry.times.last_modification = Some(now);
        assert(entry.model() == modified_at(
            with_icon(old(self).model(), Some(Icon::Custom(custom_icon_id))),
            now,
        ));
        Ok(())
    }

    /// Set a custom icon for this entry by providing the raw data, tracking changes. Returns a
    /// mutable reference to the newly created custom icon.
    pub fn set_icon_custom_new(&mut self, data: Vec<u8>) -> (result: CustomIconMut<'_>)
        requires
            old(self).valid(),
        ensures
            ids::version_four(result.id.0.0),
            exists|modified: Timestamp, created: Timestamp|
                modified.is_reading() && created.is_reading() && result.db() == icon_created(
                    handles::version_changed(
                        old(self).db(),
                        old(self).target(),
                        #[trigger] modified_at(with_icon(old(self).model(), None), modified),
                    ),
                    old(self).target(),
                    #[trigger] fresh_icon(result.id, data.deep_view(), created),
                ),
            result.valid(),
            *final(self).database == *final(result.database),
            final(self).id == old(self).id,
            final(self).historical == old(self).historical,
            *final(final(self).database) == *final(old(self).database),
    {
        self.set_icon_none();
        let now = Times::now();
        let id = CustomIconId::new();
        let icon = CustomIcon {
            id,
            groups: SortedSet::new(),
            name: None,
            last_modification_time: Some(now),
            data,
        };
        assert(icon.deep_view() == fresh_icon(id, data.deep_view(), now));
        self.database.custom_icons.insert(id, icon);
        let entry = self.get_entry_mut();
        entry.icon = Some(Icon::Custom(id));
        CustomIconMut::new(self.database, id)
    }
}

/// The database with an entry removed and its deletion noted.
pub open spec fn entry_deleted(db: DatabaseModel, id: EntryId, now: Timestamp) -> DatabaseModel {
    let removed = removal::entries_removed(db, Set::<EntryId>::empty().insert(id));
    DatabaseModel {
        deleted_objects: removed.deleted_objects.insert(id.0, Some(now)),
        ..removed
    }
}

} // verus!
