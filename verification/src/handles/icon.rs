//! References to custom icons.

use vstd::prelude::*;
use crate::database::Database;
use crate::database::DatabaseModel;
use crate::handles;
use crate::handles::entry::EntryRef;
use crate::icon::CustomIcon;
use crate::ids::CustomIconId;
use crate::order;
use crate::purge;
use crate::references::Referent;
use crate::references::VersionId;

verus! {

/// An immutable reference to a [CustomIcon].
pub struct CustomIconRef<'a> {
    /// The database that owns the icon.
    pub database: &'a Database,
    /// The identifier of the icon.
    pub id: CustomIconId,
}

impl<'a> CustomIconRef<'a> {
    /// Whether the icon exists.
    pub open spec fn valid(&self) -> bool {
        self.database.deep_view().custom_icons.contains_key(self.id)
    }

    /// A reference to the icon with the given identifier.
    pub fn new(database: &'a Database, id: CustomIconId) -> (result: CustomIconRef<'a>)
        ensures
            result == (CustomIconRef { database, id }),
    {
        CustomIconRef { database, id }
    }

    /// Get an immutable reference to the database that owns this icon.
    pub fn database(&self) -> (result: &'a Database)
        ensures
            *result == *self.database,
    {
        self.database
    }

    /// Get the ID of this icon.
    pub fn id(&self) -> (result: CustomIconId)
        ensures
            result == self.id,
    {
        self.id
    }

    /// The icon itself.
    pub fn get(&self) -> (result: &'a CustomIcon)
        requires
            self.valid(),
        ensures
            result.deep_view() == self.database.deep_view().custom_icons[self.id],
    {
        self.database.custom_icons.get(&self.id).unwrap()
    }

    /// Get the entry versions that show this icon, in order. Old versions are returned only if
    /// `include_historical` is true.
    pub fn entries(&self, include_historical: bool) -> (result: Vec<EntryRef<'a>>)
        ensures
            handles::refers_to_versions(
                result@,
                self.database,
                order::ordered::<VersionId>(
                    self.database.deep_view().referrers(
                        Referent::Icon(self.id),
                        include_historical,
                    ),
                ),
            ),
            forall|i: int| 0 <= i < result@.len() ==> (#[trigger] result@[i]).valid(),
    {
        let versions = self.database.custom_icon_referrers(self.id, include_historical);
        proof {
            let listing = versions.deep_view();
            let all = self.database.deep_view().referrers(Referent::Icon(self.id), include_historical);
            assert forall|i: int| 0 <= i < versions@.len() implies
                self.database.deep_view().has_version(#[trigger] versions.deep_view()[i]) by {
                assert(listing.contains(listing[i]));
                assert(all.contains(listing[i]));
            }
        }
        handles::references_to(self.database, &versions)
    }
}

/// A mutable reference to a [CustomIcon].
pub struct CustomIconMut<'a> {
    /// The database that owns it.
    pub database: &'a mut Database,
    /// The identifier.
    pub id: CustomIconId,
}

impl<'a> CustomIconMut<'a> {
    /// What the database holds.
    pub open spec fn db(&self) -> DatabaseModel {
        self.database.deep_view()
    }

    /// Whether the object exists.
    pub open spec fn valid(&self) -> bool {
        self.db().custom_icons.contains_key(self.id)
    }

    /// A reference to the object with the given identifier.
    pub fn new(database: &'a mut Database, id: CustomIconId) -> (result: CustomIconMut<'a>)
        ensures
            *result.database == *old(database),
            *final(result.database) == *final(database),
            result.id == id,
    {
        CustomIconMut { database, id }
    }

    /// Get the identifier.
    pub fn id(&self) -> (result: CustomIconId)
        ensures
            result == self.id,
    {
        self.id
    }

    /// The object itself.
    pub fn get(&self) -> (result: &CustomIcon)
        requires
            self.valid(),
        ensures
            result.deep_view() == self.db().custom_icons[self.id],
    {
        self.database.custom_icons.get(&self.id).unwrap()
    }

    /// The object itself, to be changed in place.
    pub fn get_mut(&mut self) -> (result: &mut CustomIcon)
        requires
            old(self).valid(),
        ensures
            (*result).deep_view() == old(self).db().custom_icons[old(self).id],
            final(self).db() == (DatabaseModel {
                custom_icons: old(self).db().custom_icons.insert(
                    old(self).id,
                    (*final(result)).deep_view(),
                ),
                ..old(self).db()
            }),
            final(self).id == old(self).id,
            *final(final(self).database) == *final(old(self).database),
    {
        self.database.custom_icons.get_mut(&self.id).unwrap()
    }

    /// Get an immutable reference.
    pub fn as_ref(&self) -> (result: CustomIconRef<'_>)
        ensures
            result.database.deep_view() == self.db(),
            result.id == self.id,
    {
        CustomIconRef { database: self.database, id: self.id }
    }

    /// Edit the object with a closure, which is passed a mutable reference to it.
    pub fn edit<F: FnOnce(&mut CustomIconMut<'_>)>(&mut self, f: F) -> (result: &mut Self)
        requires
            forall|h: &mut CustomIconMut<'_>| *h == *old(self) ==> call_requires(f, (h,)),
        ensures
            exists|h: &mut CustomIconMut<'_>|
                *h == *old(self) && #[trigger] call_ensures(f, (h,), ()) && *final(h) == *result,
            *final(result) == *final(self),
    {
        f(self);
        self
    }

    /// Get a mutable reference to the database that owns the object.
    pub fn database_mut(&mut self) -> (result: &mut Database)
        ensures
            *result == *old(self).database,
            *final(self).database == *final(result),
            final(self).id == old(self).id,
            *final(final(self).database) == *final(old(self).database),
    {
        self.database
    }

    /// Remove this icon from the database. Entries, in all their versions, and groups that show it
    /// have no icon afterwards.
    pub fn remove(self)
        ensures
            (*final(self.database)).deep_view() == purge::icon_purged(self.db(), self.id),
            self.db().wf() ==> (*final(self.database)).wf(),
    {
        self.database.purge_icon(self.id);
    }
}

} // verus!
