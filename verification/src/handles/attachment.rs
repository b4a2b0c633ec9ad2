//! References to attachments.

use vstd::prelude::*;
use crate::attachment::Attachment;
use crate::database::Database;
use crate::database::DatabaseModel;
use crate::handles;
use crate::handles::entry::EntryMut;
use crate::handles::entry::EntryRef;
use crate::ids::AttachmentId;
use crate::order;
use crate::order::Key;
use crate::purge;
use crate::references::Referent;
use crate::references::VersionId;
use crate::references::VersionModel;

verus! {

/// An immutable reference to an [Attachment].
pub struct AttachmentRef<'a> {
    /// The database that owns the attachment.
    pub database: &'a Database,
    /// The identifier of the attachment.
    pub id: AttachmentId,
}

impl<'a> AttachmentRef<'a> {
    /// Whether the attachment exists.
    pub open spec fn valid(&self) -> bool {
        self.database.deep_view().attachments.contains_key(self.id)
    }

    /// A reference to the attachment with the given identifier.
    pub fn new(database: &'a Database, id: AttachmentId) -> (result: AttachmentRef<'a>)
        ensures
            result == (AttachmentRef { database, id }),
    {
        AttachmentRef { database, id }
    }

    /// Get an immutable reference to the database that owns this attachment.
    pub fn database(&self) -> (result: &'a Database)
        ensures
            *result == *self.database,
    {
        self.database
    }

    /// Get the ID of this attachment.
    pub fn id(&self) -> (result: AttachmentId)
        ensures
            result == self.id,
    {
        self.id
    }

    /// The attachment itself.
    pub fn get(&self) -> (result: &'a Attachment)
        requires
            self.valid(),
        ensures
            result.deep_view() == self.database.deep_view().attachments[self.id],
    {
        self.database.attachments.get(&self.id).unwrap()
    }

    /// Get the entry versions that reference this attachment, in order.
    ///
    /// If `include_historical` is false, only returns entries that currently reference this
    /// attachment. If `include_historical` is true, also returns old versions of entries that
    /// reference this attachment, even if they have been modified to no longer reference it.
    ///
    /// The referencing versions are derived from each entry's `name -> AttachmentId` map, so the
    /// result is always accurate and never points at a stale history index.
    pub fn entries(&self, include_historical: bool) -> (result: Vec<EntryRef<'a>>)
        ensures
            handles::refers_to_versions(
                result@,
                self.database,
                order::ordered::<VersionId>(
                    self.database.deep_view().referrers(
                        Referent::Attachment(self.id),
                        include_historical,
                    ),
                ),
            ),
            forall|i: int| 0 <= i < result@.len() ==> (#[trigger] result@[i]).valid(),
    {
        let versions = self.database.attachment_referrers(self.id, include_historical);
        proof {
            let listing = versions.deep_view();
            let all = self.database.deep_view().referrers(Referent::Attachment(self.id), include_historical);
            assert forall|i: int| 0 <= i < versions@.len() implies
                self.database.deep_view().has_version(#[trigger] versions.deep_view()[i]) by {
                assert(listing.contains(listing[i]));
                assert(all.contains(listing[i]));
            }
        }
        handles::references_to(self.database, &versions)
    }
}

/// A mutable reference to an [Attachment].
pub struct AttachmentMut<'a> {
    /// The database that owns it.
    pub database: &'a mut Database,
    /// The identifier.
    pub id: AttachmentId,
}

impl<'a> AttachmentMut<'a> {
    /// What the database holds.
    pub open spec fn db(&self) -> DatabaseModel {
        self.database.deep_view()
    }

    /// Whether the object exists.
    pub open spec fn valid(&self) -> bool {
        self.db().attachments.contains_key(self.id)
    }

    /// A reference to the object with the given identifier.
    pub fn new(database: &'a mut Database, id: AttachmentId) -> (result: AttachmentMut<'a>)
        ensures
            *result.database == *old(database),
            *final(result.database) == *final(database),
            result.id == id,
    {
        AttachmentMut { database, id }
    }

    /// Get the identifier.
    pub fn id(&self) -> (result: AttachmentId)
        ensures
            result == self.id,
    {
        self.id
    }

    /// The object itself.
    pub fn get(&self) -> (result: &Attachment)
        requires
            self.valid(),
        ensures
            result.deep_view() == self.db().attachments[self.id],
    {
        self.database.attachments.get(&self.id).unwrap()
    }

    /// The object itself, to be changed in place.
    pub fn get_mut(&mut self) -> (result: &mut Attachment)
        requires
            old(self).valid(),
        ensures
            (*result).deep_view() == old(self).db().attachments[old(self).id],
            final(self).db() == (DatabaseModel {
                attachments: old(self).db().attachments.insert(
                    old(self).id,
                    (*final(result)).deep_view(),
                ),
                ..old(self).db()
            }),
            final(self).id == old(self).id,
            *final(final(self).database) == *final(old(self).database),
    {
        self.database.attachments.get_mut(&self.id).unwrap()
    }

    /// Get an immutable reference.
    pub fn as_ref(&self) -> (result: AttachmentRef<'_>)
        ensures
            result.database.deep_view() == self.db(),
            result.id == self.id,
    {
        AttachmentRef { database: self.database, id: self.id }
    }

    /// Edit the object with a closure, which is passed a mutable reference to it.
    pub fn edit<F: FnOnce(&mut AttachmentMut<'_>)>(&mut self, f: F) -> (result: &mut Self)
        requires
            forall|h: &mut AttachmentMut<'_>| *h == *old(self) ==> call_requires(f, (h,)),
        ensures
            exists|h: &mut AttachmentMut<'_>|
                *h == *old(self) && #[trigger] call_ensures(f, (h,), ()) && *final(h) == *result,
            *final(result) == *final(self),
    {
        f(self);
        self
    }

    /// Get a mutable reference to the database that owns the object.
    pub fn database_mut(&mut self) -> (result: &mut Database)
        ensures
            *result == *old(self).database,
            *final(self).database == *final(result),
            final(self).id == old(self).id,
            *final(final(self).database) == *final(old(self).database),
    {
        self.database
    }

    /// Visit the entry versions that reference this attachment, in order, with mutable access.
    ///
    /// If `include_historical` is false, only visits entries that currently reference this
    /// attachment. If `include_historical` is true, also visits old versions of entries that
    /// reference this attachment, even if they have been modified to no longer reference it.
    ///
    /// The referencing versions are derived from each entry's `name -> AttachmentId` map, so the
    /// result is always accurate and never points at a stale history index. A closure that asks for
    /// valid references must not remove a version that is still to be visited.
    pub fn foreach_entry_mut<F: FnMut(EntryMut<'_>)>(&mut self, f: F, include_historical: bool)
        requires
            ({
                ||| forall|h: EntryMut<'_>| #[trigger] call_requires(f, (h,))
                ||| {
                    &&& {
                        ||| forall|h: EntryMut<'_>|
                            h.valid() ==> #[trigger] call_requires(f, (h,))
                        ||| {
                            &&& old(self).db().wf()
                            &&& forall|h: EntryMut<'_>|
                                h.valid() && h.db().wf() ==> #[trigger] call_requires(f, (h,))
                            &&& forall|h: EntryMut<'_>|
                                h.db().wf() && #[trigger] call_ensures(f, (h,), ())
                                    ==> (*final(h.database)).wf()
                        }
                    }
                    &&& forall|h: EntryMut<'_>, v: VersionModel|
                        #![trigger call_ensures(f, (h,), ()), h.db().has_version(v)]
                        call_ensures(f, (h,), ()) && VersionId::precedes(h.target(), v)
                            && old(self).db().referrers(
                            Referent::Attachment(old(self).id),
                            include_historical,
                        ).contains(v) && h.db().has_version(v)
                            ==> (*final(h.database)).deep_view().has_version(v)
                }
            }),
        ensures
            exists|states: Seq<Database>|
                {
                    &&& states.len() == order::ordered::<VersionId>(
                        old(self).db().referrers(
                            Referent::Attachment(old(self).id),
                            include_historical,
                        ),
                    ).len() + 1
                    &&& states[0] == *old(self).database
                    &&& states.last() == *final(self).database
                    &&& forall|i: int|
                        0 <= i < states.len() - 1 ==> exists|h: EntryMut<'_>|
                            *h.database == #[trigger] states[i] && *final(h.database) == states[i
                                + 1] && h.target() == order::ordered::<VersionId>(
                                old(self).db().referrers(
                                    Referent::Attachment(old(self).id),
                                    include_historical,
                                ),
                            )[i] && #[trigger] call_ensures(f, (h,), ())
                },
            final(self).id == old(self).id,
            *final(final(self).database) == *final(old(self).database),
    {
        let mut visitor = f;
        let versions = self.database.attachment_referrers(self.id, include_historical);
        let ghost listing = versions.deep_view();
        let ghost all = self.db().referrers(Referent::Attachment(self.id), include_historical);
        let ghost undemanding = forall|h: EntryMut<'_>| #[trigger] call_requires(f, (h,));
        let ghost tidy = !(forall|h: EntryMut<'_>|
            h.valid() ==> #[trigger] call_requires(f, (h,)));
        let ghost mut states: Seq<Database> = seq![*self.database];
        proof {
            assert forall|j: int| 0 <= j < listing.len() implies all.contains(
                #[trigger] listing[j],
            ) by {
                assert(listing.contains(listing[j]));
            }
        }
        let mut i: usize = 0;
        while i < versions.len()
            invariant
                visitor == f,
                undemanding ==> forall|h: EntryMut<'_>| #[trigger] call_requires(f, (h,)),
                !undemanding && !tidy ==> forall|h: EntryMut<'_>|
                    h.valid() ==> #[trigger] call_requires(f, (h,)),
                !undemanding && tidy ==> forall|h: EntryMut<'_>|
                    h.valid() && h.db().wf() ==> #[trigger] call_requires(f, (h,)),
                !undemanding && tidy ==> forall|h: EntryMut<'_>|
                    h.db().wf() && #[trigger] call_ensures(f, (h,), ())
                        ==> (*final(h.database)).wf(),
                !undemanding && tidy ==> self.database.wf(),
                !undemanding ==> forall|h: EntryMut<'_>, v: VersionModel|
                    #![trigger call_ensures(f, (h,), ()), h.db().has_version(v)]
                    call_ensures(f, (h,), ()) && VersionId::precedes(h.target(), v)
                        && all.contains(v) && h.db().has_version(v)
                        ==> (*final(h.database)).deep_view().has_version(v),
                order::increasing::<VersionId>(listing),
                forall|j: int| 0 <= j < listing.len() ==> all.contains(#[trigger] listing[j]),
                listing == versions.deep_view(),
                i <= versions@.len(),
                states.len() == i + 1,
                states[0] == *old(self).database,
                states.last() == *self.database,
                self.id == old(self).id,
                *final(self.database) == *final(old(self).database),
                !undemanding ==> forall|j: int|
                    i <= j < listing.len() ==> self.database.deep_view().has_version(
                        #[trigger] listing[j],
                    ),
                forall|j: int|
                    0 <= j < i ==> exists|h: EntryMut<'_>|
                        *h.database == #[trigger] states[j] && *final(h.database) == states[j + 1]
                            && h.target() == listing[j] && #[trigger] call_ensures(f, (h,), ()),
            decreases versions@.len() - i,
        {
            let v = versions[i];
            assert(listing[i as int] == v.deep_view());
            let h = EntryMut::new_historical(self.database, v.entry, v.index);
            let ghost visited = h;
            assert(!undemanding ==> h.valid());
            visitor(h);
            proof {
                assert forall|j: int| !undemanding && i + 1 <= j < listing.len() implies
                    self.database.deep_view().has_version(#[trigger] listing[j]) by {
                    assert(VersionId::precedes(listing[i as int], listing[j]));
                    assert(all.contains(listing[j]));
                    assert(visited.db().has_version(listing[j]));
                }
                let longer = states.push(*self.database);
                assert forall|j: int| 0 <= j < i + 1 implies exists|h: EntryMut<'_>|
                    *h.database == #[trigger] longer[j] && *final(h.database) == longer[j + 1]
                        && h.target() == listing[j] && #[trigger] call_ensures(f, (h,), ()) by {
                    if j < i {
                        assert(longer[j] == states[j]);
                        assert(longer[j + 1] == states[j + 1]);
                    } else {
                        assert(call_ensures(f, (visited,), ()));
                    }
                }
                states = longer;
            }
            i += 1;
        }
    }

    /// Remove this attachment from the database, and all references to it
    pub fn remove(self)
        ensures
            (*final(self.database)).deep_view() == purge::attachment_purged(self.db(), self.id),
            self.db().wf() ==> (*final(self.database)).wf(),
    {
        self.database.purge_attachment(self.id);
    }
}

} // verus!
