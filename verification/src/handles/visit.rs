//! Visits to all objects of a kind.

use vstd::prelude::*;
use crate::database::Database;
use crate::handles::attachment::AttachmentMut;
use crate::handles::attachment::AttachmentRef;
use crate::handles::entry::EntryMut;
use crate::handles::entry::EntryRef;
use crate::handles::group::GroupMut;
use crate::handles::group::GroupRef;
use crate::handles::icon::CustomIconMut;
use crate::handles::icon::CustomIconRef;
use crate::ids::AttachmentId;
use crate::ids::CustomIconId;
use crate::ids::EntryId;
use crate::ids::GroupId;
use crate::order;
use crate::order::Key;

verus! {

impl Database {
    /// All attachments with immutable access, in the order of their identifiers.
    pub fn iter_all_attachments(&self) -> (result: Vec<AttachmentRef<'_>>)
        ensures
            result@ == order::ordered::<AttachmentId>(self.deep_view().attachments.dom()).map_values(
                |id: AttachmentId| AttachmentRef { database: self, id },
            ),
            forall|i: int| 0 <= i < result@.len() ==> (#[trigger] result@[i]).valid(),
    {
        let ids = self.attachments.keys();
        let ghost listing = ids.deep_view();
        let ghost expected = listing.map_values(|id: AttachmentId| AttachmentRef { database: self, id });
        let mut result: Vec<AttachmentRef<'_>> = Vec::new();
        let mut i: usize = 0;
        while i < ids.len()
            invariant
                listing == ids.deep_view(),
                order::lists::<AttachmentId>(listing, self.deep_view().attachments.dom()),
                expected == listing.map_values(|id: AttachmentId| AttachmentRef { database: self, id }),
                i <= ids@.len(),
                result@ == expected.take(i as int),
                forall|j: int| 0 <= j < i ==> (#[trigger] result@[j]).valid(),
            decreases ids@.len() - i,
        {
            proof {
                assert(listing[i as int] == ids@[i as int]);
                assert(listing.contains(ids@[i as int]));
                assert(self.deep_view().attachments.dom().contains(ids@[i as int]));
            }
            result.push(AttachmentRef::new(self, ids[i]));
            assert(result@ =~= expected.take(i + 1));
            i += 1;
        }
        assert(expected.take(ids@.len() as int) =~= expected);
        result
    }

    /// Visit all attachments, in the order of their identifiers, with mutable access. The provided
    /// closure is called for each `AttachmentMut` and borrows are limited to the closure body.
    /// A closure that asks for valid references must not remove an attachment that is still to be
    /// visited.
    pub fn foreach_attachment_mut<F: FnMut(AttachmentMut<'_>)>(&mut self, f: F)
        requires
            ({
                ||| forall|h: AttachmentMut<'_>| #[trigger] call_requires(f, (h,))
                ||| {
                    &&& {
                        ||| forall|h: AttachmentMut<'_>|
                            h.valid() ==> #[trigger] call_requires(f, (h,))
                        ||| {
                            &&& old(self).wf()
                            &&& forall|h: AttachmentMut<'_>|
                                h.valid() && h.db().wf() ==> #[trigger] call_requires(f, (h,))
                            &&& forall|h: AttachmentMut<'_>|
                                h.db().wf() && #[trigger] call_ensures(f, (h,), ())
                                    ==> (*final(h.database)).wf()
                        }
                    }
                    &&& forall|h: AttachmentMut<'_>, k: AttachmentId|
                        #![trigger call_ensures(f, (h,), ()), h.db().attachments.contains_key(k)]
                        call_ensures(f, (h,), ()) && AttachmentId::precedes(h.id, k)
                            && old(self).deep_view().attachments.contains_key(k)
                            && h.db().attachments.contains_key(k)
                            ==> (*final(h.database)).deep_view().attachments.contains_key(k)
                }
            }),
        ensures
            exists|states: Seq<Database>|
                {
                    &&& states.len() == order::ordered::<AttachmentId>(
                        old(self).deep_view().attachments.dom(),
                    ).len() + 1
                    &&& states[0] == *old(self)
                    &&& states.last() == *final(self)
                    &&& forall|i: int|
                        0 <= i < states.len() - 1 ==> exists|h: AttachmentMut<'_>|
                            *h.database == #[trigger] states[i] && *final(h.database) == states[i
                                + 1] && h.id == order::ordered::<AttachmentId>(
                                old(self).deep_view().attachments.dom(),
                            )[i] && #[trigger] call_ensures(f, (h,), ())
                },
    {
        let mut visitor = f;
        let ids = self.attachments.keys();
        let ghost listing = ids.deep_view();
        let ghost undemanding = forall|h: AttachmentMut<'_>| #[trigger] call_requires(f, (h,));
        let ghost tidy = !(forall|h: AttachmentMut<'_>|
            h.valid() ==> #[trigger] call_requires(f, (h,)));
        let ghost mut states: Seq<Database> = seq![*self];
        proof {
            assert forall|j: int| 0 <= j < listing.len() implies
                self.deep_view().attachments.contains_key(#[trigger] listing[j]) by {
                assert(listing.contains(listing[j]));
                assert(self.deep_view().attachments.dom().contains(listing[j]));
            }
        }
        let mut i: usize = 0;
        while i < ids.len()
            invariant
                visitor == f,
                undemanding ==> forall|h: AttachmentMut<'_>|
                    #[trigger] call_requires(f, (h,)),
                !undemanding && !tidy ==> forall|h: AttachmentMut<'_>|
                    h.valid() ==> #[trigger] call_requires(f, (h,)),
                !undemanding && tidy ==> forall|h: AttachmentMut<'_>|
                    h.valid() && h.db().wf() ==> #[trigger] call_requires(f, (h,)),
                !undemanding && tidy ==> forall|h: AttachmentMut<'_>|
                    h.db().wf() && #[trigger] call_ensures(f, (h,), ())
                        ==> (*final(h.database)).wf(),
                !undemanding && tidy ==> self.wf(),
                !undemanding ==> forall|h: AttachmentMut<'_>, k: AttachmentId|
                    #![trigger call_ensures(f, (h,), ()), h.db().attachments.contains_key(k)]
                    call_ensures(f, (h,), ()) && AttachmentId::precedes(h.id, k)
                        && old(self).deep_view().attachments.contains_key(k)
                        && h.db().attachments.contains_key(k)
                        ==> (*final(h.database)).deep_view().attachments.contains_key(k),
                listing == ids.deep_view(),
                order::increasing::<AttachmentId>(listing),
                forall|j: int|
                    0 <= j < listing.len() ==> old(self).deep_view().attachments.contains_key(
                        #[trigger] listing[j],
                    ),
                i <= ids@.len(),
                states.len() == i + 1,
                states[0] == *old(self),
                states.last() == *self,
                !undemanding ==> forall|j: int|
                    i <= j < listing.len() ==> self.deep_view().attachments.contains_key(
                        #[trigger] listing[j],
                    ),
                forall|j: int|
                    0 <= j < i ==> exists|h: AttachmentMut<'_>|
                        *h.database == #[trigger] states[j] && *final(h.database) == states[j + 1]
                            && h.id == listing[j] && #[trigger] call_ensures(f, (h,), ()),
            decreases ids@.len() - i,
        {
            let id = ids[i];
            assert(listing[i as int] == id);
            let h = AttachmentMut::new(self, id);
            let ghost visited = h;
            assert(!undemanding ==> h.valid());
            visitor(h);
            proof {
                assert forall|j: int| !undemanding && i + 1 <= j < listing.len() implies
                    self.deep_view().attachments.contains_key(#[trigger] listing[j]) by {
                    assert(AttachmentId::precedes(listing[i as int], listing[j]));
                    assert(visited.db().attachments.contains_key(listing[j]));
                }
                let longer = states.push(*self);
                assert forall|j: int| 0 <= j < i + 1 implies exists|h: AttachmentMut<'_>|
                    *h.database == #[trigger] longer[j] && *final(h.database) == longer[j + 1]
                        && h.id == listing[j] && #[trigger] call_ensures(f, (h,), ()) by {
                    if j < i {
                        assert(longer[j] == states[j]);
                        assert(longer[j + 1] == states[j + 1]);
                    } else {
                        assert(call_ensures(f, (visited,), ()));
                    }
                }
                states = longer;
            }
            i += 1;
        }
    }

    /// All entries with immutable access, in the order of their identifiers.
    pub fn iter_all_entries(&self) -> (result: Vec<EntryRef<'_>>)
        ensures
            result@ == order::ordered::<EntryId>(self.deep_view().entries.dom()).map_values(
                |id: EntryId| EntryRef { database: self, id, history_index: None },
            ),
            forall|i: int| 0 <= i < result@.len() ==> (#[trigger] result@[i]).valid(),
    {
        let ids = self.entries.keys();
        let ghost listing = ids.deep_view();
        let ghost expected = listing.map_values(|id: EntryId| EntryRef { database: self, id, history_index: None });
        let mut result: Vec<EntryRef<'_>> = Vec::new();
        let mut i: usize = 0;
        while i < ids.len()
            invariant
                listing == ids.deep_view(),
                order::lists::<EntryId>(listing, self.deep_view().entries.dom()),
                expected == listing.map_values(|id: EntryId| EntryRef { database: self, id, history_index: None }),
                i <= ids@.len(),
                result@ == expected.take(i as int),
                forall|j: int| 0 <= j < i ==> (#[trigger] result@[j]).valid(),
            decreases ids@.len() - i,
        {
            proof {
                assert(listing[i as int] == ids@[i as int]);
                assert(listing.contains(ids@[i as int]));
                assert(self.deep_view().entries.dom().contains(ids@[i as int]));
            }
            result.push(EntryRef::new(self, ids[i]));
            assert(result@ =~= expected.take(i + 1));
            i += 1;
        }
        assert(expected.take(ids@.len() as int) =~= expected);
        result
    }

    /// Visit all entries, in the order of their identifiers, with mutable access. The provided
    /// closure is called for each `EntryMut` and borrows are limited to the closure body.
    /// A closure that asks for valid references must not remove an entry that is still to be
    /// visited.
    pub fn foreach_entry_mut<F: FnMut(EntryMut<'_>)>(&mut self, f: F)
        requires
            ({
                ||| forall|h: EntryMut<'_>| h.history_index is None ==> #[trigger] call_requires(f, (h,))
                ||| {
                    &&& {
                        ||| forall|h: EntryMut<'_>|
                            h.history_index is None && h.valid() ==> #[trigger] call_requires(f, (h,))
                        ||| {
                            &&& old(self).wf()
                            &&& forall|h: EntryMut<'_>|
                                h.history_index is None && h.valid() && h.db().wf() ==> #[trigger] call_requires(f, (h,))
                            &&& forall|h: EntryMut<'_>|
                                h.db().wf() && #[trigger] call_ensures(f, (h,), ())
                                    ==> (*final(h.database)).wf()
                        }
                    }
                    &&& forall|h: EntryMut<'_>, k: EntryId|
                        #![trigger call_ensures(f, (h,), ()), h.db().entries.contains_key(k)]
                        call_ensures(f, (h,), ()) && EntryId::precedes(h.id, k)
                            && old(self).deep_view().entries.contains_key(k)
                            && h.db().entries.contains_key(k)
                            ==> (*final(h.database)).deep_view().entries.contains_key(k)
                }
            }),
        ensures
            exists|states: Seq<Database>|
                {
                    &&& states.len() == order::ordered::<EntryId>(
                        old(self).deep_view().entries.dom(),
                    ).len() + 1
                    &&& states[0] == *old(self)
                    &&& states.last() == *final(self)
                    &&& forall|i: int|
                        0 <= i < states.len() - 1 ==> exists|h: EntryMut<'_>|
                            *h.database == #[trigger] states[i] && *final(h.database) == states[i
                                + 1] && h.id == order::ordered::<EntryId>(
                                old(self).deep_view().entries.dom(),
                            )[i] && h.history_index is None && #[trigger] call_ensures(f, (h,), ())
                },
    {
        let mut visitor = f;
        let ids = self.entries.keys();
        let ghost listing = ids.deep_view();
        let ghost undemanding = forall|h: EntryMut<'_>| h.history_index is None ==> #[trigger] call_requires(f, (h,));
        let ghost tidy = !(forall|h: EntryMut<'_>|
            h.history_index is None && h.valid() ==> #[trigger] call_requires(f, (h,)));
        let ghost mut states: Seq<Database> = seq![*self];
        proof {
            assert forall|j: int| 0 <= j < listing.len() implies
                self.deep_view().entries.contains_key(#[trigger] listing[j]) by {
                assert(listing.contains(listing[j]));
                assert(self.deep_view().entries.dom().contains(listing[j]));
            }
        }
        let mut i: usize = 0;
        while i < ids.len()
            invariant
                visitor == f,
                undemanding ==> forall|h: EntryMut<'_>|
                    h.history_index is None ==> #[trigger] call_requires(f, (h,)),
                !undemanding && !tidy ==> forall|h: EntryMut<'_>|
                    h.history_index is None && h.valid() ==> #[trigger] call_requires(f, (h,)),
                !undemanding && tidy ==> forall|h: EntryMut<'_>|
                    h.history_index is None && h.valid() && h.db().wf() ==> #[trigger] call_requires(f, (h,)),
                !undemanding && tidy ==> forall|h: EntryMut<'_>|
                    h.db().wf() && #[trigger] call_ensures(f, (h,), ())
                        ==> (*final(h.database)).wf(),
                !undemanding && tidy ==> self.wf(),
                !undemanding ==> forall|h: EntryMut<'_>, k: EntryId|
                    #![trigger call_ensures(f, (h,), ()), h.db().entries.contains_key(k)]
                    call_ensures(f, (h,), ()) && EntryId::precedes(h.id, k)
                        && old(self).deep_view().entries.contains_key(k)
                        && h.db().entries.contains_key(k)
                        ==> (*final(h.database)).deep_view().entries.contains_key(k),
                listing == ids.deep_view(),
                order::increasing::<EntryId>(listing),
                forall|j: int|
                    0 <= j < listing.len() ==> old(self).deep_view().entries.contains_key(
                        #[trigger] listing[j],
                    ),
                i <= ids@.len(),
                states.len() == i + 1,
                states[0] == *old(self),
                states.last() == *self,
                !undemanding ==> forall|j: int|
                    i <= j < listing.len() ==> self.deep_view().entries.contains_key(
                        #[trigger] listing[j],
                    ),
                forall|j: int|
                    0 <= j < i ==> exists|h: EntryMut<'_>|
                        *h.database == #[trigger] states[j] && *final(h.database) == states[j + 1]
                            && h.id == listing[j] && h.history_index is None && #[trigger] call_ensures(f, (h,), ()),
            decreases ids@.len() - i,
        {
            let id = ids[i];
            assert(listing[i as int] == id);
            let h = EntryMut::new(self, id);
            let ghost visited = h;
            assert(!undemanding ==> h.valid());
            visitor(h);
            proof {
                assert forall|j: int| !undemanding && i + 1 <= j < listing.len() implies
                    self.deep_view().entries.contains_key(#[trigger] listing[j]) by {
                    assert(EntryId::precedes(listing[i as int], listing[j]));
                    assert(visited.db().entries.contains_key(listing[j]));
                }
                let longer = states.push(*self);
                assert forall|j: int| 0 <= j < i + 1 implies exists|h: EntryMut<'_>|
                    *h.database == #[trigger] longer[j] && *final(h.database) == longer[j + 1]
                        && h.id == listing[j] && h.history_index is None && #[trigger] call_ensures(f, (h,), ()) by {
                    if j < i {
                        assert(longer[j] == states[j]);
                        assert(longer[j + 1] == states[j + 1]);
                    } else {
                        assert(call_ensures(f, (visited,), ()));
                    }
                }
                states = longer;
            }
            i += 1;
        }
    }

    /// All custom icons with immutable access, in the order of their identifiers.
    pub fn iter_all_custom_icons(&self) -> (result: Vec<CustomIconRef<'_>>)
        ensures
            result@ == order::ordered::<CustomIconId>(self.deep_view().custom_icons.dom()).map_values(
                |id: CustomIconId| CustomIconRef { database: self, id },
            ),
            forall|i: int| 0 <= i < result@.len() ==> (#[trigger] result@[i]).valid(),
    {
        let ids = self.custom_icons.keys();
        let ghost listing = ids.deep_view();
        let ghost expected = listing.map_values(|id: CustomIconId| CustomIconRef { database: self, id });
        let mut result: Vec<CustomIconRef<'_>> = Vec::new();
        let mut i: usize = 0;
        while i < ids.len()
            invariant
                listing == ids.deep_view(),
                order::lists::<CustomIconId>(listing, self.deep_view().custom_icons.dom()),
                expected == listing.map_values(|id: CustomIconId| CustomIconRef { database: self, id }),
                i <= ids@.len(),
                result@ == expected.take(i as int),
                forall|j: int| 0 <= j < i ==> (#[trigger] result@[j]).valid(),
            decreases ids@.len() - i,
        {
            proof {
                assert(listing[i as int] == ids@[i as int]);
                assert(listing.contains(ids@[i as int]));
                assert(self.deep_view().custom_icons.dom().contains(ids@[i as int]));
            }
            result.push(CustomIconRef::new(self, ids[i]));
            assert(result@ =~= expected.take(i + 1));
            i += 1;
        }
        assert(expected.take(ids@.len() as int) =~= expected);
        result
    }

    /// Visit all custom icons, in the order of their identifiers, with mutable access. The provided
    /// closure is called for each `CustomIconMut` and borrows are limited to the closure body.
    /// A closure that asks for valid references must not remove a custom icon that is still to be
    /// visited.
    pub fn foreach_custom_icon_mut<F: FnMut(CustomIconMut<'_>)>(&mut self, f: F)
        requires
            ({
                ||| forall|h: CustomIconMut<'_>| #[trigger] call_requires(f, (h,))
                ||| {
                    &&& {
                        ||| forall|h: CustomIconMut<'_>|
                            h.valid() ==> #[trigger] call_requires(f, (h,))
                        ||| {
                            &&& old(self).wf()
                            &&& forall|h: CustomIconMut<'_>|
                                h.valid() && h.db().wf() ==> #[trigger] call_requires(f, (h,))
                            &&& forall|h: CustomIconMut<'_>|
                                h.db().wf() && #[trigger] call_ensures(f, (h,), ())
                                    ==> (*final(h.database)).wf()
                        }
                    }
                    &&& forall|h: CustomIconMut<'_>, k: CustomIconId|
                        #![trigger call_ensures(f, (h,), ()), h.db().custom_icons.contains_key(k)]
                        call_ensures(f, (h,), ()) && CustomIconId::precedes(h.id, k)
                            && old(self).deep_view().custom_icons.contains_key(k)
                            && h.db().custom_icons.contains_key(k)
                            ==> (*final(h.database)).deep_view().custom_icons.contains_key(k)
                }
            }),
        ensures
            exists|states: Seq<Database>|
                {
                    &&& states.len() == order::ordered::<CustomIconId>(
                        old(self).deep_view().custom_icons.dom(),
                    ).len() + 1
                    &&& states[0] == *old(self)
                    &&& states.last() == *final(self)
                    &&& forall|i: int|
                        0 <= i < states.len() - 1 ==> exists|h: CustomIconMut<'_>|
                            *h.database == #[trigger] states[i] && *final(h.database) == states[i
                                + 1] && h.id == order::ordered::<CustomIconId>(
                                old(self).deep_view().custom_icons.dom(),
                            )[i] && #[trigger] call_ensures(f, (h,), ())
                },
    {
        let mut visitor = f;
        let ids = self.custom_icons.keys();
        let ghost listing = ids.deep_view();
        let ghost undemanding = forall|h: CustomIconMut<'_>| #[trigger] call_requires(f, (h,));
        let ghost tidy = !(forall|h: CustomIconMut<'_>|
            h.valid() ==> #[trigger] call_requires(f, (h,)));
        let ghost mut states: Seq<Database> = seq![*self];
        proof {
            assert forall|j: int| 0 <= j < listing.len() implies
                self.deep_view().custom_icons.contains_key(#[trigger] listing[j]) by {
                assert(listing.contains(listing[j]));
                assert(self.deep_view().custom_icons.dom().contains(listing[j]));
            }
        }
        let mut i: usize = 0;
        while i < ids.len()
            invariant
                visitor == f,
                undemanding ==> forall|h: CustomIconMut<'_>|
                    #[trigger] call_requires(f, (h,)),
                !undemanding && !tidy ==> forall|h: CustomIconMut<'_>|
                    h.valid() ==> #[trigger] call_requires(f, (h,)),
                !undemanding && tidy ==> forall|h: CustomIconMut<'_>|
                    h.valid() && h.db().wf() ==> #[trigger] call_requires(f, (h,)),
                !undemanding && tidy ==> forall|h: CustomIconMut<'_>|
                    h.db().wf() && #[trigger] call_ensures(f, (h,), ())
                        ==> (*final(h.database)).wf(),
                !undemanding && tidy ==> self.wf(),
                !undemanding ==> forall|h: CustomIconMut<'_>, k: CustomIconId|
                    #![trigger call_ensures(f, (h,), ()), h.db().custom_icons.contains_key(k)]
                    call_ensures(f, (h,), ()) && CustomIconId::precedes(h.id, k)
                        && old(self).deep_view().custom_icons.contains_key(k)
                        && h.db().custom_icons.contains_key(k)
                        ==> (*final(h.database)).deep_view().custom_icons.contains_key(k),
                listing == ids.deep_view(),
                order::increasing::<CustomIconId>(listing),
                forall|j: int|
                    0 <= j < listing.len() ==> old(self).deep_view().custom_icons.contains_key(
                        #[trigger] listing[j],
                    ),
                i <= ids@.len(),
                states.len() == i + 1,
                states[0] == *old(self),
                states.last() == *self,
                !undemanding ==> forall|j: int|
                    i <= j < listing.len() ==> self.deep_view().custom_icons.contains_key(
                        #[trigger] listing[j],
                    ),
                forall|j: int|
                    0 <= j < i ==> exists|h: CustomIconMut<'_>|
                        *h.database == #[trigger] states[j] && *final(h.database) == states[j + 1]
                            && h.id == listing[j] && #[trigger] call_ensures(f, (h,), ()),
            decreases ids@.len() - i,
        {
            let id = ids[i];
            assert(listing[i as int] == id);
            let h = CustomIconMut::new(self, id);
            let ghost visited = h;
            assert(!undemanding ==> h.valid());
            visitor(h);
            proof {
                assert forall|j: int| !undemanding && i + 1 <= j < listing.len() implies
                    self.deep_view().custom_icons.contains_key(#[trigger] listing[j]) by {
                    assert(CustomIconId::precedes(listing[i as int], listing[j]));
                    assert(visited.db().custom_icons.contains_key(listing[j]));
                }
                let longer = states.push(*self);
                assert forall|j: int| 0 <= j < i + 1 implies exists|h: CustomIconMut<'_>|
                    *h.database == #[trigger] longer[j] && *final(h.database) == longer[j + 1]
                        && h.id == listing[j] && #[trigger] call_ensures(f, (h,), ()) by {
                    if j < i {
                        assert(longer[j] == states[j]);
                        assert(longer[j + 1] == states[j + 1]);
                    } else {
                        assert(call_ensures(f, (visited,), ()));
                    }
                }
                states = longer;
            }
            i += 1;
        }
    }

    /// All groups, including the root group and the recycle bin (if it exists), with immutable access, in the order of their identifiers.
    pub fn iter_all_groups(&self) -> (result: Vec<GroupRef<'_>>)
        ensures
            result@ == order::ordered::<GroupId>(self.deep_view().groups.dom()).map_values(
                |id: GroupId| GroupRef { database: self, id },
            ),
            forall|i: int| 0 <= i < result@.len() ==> (#[trigger] result@[i]).valid(),
    {
        let ids = self.groups.keys();
        let ghost listing = ids.deep_view();
        let ghost expected = listing.map_values(|id: GroupId| GroupRef { database: self, id });
        let mut result: Vec<GroupRef<'_>> = Vec::new();
        let mut i: usize = 0;
        while i < ids.len()
            invariant
                listing == ids.deep_view(),
                order::lists::<GroupId>(listing, self.deep_view().groups.dom()),
                expected == listing.map_values(|id: GroupId| GroupRef { database: self, id }),
                i <= ids@.len(),
                result@ == expected.take(i as int),
                forall|j: int| 0 <= j < i ==> (#[trigger] result@[j]).valid(),
            decreases ids@.len() - i,
        {
            proof {
                assert(listing[i as int] == ids@[i as int]);
                assert(listing.contains(ids@[i as int]));
                assert(self.deep_view().groups.dom().contains(ids@[i as int]));
            }
            result.push(GroupRef::new(self, ids[i]));
            assert(result@ =~= expected.take(i + 1));
            i += 1;
        }
        assert(expected.take(ids@.len() as int) =~= expected);
        result
    }

    /// Visit all groups, in the order of their identifiers, with mutable access. The provided
    /// closure is called for each `GroupMut` and borrows are limited to the closure body.
    /// A closure that asks for valid references must not remove a group that is still to be
    /// visited.
    pub fn foreach_group_mut<F: FnMut(GroupMut<'_>)>(&mut self, f: F)
        requires
            ({
                ||| forall|h: GroupMut<'_>| #[trigger] call_requires(f, (h,))
                ||| {
                    &&& {
                        ||| forall|h: GroupMut<'_>|
                            h.valid() ==> #[trigger] call_requires(f, (h,))
                        ||| {
                            &&& old(self).wf()
                            &&& forall|h: GroupMut<'_>|
                                h.valid() && h.db().wf() ==> #[trigger] call_requires(f, (h,))
                            &&& forall|h: GroupMut<'_>|
                                h.db().wf() && #[trigger] call_ensures(f, (h,), ())
                                    ==> (*final(h.database)).wf()
                        }
                    }
                    &&& forall|h: GroupMut<'_>, k: GroupId|
                        #![trigger call_ensures(f, (h,), ()), h.db().groups.contains_key(k)]
                        call_ensures(f, (h,), ()) && GroupId::precedes(h.id, k)
                            && old(self).deep_view().groups.contains_key(k)
                            && h.db().groups.contains_key(k)
                            ==> (*final(h.database)).deep_view().groups.contains_key(k)
                }
            }),
        ensures
            exists|states: Seq<Database>|
                {
                    &&& states.len() == order::ordered::<GroupId>(
                        old(self).deep_view().groups.dom(),
                    ).len() + 1
                    &&& states[0] == *old(self)
                    &&& states.last() == *final(self)
                    &&& forall|i: int|
                        0 <= i < states.len() - 1 ==> exists|h: GroupMut<'_>|
                            *h.database == #[trigger] states[i] && *final(h.database) == states[i
                                + 1] && h.id == order::ordered::<GroupId>(
                                old(self).deep_view().groups.dom(),
                            )[i] && #[trigger] call_ensures(f, (h,), ())
                },
    {
        let mut visitor = f;
        let ids = self.groups.keys();
        let ghost listing = ids.deep_view();
        let ghost undemanding = forall|h: GroupMut<'_>| #[trigger] call_requires(f, (h,));
        let ghost tidy = !(forall|h: GroupMut<'_>|
            h.valid() ==> #[trigger] call_requires(f, (h,)));
        let ghost mut states: Seq<Database> = seq![*self];
        proof {
            assert forall|j: int| 0 <= j < listing.len() implies
                self.deep_view().groups.contains_key(#[trigger] listing[j]) by {
                assert(listing.contains(listing[j]));
                assert(self.deep_view().groups.dom().contains(listing[j]));
            }
        }
        let mut i: usize = 0;
        while i < ids.len()
            invariant
                visitor == f,
                undemanding ==> forall|h: GroupMut<'_>|
                    #[trigger] call_requires(f, (h,)),
                !undemanding && !tidy ==> forall|h: GroupMut<'_>|
                    h.valid() ==> #[trigger] call_requires(f, (h,)),
                !undemanding && tidy ==> forall|h: GroupMut<'_>|
                    h.valid() && h.db().wf() ==> #[trigger] call_requires(f, (h,)),
                !undemanding && tidy ==> forall|h: GroupMut<'_>|
                    h.db().wf() && #[trigger] call_ensures(f, (h,), ())
                        ==> (*final(h.database)).wf(),
                !undemanding && tidy ==> self.wf(),
                !undemanding ==> forall|h: GroupMut<'_>, k: GroupId|
                    #![trigger call_ensures(f, (h,), ()), h.db().groups.contains_key(k)]
                    call_ensures(f, (h,), ()) && GroupId::precedes(h.id, k)
                        && old(self).deep_view().groups.contains_key(k)
                        && h.db().groups.contains_key(k)
                        ==> (*final(h.database)).deep_view().groups.contains_key(k),
                listing == ids.deep_view(),
                order::increasing::<GroupId>(listing),
                forall|j: int|
                    0 <= j < listing.len() ==> old(self).deep_view().groups.contains_key(
                        #[trigger] listing[j],
                    ),
                i <= ids@.len(),
                states.len() == i + 1,
                states[0] == *old(self),
                states.last() == *self,
                !undemanding ==> forall|j: int|
                    i <= j < listing.len() ==> self.deep_view().groups.contains_key(
                        #[trigger] listing[j],
                    ),
                forall|j: int|
                    0 <= j < i ==> exists|h: GroupMut<'_>|
                        *h.database == #[trigger] states[j] && *final(h.database) == states[j + 1]
                            && h.id == listing[j] && #[trigger] call_ensures(f, (h,), ()),
            decreases ids@.len() - i,
        {
            let id = ids[i];
            assert(listing[i as int] == id);
            let h = GroupMut::new(self, id);
            let ghost visited = h;
            assert(!undemanding ==> h.valid());
            visitor(h);
            proof {
                assert forall|j: int| !undemanding && i + 1 <= j < listing.len() implies
                    self.deep_view().groups.contains_key(#[trigger] listing[j]) by {
                    assert(GroupId::precedes(listing[i as int], listing[j]));
                    assert(visited.db().groups.contains_key(listing[j]));
                }
                let longer = states.push(*self);
                assert forall|j: int| 0 <= j < i + 1 implies exists|h: GroupMut<'_>|
                    *h.database == #[trigger] longer[j] && *final(h.database) == longer[j + 1]
                        && h.id == listing[j] && #[trigger] call_ensures(f, (h,), ()) by {
                    if j < i {
                        assert(longer[j] == states[j]);
                        assert(longer[j + 1] == states[j + 1]);
                    } else {
                        assert(call_ensures(f, (visited,), ()));
                    }
                }
                states = longer;
            }
            i += 1;
        }
    }
}

} // verus!
