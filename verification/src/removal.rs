//! The removal of entries and of whole groups.

use vstd::prelude::*;
use crate::database;
use crate::database::Database;
use crate::database::DatabaseModel;
use crate::database::Groups;
use crate::group::GroupModel;
use crate::ids::AttachmentId;
use crate::ids::EntryId;
use crate::ids::GroupId;
use crate::order;
use crate::references;
use crate::sorted_set::SortedSet;
use crate::tree;

verus! {

/// A group that no longer knows some entries: it does not list them, and shows none of them at
/// the top.
pub open spec fn forgetting(group: GroupModel, gone: Set<EntryId>) -> GroupModel {
    GroupModel {
        entries: group.entries.difference(gone),
        last_top_visible_entry: match group.last_top_visible_entry {
            Some(e) => if gone.contains(e) {
                None
            } else {
                Some(e)
            },
            None => None,
        },
        ..group
    }
}

/// The database without some of its entries. Attachments that only these referred to, in their
/// live or history versions, go with them.
pub open spec fn entries_removed(db: DatabaseModel, gone: Set<EntryId>) -> DatabaseModel {
    let kept = db.entries.remove_keys(gone);
    DatabaseModel {
        entries: kept,
        groups: Map::new(
            |g: GroupId| db.groups.contains_key(g),
            |g: GroupId| forgetting(db.groups[g], gone),
        ),
        attachments: db.attachments.remove_keys(
            Set::new(
                |a: AttachmentId|
                    references::used(db.entries.restrict(gone), a) && !references::used(kept, a),
            ),
        ),
        ..db
    }
}

/// The group and everything below it.
pub open spec fn subtree(groups: Groups, top: GroupId) -> Set<GroupId> {
    Set::new(|g: GroupId| groups.contains_key(g) && tree::in_subtree(groups, g, top))
}

/// The entries in the group and in everything below it.
pub open spec fn entries_below(db: DatabaseModel, top: GroupId) -> Set<EntryId> {
    Set::new(
        |e: EntryId|
            db.entries.contains_key(e) && tree::in_subtree(db.groups, db.entries[e].parent, top),
    )
}

/// The groups without a group and everything below it.
pub open spec fn pruned(groups: Groups, doomed: Set<GroupId>, top: GroupId) -> Groups {
    let rest = groups.remove_keys(doomed);
    match groups[top].parent {
        Some(p) => tree::unlisting_group(rest, p, top),
        None => rest,
    }
}

/// The database without a group, everything below it, and the entries therein. The root group
/// stays.
pub open spec fn group_removed(db: DatabaseModel, top: GroupId) -> DatabaseModel {
    if db.groups[top].parent is None {
        db
    } else {
        let emptied = entries_removed(db, entries_below(db, top));
        DatabaseModel {
            groups: pruned(emptied.groups, subtree(db.groups, top), top),
            ..emptied
        }
    }
}

/// Removing entries keeps the database well formed.
pub proof fn lemma_entries_removed_wf(db: DatabaseModel, gone: Set<EntryId>)
    requires
        db.wf(),
    ensures
        entries_removed(db, gone).wf(),
{
    let after = entries_removed(db, gone);
    assert(after.groups.dom() =~= db.groups.dom());
    tree::lemma_same_tree(db.groups, after.groups, db.root);
    assert forall|e: EntryId| #[trigger] after.entries.contains_key(e) implies
        database::entry_placed(after.entries, after.groups, e) by {
        assert(database::entry_placed(db.entries, db.groups, e));
    }
}

/// Removing a group keeps the database well formed.
pub proof fn lemma_group_removed_wf(db: DatabaseModel, top: GroupId)
    requires
        db.wf(),
        db.groups.contains_key(top),
    ensures
        group_removed(db, top).wf(),
{
    if db.groups[top].parent is Some {
        let gone = entries_below(db, top);
        let doomed = subtree(db.groups, top);
        let emptied = entries_removed(db, gone);
        let after = group_removed(db, top);
        let p = db.groups[top].parent->0;
        lemma_entries_removed_wf(db, gone);
        let depth = choose|depth: spec_fn(GroupId) -> nat|
            database::deeper_than_parent(db.groups, depth);
        assert(tree::ancestor(db.groups, top, 0) == Some(top));
        assert(database::group_placed(db.groups, db.root, top));
        assert(database::group_placed(db.groups, db.root, p));
        lemma_parent_outside(db.groups, db.root, top, p);
        assert forall|g: GroupId| #[trigger] after.groups.contains_key(g) implies {
            &&& database::group_placed(after.groups, after.root, g)
            &&& match after.groups[g].parent {
                Some(q) => depth(q) < depth(g),
                None => true,
            }
        } by {
            assert(emptied.groups.contains_key(g));
            assert(db.groups.contains_key(g));
            assert(database::group_placed(db.groups, db.root, g));
            match db.groups[g].parent {
                Some(q) => {
                    tree::lemma_child_in_subtree(db.groups, g, q, top);
                },
                None => {},
            }
            assert forall|c: GroupId| #[trigger] after.groups[g].groups.contains(c) implies
                after.groups.contains_key(c) && after.groups[c].parent == Some(g) by {
                assert(db.groups[g].groups.contains(c));
                tree::lemma_child_in_subtree(db.groups, c, g, top);
            }
        }
        assert(database::deeper_than_parent(after.groups, depth));
        lemma_root_outside(db.groups, db.root, top);
        assert forall|e: EntryId| #[trigger] after.entries.contains_key(e) implies
            database::entry_placed(after.entries, after.groups, e) by {
            assert(database::entry_placed(db.entries, db.groups, e));
        }
        assert forall|g: GroupId, e: EntryId|
            after.groups.contains_key(g) && #[trigger] after.groups[g].entries.contains(
                e,
            ) implies after.entries.contains_key(e) && after.entries[e].parent == g by {
            assert(emptied.groups.contains_key(g));
            assert(emptied.groups[g].entries.contains(e));
        }
    }
}

/// The parent of a group does not stand below it.
pub proof fn lemma_parent_outside(groups: Groups, root: GroupId, top: GroupId, p: GroupId)
    requires
        database::is_tree(groups, root),
        groups.contains_key(top),
        groups[top].parent == Some(p),
    ensures
        !tree::in_subtree(groups, p, top),
{
    let depth = choose|depth: spec_fn(GroupId) -> nat| database::deeper_than_parent(groups, depth);
    if tree::in_subtree(groups, p, top) {
        let n = choose|n: nat| #[trigger] tree::ancestor(groups, p, n) == Some(top);
        lemma_ancestor_depth(groups, root, p, top, n, depth);
    }
}

/// The root does not stand below another group.
pub proof fn lemma_root_outside(groups: Groups, root: GroupId, top: GroupId)
    requires
        database::is_tree(groups, root),
        groups.contains_key(top),
        groups[top].parent is Some,
    ensures
        !tree::in_subtree(groups, root, top),
{
    assert(database::group_placed(groups, root, root));
    assert(database::group_placed(groups, root, top));
    if tree::in_subtree(groups, root, top) {
        let n = choose|n: nat| #[trigger] tree::ancestor(groups, root, n) == Some(top);
        lemma_ancestors_of_root(groups, root, n);
    }
}

proof fn lemma_ancestors_of_root(groups: Groups, root: GroupId, n: nat)
    requires
        groups.contains_key(root),
        groups[root].parent is None,
    ensures
        n > 0 ==> tree::ancestor(groups, root, n) is None,
    decreases n,
{
    if n > 0 {
        lemma_ancestors_of_root(groups, root, (n - 1) as nat);
        assert(tree::ancestor(groups, root, 0) == Some(root));
    }
}

/// An ancestor does not stand deeper.
proof fn lemma_ancestor_depth(
    groups: Groups,
    root: GroupId,
    g: GroupId,
    a: GroupId,
    n: nat,
    depth: spec_fn(GroupId) -> nat,
)
    requires
        database::is_tree(groups, root),
        database::deeper_than_parent(groups, depth),
        groups.contains_key(g),
        tree::ancestor(groups, g, n) == Some(a),
    ensures
        groups.contains_key(a),
        depth(a) <= depth(g),
    decreases n,
{
    if n > 0 {
        let b = tree::ancestor(groups, g, (n - 1) as nat);
        lemma_ancestor_depth(groups, root, g, b->0, (n - 1) as nat, depth);
        assert(database::group_placed(groups, root, b->0));
    }
}

impl Database {
    /// Removes entries, and the attachments that nothing else refers to.
    fn discard_entries(&mut self, gone: &SortedSet<EntryId>)
        requires
            old(self).wf(),
        ensures
            final(self).deep_view() == entries_removed(old(self).deep_view(), gone.deep_view()),
            final(self).wf(),
    {
        let ghost db = self.deep_view();
        let ghost away = gone.deep_view();
        let ids = gone.members();
        let ghost listing = ids.deep_view();

        // Which attachments the entries refer to.
        let mut candidates: SortedSet<AttachmentId> = SortedSet::new();
        let mut i: usize = 0;
        while i < ids.len()
            invariant
                *self == *old(self),
                db == self.deep_view(),
                away == gone.deep_view(),
                listing == ids.deep_view(),
                order::lists::<EntryId>(listing, away),
                i <= ids@.len(),
                forall|a: AttachmentId| #[trigger]
                    candidates.deep_view().contains(a) <==> exists|j: int|
                        0 <= j < i && db.entries.contains_key(#[trigger] listing[j])
                            && db.entries[listing[j]].uses(a),
            decreases ids@.len() - i,
        {
            let id = ids[i];
            let ghost before = candidates.deep_view();
            assert(listing[i as int] == id);
            if let Some(entry) = self.entries.get(&id) {
                entry.collect_attachments(&mut candidates);
            }
            proof {
                assert forall|a: AttachmentId| #[trigger] candidates.deep_view().contains(a)
                    <==> exists|j: int|
                    0 <= j < i + 1 && db.entries.contains_key(#[trigger] listing[j])
                        && db.entries[listing[j]].uses(a) by {
                    assert(before.contains(a) <==> exists|j: int|
                        0 <= j < i && db.entries.contains_key(#[trigger] listing[j])
                            && db.entries[listing[j]].uses(a));
                    if db.entries.contains_key(id) && db.entries[id].uses(a) {
                        assert(db.entries.contains_key(listing[i as int]));
                    }
                }
            }
            i += 1;
        }
        proof {
            let mine = db.entries.restrict(away);
            assert forall|a: AttachmentId| #[trigger] candidates.deep_view().contains(a)
                <==> references::used(mine, a) by {
                if references::used(mine, a) {
                    let e = choose|e: EntryId| #[trigger]
                        mine.contains_key(e) && mine[e].uses(a);
                    assert(away.contains(e));
                    let j = choose|j: int| 0 <= j < listing.len() && listing[j] == e;
                    assert(db.entries.contains_key(listing[j]));
                }
                if candidates.deep_view().contains(a) {
                    let j = choose|j: int|
                        0 <= j < listing.len() && db.entries.contains_key(#[trigger] listing[j])
                            && db.entries[listing[j]].uses(a);
                    assert(listing.contains(listing[j]));
                    assert(mine.contains_key(listing[j]));
                }
            }
        }

        // Take the entries out.
        let mut i: usize = 0;
        while i < ids.len()
            invariant
                self.deep_view() == (DatabaseModel { entries: self.deep_view().entries, ..db }),
                self.deep_view().entries == db.entries.remove_keys(
                    Set::new(|e: EntryId| listing.take(i as int).contains(e)),
                ),
                listing == ids.deep_view(),
                i <= ids@.len(),
            decreases ids@.len() - i,
        {
            self.entries.remove(&ids[i]);
            proof {
                order::lemma_take_next(listing, i as int);
                assert(self.deep_view().entries =~= db.entries.remove_keys(
                    Set::new(|e: EntryId| listing.take(i + 1).contains(e)),
                ));
            }
            i += 1;
        }
        proof {
            assert(listing.take(listing.len() as int) =~= listing);
            assert forall|e: EntryId| listing.contains(e) == #[trigger] away.contains(e) by {}
            assert(Set::new(|e: EntryId| listing.take(listing.len() as int).contains(e)) =~= away);
            assert(self.deep_view().entries == db.entries.remove_keys(away));
        }

        // Let the groups forget them.
        let ghost kept = self.deep_view().entries;
        self.forget_entries(gone);
        let ghost forgotten = self.deep_view();

        // Take out the attachments that nothing refers to any more.
        let attachment_ids = candidates.members();
        let ghost targets = attachment_ids.deep_view();
        let mut i: usize = 0;
        while i < attachment_ids.len()
            invariant
                self.deep_view() == (DatabaseModel {
                    attachments: self.deep_view().attachments,
                    ..forgotten
                }),
                forgotten.entries == kept,
                self.deep_view().attachments == db.attachments.remove_keys(
                    Set::new(
                        |a: AttachmentId|
                            targets.take(i as int).contains(a) && !references::used(kept, a),
                    ),
                ),
                targets == attachment_ids.deep_view(),
                i <= attachment_ids@.len(),
            decreases attachment_ids@.len() - i,
        {
            let a = attachment_ids[i];
            if !self.is_attachment_used(a) {
                self.attachments.remove(&a);
            }
            proof {
                order::lemma_take_next(targets, i as int);
                assert(self.deep_view().attachments =~= db.attachments.remove_keys(
                    Set::new(
                        |a: AttachmentId|
                            targets.take(i + 1).contains(a) && !references::used(kept, a),
                    ),
                ));
            }
            i += 1;
        }
        proof {
            assert(targets.take(targets.len() as int) =~= targets);
            let mine = db.entries.restrict(away);
            assert forall|a: AttachmentId| targets.contains(a) == #[trigger] references::used(
                mine,
                a,
            ) by {
                assert(candidates.deep_view().contains(a) <==> references::used(mine, a));
            }
            assert(self.deep_view().attachments =~= entries_removed(db, away).attachments);
            assert(self.deep_view() =~= entries_removed(db, away));
            lemma_entries_removed_wf(db, away);
        }
    }

    /// Lets all groups forget entries.
    fn forget_entries(&mut self, gone: &SortedSet<EntryId>)
        ensures
            final(self).deep_view() == (DatabaseModel {
                groups: Map::new(
                    |g: GroupId| old(self).deep_view().groups.contains_key(g),
                    |g: GroupId| forgetting(old(self).deep_view().groups[g], gone.deep_view()),
                ),
                ..old(self).deep_view()
            }),
    {
        let ghost db = self.deep_view();
        let ghost away = gone.deep_view();
        let group_ids = self.groups.keys();
        let entry_ids = gone.members();
        let ghost listing = group_ids.deep_view();
        let ghost departing = entry_ids.deep_view();
        let mut i: usize = 0;
        while i < group_ids.len()
            invariant
                self.deep_view() == (DatabaseModel { groups: self.deep_view().groups, ..db }),
                away == gone.deep_view(),
                departing == entry_ids.deep_view(),
                order::lists::<EntryId>(departing, away),
                listing == group_ids.deep_view(),
                order::lists::<GroupId>(listing, db.groups.dom()),
                i <= group_ids@.len(),
                self.deep_view().groups.dom() == db.groups.dom(),
                forall|g: GroupId| #[trigger]
                    db.groups.contains_key(g) ==> self.deep_view().groups[g] == (
                    if listing.take(i as int).contains(g) {
                        forgetting(db.groups[g], away)
                    } else {
                        db.groups[g]
                    }),
            decreases group_ids@.len() - i,
        {
            let id = group_ids[i];
            proof {
                assert(listing[i as int] == id);
                assert(listing.contains(id));
                assert(db.groups.dom().contains(id));
                order::lemma_take_next(listing, i as int);
                order::lemma_increasing_no_duplicates::<GroupId>(listing);
                if listing.take(i as int).contains(id) {
                    let j = choose|j: int|
                        0 <= j < i && listing.take(i as int)[j] == id;
                    assert(listing[j] == id);
                }
            }
            let ghost whole = self.deep_view().groups;
            if let Some(group) = self.groups.get_mut(&id) {
                let ghost before = group.deep_view();
                let mut k: usize = 0;
                while k < entry_ids.len()
                    invariant
                        departing == entry_ids.deep_view(),
                        k <= entry_ids@.len(),
                        group.deep_view() == (GroupModel {
                            entries: before.entries.difference(
                                Set::new(|e: EntryId| departing.take(k as int).contains(e)),
                            ),
                            ..before
                        }),
                    decreases entry_ids@.len() - k,
                {
                    group.entries.remove(&entry_ids[k]);
                    proof {
                        order::lemma_take_next(departing, k as int);
                        assert(group.deep_view().entries =~= before.entries.difference(
                            Set::new(|e: EntryId| departing.take(k + 1).contains(e)),
                        ));
                    }
                    k += 1;
                }
                proof {
                    assert(departing.take(departing.len() as int) =~= departing);
                    assert(group.deep_view().entries =~= before.entries.difference(away));
                }
                if let Some(e) = group.last_top_visible_entry {
                    if gone.contains(&e) {
                        group.last_top_visible_entry = None;
                    }
                }
                assert(group.deep_view() == forgetting(before, away));
            }
            proof {
                assert(self.deep_view().groups.dom() =~= db.groups.dom());
            }
            i += 1;
        }
        proof {
            assert(listing.take(listing.len() as int) =~= listing);
            assert forall|g: GroupId| #[trigger] db.groups.contains_key(g) implies
                self.deep_view().groups[g] == forgetting(db.groups[g], away) by {
                assert(db.groups.dom().contains(g));
                assert(listing.contains(g));
            }
            assert(self.deep_view().groups =~= Map::new(
                |g: GroupId| db.groups.contains_key(g),
                |g: GroupId| forgetting(db.groups[g], away),
            ));
        }
    }

    /// Removes an entry, and the attachments that only its versions refer to.
    pub fn remove_entry(&mut self, e: EntryId)
        requires
            old(self).wf(),
        ensures
            final(self).deep_view() == entries_removed(
                old(self).deep_view(),
                Set::<EntryId>::empty().insert(e),
            ),
            final(self).wf(),
    {
        let mut gone: SortedSet<EntryId> = SortedSet::new();
        gone.insert(e);
        self.discard_entries(&gone);
    }

    /// Removes a group with everything below it. The root group stays.
    pub fn remove_group(&mut self, top: GroupId)
        requires
            old(self).wf(),
            old(self).deep_view().groups.contains_key(top),
        ensures
            final(self).deep_view() == group_removed(old(self).deep_view(), top),
            final(self).wf(),
    {
        let ghost db = self.deep_view();
        proof {
            lemma_group_removed_wf(db, top);
        }
        let parent = match self.groups.get(&top) {
            Some(group) => group.parent,
            None => None,
        };
        if let Some(p) = parent {
            let doomed = self.subtree_of(top);
            let gone = self.entries_within(top);
            proof {
                assert(database::group_placed(db.groups, db.root, top));
                lemma_parent_outside(db.groups, db.root, top, p);
            }
            self.discard_entries(&gone);
            let ghost emptied = self.deep_view();
            let ids = doomed.members();
            let ghost listing = ids.deep_view();
            let mut i: usize = 0;
            while i < ids.len()
                invariant
                    self.deep_view() == (DatabaseModel {
                        groups: self.deep_view().groups,
                        ..emptied
                    }),
                    self.deep_view().groups == emptied.groups.remove_keys(
                        Set::new(|g: GroupId| listing.take(i as int).contains(g)),
                    ),
                    listing == ids.deep_view(),
                    i <= ids@.len(),
                decreases ids@.len() - i,
            {
                self.groups.remove(&ids[i]);
                proof {
                    order::lemma_take_next(listing, i as int);
                    assert(self.deep_view().groups =~= emptied.groups.remove_keys(
                        Set::new(|g: GroupId| listing.take(i + 1).contains(g)),
                    ));
                }
                i += 1;
            }
            proof {
                assert(listing.take(listing.len() as int) =~= listing);
                assert(Set::new(|g: GroupId| listing.take(listing.len() as int).contains(g))
                    =~= doomed.deep_view());
                assert(self.deep_view().groups == emptied.groups.remove_keys(
                    subtree(db.groups, top),
                ));
            }
            tree::unlist_group(&mut self.groups, p, top);
            assert(self.deep_view() =~= group_removed(db, top));
        }
    }

    /// The group and everything below it.
    pub fn subtree_of(&self, top: GroupId) -> (result: SortedSet<GroupId>)
        requires
            self.wf(),
        ensures
            result.deep_view() == subtree(self.deep_view().groups, top),
    {
        let ghost groups = self.deep_view().groups;
        let ids = self.groups.keys();
        let ghost listing = ids.deep_view();
        let mut found: SortedSet<GroupId> = SortedSet::new();
        let mut i: usize = 0;
        while i < ids.len()
            invariant
                self.wf(),
                groups == self.deep_view().groups,
                listing == ids.deep_view(),
                i <= ids@.len(),
                forall|g: GroupId| #[trigger]
                    found.deep_view().contains(g) <==> listing.take(i as int).contains(g)
                        && tree::in_subtree(groups, g, top),
            decreases ids@.len() - i,
        {
            let id = ids[i];
            if self.is_within(id, top) {
                found.insert(id);
            }
            proof {
                order::lemma_take_next(listing, i as int);
            }
            i += 1;
        }
        proof {
            assert(listing.take(listing.len() as int) =~= listing);
            assert forall|g: GroupId| listing.contains(g) == #[trigger] groups.contains_key(g) by {
                assert(groups.dom().contains(g) <==> listing.contains(g));
            }
            assert(found.deep_view() =~= subtree(groups, top));
        }
        found
    }

    /// The entries in the group and in everything below it.
    pub fn entries_within(&self, top: GroupId) -> (result: SortedSet<EntryId>)
        requires
            self.wf(),
        ensures
            result.deep_view() == entries_below(self.deep_view(), top),
    {
        let ghost db = self.deep_view();
        let ids = self.entries.keys();
        let ghost listing = ids.deep_view();
        let mut found: SortedSet<EntryId> = SortedSet::new();
        let mut i: usize = 0;
        while i < ids.len()
            invariant
                self.wf(),
                db == self.deep_view(),
                listing == ids.deep_view(),
                order::lists::<EntryId>(listing, db.entries.dom()),
                i <= ids@.len(),
                forall|e: EntryId| #[trigger]
                    found.deep_view().contains(e) <==> listing.take(i as int).contains(e)
                        && tree::in_subtree(db.groups, db.entries[e].parent, top),
            decreases ids@.len() - i,
        {
            let id = ids[i];
            proof {
                assert(listing[i as int] == id);
                assert(listing.contains(id));
                assert(db.entries.dom().contains(id));
                order::lemma_take_next(listing, i as int);
            }
            if let Some(entry) = self.entries.get(&id) {
                if self.is_within(entry.parent, top) {
                    found.insert(id);
                }
            }
            i += 1;
        }
        proof {
            assert(listing.take(listing.len() as int) =~= listing);
            assert forall|e: EntryId| listing.contains(e) == #[trigger] db.entries.contains_key(
                e,
            ) by {
                assert(db.entries.dom().contains(e) <==> listing.contains(e));
            }
            assert(found.deep_view() =~= entries_below(db, top));
        }
        found
    }
}

} // verus!
