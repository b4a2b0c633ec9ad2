//! The tree of groups: who stands below whom, and the adding and moving of groups and entries.

use vstd::prelude::*;
use crate::database;
use crate::database::Database;
use crate::database::DatabaseModel;
use crate::database::Groups;
use crate::entry::Entry;
use crate::entry::EntryModel;
use crate::group::DestinationGroupNotFoundError;
use crate::group::DuplicateEntryIdError;
use crate::group::DuplicateGroupIdError;
use crate::group::Group;
use crate::group::GroupModel;
use crate::group::MoveGroupError;
use crate::ids::EntryId;
use crate::ids::GroupId;
use crate::sorted_map::SortedMap;

verus! {

/// The group `n` steps up from a group, if there is one.
pub open spec fn ancestor(groups: Groups, g: GroupId, n: nat) -> Option<GroupId>
    decreases n,
{
    if n == 0 {
        Some(g)
    } else {
        match ancestor(groups, g, (n - 1) as nat) {
            Some(a) => if groups.contains_key(a) {
                groups[a].parent
            } else {
                None
            },
            None => None,
        }
    }
}

/// Whether the group is `top` or stands below it.
pub open spec fn in_subtree(groups: Groups, g: GroupId, top: GroupId) -> bool {
    exists|n: nat| #[trigger] ancestor(groups, g, n) == Some(top)
}

/// The groups with `g` listing one more entry.
pub open spec fn listing_entry(groups: Groups, g: GroupId, e: EntryId) -> Groups {
    groups.insert(g, GroupModel { entries: groups[g].entries.insert(e), ..groups[g] })
}

/// The groups with `g` listing an entry no longer.
pub open spec fn unlisting_entry(groups: Groups, g: GroupId, e: EntryId) -> Groups {
    groups.insert(g, GroupModel { entries: groups[g].entries.remove(e), ..groups[g] })
}

/// The groups with `g` listing one more group.
pub open spec fn listing_group(groups: Groups, g: GroupId, c: GroupId) -> Groups {
    groups.insert(g, GroupModel { groups: groups[g].groups.insert(c), ..groups[g] })
}

/// The groups with `g` listing a group no longer.
pub open spec fn unlisting_group(groups: Groups, g: GroupId, c: GroupId) -> Groups {
    groups.insert(g, GroupModel { groups: groups[g].groups.remove(c), ..groups[g] })
}

/// The database with an entry put into a group.
pub open spec fn entry_added(db: DatabaseModel, parent: GroupId, entry: EntryModel) -> DatabaseModel {
    DatabaseModel {
        groups: listing_entry(db.groups, parent, entry.id),
        entries: db.entries.insert(entry.id, entry),
        ..db
    }
}

/// The database with a group put into a group.
pub open spec fn group_added(db: DatabaseModel, parent: GroupId, group: GroupModel) -> DatabaseModel {
    DatabaseModel {
        groups: listing_group(db.groups, parent, group.id).insert(group.id, group),
        ..db
    }
}

/// The database with an entry moved to another group.
pub open spec fn entry_moved(db: DatabaseModel, e: EntryId, to: GroupId) -> DatabaseModel {
    DatabaseModel {
        groups: listing_entry(unlisting_entry(db.groups, db.entries[e].parent, e), to, e),
        entries: db.entries.insert(e, db.entries[e].moved_to(to)),
        ..db
    }
}

/// The groups with a group moved into another.
pub open spec fn regrouped(groups: Groups, g: GroupId, to: GroupId) -> Groups {
    let from = groups[g].parent->0;
    let listed = listing_group(unlisting_group(groups, from, g), to, g);
    listed.insert(
        g,
        GroupModel { parent: Some(to), previous_parent_group: Some(from), ..listed[g] },
    )
}

/// Why a group cannot be moved into another, if it cannot.
pub open spec fn move_error(db: DatabaseModel, g: GroupId, to: GroupId) -> Option<MoveGroupError> {
    if db.groups[g].parent is None {
        Some(MoveGroupError::CannotMoveRoot(g))
    } else if !db.groups.contains_key(to) {
        Some(MoveGroupError::DestinationNotFound(to))
    } else if in_subtree(db.groups, to, g) {
        Some(MoveGroupError::WouldCreateCycle(g, to))
    } else {
        None
    }
}

/// The database with a group moved into another.
pub open spec fn group_moved(db: DatabaseModel, g: GroupId, to: GroupId) -> DatabaseModel {
    DatabaseModel { groups: regrouped(db.groups, g, to), ..db }
}

/// Going up first one step and then `n` is going up `n + 1` steps.
pub proof fn lemma_ancestor_of_parent(groups: Groups, g: GroupId, p: GroupId, n: nat)
    requires
        groups.contains_key(g),
        groups[g].parent == Some(p),
    ensures
        ancestor(groups, g, n + 1) == ancestor(groups, p, n),
    decreases n,
{
    if n == 0 {
        assert(ancestor(groups, g, 0) == Some(g));
        assert(ancestor(groups, g, 1) == Some(p));
    } else {
        lemma_ancestor_of_parent(groups, g, p, (n - 1) as nat);
    }
}

/// A group is in a subtree as soon as its parent is.
pub proof fn lemma_child_in_subtree(groups: Groups, g: GroupId, p: GroupId, top: GroupId)
    requires
        groups.contains_key(g),
        groups[g].parent == Some(p),
    ensures
        in_subtree(groups, p, top) ==> in_subtree(groups, g, top),
        in_subtree(groups, g, top) ==> g == top || in_subtree(groups, p, top),
{
    if in_subtree(groups, p, top) {
        let n = choose|n: nat| #[trigger] ancestor(groups, p, n) == Some(top);
        lemma_ancestor_of_parent(groups, g, p, n);
        assert(ancestor(groups, g, n + 1) == Some(top));
    }
    if in_subtree(groups, g, top) && g != top {
        let n = choose|n: nat| #[trigger] ancestor(groups, g, n) == Some(top);
        assert(n > 0);
        lemma_ancestor_of_parent(groups, g, p, (n - 1) as nat);
        assert(ancestor(groups, p, (n - 1) as nat) == Some(top));
    }
}

/// Beyond the topmost ancestor there is none.
proof fn lemma_no_ancestor_beyond(groups: Groups, g: GroupId, n: nat, m: nat)
    requires
        ancestor(groups, g, n) is None,
        n <= m,
    ensures
        ancestor(groups, g, m) is None,
    decreases m,
{
    if n < m {
        lemma_no_ancestor_beyond(groups, g, n, (m - 1) as nat);
    }
}

/// In a tree every group has the root as an ancestor.
pub proof fn lemma_root_above_all(groups: Groups, root: GroupId, g: GroupId)
    requires
        database::is_tree(groups, root),
        groups.contains_key(g),
    ensures
        in_subtree(groups, g, root),
{
    let depth = choose|depth: spec_fn(GroupId) -> nat| database::deeper_than_parent(groups, depth);
    lemma_root_above(groups, root, g, depth);
}

proof fn lemma_root_above(
    groups: Groups,
    root: GroupId,
    g: GroupId,
    depth: spec_fn(GroupId) -> nat,
)
    requires
        database::is_tree(groups, root),
        database::deeper_than_parent(groups, depth),
        groups.contains_key(g),
    ensures
        in_subtree(groups, g, root),
    decreases depth(g),
{
    assert(database::group_placed(groups, root, g));
    match groups[g].parent {
        None => {
            assert(ancestor(groups, g, 0) == Some(root));
        },
        Some(p) => {
            lemma_root_above(groups, root, p, depth);
            lemma_child_in_subtree(groups, g, p, root);
        },
    }
}

/// Adding a group without children keeps the database well formed.
pub proof fn lemma_group_added_wf(db: DatabaseModel, parent: GroupId, group: GroupModel)
    requires
        db.wf(),
        db.groups.contains_key(parent),
        !db.groups.contains_key(group.id),
        group.parent == Some(parent),
        group.groups == Set::<GroupId>::empty(),
        group.entries == Set::<EntryId>::empty(),
    ensures
        group_added(db, parent, group).wf(),
{
    let after = group_added(db, parent, group);
    let depth = choose|depth: spec_fn(GroupId) -> nat|
        database::deeper_than_parent(db.groups, depth);
    let deeper = |g: GroupId|
        if g == group.id {
            depth(parent) + 1
        } else {
            depth(g)
        };
    assert(database::group_placed(db.groups, db.root, parent));
    assert forall|g: GroupId| #[trigger] after.groups.contains_key(g) implies {
        &&& database::group_placed(after.groups, after.root, g)
        &&& match after.groups[g].parent {
            Some(p) => deeper(p) < deeper(g),
            None => true,
        }
    } by {
        if g != group.id {
            assert(database::group_placed(db.groups, db.root, g));
        }
    }
    assert(database::deeper_than_parent(after.groups, deeper));
    assert forall|e: EntryId| #[trigger] after.entries.contains_key(e) implies
        database::entry_placed(after.entries, after.groups, e) by {
        assert(database::entry_placed(db.entries, db.groups, e));
    }
}

/// Adding an entry to a group keeps the database well formed.
pub proof fn lemma_entry_added_wf(db: DatabaseModel, parent: GroupId, entry: EntryModel)
    requires
        db.wf(),
        db.groups.contains_key(parent),
        !db.entries.contains_key(entry.id),
        entry.parent == parent,
    ensures
        entry_added(db, parent, entry).wf(),
{
    let after = entry_added(db, parent, entry);
    assert(after.groups.dom() =~= db.groups.dom());
    lemma_same_tree(db.groups, after.groups, db.root);
    assert forall|e: EntryId| #[trigger] after.entries.contains_key(e) implies
        database::entry_placed(after.entries, after.groups, e) by {
        if e != entry.id {
            assert(database::entry_placed(db.entries, db.groups, e));
        }
    }
}

/// Groups whose places stay the same stay a tree.
pub proof fn lemma_same_tree(before: Groups, after: Groups, root: GroupId)
    requires
        database::is_tree(before, root),
        before.dom() == after.dom(),
        forall|g: GroupId| #[trigger]
            after.contains_key(g) ==> after[g].id == before[g].id && after[g].parent
                == before[g].parent && after[g].groups == before[g].groups,
    ensures
        database::is_tree(after, root),
{
    let depth = choose|depth: spec_fn(GroupId) -> nat| database::deeper_than_parent(before, depth);
    assert forall|g: GroupId| #[trigger] after.contains_key(g) implies database::group_placed(
        after,
        root,
        g,
    ) && match after[g].parent {
        Some(p) => depth(p) < depth(g),
        None => true,
    } by {
        assert(before.contains_key(g));
        assert(database::group_placed(before, root, g));
    }
    assert(database::deeper_than_parent(after, depth));
}

/// Moving an entry keeps the database well formed.
pub proof fn lemma_entry_moved_wf(db: DatabaseModel, e: EntryId, to: GroupId)
    requires
        db.wf(),
        db.entries.contains_key(e),
        db.groups.contains_key(to),
    ensures
        entry_moved(db, e, to).wf(),
{
    let after = entry_moved(db, e, to);
    assert(database::entry_placed(db.entries, db.groups, e));
    assert(after.groups.dom() =~= db.groups.dom());
    lemma_same_tree(db.groups, after.groups, db.root);
    assert forall|x: EntryId| #[trigger] after.entries.contains_key(x) implies
        database::entry_placed(after.entries, after.groups, x) by {
        assert(database::entry_placed(db.entries, db.groups, x));
    }
}

/// A group that is moved to a place that is not below it leaves every group in the right place.
proof fn lemma_regrouped_placed(groups: Groups, root: GroupId, g: GroupId, to: GroupId, x: GroupId)
    requires
        database::is_tree(groups, root),
        groups.contains_key(g),
        groups.contains_key(to),
        groups.contains_key(x),
        groups[g].parent is Some,
        g != to,
        groups[g].parent != Some(g),
    ensures
        database::group_placed(regrouped(groups, g, to), root, x),
{
    let from = groups[g].parent->0;
    let after = regrouped(groups, g, to);
    assert(database::group_placed(groups, root, g));
    assert(database::group_placed(groups, root, from));
    assert(database::group_placed(groups, root, to));
    assert(database::group_placed(groups, root, x));
    assert(after.dom() =~= groups.dom());
    assert(after[x].id == x);
    match groups[x].parent {
        Some(p) => {
            assert(database::group_placed(groups, root, p));
        },
        None => {},
    }
    assert forall|c: GroupId| #[trigger] after[x].groups.contains(c) implies after.contains_key(c)
        && after[c].parent == Some(x) by {
        if x == to && c == g {
        } else {
            assert(groups[x].groups.contains(c));
            if c == g {
                assert(x == from);
            }
        }
    }
}

/// A group that is moved to a place that is not below it leaves no group below itself.
proof fn lemma_regrouped_acyclic(groups: Groups, root: GroupId, g: GroupId, to: GroupId)
    requires
        database::is_tree(groups, root),
        groups.contains_key(g),
        groups.contains_key(to),
        groups[g].parent is Some,
        !in_subtree(groups, to, g),
    ensures
        database::acyclic(regrouped(groups, g, to)),
        groups[g].parent != Some(g),
{
    let after = regrouped(groups, g, to);
    let from = groups[g].parent->0;
    let depth = choose|depth: spec_fn(GroupId) -> nat| database::deeper_than_parent(groups, depth);
    let deeper = |x: GroupId|
        if in_subtree(groups, x, g) {
            depth(x) + depth(to) + 1
        } else {
            depth(x)
        };
    assert(ancestor(groups, g, 0) == Some(g));
    assert(database::group_placed(groups, root, g));
    assert(depth(from) < depth(g));
    assert forall|x: GroupId| #[trigger] after.contains_key(x) implies match after[x].parent {
        Some(p) => deeper(p) < deeper(x),
        None => true,
    } by {
        assert(groups.contains_key(x));
        if x != g {
            assert(after[x].parent == groups[x].parent);
            match groups[x].parent {
                Some(p) => {
                    lemma_child_in_subtree(groups, x, p, g);
                    assert(depth(p) < depth(x));
                },
                None => {},
            }
        }
    }
    assert(database::deeper_than_parent(after, deeper));
}

/// Moving a group to a place that is not below it keeps the database well formed.
pub proof fn lemma_group_moved_wf(db: DatabaseModel, g: GroupId, to: GroupId)
    requires
        db.wf(),
        db.groups.contains_key(g),
        move_error(db, g, to) is None,
    ensures
        group_moved(db, g, to).wf(),
{
    let after = group_moved(db, g, to);
    let from = db.groups[g].parent->0;
    assert(database::group_placed(db.groups, db.root, g));
    assert(ancestor(db.groups, g, 0) == Some(g));
    assert(after.groups.dom() =~= db.groups.dom());
    lemma_regrouped_acyclic(db.groups, db.root, g, to);
    assert forall|x: GroupId| #[trigger] after.groups.contains_key(x) implies
        database::group_placed(after.groups, after.root, x) by {
        lemma_regrouped_placed(db.groups, db.root, g, to, x);
    }
    assert forall|x: GroupId| #[trigger] after.groups.contains_key(x) implies
        after.groups[x].entries == db.groups[x].entries by {}
    assert forall|e: EntryId| #[trigger] after.entries.contains_key(e) implies
        database::entry_placed(after.entries, after.groups, e) by {
        assert(database::entry_placed(db.entries, db.groups, e));
    }
}

/// Lists an entry in a group.
fn list_entry(groups: &mut SortedMap<GroupId, Group>, g: GroupId, e: EntryId)
    requires
        old(groups).deep_view().contains_key(g),
    ensures
        final(groups).deep_view() == listing_entry(old(groups).deep_view(), g, e),
{
    if let Some(group) = groups.get_mut(&g) {
        group.entries.insert(e);
    }
}

/// Takes an entry from a group's list.
fn unlist_entry(groups: &mut SortedMap<GroupId, Group>, g: GroupId, e: EntryId)
    requires
        old(groups).deep_view().contains_key(g),
    ensures
        final(groups).deep_view() == unlisting_entry(old(groups).deep_view(), g, e),
{
    if let Some(group) = groups.get_mut(&g) {
        group.entries.remove(&e);
    }
}

/// Lists a group in a group.
fn list_group(groups: &mut SortedMap<GroupId, Group>, g: GroupId, c: GroupId)
    requires
        old(groups).deep_view().contains_key(g),
    ensures
        final(groups).deep_view() == listing_group(old(groups).deep_view(), g, c),
{
    if let Some(group) = groups.get_mut(&g) {
        group.groups.insert(c);
    }
}

/// Takes a group from a group's list.
pub(crate) fn unlist_group(groups: &mut SortedMap<GroupId, Group>, g: GroupId, c: GroupId)
    requires
        old(groups).deep_view().contains_key(g),
    ensures
        final(groups).deep_view() == unlisting_group(old(groups).deep_view(), g, c),
{
    if let Some(group) = groups.get_mut(&g) {
        group.groups.remove(&c);
    }
}

impl Database {
    /// Whether the group is `top` or stands below it.
    pub fn is_within(&self, g: GroupId, top: GroupId) -> (result: bool)
        requires
            database::acyclic(self.deep_view().groups),
        ensures
            result == in_subtree(self.deep_view().groups, g, top),
    {
        let ghost groups = self.deep_view().groups;
        let ghost depth = choose|depth: spec_fn(GroupId) -> nat|
            database::deeper_than_parent(groups, depth);
        let ghost mut n: nat = 0;
        let mut current = g;
        loop
            invariant
                groups == self.deep_view().groups,
                database::deeper_than_parent(groups, depth),
                ancestor(groups, g, n) == Some(current),
                forall|m: nat| m < n ==> #[trigger] ancestor(groups, g, m) != Some(top),
            decreases depth(current),
        {
            if current == top {
                return true;
            }
            let parent = match self.groups.get(&current) {
                Some(group) => group.parent,
                None => None,
            };
            match parent {
                Some(p) => {
                    proof {
                        assert(groups.contains_key(current));
                        n = n + 1;
                        assert forall|m: nat| m < n implies #[trigger] ancestor(groups, g, m)
                            != Some(top) by {
                            if m == n - 1 {
                                assert(ancestor(groups, g, m) == Some(current));
                            }
                        }
                    }
                    current = p;
                },
                None => {
                    proof {
                        assert(ancestor(groups, g, n + 1) is None);
                        assert forall|m: nat| #[trigger] ancestor(groups, g, m) != Some(top) by {
                            if m > n {
                                lemma_no_ancestor_beyond(groups, g, n + 1, m);
                            }
                        }
                    }
                    return false;
                },
            }
        }
    }

    /// Puts a group into another. The identifier must not be taken.
    pub fn insert_group(&mut self, parent: GroupId, group: Group) -> (result: Result<
        (),
        DuplicateGroupIdError,
    >)
        requires
            old(self).wf(),
            old(self).deep_view().groups.contains_key(parent),
            group.parent == Some(parent),
            group.deep_view().groups == Set::<GroupId>::empty(),
            group.deep_view().entries == Set::<EntryId>::empty(),
        ensures
            final(self).wf(),
            match result {
                Ok(_) => {
                    &&& !old(self).deep_view().groups.contains_key(group.id)
                    &&& final(self).deep_view() == group_added(
                        old(self).deep_view(),
                        parent,
                        group.deep_view(),
                    )
                },
                Err(error) => {
                    &&& error == DuplicateGroupIdError(group.id)
                    &&& old(self).deep_view().groups.contains_key(group.id)
                    &&& final(self).deep_view() == old(self).deep_view()
                },
            },
    {
        if self.groups.contains_key(&group.id) {
            return Err(DuplicateGroupIdError(group.id));
        }
        proof {
            lemma_group_added_wf(self.deep_view(), parent, group.deep_view());
        }
        let id = group.id;
        list_group(&mut self.groups, parent, id);
        self.groups.insert(id, group);
        Ok(())
    }

    /// Puts an entry into a group. The identifier must not be taken.
    pub fn insert_entry(&mut self, parent: GroupId, entry: Entry) -> (result: Result<
        (),
        DuplicateEntryIdError,
    >)
        requires
            old(self).wf(),
            old(self).deep_view().groups.contains_key(parent),
            entry.parent == parent,
        ensures
            final(self).wf(),
            match result {
                Ok(_) => {
                    &&& !old(self).deep_view().entries.contains_key(entry.id)
                    &&& final(self).deep_view() == entry_added(
                        old(self).deep_view(),
                        parent,
                        entry.deep_view(),
                    )
                },
                Err(error) => {
                    &&& error == DuplicateEntryIdError(entry.id)
                    &&& old(self).deep_view().entries.contains_key(entry.id)
                    &&& final(self).deep_view() == old(self).deep_view()
                },
            },
    {
        if self.entries.contains_key(&entry.id) {
            return Err(DuplicateEntryIdError(entry.id));
        }
        proof {
            lemma_entry_added_wf(self.deep_view(), parent, entry.deep_view());
        }
        let id = entry.id;
        list_entry(&mut self.groups, parent, id);
        self.entries.insert(id, entry);
        Ok(())
    }

    /// Moves an entry to another group. The group that it leaves becomes its previous parent.
    pub fn move_entry(&mut self, e: EntryId, to: GroupId) -> (result: Result<
        (),
        DestinationGroupNotFoundError,
    >)
        requires
            old(self).wf(),
            old(self).deep_view().entries.contains_key(e),
        ensures
            final(self).wf(),
            match result {
                Ok(_) => {
                    &&& old(self).deep_view().groups.contains_key(to)
                    &&& final(self).deep_view() == entry_moved(old(self).deep_view(), e, to)
                },
                Err(error) => {
                    &&& error == DestinationGroupNotFoundError(to)
                    &&& !old(self).deep_view().groups.contains_key(to)
                    &&& final(self).deep_view() == old(self).deep_view()
                },
            },
    {
        if !self.groups.contains_key(&to) {
            return Err(DestinationGroupNotFoundError(to));
        }
        proof {
            lemma_entry_moved_wf(self.deep_view(), e, to);
            assert(database::entry_placed(
                self.deep_view().entries,
                self.deep_view().groups,
                e,
            ));
        }
        if let Some(entry) = self.entries.get_mut(&e) {
            let from = entry.parent;
            entry.parent = to;
            entry.previous_parent_group = Some(from);
            unlist_entry(&mut self.groups, from, e);
            list_entry(&mut self.groups, to, e);
        }
        Ok(())
    }

    /// Moves a group into another. The group that it leaves becomes its previous parent.
    pub fn move_group(&mut self, g: GroupId, to: GroupId) -> (result: Result<(), MoveGroupError>)
        requires
            old(self).wf(),
            old(self).deep_view().groups.contains_key(g),
        ensures
            final(self).wf(),
            match result {
                Ok(_) => {
                    &&& move_error(old(self).deep_view(), g, to) is None
                    &&& final(self).deep_view() == group_moved(old(self).deep_view(), g, to)
                },
                Err(error) => {
                    &&& move_error(old(self).deep_view(), g, to) == Some(error)
                    &&& final(self).deep_view() == old(self).deep_view()
                },
            },
    {
        let parent = match self.groups.get(&g) {
            Some(group) => group.parent,
            None => None,
        };
        let from = match parent {
            Some(from) => from,
            None => {
                return Err(MoveGroupError::CannotMoveRoot(g));
            },
        };
        if !self.groups.contains_key(&to) {
            return Err(MoveGroupError::DestinationNotFound(to));
        }
        if self.is_within(to, g) {
            return Err(MoveGroupError::WouldCreateCycle(g, to));
        }
        proof {
            lemma_group_moved_wf(self.deep_view(), g, to);
            assert(database::group_placed(self.deep_view().groups, self.root, g));
        }
        unlist_group(&mut self.groups, from, g);
        list_group(&mut self.groups, to, g);
        if let Some(group) = self.groups.get_mut(&g) {
            group.parent = Some(to);
            group.previous_parent_group = Some(from);
        }
        Ok(())
    }
}

} // verus!
