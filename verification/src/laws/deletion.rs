//! What becomes of the groups that one side deleted.

use vstd::prelude::*;
use crate::database;
use crate::database::DatabaseModel;
use crate::database::Entries;
use crate::database::Groups;
use crate::ids::CustomIconId;
use crate::ids::EntryId;
use crate::ids::GroupId;
use crate::laws::gathering;
use crate::laws::merging;
use crate::laws::outcome;
use crate::laws::underway;
use crate::merge;
use crate::merge::entries;
use crate::merge::entries::Progress;
use crate::merge::groups;
use crate::merge::icons;
use crate::merge::log::LogModel;
use crate::order;
use crate::removal;
use crate::times::Timestamp;
use crate::tree;

verus! {

/// Whether a time is one at which a group, an entry in it or a group in it was last updated.
pub open spec fn updated_at(groups: Groups, entries: Entries, g: GroupId, time: Timestamp) -> bool {
    ||| groups[g].times.updated() == Some(time)
    ||| exists|e: EntryId| #[trigger]
        groups[g].entries.contains(e) && entries[e].times.updated() == Some(time)
    ||| exists|c: GroupId| #[trigger]
        groups[g].groups.contains(c) && groups[c].times.updated() == Some(time)
}

/// When a group was last updated is the latest of the times at which the group, an entry in it or a
/// group in it was last updated; where none of these is known, it is not known either.
pub proof fn last_update_is_the_latest(
    groups: Groups,
    entries: Entries,
    g: GroupId,
    latest: Option<Timestamp>,
)
    requires
        match latest {
            Some(time) => updated_at(groups, entries, g, time) && forall|other: Timestamp|
                #[trigger] updated_at(groups, entries, g, other) ==> !time.before(other),
            None => forall|other: Timestamp| !#[trigger] updated_at(groups, entries, g, other),
        },
    ensures
        groups::last_update(groups, entries, g) == latest,
{
    broadcast use Timestamp::numbers_decide;

    let times = groups::update_times(groups, entries, g);
    assert forall|time: Timestamp| #[trigger] times.contains(time) == updated_at(
        groups,
        entries,
        g,
        time,
    ) by {}
    assert(groups::is_latest(times, latest));
    let found = groups::last_update(groups, entries, g);
    assert(groups::is_latest(times, found));
    if found is Some {
        assert(updated_at(groups, entries, g, found->0));
    }
    if latest is Some {
        assert(times.contains(latest->0));
    }
}

/// Creating groups of the source leaves alone a group that the source lacks.
proof fn lemma_chain(
    p: Progress,
    dest: DatabaseModel,
    source: DatabaseModel,
    x: GroupId,
    n: nat,
    g: GroupId,
)
    requires
        source.wf(),
        gathering::bare(p.db).wf(),
        gathering::groups_from(p.db.groups, dest, source),
        forall|y: GroupId| #[trigger] dest.groups.contains_key(y) ==> p.db.groups.contains_key(y),
        source.groups.contains_key(x),
        !source.groups.contains_key(g),
        groups::is_gap(p.db.groups, source.groups, x, n),
    ensures
        groups::chain_created(p, source, x, n).db.groups[g] == p.db.groups[g],
    decreases n,
{
    assert(tree::ancestor(source.groups, x, 0) == Some(x));
    assert(database::group_placed(source.groups, source.root, x));
    if n > 0 {
        assert(!groups::reaches(p.db.groups, source.groups, x, 0));
        assert(groups::connected(p.db.groups, source.groups, x));
        groups::lemma_gap_of_parent(p.db.groups, source.groups, x);
        let parent = source.groups[x].parent->0;
        groups::lemma_gap(p.db.groups, source.groups, parent);
        groups::lemma_gap(p.db.groups, source.groups, x);
        groups::lemma_gap_is(p.db.groups, source.groups, x, n);
        lemma_chain(p, dest, source, parent, (n - 1) as nat, g);
    }
}

/// Creating the groups that the destination lacks leaves alone a group that the source lacks.
proof fn lemma_restored(
    p: Progress,
    dest: DatabaseModel,
    source: DatabaseModel,
    listed: Seq<GroupId>,
    g: GroupId,
)
    requires
        source.wf(),
        gathering::bare(p.db).wf(),
        gathering::groups_from(p.db.groups, dest, source),
        forall|x: GroupId| #[trigger] dest.groups.contains_key(x) ==> p.db.groups.contains_key(x),
        forall|i: int|
            0 <= i < listed.len() ==> source.groups.contains_key(#[trigger] listed[i])
                && groups::connected(p.db.groups, source.groups, listed[i]),
        !source.groups.contains_key(g),
    ensures
        groups::all_restored(p, source, listed).db.groups[g] == p.db.groups[g],
    decreases listed.len(),
{
    if listed.len() > 0 {
        let shorter = listed.drop_last();
        let x = listed[listed.len() - 1];
        assert(source.groups.contains_key(x));
        assert forall|i: int| 0 <= i < shorter.len() implies source.groups.contains_key(
            #[trigger] shorter[i],
        ) && groups::connected(p.db.groups, source.groups, shorter[i]) by {
            assert(shorter[i] == listed[i]);
            assert(source.groups.contains_key(listed[i]));
        }
        lemma_restored(p, dest, source, shorter, g);
        gathering::lemma_restored(p, dest, source, shorter);
        let before = groups::all_restored(p, source, shorter);
        let n = choose|n: nat| #[trigger] groups::reaches(p.db.groups, source.groups, x, n);
        assert(groups::reaches(before.db.groups, source.groups, x, n));
        groups::lemma_gap(before.db.groups, source.groups, x);
        lemma_chain(
            before,
            dest,
            source,
            x,
            groups::gap(before.db.groups, source.groups, x),
            g,
        );
    }
}

/// While the groups of the source are added, a group that the source lacks is left alone, and so is
/// when it was last updated.
proof fn lemma_gathered(
    dest: DatabaseModel,
    source: DatabaseModel,
    base: DatabaseModel,
    g: GroupId,
)
    requires
        outcome::two_versions(dest, source),
        dest.groups.contains_key(g),
        !source.groups.contains_key(g),
    ensures
        ({
            let added = underway::gathered(dest, source, base).db;
            &&& added.groups[g] == dest.groups[g]
            &&& groups::last_update(added.groups, added.entries, g) == groups::last_update(
                dest.groups,
                dest.entries,
                g,
            )
        }),
{
    let start = icons::icons_merged(dest, source, base);
    merging::lemma_icons_carry_on(dest, source, base);
    merging::versions_of_a_database_are_mergeable(dest, source, base);
    underway::lemma_gathered(dest, source, base);
    let added = underway::gathered(dest, source, base).db;
    let log = icons::icons_log(dest, source, base, LogModel::blank());
    let offered = order::ordered::<GroupId>(source.groups.dom().difference(start.groups.dom()));
    let logged = entries::going(
        start,
        groups::offers_logged(log, start.deleted_objects, source, base, offered),
    );
    let wanted = groups::groups_to_add(start, source);
    assert(wanted.subset_of(source.groups.dom()));
    vstd::set_lib::lemma_len_subset(wanted, source.groups.dom());
    let to_add = order::ordered::<GroupId>(wanted);
    order::lemma_ordered_lists::<GroupId>(wanted);
    assert(gathering::bare(start).wf());
    assert(gathering::groups_from(start.groups, dest, source));
    assert forall|i: int| 0 <= i < to_add.len() implies source.groups.contains_key(
        #[trigger] to_add[i],
    ) && groups::connected(start.groups, source.groups, to_add[i]) by {
        assert(to_add.contains(to_add[i]));
        assert(wanted.contains(to_add[i]));
    }
    lemma_restored(logged, dest, source, to_add, g);
    assert(added.groups[g] == dest.groups[g]);
    assert(database::group_placed(dest.groups, dest.root, g));
    assert forall|c: GroupId| #[trigger] dest.groups[g].groups.contains(c) implies
        added.groups[c].times == dest.groups[c].times by {
        assert(dest.groups.contains_key(c));
        assert(added.groups.contains_key(c));
    }
    let a = groups::update_times(added.groups, added.entries, g);
    let b = groups::update_times(dest.groups, dest.entries, g);
    assert forall|time: Timestamp| #[trigger] a.contains(time) == b.contains(time) by {
        if exists|c: GroupId| #[trigger]
            dest.groups[g].groups.contains(c) && dest.groups[c].times.updated() == Some(time) {
            let c = choose|c: GroupId| #[trigger]
                dest.groups[g].groups.contains(c) && dest.groups[c].times.updated() == Some(time);
            assert(added.groups[g].groups.contains(c));
            assert(added.groups[c].times.updated() == Some(time));
        }
        if exists|c: GroupId| #[trigger]
            added.groups[g].groups.contains(c) && added.groups[c].times.updated() == Some(time) {
            let c = choose|c: GroupId| #[trigger]
                added.groups[g].groups.contains(c) && added.groups[c].times.updated() == Some(time);
            assert(dest.groups[g].groups.contains(c));
            assert(dest.groups[c].times.updated() == Some(time));
        }
    }
    assert(a =~= b);
}

/// The groups that are to be removed are gone once they were removed.
proof fn lemma_removed(db: DatabaseModel, listed: Seq<GroupId>, g: GroupId)
    requires
        gathering::bare(db).wf(),
        listed.contains(g) || !db.groups.contains_key(g),
        g != db.root,
    ensures
        !groups::all_removed(db, listed).groups.contains_key(g),
    decreases listed.len(),
{
    if listed.len() > 0 {
        let x = listed.last();
        let shorter = listed.drop_last();
        if listed.contains(g) && g != x {
            let n = choose|n: int| 0 <= n < listed.len() && listed[n] == g;
            assert(shorter[n] == g);
        }
        if db.groups.contains_key(x) {
            let once = removal::group_removed(db, x);
            let one = seq![x];
            assert(one.drop_last() =~= Seq::empty());
            assert(groups::all_removed(once, Seq::<GroupId>::empty()) == once);
            assert(groups::all_removed(db, one) == groups::all_removed(once, one.drop_last()));
            gathering::lemma_all_removed(db, one);
            assert(gathering::trimmed(db, once));
            assert(once.groups.dom().subset_of(db.groups.dom()));
            assert(!once.groups.contains_key(g) || shorter.contains(g)) by {
                if once.groups.contains_key(g) {
                    assert(once.groups.dom().contains(g));
                    if g == x {
                        assert(database::group_placed(db.groups, db.root, g));
                        assert(tree::ancestor(db.groups, g, 0) == Some(g));
                        assert(tree::in_subtree(db.groups, g, g));
                        assert(removal::subtree(db.groups, g).contains(g));
                        let p = db.groups[g].parent->0;
                        removal::lemma_parent_outside(db.groups, db.root, g, p);
                    }
                }
            }
            lemma_removed(once, shorter, g);
        } else {
            lemma_removed(db, shorter, g);
        }
    }
}

/// The deletion of a group is marked with the source's time.
proof fn lemma_marked(
    p: Progress,
    source: DatabaseModel,
    base: DatabaseModel,
    listed: Seq<GroupId>,
    g: GroupId,
)
    requires
        listed.contains(g),
        groups::group_buried(p.db.groups, p.db.entries, source, g),
    ensures
        ({
            let after = groups::all_missing(p, source, base, listed).db;
            &&& after.deleted_objects.contains_key(g.0)
            &&& after.deleted_objects[g.0] == source.deleted_objects[g.0]
        }),
    decreases listed.len(),
{
    let shorter = listed.drop_last();
    merging::lemma_groups_missing(p, source, base, shorter);
    if shorter.contains(g) {
        lemma_marked(p, source, base, shorter, g);
    } else {
        let n = choose|n: int| 0 <= n < listed.len() && listed[n] == g;
        if n < shorter.len() {
            assert(shorter[n] == g);
        }
    }
}

/// A merge deletes a group that only the destination has, and that is not its root, if the source
/// deleted it when it, an entry in it or a group in it was last updated, or later, or if one of
/// these times is not known; it then takes over when that was. Any other group that only the
/// destination has it keeps, unless it removes the group that this one stands in.
pub proof fn merge_takes_over_deletions_of_groups(
    dest: DatabaseModel,
    source: DatabaseModel,
    base: DatabaseModel,
    now: Timestamp,
    g: GroupId,
)
    requires
        outcome::two_versions(dest, source),
        merge::merged(dest, source, base, now).error is None,
        dest.groups.contains_key(g),
        !source.groups.contains_key(g),
        g != dest.root,
    ensures
        ({
            let after = merge::merged(dest, source, base, now).db;
            let deletion = source.deleted_objects[g.0];
            let update = groups::last_update(dest.groups, dest.entries, g);
            if source.deleted_objects.contains_key(g.0) && !(deletion is Some && update is Some
                && deletion->0.before(update->0)) {
                &&& !after.groups.contains_key(g)
                &&& after.deleted_objects.contains_key(g.0)
                &&& !dest.entries.contains_key(EntryId(g.0)) ==> after.deleted_objects[g.0]
                    == deletion
            } else {
                &&& dest.groups[g].parent is Some
                &&& after.groups.contains_key(g) <==> after.groups.contains_key(
                    dest.groups[g].parent->0,
                )
            }
        }),
{
    outcome::lemma_left(dest, source, base, now);
    outcome::lemma_assembled(dest, source, base, now);
    merging::lemma_icons_carry_on(dest, source, base);
    merging::versions_of_a_database_are_mergeable(dest, source, base);
    underway::lemma_gathered(dest, source, base);
    lemma_gathered(dest, source, base, g);
    let added = underway::gathered(dest, source, base);
    let before = underway::assembled(dest, source, base, now);
    let left = underway::left(dest, source, base, now);
    let after = merge::merged(dest, source, base, now).db;
    gathering::lemma_groups_settled(left, source, base, now);
    assert(after.groups.contains_key(g) == after.groups.dom().contains(g));
    assert(left.db.groups.contains_key(g) == left.db.groups.dom().contains(g));
    let set = dest.groups.dom().difference(source.groups.dom());
    let only_ours = order::ordered::<GroupId>(set);
    order::lemma_ordered_lists::<GroupId>(set);
    assert(set.contains(g));
    assert(only_ours.contains(g));
    let buried = |x: GroupId| groups::group_buried(added.db.groups, added.db.entries, source, x);
    let doomed = groups::doomed(added.db.groups, added.db.entries, source, only_ours);
    assert(doomed == only_ours.filter(buried));
    assert(added.db.entries == dest.entries);
    assert(database::group_placed(dest.groups, dest.root, g));
    assert(before.db.root == dest.root) by {
        merging::merge_carries_on(dest, source, base, now);
    }
    if groups::group_buried(added.db.groups, added.db.entries, source, g) {
        let n = choose|n: int| 0 <= n < only_ours.len() && only_ours[n] == g;
        only_ours.lemma_filter_contains(buried, n);
        lemma_removed(before.db, doomed, g);
        lemma_marked(added, source, base, only_ours, g);
        lemma_tombstone(dest, source, base, now, g);
    } else {
        if doomed.contains(g) {
            only_ours.lemma_filter_contains_rev(buried, g);
        }
        assert(before.db.groups.dom().contains(g)) by {
            assert(added.db.groups.contains_key(g));
        }
        assert(before.db.groups.contains_key(g));
        assert(gathering::group_from(before.db.groups, dest, source, g));
        let p = dest.groups[g].parent->0;
        assert(after.groups.contains_key(p) == after.groups.dom().contains(p));
        if left.db.groups.contains_key(g) {
            assert(gathering::alike(left.db.groups[g], before.db.groups[g]));
            assert(database::group_placed(left.db.groups, left.db.root, g));
            assert(left.db.groups.contains_key(p));
            assert(left.db.groups.dom().contains(p));
        } else {
            assert(!left.db.groups.contains_key(p));
        }
    }
}

/// The deletion of a group that was marked stays so.
proof fn lemma_tombstone(
    dest: DatabaseModel,
    source: DatabaseModel,
    base: DatabaseModel,
    now: Timestamp,
    g: GroupId,
)
    requires
        outcome::two_versions(dest, source),
        merge::merged(dest, source, base, now).error is None,
        underway::marked(dest, source, base).db.deleted_objects.contains_key(g.0),
    ensures
        ({
            let marked = underway::marked(dest, source, base).db;
            let after = merge::merged(dest, source, base, now).db;
            &&& after.deleted_objects.contains_key(g.0)
            &&& !dest.entries.contains_key(EntryId(g.0)) ==> after.deleted_objects[g.0]
                == marked.deleted_objects[g.0]
        }),
{
    outcome::lemma_left(dest, source, base, now);
    let left = underway::left(dest, source, base, now);
    gathering::lemma_groups_settled(left, source, base, now);
    merging::lemma_icons_carry_on(dest, source, base);
    merging::versions_of_a_database_are_mergeable(dest, source, base);
    underway::lemma_gathered(dest, source, base);
    let added = underway::gathered(dest, source, base);
    let set = dest.groups.dom().difference(source.groups.dom());
    merging::lemma_groups_missing(added, source, base, order::ordered::<GroupId>(set));
    let p = underway::marked(dest, source, base);
    let ours = dest.entries.dom();
    let theirs = source.entries.dom();
    assert(p.db.entries == dest.entries);
    let offered_ids = order::ordered::<EntryId>(theirs.difference(ours));
    let missing_ids = order::ordered::<EntryId>(ours.difference(theirs));
    let common_ids = order::ordered::<EntryId>(ours.intersect(theirs));
    order::lemma_ordered_lists::<EntryId>(theirs.difference(ours));
    order::lemma_ordered_lists::<EntryId>(ours.difference(theirs));
    order::lemma_ordered_lists::<EntryId>(ours.intersect(theirs));
    assert forall|e: EntryId| #[trigger] source.entries.contains_key(e) implies
        source.entries[e].id == e by {
        assert(database::entry_placed(source.entries, source.groups, e));
    }
    assert forall|i: int| 0 <= i < offered_ids.len() implies source.entries.contains_key(
        #[trigger] offered_ids[i],
    ) by {
        assert(offered_ids.contains(offered_ids[i]));
        assert(theirs.difference(ours).contains(offered_ids[i]));
    }
    merging::lemma_offered(p, source, base, offered_ids);
    let offered = entries::all_offered(p, source, base, offered_ids);
    merging::lemma_missing(offered, source, base, missing_ids);
    let missing = entries::all_missing(offered, source, base, missing_ids);
    assert forall|i: int| 0 <= i < common_ids.len() implies missing.db.entries.contains_key(
        #[trigger] common_ids[i],
    ) by {
        let e = common_ids[i];
        assert(common_ids.contains(e));
        assert(ours.intersect(theirs).contains(e));
        assert(!ours.difference(theirs).contains(e));
        assert(!missing_ids.contains(e));
        assert(!theirs.difference(ours).contains(e));
        assert(!offered_ids.contains(e));
        assert(p.db.entries.contains_key(e));
        assert(offered.db.entries.contains_key(e));
    }
    merging::lemma_common(missing, source, base, now, common_ids);
    if !dest.entries.contains_key(EntryId(g.0)) {
        assert(!ours.difference(theirs).contains(EntryId(g.0)));
        assert(!missing_ids.contains(EntryId(g.0)));
    }
}

/// Whether the destination did not delete a group of the source, or the group, an entry in it or a
/// group in it was updated after that.
pub open spec fn wanted(dest: DatabaseModel, source: DatabaseModel, g: GroupId) -> bool {
    let deletion = dest.deleted_objects[g.0];
    let update = groups::last_update(source.groups, source.entries, g);
    ||| !dest.deleted_objects.contains_key(g.0)
    ||| update is Some && deletion is None
    ||| update is Some && deletion is Some && deletion->0.before(update->0)
}

/// A merge adds a group that only the source has if the destination did not delete it at its last
/// update or later, and the group that it stands in is there afterwards. The identifier of the
/// group must not be that of an icon as well.
pub proof fn merge_adds_groups_that_are_wanted(
    dest: DatabaseModel,
    source: DatabaseModel,
    base: DatabaseModel,
    now: Timestamp,
    g: GroupId,
)
    requires
        outcome::two_versions(dest, source),
        merge::merged(dest, source, base, now).error is None,
        source.groups.contains_key(g),
        !dest.groups.contains_key(g),
        !dest.custom_icons.contains_key(CustomIconId(g.0)),
        wanted(dest, source, g),
        source.groups[g].parent is Some,
        merge::merged(dest, source, base, now).db.groups.contains_key(source.groups[g].parent->0),
    ensures
        merge::merged(dest, source, base, now).db.groups.contains_key(g),
{
    outcome::merge_adds_new_groups(dest, source, base, now, g);
}

/// The groups that are created have a group below them, or are one, that is to be added.
proof fn lemma_only_for_listed(
    p: Progress,
    dest: DatabaseModel,
    source: DatabaseModel,
    listed: Seq<GroupId>,
)
    requires
        source.wf(),
        gathering::bare(p.db).wf(),
        gathering::groups_from(p.db.groups, dest, source),
        forall|x: GroupId| #[trigger] dest.groups.contains_key(x) ==> p.db.groups.contains_key(x),
        forall|i: int|
            0 <= i < listed.len() ==> source.groups.contains_key(#[trigger] listed[i])
                && groups::connected(p.db.groups, source.groups, listed[i]),
    ensures
        forall|x: GroupId| #[trigger]
            groups::all_restored(p, source, listed).db.groups.contains_key(x)
                && !p.db.groups.contains_key(x) ==> exists|i: int|
                0 <= i < listed.len() && tree::in_subtree(source.groups, #[trigger] listed[i], x),
    decreases listed.len(),
{
    if listed.len() > 0 {
        let shorter = listed.drop_last();
        let g = listed[listed.len() - 1];
        assert(source.groups.contains_key(g));
        assert forall|i: int| 0 <= i < shorter.len() implies source.groups.contains_key(
            #[trigger] shorter[i],
        ) && groups::connected(p.db.groups, source.groups, shorter[i]) by {
            assert(shorter[i] == listed[i]);
            assert(source.groups.contains_key(listed[i]));
        }
        lemma_only_for_listed(p, dest, source, shorter);
        gathering::lemma_restored(p, dest, source, shorter);
        let before = groups::all_restored(p, source, shorter);
        let n = choose|n: nat| #[trigger] groups::reaches(p.db.groups, source.groups, g, n);
        assert(groups::reaches(before.db.groups, source.groups, g, n));
        groups::lemma_gap(before.db.groups, source.groups, g);
        let m = groups::gap(before.db.groups, source.groups, g);
        gathering::lemma_chain(before, dest, source, g, m);
        let after = groups::all_restored(p, source, listed);
        assert forall|x: GroupId| #[trigger]
            after.db.groups.contains_key(x) && !p.db.groups.contains_key(x) implies exists|i: int|
            0 <= i < listed.len() && tree::in_subtree(source.groups, #[trigger] listed[i], x) by {
            if before.db.groups.contains_key(x) {
                let i = choose|i: int|
                    0 <= i < shorter.len() && tree::in_subtree(
                        source.groups,
                        #[trigger] shorter[i],
                        x,
                    );
                assert(shorter[i] == listed[i]);
                assert(tree::in_subtree(source.groups, listed[i], x));
            } else {
                let k = choose|k: nat| k < m && tree::ancestor(source.groups, g, k) == Some(x);
                assert(tree::in_subtree(source.groups, g, x));
                assert(tree::in_subtree(source.groups, listed[listed.len() - 1], x));
            }
        }
    }
}

/// A merge adds no group but for the sake of one that is wanted: a group that only the source has
/// and that the destination did not delete at its last update or later, in the subtree of the group
/// that is added. The identifiers of the groups must not be those of icons as well.
pub proof fn merge_adds_groups_only_for_groups_that_are_wanted(
    dest: DatabaseModel,
    source: DatabaseModel,
    base: DatabaseModel,
    now: Timestamp,
    x: GroupId,
)
    requires
        outcome::two_versions(dest, source),
        merge::merged(dest, source, base, now).error is None,
        merge::merged(dest, source, base, now).db.groups.contains_key(x),
        !dest.groups.contains_key(x),
        forall|g: GroupId| #[trigger]
            source.groups.contains_key(g) ==> !dest.custom_icons.contains_key(CustomIconId(g.0)),
    ensures
        exists|g: GroupId|
            source.groups.contains_key(g) && !dest.groups.contains_key(g) && tree::in_subtree(
                source.groups,
                g,
                x,
            ) && #[trigger] wanted(dest, source, g),
{
    outcome::lemma_left(dest, source, base, now);
    outcome::lemma_assembled(dest, source, base, now);
    let left = underway::left(dest, source, base, now);
    gathering::lemma_groups_settled(left, source, base, now);
    let before = underway::assembled(dest, source, base, now);
    let after = merge::merged(dest, source, base, now).db;
    assert(after.groups.dom().contains(x));
    assert(left.db.groups.dom().contains(x));
    assert(before.db.groups.dom().contains(x));
    let start = icons::icons_merged(dest, source, base);
    merging::lemma_icons_carry_on(dest, source, base);
    merging::versions_of_a_database_are_mergeable(dest, source, base);
    underway::lemma_gathered(dest, source, base);
    let added = underway::gathered(dest, source, base).db;
    assert(added.groups.contains_key(x));
    let log = icons::icons_log(dest, source, base, LogModel::blank());
    let offered = order::ordered::<GroupId>(source.groups.dom().difference(start.groups.dom()));
    let logged = entries::going(
        start,
        groups::offers_logged(log, start.deleted_objects, source, base, offered),
    );
    let to_add_set = groups::groups_to_add(start, source);
    assert(to_add_set.subset_of(source.groups.dom()));
    vstd::set_lib::lemma_len_subset(to_add_set, source.groups.dom());
    let to_add = order::ordered::<GroupId>(to_add_set);
    order::lemma_ordered_lists::<GroupId>(to_add_set);
    assert(gathering::bare(start).wf());
    assert(gathering::groups_from(start.groups, dest, source));
    assert forall|i: int| 0 <= i < to_add.len() implies source.groups.contains_key(
        #[trigger] to_add[i],
    ) && groups::connected(start.groups, source.groups, to_add[i]) by {
        assert(to_add.contains(to_add[i]));
        assert(to_add_set.contains(to_add[i]));
    }
    lemma_only_for_listed(logged, dest, source, to_add);
    let i = choose|i: int|
        0 <= i < to_add.len() && tree::in_subtree(source.groups, #[trigger] to_add[i], x);
    let g = to_add[i];
    assert(to_add.contains(g));
    assert(to_add_set.contains(g));
    assert(source.groups.contains_key(g));
    assert(start.deleted_objects.contains_key(g.0) == dest.deleted_objects.contains_key(g.0));
    assert(wanted(dest, source, g));
}

} // verus!
