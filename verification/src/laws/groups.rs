//! What holds of the merging of a single group, and of what it leaves alone.

use vstd::prelude::*;
use crate::database::DatabaseModel;
use crate::ids::EntryId;
use crate::ids::GroupId;
use crate::merge::entries::Progress;
use crate::merge::groups;
use crate::merge::log::MergeError;
use crate::merge::log::MergeEventTarget;
use crate::merge::log::MergeEventType;
use crate::merge::rules;
use crate::removal;
use crate::times::Timestamp;
use crate::tree;

verus! {

/// Whether both sides have a group, with modification times.
pub open spec fn common_and_dated(p: Progress, source: DatabaseModel, g: GroupId) -> bool {
    &&& p.error is None
    &&& p.db.groups.contains_key(g)
    &&& source.groups.contains_key(g)
    &&& p.db.groups[g].id == source.groups[g].id
    &&& p.db.groups[g].times.last_modification is Some
    &&& source.groups[g].times.last_modification is Some
}

/// When the destination's version of a group was modified.
pub open spec fn our_time(p: Progress, g: GroupId) -> Timestamp {
    p.db.groups[g].times.last_modification->0
}

/// When the source's version of a group was modified.
pub open spec fn their_time(source: DatabaseModel, g: GroupId) -> Timestamp {
    source.groups[g].times.last_modification->0
}

/// When the common ancestor's version of a group was modified, as far as it is known.
pub open spec fn base_time(base: DatabaseModel, g: GroupId) -> Option<Timestamp> {
    if base.groups.contains_key(g) {
        base.groups[g].times.last_modification
    } else {
        None
    }
}

/// Where the two sides of a group differ in their modification times, and the source was changed
/// since the common ancestor or none is known, the newer side wins.
pub proof fn newest_group_wins(
    p: Progress,
    source: DatabaseModel,
    base: DatabaseModel,
    now: Timestamp,
    g: GroupId,
)
    requires
        common_and_dated(p, source, g),
        our_time(p, g) != their_time(source, g),
        rules::changed_since(base_time(base, g), their_time(source, g)),
    ensures
        ({
            let after = groups::group_settled(p, source, base, now, g);
            &&& after.error is None
            &&& our_time(p, g).before(their_time(source, g)) ==> after.db.groups[g].content()
                == source.groups[g].content() && after.db.groups[g].times.last_modification
                == source.groups[g].times.last_modification
            &&& their_time(source, g).before(our_time(p, g)) ==> after.db == p.db
        }),
{
    broadcast use Timestamp::numbers_decide;

    assert(p.db.groups[g].overwritten_by(source.groups[g]).content()
        =~= source.groups[g].content());
}

/// Changed in the destination only since the common ancestor: the destination's value is kept,
/// silently.
pub proof fn our_change_is_kept_silently(
    p: Progress,
    source: DatabaseModel,
    base: DatabaseModel,
    now: Timestamp,
    g: GroupId,
)
    requires
        common_and_dated(p, source, g),
        our_time(p, g) != their_time(source, g),
        !rules::changed_since(base_time(base, g), their_time(source, g)),
    ensures
        groups::group_settled(p, source, base, now, g) == p,
{
}

/// Changed in the source only since the common ancestor: the source's value is taken, and the log
/// gets nothing but the change.
pub proof fn their_change_is_taken_silently(
    p: Progress,
    source: DatabaseModel,
    base: DatabaseModel,
    now: Timestamp,
    g: GroupId,
)
    requires
        common_and_dated(p, source, g),
        base_time(base, g) is Some,
        !rules::changed_since(base_time(base, g), our_time(p, g)),
        rules::changed_since(base_time(base, g), their_time(source, g)),
    ensures
        ({
            let after = groups::group_settled(p, source, base, now, g);
            &&& after.error is None
            &&& after.db.groups[g].content() == source.groups[g].content()
            &&& after.log == p.log.noted(MergeEventTarget::Group(g), MergeEventType::Updated)
        }),
{
    broadcast use Timestamp::numbers_decide;

    let time = base_time(base, g)->0;
    assert(time.before(their_time(source, g)));
    assert(our_time(p, g).before(their_time(source, g)));
    newest_group_wins(p, source, base, now, g);
}

/// Identical content at the same time needs no resolution: nothing changes.
pub proof fn same_change_is_left_alone(
    p: Progress,
    source: DatabaseModel,
    base: DatabaseModel,
    now: Timestamp,
    g: GroupId,
)
    requires
        common_and_dated(p, source, g),
        our_time(p, g) == their_time(source, g),
        p.db.groups[g].content() == source.groups[g].content(),
    ensures
        groups::group_settled(p, source, base, now, g) == p,
{
}

/// Different content at the same time cannot be resolved without a common ancestor: the merge
/// ends with the error that names the group, and leaves the group as it is.
pub proof fn undecidable_group_is_an_error(
    p: Progress,
    source: DatabaseModel,
    base: DatabaseModel,
    now: Timestamp,
    g: GroupId,
)
    requires
        common_and_dated(p, source, g),
        our_time(p, g) == their_time(source, g),
        p.db.groups[g].content() != source.groups[g].content(),
        !base.groups.contains_key(g),
    ensures
        groups::group_settled(p, source, base, now, g) == (Progress {
            error: Some(MergeError::GroupModificationTimeNotUpdated(g)),
            ..p
        }),
{
}

/// Different content at the same time, with a common ancestor: the source's content is taken if
/// only the source differs from the ancestor, and otherwise the destination's is kept.
pub proof fn tie_is_broken_by_ancestor(
    p: Progress,
    source: DatabaseModel,
    base: DatabaseModel,
    now: Timestamp,
    g: GroupId,
)
    requires
        common_and_dated(p, source, g),
        our_time(p, g) == their_time(source, g),
        p.db.groups[g].content() != source.groups[g].content(),
        base.groups.contains_key(g),
    ensures
        ({
            let after = groups::group_settled(p, source, base, now, g);
            let we_changed = groups::differs_from_base(p.db.groups[g], base.groups, g);
            let they_changed = groups::differs_from_base(source.groups[g], base.groups, g);
            &&& after.error is None
            &&& they_changed && !we_changed ==> after.db.groups[g].content()
                == source.groups[g].content()
            &&& !(they_changed && !we_changed) ==> after.db == p.db
        }),
{
    assert(p.db.groups[g].overwritten_by(source.groups[g]).content()
        =~= source.groups[g].content());
}

/// A group that only moved has not diverged: neither its place nor what it lists counts.
pub proof fn moving_is_no_divergence(db: DatabaseModel, g: GroupId, to: GroupId, x: GroupId)
    requires
        db.groups.contains_key(x),
        db.groups.contains_key(g),
        db.groups.contains_key(to),
        db.groups[g].parent is Some,
        db.groups.contains_key(db.groups[g].parent->0),
    ensures
        tree::group_moved(db, g, to).groups[x].content() == db.groups[x].content(),
{
    assert(tree::group_moved(db, g, to).groups[x].content() =~= db.groups[x].content());
}

/// A group that is moved has the group that it was moved to as its parent, and no other group's
/// parent changes.
pub proof fn moved_group_arrives(db: DatabaseModel, g: GroupId, to: GroupId, other: GroupId)
    requires
        db.wf(),
        db.groups.contains_key(g),
        tree::move_error(db, g, to) is None,
        other != g,
        db.groups.contains_key(other),
    ensures
        tree::group_moved(db, g, to).groups[g].parent == Some(to),
        tree::group_moved(db, g, to).groups[to].groups.contains(g),
        tree::group_moved(db, g, to).groups[other].parent == db.groups[other].parent,
{
    assert(crate::database::group_placed(db.groups, db.root, g));
    assert(tree::ancestor(db.groups, g, 0) == Some(g));
}

/// When the moves that were put off have all been made, each group that was to be moved, once, is
/// in the group that it was to be moved to.
pub proof fn moved_groups_arrive(p: Progress, moves: Seq<(GroupId, GroupId)>, i: int)
    requires
        p.error is None,
        p.db.wf(),
        forall|k: int| 0 <= k < moves.len() ==> p.db.groups.contains_key((#[trigger] moves[k]).0),
        forall|j: int, k: int|
            0 <= j < k < moves.len() ==> (#[trigger] moves[j]).0 != (#[trigger] moves[k]).0,
        groups::all_moved(p, moves).error is None,
        0 <= i < moves.len(),
    ensures
        groups::all_moved(p, moves).db.groups[moves[i].0].parent == Some(moves[i].1),
{
    lemma_arrivals(p, moves);
}

proof fn lemma_arrivals(p: Progress, moves: Seq<(GroupId, GroupId)>)
    requires
        p.error is None,
        p.db.wf(),
        forall|k: int| 0 <= k < moves.len() ==> p.db.groups.contains_key((#[trigger] moves[k]).0),
        forall|j: int, k: int|
            0 <= j < k < moves.len() ==> (#[trigger] moves[j]).0 != (#[trigger] moves[k]).0,
        groups::all_moved(p, moves).error is None,
    ensures
        ({
            let after = groups::all_moved(p, moves).db;
            &&& after.wf()
            &&& after.groups.dom() == p.db.groups.dom()
            &&& forall|k: int|
                0 <= k < moves.len() ==> after.groups[(#[trigger] moves[k]).0].parent == Some(
                    moves[k].1,
                )
        }),
    decreases moves.len(),
{
    if moves.len() > 0 {
        let shorter = moves.drop_last();
        assert forall|k: int| 0 <= k < shorter.len() implies p.db.groups.contains_key(
            (#[trigger] shorter[k]).0,
        ) by {
            assert(shorter[k] == moves[k]);
        }
        assert forall|j: int, k: int| 0 <= j < k < shorter.len() implies (
        #[trigger] shorter[j]).0 != (#[trigger] shorter[k]).0 by {
            assert(shorter[j] == moves[j] && shorter[k] == moves[k]);
        }
        lemma_arrivals(p, shorter);
        let before = groups::all_moved(p, shorter).db;
        let after = groups::all_moved(p, moves).db;
        let (g, to) = moves[moves.len() - 1];
        assert(p.db.groups.dom().contains(moves[moves.len() - 1].0));
        assert(before.groups.dom().contains(g));
        assert(crate::database::group_placed(before.groups, before.root, g));
        tree::lemma_group_moved_wf(before, g, to);
        assert(after.groups.dom() =~= before.groups.dom());
        assert forall|k: int| 0 <= k < moves.len() implies after.groups[(
        #[trigger] moves[k]).0].parent == Some(moves[k].1) by {
            if k < shorter.len() {
                assert(shorter[k] == moves[k]);
                assert(moves[k].0 != moves[moves.len() - 1].0);
                assert(before.groups.dom().contains(moves[k].0)) by {
                    assert(p.db.groups.contains_key(moves[k].0));
                }
                moved_group_arrives(before, g, to, moves[k].0);
            } else {
                assert(tree::ancestor(before.groups, g, 0) == Some(g));
            }
        }
    }
}

/// Settling one group leaves all others, and all entries, as they are.
pub proof fn other_groups_are_left_alone(
    p: Progress,
    source: DatabaseModel,
    base: DatabaseModel,
    now: Timestamp,
    g: GroupId,
    other: GroupId,
)
    requires
        other != g,
    ensures
        ({
            let after = groups::group_settled(p, source, base, now, g).db;
            &&& after.entries == p.db.entries
            &&& after.attachments == p.db.attachments
            &&& after.groups.contains_key(other) == p.db.groups.contains_key(other)
            &&& after.groups[other] == p.db.groups[other]
        }),
{
}

/// A group that is removed takes with it exactly the groups and entries that stand below it.
pub proof fn removal_takes_the_subtree(db: DatabaseModel, top: GroupId, g: GroupId, e: EntryId)
    requires
        db.wf(),
        db.groups.contains_key(top),
        db.groups[top].parent is Some,
        db.groups.contains_key(g),
        db.entries.contains_key(e),
    ensures
        removal::group_removed(db, top).groups.contains_key(g) == !tree::in_subtree(
            db.groups,
            g,
            top,
        ),
        removal::group_removed(db, top).entries.contains_key(e) == !tree::in_subtree(
            db.groups,
            db.entries[e].parent,
            top,
        ),
{
    let p = db.groups[top].parent->0;
    assert(crate::database::group_placed(db.groups, db.root, top));
    removal::lemma_parent_outside(db.groups, db.root, top, p);
}

} // verus!
