//! What a merge makes of the groups, as far as a second merge depends on it.

use vstd::prelude::*;
use crate::database;
use crate::database::DatabaseModel;
use crate::database::Groups;
use crate::group::GroupModel;
use crate::ids::AttachmentId;
use crate::ids::EntryId;
use crate::ids::GroupId;
use crate::laws::merging;
use crate::laws::quiet;
use crate::merge::entries;
use crate::merge::entries::Progress;
use crate::merge::groups;
use crate::merge::groups::Placement;
use crate::merge::groups::Regrouping;
use crate::merge::groups::Verdict;
use crate::order;
use crate::references;
use crate::removal;
use crate::times::Times;
use crate::times::Timestamp;
use crate::tree;

verus! {

/// The groups and entries of a database alone.
pub open spec fn bare(db: DatabaseModel) -> DatabaseModel {
    DatabaseModel { attachments: Map::empty(), custom_icons: Map::empty(), ..db }
}

/// Whether two groups are the same but for what stands below them, where they stood before, and
/// the entry that is shown at the top.
pub open spec fn alike(a: GroupModel, b: GroupModel) -> bool {
    &&& a.parent == b.parent
    &&& a.times == b.times
    &&& a.content() == (GroupModel {
        last_top_visible_entry: a.last_top_visible_entry,
        ..b.content()
    })
    &&& a.last_top_visible_entry is None || a.last_top_visible_entry == b.last_top_visible_entry
}

/// Whether a group is that of the destination, or that of the source if the destination lacked it.
pub open spec fn group_from(
    groups: Groups,
    dest: DatabaseModel,
    source: DatabaseModel,
    g: GroupId,
) -> bool {
    if dest.groups.contains_key(g) {
        alike(groups[g], dest.groups[g])
    } else {
        source.groups.contains_key(g) && alike(groups[g], source.groups[g])
    }
}

/// Whether groups are some of the destination and of the source, all in their places.
pub open spec fn groups_from(groups: Groups, dest: DatabaseModel, source: DatabaseModel) -> bool {
    &&& groups.dom().finite()
    &&& forall|g: GroupId| #[trigger] groups.contains_key(g) ==> group_from(groups, dest, source, g)
}

/// Groups that keep their places and times stand where they stood.
pub proof fn lemma_places_kept(
    before: Groups,
    after: Groups,
    dest: DatabaseModel,
    source: DatabaseModel,
)
    requires
        groups_from(before, dest, source),
        after.dom().subset_of(before.dom()),
        forall|g: GroupId| #[trigger]
            after.contains_key(g) ==> alike(after[g], before[g]),
    ensures
        groups_from(after, dest, source),
{
    vstd::set_lib::lemma_len_subset(after.dom(), before.dom());
    assert forall|g: GroupId| #[trigger] after.contains_key(g) implies group_from(
        after,
        dest,
        source,
        g,
    ) by {
        assert(before.dom().contains(g));
        assert(before.contains_key(g));
    }
}

/// Creating groups keeps the others in their places.
pub proof fn lemma_chain(
    p: Progress,
    dest: DatabaseModel,
    source: DatabaseModel,
    g: GroupId,
    n: nat,
)
    requires
        source.wf(),
        bare(p.db).wf(),
        groups_from(p.db.groups, dest, source),
        forall|x: GroupId| #[trigger] dest.groups.contains_key(x) ==> p.db.groups.contains_key(x),
        source.groups.contains_key(g),
        groups::is_gap(p.db.groups, source.groups, g, n),
    ensures
        ({
            let after = groups::chain_created(p, source, g, n);
            &&& bare(after.db).wf()
            &&& groups_from(after.db.groups, dest, source)
            &&& after.db.groups.contains_key(g)
            &&& forall|x: GroupId| #[trigger]
                p.db.groups.contains_key(x) ==> after.db.groups.contains_key(x)
            &&& forall|x: GroupId| #[trigger]
                after.db.groups.contains_key(x) && !p.db.groups.contains_key(x)
                    ==> exists|m: nat| m < n && tree::ancestor(source.groups, g, m) == Some(x)
        }),
    decreases n,
{
    assert(tree::ancestor(source.groups, g, 0) == Some(g));
    assert(database::group_placed(source.groups, source.root, g));
    if n == 0 {
        assert(groups::reaches(p.db.groups, source.groups, g, 0));
    } else {
        assert(!groups::reaches(p.db.groups, source.groups, g, 0));
        assert(groups::connected(p.db.groups, source.groups, g));
        groups::lemma_gap_of_parent(p.db.groups, source.groups, g);
        let parent = source.groups[g].parent->0;
        groups::lemma_gap(p.db.groups, source.groups, parent);
        groups::lemma_gap(p.db.groups, source.groups, g);
        groups::lemma_gap_is(p.db.groups, source.groups, g, n);
        lemma_chain(p, dest, source, parent, (n - 1) as nat);
        let up = groups::chain_created(p, source, parent, (n - 1) as nat);
        let after = groups::chain_created(p, source, g, n);
        assert(after.db.groups.dom() =~= up.db.groups.dom().insert(g));
        assert(!up.db.groups.contains_key(g)) by {
            if up.db.groups.contains_key(g) {
                let m = choose|m: nat|
                    m < n - 1 && tree::ancestor(source.groups, parent, m) == Some(g);
                removal::lemma_parent_outside(source.groups, source.root, g, parent);
                assert(tree::in_subtree(source.groups, parent, g));
            }
        }
        tree::lemma_group_added_wf(bare(up.db), parent, groups::childless(source.groups[g]));
        assert(bare(after.db) =~= tree::group_added(
            bare(up.db),
            parent,
            groups::childless(source.groups[g]),
        ));
        assert forall|x: GroupId| #[trigger] after.db.groups.contains_key(x) implies group_from(
            after.db.groups,
            dest,
            source,
            x,
        ) by {
            if x != g {
                assert(up.db.groups.contains_key(x));
            }
        }
        assert forall|x: GroupId| #[trigger]
            after.db.groups.contains_key(x) && !p.db.groups.contains_key(x) implies exists|m: nat|
            m < n && tree::ancestor(source.groups, g, m) == Some(x) by {
            if x != g {
                assert(up.db.groups.contains_key(x));
                let m = choose|m: nat|
                    m < n - 1 && tree::ancestor(source.groups, parent, m) == Some(x);
                tree::lemma_ancestor_of_parent(source.groups, g, parent, m);
                assert(m + 1 < n && tree::ancestor(source.groups, g, m + 1) == Some(x));
            } else {
                let none: nat = 0;
                assert(none < n && tree::ancestor(source.groups, g, none) == Some(x));
            }
        }
    }
}

/// Creating the groups that the destination lacks keeps the others in their places.
pub proof fn lemma_restored(
    p: Progress,
    dest: DatabaseModel,
    source: DatabaseModel,
    listed: Seq<GroupId>,
)
    requires
        source.wf(),
        bare(p.db).wf(),
        groups_from(p.db.groups, dest, source),
        forall|x: GroupId| #[trigger] dest.groups.contains_key(x) ==> p.db.groups.contains_key(x),
        forall|i: int|
            0 <= i < listed.len() ==> source.groups.contains_key(#[trigger] listed[i])
                && groups::connected(p.db.groups, source.groups, listed[i]),
    ensures
        ({
            let after = groups::all_restored(p, source, listed);
            &&& bare(after.db).wf()
            &&& groups_from(after.db.groups, dest, source)
            &&& after.db == (DatabaseModel { groups: after.db.groups, ..p.db })
            &&& p.error is None ==> after.error is None
            &&& forall|x: GroupId| #[trigger]
                p.db.groups.contains_key(x) ==> after.db.groups.contains_key(x)
            &&& forall|i: int|
                0 <= i < listed.len() ==> after.db.groups.contains_key(#[trigger] listed[i])
        }),
    decreases listed.len(),
{
    if listed.len() > 0 {
        let shorter = listed.drop_last();
        let g = listed[listed.len() - 1];
        assert(source.groups.contains_key(g));
        assert forall|i: int| 0 <= i < shorter.len() implies source.groups.contains_key(
            #[trigger] shorter[i],
        ) && groups::connected(p.db.groups, source.groups, shorter[i]) by {
            assert(shorter[i] == listed[i]);
            assert(source.groups.contains_key(listed[i]));
        }
        lemma_restored(p, dest, source, shorter);
        let before = groups::all_restored(p, source, shorter);
        let n = choose|n: nat| #[trigger] groups::reaches(p.db.groups, source.groups, g, n);
        assert(groups::reaches(before.db.groups, source.groups, g, n));
        groups::lemma_gap(before.db.groups, source.groups, g);
        let m = groups::gap(before.db.groups, source.groups, g);
        lemma_chain(before, dest, source, g, m);
        merging::lemma_chain(before, source, g, m);
        let after = groups::all_restored(p, source, listed);
        assert forall|i: int| 0 <= i < listed.len() implies after.db.groups.contains_key(
            #[trigger] listed[i],
        ) by {
            if i < shorter.len() {
                assert(shorter[i] == listed[i]);
                assert(before.db.groups.contains_key(shorter[i]));
            }
        }
    }
}

/// Whether a database lost nothing but groups and entries, and attachments that no entry is left
/// to refer to.
pub open spec fn trimmed(before: DatabaseModel, after: DatabaseModel) -> bool {
    &&& after == (DatabaseModel {
        groups: after.groups,
        entries: after.entries,
        attachments: after.attachments,
        ..before
    })
    &&& after.groups.dom().subset_of(before.groups.dom())
    &&& after.entries.dom().subset_of(before.entries.dom())
    &&& after.attachments.dom().subset_of(before.attachments.dom())
    &&& forall|g: GroupId| #[trigger]
        after.groups.contains_key(g) ==> alike(after.groups[g], before.groups[g])
    &&& forall|e: EntryId| #[trigger]
        after.entries.contains_key(e) ==> after.entries[e] == before.entries[e]
    &&& forall|a: AttachmentId| #[trigger]
        after.attachments.contains_key(a) ==> after.attachments[a] == before.attachments[a]
    &&& forall|e: EntryId, a: AttachmentId|
        after.entries.contains_key(e) && #[trigger] after.entries[e].uses(a)
            && before.attachments.contains_key(a) ==> after.attachments.contains_key(a)
}

/// Whether a database lost entries only with the groups that they stood in, and groups only that
/// were listed, or with the groups that they stood in.
pub open spec fn lost_with(
    before: DatabaseModel,
    after: DatabaseModel,
    listed: Seq<GroupId>,
) -> bool {
    &&& forall|e: EntryId| #[trigger]
        before.entries.contains_key(e) && !after.entries.contains_key(e)
            ==> !after.groups.contains_key(before.entries[e].parent)
    &&& forall|g: GroupId| #[trigger]
        before.groups.contains_key(g) && !after.groups.contains_key(g) ==> listed.contains(g)
            || before.groups[g].parent is Some && !after.groups.contains_key(
            before.groups[g].parent->0,
        )
}

/// Removing a group leaves the others in their places.
proof fn lemma_group_removed(db: DatabaseModel, top: GroupId)
    requires
        bare(db).wf(),
        db.groups.contains_key(top),
    ensures
        bare(removal::group_removed(db, top)).wf(),
        trimmed(db, removal::group_removed(db, top)),
        lost_with(db, removal::group_removed(db, top), seq![top]),
{
    let after = removal::group_removed(db, top);
    removal::lemma_group_removed_wf(bare(db), top);
    let gone = removal::entries_below(db, top);
    if db.groups[top].parent is Some {
        assert(removal::entries_below(bare(db), top) =~= gone);
        let emptied = removal::entries_removed(db, gone);
        let bared = removal::entries_removed(bare(db), gone);
        assert(bared.attachments =~= Map::empty());
        assert(bared.groups =~= emptied.groups);
        assert(bare(after) =~= removal::group_removed(bare(db), top));
        let p = db.groups[top].parent->0;
        assert(database::group_placed(db.groups, db.root, top));
        removal::lemma_parent_outside(db.groups, db.root, top, p);
        let kept = db.entries.remove_keys(gone);
        assert(after.entries == kept);
        assert forall|e: EntryId, a: AttachmentId|
            after.entries.contains_key(e) && #[trigger] after.entries[e].uses(a)
                && db.attachments.contains_key(a) implies after.attachments.contains_key(a) by {
            assert(references::used(kept, a));
        }
        assert forall|e: EntryId| #[trigger]
            db.entries.contains_key(e) && !after.entries.contains_key(e) implies
            !after.groups.contains_key(db.entries[e].parent) by {
            assert(gone.contains(e));
            assert(database::entry_placed(db.entries, db.groups, e));
            assert(removal::subtree(db.groups, top).contains(db.entries[e].parent));
        }
        assert forall|g: GroupId| #[trigger]
            db.groups.contains_key(g) && !after.groups.contains_key(g) implies seq![top].contains(g)
            || db.groups[g].parent is Some && !after.groups.contains_key(
            db.groups[g].parent->0,
        ) by {
            if g == top {
                assert(seq![top][0] == g);
            } else {
                assert(removal::subtree(db.groups, top).contains(g));
                assert(database::group_placed(db.groups, db.root, g));
                if db.groups[g].parent is None {
                    removal::lemma_root_outside(db.groups, db.root, top);
                } else {
                    let above = db.groups[g].parent->0;
                    tree::lemma_child_in_subtree(db.groups, g, above, top);
                    assert(removal::subtree(db.groups, top).contains(above));
                }
            }
        }
    }
}

/// What is listed is listed last, or before.
proof fn lemma_listed_before(listed: Seq<GroupId>, x: GroupId)
    requires
        listed.len() > 0,
    ensures
        listed.drop_last().contains(x) ==> listed.contains(x),
        x == listed.last() ==> listed.contains(x),
{
    if listed.drop_last().contains(x) {
        let n = choose|n: int| 0 <= n < listed.drop_last().len() && listed.drop_last()[n] == x;
        assert(listed[n] == x);
    }
    assert(listed[listed.len() - 1] == listed.last());
}

/// Removing groups leaves the others in their places.
pub proof fn lemma_all_removed(db: DatabaseModel, listed: Seq<GroupId>)
    requires
        bare(db).wf(),
    ensures
        bare(groups::all_removed(db, listed)).wf(),
        trimmed(db, groups::all_removed(db, listed)),
        lost_with(db, groups::all_removed(db, listed), listed),
    decreases listed.len(),
{
    if listed.len() > 0 {
        let g = listed.last();
        if db.groups.contains_key(g) {
            let once = removal::group_removed(db, g);
            lemma_group_removed(db, g);
            lemma_all_removed(once, listed.drop_last());
            let after = groups::all_removed(db, listed);
            assert forall|x: GroupId| #[trigger] after.groups.contains_key(x) implies alike(
                after.groups[x],
                db.groups[x],
            ) by {
                assert(once.groups.dom().contains(x));
                assert(once.groups.contains_key(x));
            }
            assert forall|e: EntryId| #[trigger] after.entries.contains_key(e) implies
                after.entries[e] == db.entries[e] by {
                assert(once.entries.dom().contains(e));
                assert(once.entries.contains_key(e));
            }
            assert forall|a: AttachmentId| #[trigger] after.attachments.contains_key(a) implies
                after.attachments[a] == db.attachments[a] by {
                assert(once.attachments.dom().contains(a));
                assert(once.attachments.contains_key(a));
            }
            assert forall|e: EntryId, a: AttachmentId|
                after.entries.contains_key(e) && #[trigger] after.entries[e].uses(a)
                    && db.attachments.contains_key(a) implies after.attachments.contains_key(a) by {
                assert(once.entries.dom().contains(e));
                assert(once.entries.contains_key(e));
                assert(once.entries[e].uses(a));
            }
            assert forall|e: EntryId| #[trigger]
                db.entries.contains_key(e) && !after.entries.contains_key(e) implies
                !after.groups.contains_key(db.entries[e].parent) by {
                if once.entries.contains_key(e) {
                    assert(!after.groups.contains_key(once.entries[e].parent));
                } else if after.groups.contains_key(db.entries[e].parent) {
                    assert(once.groups.dom().contains(db.entries[e].parent));
                }
            }
            assert forall|x: GroupId| #[trigger]
                db.groups.contains_key(x) && !after.groups.contains_key(x) implies listed.contains(
                x,
            ) || db.groups[x].parent is Some && !after.groups.contains_key(
                db.groups[x].parent->0,
            ) by {
                lemma_listed_before(listed, x);
                if once.groups.contains_key(x) {
                    assert(once.groups[x].parent == db.groups[x].parent);
                } else if seq![g].contains(x) {
                    assert(x == g);
                } else if after.groups.contains_key(db.groups[x].parent->0) {
                    assert(once.groups.dom().contains(db.groups[x].parent->0));
                }
            }
        } else {
            lemma_all_removed(db, listed.drop_last());
            assert forall|x: GroupId| listed.drop_last().contains(x) implies
                #[trigger] listed.contains(x) by {
                lemma_listed_before(listed, x);
            }
        }
    }
}

/// Whether two groups are the same but for what stands below them and where they stood before.
pub open spec fn same_node(a: GroupModel, b: GroupModel) -> bool {
    &&& a.content() == b.content()
    &&& a.times == b.times
    &&& a.parent == b.parent
}

/// Moving a group changes the place of no other group.
proof fn lemma_group_moved(db: DatabaseModel, g: GroupId, to: GroupId)
    requires
        bare(db).wf(),
        db.groups.contains_key(g),
        tree::move_error(db, g, to) is None,
    ensures
        ({
            let after = tree::group_moved(db, g, to);
            &&& bare(after).wf()
            &&& after.groups.dom() == db.groups.dom()
            &&& forall|x: GroupId|
                x != g && db.groups.contains_key(x) ==> same_node(
                    #[trigger] after.groups[x],
                    db.groups[x],
                )
            &&& after.groups[g].parent == Some(to)
            &&& after.groups[g].times == db.groups[g].times
            &&& after.groups[g].content() == db.groups[g].content()
        }),
{
    let after = tree::group_moved(db, g, to);
    tree::lemma_group_moved_wf(bare(db), g, to);
    assert(bare(after) =~= tree::group_moved(bare(db), g, to));
    assert(database::group_placed(db.groups, db.root, g));
    assert(after.groups.dom() =~= db.groups.dom());
    assert(after.groups[g].content() =~= db.groups[g].content());
    assert forall|x: GroupId| x != g && db.groups.contains_key(x) implies same_node(
        #[trigger] after.groups[x],
        db.groups[x],
    ) by {
        assert(after.groups[x].content() =~= db.groups[x].content());
    }
}

/// Whether the moves that are put off have one of a group.
pub open spec fn moved(moves: Seq<(GroupId, GroupId)>, g: GroupId) -> bool {
    exists|k: int| 0 <= k < moves.len() && (#[trigger] moves[k]).0 == g
}

/// How the content of a group that both sides have is settled at a given time.
pub open spec fn verdict_at(
    ours: GroupModel,
    theirs: GroupModel,
    base: DatabaseModel,
    now: Timestamp,
    g: GroupId,
) -> Verdict {
    let our_time = match ours.times.last_modification {
        Some(time) => time,
        None => now,
    };
    let their_time = match theirs.times.last_modification {
        Some(time) => time,
        None => Times::spec_epoch(),
    };
    groups::verdict(ours, our_time, theirs, their_time, base.groups, g)
}

/// A group with the content of the source's, if that is the verdict.
pub open spec fn content_settled(
    ours: GroupModel,
    theirs: GroupModel,
    base: DatabaseModel,
    now: Timestamp,
    g: GroupId,
) -> GroupModel {
    match verdict_at(ours, theirs, base, now, g) {
        Verdict::Overwrite(_) => ours.overwritten_by(theirs),
        _ => ours,
    }
}

/// Whether a group that both sides have can be settled, or is left alone because it cannot be put
/// where the source has it.
pub open spec fn decidable(
    ours: GroupModel,
    theirs: GroupModel,
    known: Set<GroupId>,
    base: DatabaseModel,
    now: Timestamp,
    g: GroupId,
) -> bool {
    match groups::placement(ours, theirs, known) {
        Placement::SourceRoot => true,
        Placement::Nowhere(_) => true,
        _ => !(verdict_at(ours, theirs, base, now, g) is Undecidable),
    }
}

/// What becomes of a group that both sides have: the later move wins, then its content is settled.
/// A group that cannot be put where the source has it is left alone.
pub open spec fn group_outcome(
    ours: GroupModel,
    theirs: GroupModel,
    known: Set<GroupId>,
    base: DatabaseModel,
    now: Timestamp,
    g: GroupId,
) -> GroupModel {
    match groups::placement(ours, theirs, known) {
        Placement::Move(to, time) => content_settled(
            groups::relocated_at(GroupModel { parent: Some(to), ..ours }, time),
            theirs,
            base,
            now,
            g,
        ),
        Placement::SourceRoot => ours,
        Placement::Nowhere(_) => ours,
        _ => content_settled(ours, theirs, base, now, g),
    }
}

/// Whether what was to become of a group has become of it, or will have once it was moved where
/// the source has it.
pub open spec fn pending(
    r: Regrouping,
    goal: GroupModel,
    source: DatabaseModel,
    g: GroupId,
) -> bool {
    let ours = r.p.db.groups[g];
    ||| !moved(r.moves, g) && same_node(ours, goal)
    ||| {
        &&& goal.parent is Some
        &&& goal.parent == source.groups[g].parent
        &&& r.moves.contains((g, goal.parent->0))
        &&& same_node(GroupModel { parent: goal.parent, ..ours }, goal)
    }
}

/// What becomes of the content of a group depends on its own content, times and place.
proof fn lemma_content_settled(
    a: GroupModel,
    b: GroupModel,
    theirs: GroupModel,
    base: DatabaseModel,
    now: Timestamp,
    g: GroupId,
)
    requires
        a.content() == b.content(),
        a.times == b.times,
    ensures
        ({
            let x = content_settled(a, theirs, base, now, g);
            let y = content_settled(b, theirs, base, now, g);
            &&& x.content() == y.content()
            &&& x.times == y.times
            &&& x.parent == a.parent
            &&& y.parent == b.parent
        }),
{
    assert(a.overwritten_by(theirs).content() =~= a.content().overwritten_by(theirs).content());
    assert(b.overwritten_by(theirs).content() =~= b.content().overwritten_by(theirs).content());
}

/// What becomes of a group depends on its content, times and place.
proof fn lemma_same_outcome(
    a: GroupModel,
    b: GroupModel,
    theirs: GroupModel,
    known: Set<GroupId>,
    base: DatabaseModel,
    now: Timestamp,
    g: GroupId,
)
    requires
        same_node(a, b),
    ensures
        same_node(
            group_outcome(a, theirs, known, base, now, g),
            group_outcome(b, theirs, known, base, now, g),
        ),
        decidable(a, theirs, known, base, now, g) == decidable(b, theirs, known, base, now, g),
{
    lemma_content_settled(a, b, theirs, base, now, g);
    if let Placement::Move(to, time) = groups::placement(a, theirs, known) {
        let x = groups::relocated_at(GroupModel { parent: Some(to), ..a }, time);
        let y = groups::relocated_at(GroupModel { parent: Some(to), ..b }, time);
        assert(x.content() =~= a.content());
        assert(y.content() =~= b.content());
        lemma_content_settled(x, y, theirs, base, now, g);
    }
}

/// Settling the content of a group leaves the others alone.
proof fn lemma_settled(
    p: Progress,
    source: DatabaseModel,
    base: DatabaseModel,
    now: Timestamp,
    g: GroupId,
)
    requires
        bare(p.db).wf(),
        p.db.groups.contains_key(g),
        groups::group_settled(p, source, base, now, g).error is None,
    ensures
        ({
            let after = groups::group_settled(p, source, base, now, g);
            &&& bare(after.db).wf()
            &&& after.db == (DatabaseModel { groups: after.db.groups, ..p.db })
            &&& after.db.groups.dom() == p.db.groups.dom()
            &&& !(verdict_at(p.db.groups[g], source.groups[g], base, now, g) is Undecidable)
            &&& after.db.groups[g] == content_settled(
                p.db.groups[g],
                source.groups[g],
                base,
                now,
                g,
            )
            &&& forall|x: GroupId| x != g ==> #[trigger] after.db.groups[x] == p.db.groups[x]
        }),
{
    let after = groups::group_settled(p, source, base, now, g);
    let settled = content_settled(p.db.groups[g], source.groups[g], base, now, g);
    if after.db != p.db {
        groups::lemma_group_changed_wf(bare(p.db), g, settled);
        assert(bare(after.db) =~= (DatabaseModel {
            groups: p.db.groups.insert(g, settled),
            ..bare(p.db)
        }));
        assert(after.db.groups.dom() =~= p.db.groups.dom());
    }
}

/// Dealing with a group that both sides have leaves it as it is to become, or to be moved.
pub proof fn lemma_common_step(
    r: Regrouping,
    source: DatabaseModel,
    base: DatabaseModel,
    now: Timestamp,
    known: Set<GroupId>,
    g: GroupId,
)
    requires
        bare(r.p.db).wf(),
        known == r.p.db.groups.dom(),
        r.p.db.groups.contains_key(g),
        !moved(r.moves, g),
        r.p.error is None,
        groups::group_common(r, source, base, now, known, g).p.error is None,
    ensures
        ({
            let after = groups::group_common(r, source, base, now, known, g);
            &&& bare(after.p.db).wf()
            &&& after.p.db == (DatabaseModel { groups: after.p.db.groups, ..r.p.db })
            &&& after.p.db.groups.dom() == known
            &&& decidable(r.p.db.groups[g], source.groups[g], known, base, now, g)
            &&& pending(
                after,
                group_outcome(r.p.db.groups[g], source.groups[g], known, base, now, g),
                source,
                g,
            )
            &&& after.moves == r.moves || source.groups[g].parent is Some && after.moves
                == r.moves.push((g, source.groups[g].parent->0))
            &&& forall|x: GroupId|
                x != g && known.contains(x) ==> same_node(
                    #[trigger] after.p.db.groups[x],
                    r.p.db.groups[x],
                )
        }),
{
    reveal(groups::group_common);
    let p = r.p;
    let ours = p.db.groups[g];
    let theirs = source.groups[g];
    let after = groups::group_common(r, source, base, now, known, g);
    match groups::placement(ours, theirs, known) {
        Placement::Stay => {
            lemma_settled(p, source, base, now, g);
        },
        Placement::Ambiguous => {
            let warned = entries::going(
                p.db,
                p.log.warned(
                    groups::about(
                        "Cannot determine which group "@,
                        g,
                        " move is more recent because one of the groups does not have a location changed timestamp."@,
                    ),
                ),
            );
            lemma_settled(warned, source, base, now, g);
        },
        Placement::SourceRoot => {},
        Placement::Nowhere(_) => {},
        Placement::Move(to, time) => {
            let up = groups::group_uprooted(p, g, time);
            assert(up.error is None);
            lemma_group_moved(p.db, g, p.db.root);
            let moved = tree::group_moved(p.db, g, p.db.root);
            let there = groups::relocated_at(moved.groups[g], time);
            assert(moved.groups.dom().contains(g));
            groups::lemma_group_changed_wf(bare(moved), g, there);
            assert(bare(up.db) =~= (DatabaseModel {
                groups: moved.groups.insert(g, there),
                ..bare(moved)
            }));
            assert(up.db.groups.dom() =~= known);
            assert(up.db.groups.dom().contains(g));
            lemma_settled(up, source, base, now, g);
            let put = after.p.db.groups[g];
            let landed = GroupModel { parent: theirs.parent, ..put };
            let placed = groups::relocated_at(GroupModel { parent: Some(to), ..ours }, time);
            assert(landed.content() =~= put.content());
            assert(there.content() =~= moved.groups[g].content());
            assert(placed.content() =~= ours.content());
            lemma_content_settled(there, placed, theirs, base, now, g);
            assert(after.moves[after.moves.len() - 1] == (g, to));
            assert(after.moves.contains((g, theirs.parent->0)));
            assert forall|x: GroupId| x != g && known.contains(x) implies same_node(
                #[trigger] after.p.db.groups[x],
                p.db.groups[x],
            ) by {
                assert(p.db.groups.contains_key(x));
                assert(same_node(moved.groups[x], p.db.groups[x]));
                assert(up.db.groups[x] == moved.groups[x]);
            }
        },
    }
}

/// What is pending stays so while other groups are dealt with.
proof fn lemma_still_pending(
    before: Regrouping,
    after: Regrouping,
    goal: GroupModel,
    source: DatabaseModel,
    g: GroupId,
)
    requires
        pending(before, goal, source, g),
        same_node(after.p.db.groups[g], before.p.db.groups[g]),
        forall|m: (GroupId, GroupId)| #[trigger]
            before.moves.contains(m) ==> after.moves.contains(m),
        moved(after.moves, g) ==> moved(before.moves, g),
    ensures
        pending(after, goal, source, g),
{
    let ours = before.p.db.groups[g];
    let there = after.p.db.groups[g];
    let landed = GroupModel { parent: goal.parent, ..ours };
    let landed_there = GroupModel { parent: goal.parent, ..there };
    assert(landed.content() =~= ours.content());
    assert(landed_there.content() =~= there.content());
}

/// The groups that both sides have become what they are to become one after the other, or are to
/// be moved.
pub proof fn lemma_common(
    r: Regrouping,
    source: DatabaseModel,
    base: DatabaseModel,
    now: Timestamp,
    known: Set<GroupId>,
    listed: Seq<GroupId>,
)
    requires
        bare(r.p.db).wf(),
        known == r.p.db.groups.dom(),
        r.p.error is None,
        r.moves.len() == 0,
        listed.no_duplicates(),
        forall|i: int| 0 <= i < listed.len() ==> known.contains(#[trigger] listed[i]),
        groups::all_common(r, source, base, now, known, listed).p.error is None,
    ensures
        ({
            let after = groups::all_common(r, source, base, now, known, listed);
            &&& bare(after.p.db).wf()
            &&& after.p.db == (DatabaseModel { groups: after.p.db.groups, ..r.p.db })
            &&& after.p.db.groups.dom() == known
            &&& forall|g: GroupId| #[trigger]
                listed.contains(g) ==> decidable(
                    r.p.db.groups[g],
                    source.groups[g],
                    known,
                    base,
                    now,
                    g,
                ) && pending(
                    after,
                    group_outcome(r.p.db.groups[g], source.groups[g], known, base, now, g),
                    source,
                    g,
                )
            &&& forall|k: int|
                0 <= k < after.moves.len() ==> listed.contains((#[trigger] after.moves[k]).0)
                    && source.groups[after.moves[k].0].parent == Some(after.moves[k].1)
            &&& forall|g: GroupId|
                !listed.contains(g) && known.contains(g) ==> same_node(
                    #[trigger] after.p.db.groups[g],
                    r.p.db.groups[g],
                )
        }),
    decreases listed.len(),
{
    if listed.len() > 0 {
        let shorter = listed.drop_last();
        let g = listed[listed.len() - 1];
        assert(known.contains(g));
        assert forall|i: int| 0 <= i < shorter.len() implies known.contains(
            #[trigger] shorter[i],
        ) by {
            assert(shorter[i] == listed[i]);
        }
        lemma_common(r, source, base, now, known, shorter);
        let before = groups::all_common(r, source, base, now, known, shorter);
        let after = groups::all_common(r, source, base, now, known, listed);
        assert(!shorter.contains(g)) by {
            if shorter.contains(g) {
                let n = choose|n: int| 0 <= n < shorter.len() && shorter[n] == g;
                assert(listed[n] == g);
            }
        }
        assert(same_node(before.p.db.groups[g], r.p.db.groups[g]));
        assert(before.p.db.groups.dom().contains(g));
        assert(!moved(before.moves, g));
        lemma_common_step(before, source, base, now, known, g);
        assert forall|m: (GroupId, GroupId)| #[trigger]
            before.moves.contains(m) implies after.moves.contains(m) by {
            let n = choose|n: int| 0 <= n < before.moves.len() && before.moves[n] == m;
            assert(after.moves[n] == m);
        }
        assert forall|x: GroupId| #[trigger] listed.contains(x) implies decidable(
            r.p.db.groups[x],
            source.groups[x],
            known,
            base,
            now,
            x,
        ) && pending(
            after,
            group_outcome(r.p.db.groups[x], source.groups[x], known, base, now, x),
            source,
            x,
        ) by {
            let goal = group_outcome(r.p.db.groups[x], source.groups[x], known, base, now, x);
            if x == g {
                lemma_same_outcome(
                    before.p.db.groups[g],
                    r.p.db.groups[g],
                    source.groups[g],
                    known,
                    base,
                    now,
                    g,
                );
                let put = after.p.db.groups[g];
                assert((GroupModel { parent: goal.parent, ..put }).content() =~= put.content());
            } else {
                let i = choose|i: int| 0 <= i < listed.len() && listed[i] == x;
                assert(shorter[i] == x);
                assert(shorter.contains(x));
                assert(known.contains(listed[i]));
                assert(same_node(after.p.db.groups[x], before.p.db.groups[x]));
                if moved(after.moves, x) {
                    let k = choose|k: int|
                        0 <= k < after.moves.len() && (#[trigger] after.moves[k]).0 == x;
                    assert(k < before.moves.len());
                    assert(before.moves[k].0 == x);
                }
                lemma_still_pending(before, after, goal, source, x);
            }
        }
        assert forall|k: int| 0 <= k < after.moves.len() implies listed.contains(
            (#[trigger] after.moves[k]).0,
        ) && source.groups[after.moves[k].0].parent == Some(after.moves[k].1) by {
            if k < before.moves.len() {
                let x = before.moves[k].0;
                assert(after.moves[k] == before.moves[k]);
                assert(shorter.contains(x));
                let n = choose|n: int| 0 <= n < shorter.len() && shorter[n] == x;
                assert(listed[n] == x);
            } else {
                assert(listed[listed.len() - 1] == g);
            }
        }
        assert forall|x: GroupId| !listed.contains(x) && known.contains(x) implies same_node(
            #[trigger] after.p.db.groups[x],
            r.p.db.groups[x],
        ) by {
            assert(x != g) by {
                if x == g {
                    assert(listed.contains(x));
                }
            }
            if shorter.contains(x) {
                let n = choose|n: int| 0 <= n < shorter.len() && shorter[n] == x;
                assert(listed[n] == x);
            }
            assert(same_node(before.p.db.groups[x], r.p.db.groups[x]));
        }
    }
}

/// The moves that were put off change the places of the groups that they are about, and nothing
/// else.
pub proof fn lemma_moved(p: Progress, source: DatabaseModel, moves: Seq<(GroupId, GroupId)>)
    requires
        bare(p.db).wf(),
        p.error is None,
        forall|k: int|
            0 <= k < moves.len() ==> p.db.groups.contains_key((#[trigger] moves[k]).0)
                && source.groups[moves[k].0].parent == Some(moves[k].1),
        groups::all_moved(p, moves).error is None,
    ensures
        ({
            let after = groups::all_moved(p, moves);
            &&& bare(after.db).wf()
            &&& after.db == (DatabaseModel { groups: after.db.groups, ..p.db })
            &&& after.db.groups.dom() == p.db.groups.dom()
            &&& forall|g: GroupId| #[trigger]
                p.db.groups.contains_key(g) ==> after.db.groups[g].content()
                    == p.db.groups[g].content() && after.db.groups[g].times
                    == p.db.groups[g].times && (!moved(moves, g) ==> after.db.groups[g].parent
                    == p.db.groups[g].parent)
            &&& forall|k: int|
                0 <= k < moves.len() ==> after.db.groups[(#[trigger] moves[k]).0].parent
                    == source.groups[moves[k].0].parent
        }),
    decreases moves.len(),
{
    if moves.len() > 0 {
        let shorter = moves.drop_last();
        let (g, to) = moves[moves.len() - 1];
        assert(p.db.groups.contains_key(moves[moves.len() - 1].0));
        assert forall|k: int| 0 <= k < shorter.len() implies p.db.groups.contains_key(
            (#[trigger] shorter[k]).0,
        ) && source.groups[shorter[k].0].parent == Some(shorter[k].1) by {
            assert(shorter[k] == moves[k]);
            assert(p.db.groups.contains_key(moves[k].0));
        }
        lemma_moved(p, source, shorter);
        let before = groups::all_moved(p, shorter);
        let after = groups::all_moved(p, moves);
        assert(before.db.groups.dom().contains(g)) by {
            assert(p.db.groups.dom().contains(g));
        }
        lemma_group_moved(before.db, g, to);
        assert forall|x: GroupId| #[trigger] p.db.groups.contains_key(x) implies
            after.db.groups[x].content() == p.db.groups[x].content() && after.db.groups[x].times
            == p.db.groups[x].times && (!moved(moves, x) ==> after.db.groups[x].parent
            == p.db.groups[x].parent) by {
            assert(p.db.groups.dom().contains(x));
            assert(before.db.groups.dom().contains(x));
            if x != g {
                assert(same_node(after.db.groups[x], before.db.groups[x]));
                if moved(shorter, x) {
                    let k = choose|k: int| 0 <= k < shorter.len() && (#[trigger] shorter[k]).0 == x;
                    assert(moves[k].0 == x);
                }
            } else {
                assert(moves[moves.len() - 1].0 == x);
            }
        }
        assert forall|k: int| 0 <= k < moves.len() implies after.db.groups[(
        #[trigger] moves[k]).0].parent == source.groups[moves[k].0].parent by {
            let x = moves[k].0;
            if x != g {
                assert(shorter[k] == moves[k]);
                assert(p.db.groups.contains_key(x));
                assert(p.db.groups.dom().contains(x));
                assert(before.db.groups.dom().contains(x));
                assert(same_node(after.db.groups[x], before.db.groups[x]));
            }
        }
    }
}

/// Once the groups that both sides have were dealt with and the moves that were put off were made,
/// each of them has become what it was to become.
pub proof fn lemma_groups_settled(
    p: Progress,
    source: DatabaseModel,
    base: DatabaseModel,
    now: Timestamp,
)
    requires
        bare(p.db).wf(),
        p.db.groups.dom().finite(),
        p.error is None,
        groups::groups_settled(p, source, base, now).error is None,
    ensures
        ({
            let after = groups::groups_settled(p, source, base, now);
            let known = p.db.groups.dom();
            &&& after.db == (DatabaseModel { groups: after.db.groups, ..p.db })
            &&& after.db.groups.dom() == known
            &&& forall|g: GroupId| #[trigger]
                after.db.groups.contains_key(g) ==> same_node(
                    after.db.groups[g],
                    if source.groups.contains_key(g) {
                        group_outcome(p.db.groups[g], source.groups[g], known, base, now, g)
                    } else {
                        p.db.groups[g]
                    },
                )
            &&& forall|g: GroupId| #[trigger]
                after.db.groups.contains_key(g) && source.groups.contains_key(g) ==> decidable(
                    p.db.groups[g],
                    source.groups[g],
                    known,
                    base,
                    now,
                    g,
                )
        }),
{
    let known = p.db.groups.dom();
    let shared = known.intersect(source.groups.dom());
    let listing = order::ordered::<GroupId>(shared);
    order::lemma_ordered_lists::<GroupId>(shared);
    order::lemma_increasing_no_duplicates::<GroupId>(listing);
    assert forall|i: int| 0 <= i < listing.len() implies known.contains(#[trigger] listing[i]) by {
        assert(listing.contains(listing[i]));
        assert(shared.contains(listing[i]));
    }
    let start = Regrouping { p, moves: Seq::empty() };
    lemma_common(start, source, base, now, known, listing);
    let settled = groups::all_common(start, source, base, now, known, listing);
    let moves = settled.moves;
    assert forall|k: int| 0 <= k < moves.len() implies settled.p.db.groups.contains_key(
        (#[trigger] moves[k]).0,
    ) && source.groups[moves[k].0].parent == Some(moves[k].1) by {
        assert(listing.contains(moves[k].0));
        assert(shared.contains(moves[k].0));
        assert(settled.p.db.groups.dom().contains(moves[k].0));
    }
    lemma_moved(settled.p, source, moves);
    let after = groups::groups_settled(p, source, base, now);
    assert(after == groups::all_moved(settled.p, moves));
    assert forall|g: GroupId| #[trigger] after.db.groups.contains_key(g) implies same_node(
        after.db.groups[g],
        if source.groups.contains_key(g) {
            group_outcome(p.db.groups[g], source.groups[g], known, base, now, g)
        } else {
            p.db.groups[g]
        },
    ) by {
        assert(after.db.groups.dom().contains(g));
        assert(settled.p.db.groups.contains_key(g)) by {
            assert(settled.p.db.groups.dom().contains(g));
        }
        let put = settled.p.db.groups[g];
        if source.groups.contains_key(g) {
            let goal = group_outcome(p.db.groups[g], source.groups[g], known, base, now, g);
            assert(shared.contains(g));
            assert(listing.contains(g));
            assert(pending(settled, goal, source, g));
            assert((GroupModel { parent: goal.parent, ..put }).content() =~= put.content());
            if moved(moves, g) {
                let k = choose|k: int| 0 <= k < moves.len() && (#[trigger] moves[k]).0 == g;
                assert(after.db.groups[moves[k].0].parent == source.groups[g].parent);
            }
        } else {
            assert(!listing.contains(g)) by {
                assert(!shared.contains(g));
            }
            assert(same_node(put, p.db.groups[g]));
            if moved(moves, g) {
                let k = choose|k: int| 0 <= k < moves.len() && (#[trigger] moves[k]).0 == g;
                assert(listing.contains(moves[k].0));
            }
        }
    }
    assert forall|g: GroupId| #[trigger]
        after.db.groups.contains_key(g) && source.groups.contains_key(g) implies decidable(
        p.db.groups[g],
        source.groups[g],
        known,
        base,
        now,
        g,
    ) by {
        assert(after.db.groups.dom().contains(g));
        assert(shared.contains(g));
        assert(listing.contains(g));
    }
}

/// A group of which has become what was to become leaves a second merge nothing to do.
pub proof fn lemma_outcome_is_quiet(
    before: GroupModel,
    after: GroupModel,
    theirs: GroupModel,
    known: Set<GroupId>,
    base: DatabaseModel,
    now: Timestamp,
    g: GroupId,
)
    requires
        before.id == theirs.id,
        before.times.last_modification is Some,
        theirs.times.last_modification is Some,
        decidable(before, theirs, known, base, now, g),
        same_node(after, group_outcome(before, theirs, known, base, now, g)),
    ensures
        quiet::quiet_group(after, theirs, known, base, g),
{
    broadcast use Timestamp::numbers_decide;

    assert(before.overwritten_by(theirs).content() =~= theirs.content());
    if let Placement::Move(to, time) = groups::placement(before, theirs, known) {
        let placed = groups::relocated_at(GroupModel { parent: Some(to), ..before }, time);
        assert(placed.content() =~= before.content());
        assert(placed.overwritten_by(theirs).content() =~= theirs.content());
    }
}

} // verus!
