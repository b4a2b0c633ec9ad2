//! The merging of groups.

use vstd::prelude::*;
use crate::content::Content;
use crate::database;
use crate::database::Database;
use crate::database::DatabaseModel;
use crate::database::Entries;
use crate::database::Groups;
use crate::group;
use crate::group::Group;
use crate::group::GroupModel;
use crate::ids;
use crate::ids::EntryId;
use crate::ids::GroupId;
use crate::laws::soundness;
use crate::merge::entries;
use crate::merge::entries::Progress;
use crate::merge::log::LogModel;
use crate::merge::log::MergeError;
use crate::merge::log::MergeEventTarget;
use crate::merge::log::MergeEventType;
use crate::merge::log::MergeLog;
use crate::merge::rules;
use crate::merge::rules::Tombstones;
use crate::order;
use crate::removal;
use crate::sorted_map;
use crate::sorted_set::SortedSet;
use crate::text;
use crate::times::Times;
use crate::times::Timestamp;
use crate::tree;

verus! {

/// A text about a group.
pub open spec fn about(before: Seq<char>, id: GroupId, after: Seq<char>) -> Seq<char> {
    before + ids::hyphenated(id.0.0) + after
}

/// The times at which a group, an entry in it or a group in it was last updated.
pub open spec fn update_times(groups: Groups, entries: Entries, g: GroupId) -> Set<Timestamp> {
    Set::new(
        |time: Timestamp|
            {
                ||| groups[g].times.updated() == Some(time)
                ||| exists|e: EntryId| #[trigger]
                    groups[g].entries.contains(e) && entries[e].times.updated() == Some(time)
                ||| exists|c: GroupId| #[trigger]
                    groups[g].groups.contains(c) && groups[c].times.updated() == Some(time)
            },
    )
}

/// Whether a time is the latest of some times; none is the latest of no times.
pub open spec fn is_latest(times: Set<Timestamp>, latest: Option<Timestamp>) -> bool {
    match latest {
        Some(time) => times.contains(time) && forall|other: Timestamp| #[trigger]
            times.contains(other) ==> !time.before(other),
        None => forall|other: Timestamp| !#[trigger] times.contains(other),
    }
}

/// When a group was last updated, considering the entries and groups in it.
pub open spec fn last_update(groups: Groups, entries: Entries, g: GroupId) -> Option<Timestamp> {
    choose|latest: Option<Timestamp>| is_latest(update_times(groups, entries, g), latest)
}

/// Whether a group differs from what the common ancestor had.
pub open spec fn differs_from_base(group: GroupModel, base: Groups, id: GroupId) -> bool {
    base.contains_key(id) && group.content() != base[id].content()
}

/// Whether a group that only the source has is to be added.
pub open spec fn group_revived(deleted: Tombstones, source: DatabaseModel, g: GroupId) -> bool {
    rules::revived(deleted, g.0, last_update(source.groups, source.entries, g))
}

/// The groups that the merge adds for their own sake.
pub open spec fn groups_to_add(dest: DatabaseModel, source: DatabaseModel) -> Set<GroupId> {
    Set::new(
        |g: GroupId|
            source.groups.contains_key(g) && !dest.groups.contains_key(g) && group_revived(
                dest.deleted_objects,
                source,
                g,
            ),
    )
}

/// Whether a group of the source stands below a group that the destination has, or is one.
pub open spec fn connected(groups: Groups, source: Groups, g: GroupId) -> bool {
    exists|n: nat| #[trigger] reaches(groups, source, g, n)
}

/// Whether `n` steps up from a group of the source there is a group that the destination has.
pub open spec fn reaches(groups: Groups, source: Groups, g: GroupId, n: nat) -> bool {
    match tree::ancestor(source, g, n) {
        Some(a) => groups.contains_key(a),
        None => false,
    }
}

/// Whether each group that is to be added has a place in the destination's tree.
pub open spec fn mergeable(dest: DatabaseModel, source: DatabaseModel) -> bool {
    forall|g: GroupId| #[trigger]
        groups_to_add(dest, source).contains(g) ==> connected(dest.groups, source.groups, g)
}

/// Whether `n` is the number of groups from `g` upwards that the destination lacks.
pub open spec fn is_gap(groups: Groups, source: Groups, g: GroupId, n: nat) -> bool {
    &&& reaches(groups, source, g, n)
    &&& forall|m: nat| m < n ==> !#[trigger] reaches(groups, source, g, m)
}

/// The number of groups from `g` upwards that the destination lacks.
pub open spec fn gap(groups: Groups, source: Groups, g: GroupId) -> nat {
    choose|n: nat| is_gap(groups, source, g, n)
}

/// A group of the source as it is created in the destination: without children.
pub open spec fn childless(group: GroupModel) -> GroupModel {
    GroupModel {
        entries: Set::empty(),
        groups: Set::empty(),
        previous_parent_group: None,
        ..group
    }
}

/// The progress once a group of the source was created in the destination, where its parent is.
pub open spec fn group_created(p: Progress, source: DatabaseModel, g: GroupId) -> Progress {
    entries::going(
        tree::group_added(p.db, source.groups[g].parent->0, childless(source.groups[g])),
        p.log.noted(MergeEventTarget::Group(g), MergeEventType::Created),
    )
}

/// The progress once a group and the groups above it, `n` in all, were created, the outermost
/// first.
pub open spec fn chain_created(p: Progress, source: DatabaseModel, g: GroupId, n: nat) -> Progress
    decreases n,
{
    if n == 0 {
        p
    } else {
        group_created(
            chain_created(p, source, source.groups[g].parent->0, (n - 1) as nat),
            source,
            g,
        )
    }
}

/// The progress once a group was created with the groups above it that are missing.
pub open spec fn group_restored(p: Progress, source: DatabaseModel, g: GroupId) -> Progress {
    chain_created(p, source, g, gap(p.db.groups, source.groups, g))
}

/// The progress once groups were created, one after the other.
pub open spec fn all_restored(p: Progress, source: DatabaseModel, listed: Seq<GroupId>) -> Progress
    decreases listed.len(),
{
    if listed.len() == 0 {
        p
    } else {
        group_restored(all_restored(p, source, listed.drop_last()), source, listed.last())
    }
}

/// The log after the decision on groups that only the source has.
pub open spec fn offers_logged(
    log: LogModel,
    deleted: Tombstones,
    source: DatabaseModel,
    base: DatabaseModel,
    listed: Seq<GroupId>,
) -> LogModel
    decreases listed.len(),
{
    if listed.len() == 0 {
        log
    } else {
        let g = listed.last();
        offers_logged(log, deleted, source, base, listed.drop_last()).warned_if(
            deleted.contains_key(g.0) && differs_from_base(source.groups[g], base.groups, g),
            about(
                "Group "@,
                g,
                " was deleted in the destination but modified in the source since the common ancestor."@,
            ),
        )
    }
}

/// Whether a group that only the destination has is to be removed.
pub open spec fn group_buried(
    groups: Groups,
    entries: Entries,
    source: DatabaseModel,
    g: GroupId,
) -> bool {
    rules::buried(source.deleted_objects, g.0, last_update(groups, entries, g))
}

/// The progress once it was decided on a group that only the destination has. A deletion is taken
/// over with its time; the group itself stays for now.
pub open spec fn group_missing(
    p: Progress,
    source: DatabaseModel,
    base: DatabaseModel,
    g: GroupId,
) -> Progress {
    let log = p.log.warned_if(
        source.deleted_objects.contains_key(g.0) && differs_from_base(
            p.db.groups[g],
            base.groups,
            g,
        ),
        about(
            "Group "@,
            g,
            " was modified in the destination but deleted in the source since the common ancestor."@,
        ),
    );
    if group_buried(p.db.groups, p.db.entries, source, g) {
        entries::going(
            DatabaseModel {
                deleted_objects: p.db.deleted_objects.insert(g.0, source.deleted_objects[g.0]),
                ..p.db
            },
            log.noted(MergeEventTarget::Group(g), MergeEventType::Deleted),
        )
    } else {
        entries::going(p.db, log)
    }
}

/// The progress once it was decided on the groups that only the destination has.
pub open spec fn all_missing(
    p: Progress,
    source: DatabaseModel,
    base: DatabaseModel,
    listed: Seq<GroupId>,
) -> Progress
    decreases listed.len(),
{
    if listed.len() == 0 {
        p
    } else {
        group_missing(
            all_missing(p, source, base, listed.drop_last()),
            source,
            base,
            listed.last(),
        )
    }
}

/// The groups that are to be removed, in the order in which this was decided.
pub open spec fn doomed(
    groups: Groups,
    entries: Entries,
    source: DatabaseModel,
    listed: Seq<GroupId>,
) -> Seq<GroupId> {
    listed.filter(|g: GroupId| group_buried(groups, entries, source, g))
}

/// The database without groups, the last listed removed first. A group that went with an earlier
/// one needs no removal.
pub open spec fn all_removed(db: DatabaseModel, listed: Seq<GroupId>) -> DatabaseModel
    decreases listed.len(),
{
    if listed.len() == 0 {
        db
    } else {
        let g = listed.last();
        all_removed(
            if db.groups.contains_key(g) {
                removal::group_removed(db, g)
            } else {
                db
            },
            listed.drop_last(),
        )
    }
}

/// How the place of a group that both sides have is settled.
pub enum Placement {
    /// The group stays where it is.
    Stay,
    /// It is not known which side moved the group later.
    Ambiguous,
    /// The source has the group as its root.
    SourceRoot,
    /// The source has the group in a group that the destination lacks.
    Nowhere(GroupId),
    /// The source moved the group later, at the given time.
    Move(GroupId, Timestamp),
}

/// How the place of a group that both sides have is settled: the later move wins.
pub open spec fn placement(ours: GroupModel, theirs: GroupModel, known: Set<GroupId>) -> Placement {
    if ours.parent == theirs.parent {
        Placement::Stay
    } else {
        match (ours.times.location_changed, theirs.times.location_changed) {
            (Some(our_move), Some(their_move)) => if !our_move.before(their_move) {
                Placement::Stay
            } else {
                match theirs.parent {
                    None => Placement::SourceRoot,
                    Some(to) => if known.contains(to) {
                        Placement::Move(to, their_move)
                    } else {
                        Placement::Nowhere(to)
                    },
                }
            },
            _ => Placement::Ambiguous,
        }
    }
}

/// The group with another time of its last move.
pub open spec fn relocated_at(group: GroupModel, time: Timestamp) -> GroupModel {
    GroupModel { times: Times { location_changed: Some(time), ..group.times }, ..group }
}

/// The progress once a group was put under the root, on the way to its new place.
pub open spec fn group_uprooted(p: Progress, g: GroupId, time: Timestamp) -> Progress {
    match tree::move_error(p.db, g, p.db.root) {
        Some(error) => Progress { error: Some(MergeError::MoveGroupError(error)), ..p },
        None => {
            let db = tree::group_moved(p.db, g, p.db.root);
            entries::going(
                DatabaseModel {
                    groups: db.groups.insert(g, relocated_at(db.groups[g], time)),
                    ..db
                },
                p.log.noted(MergeEventTarget::Group(g), MergeEventType::LocationUpdated),
            )
        },
    }
}

/// How the content of a group that both sides have is settled.
pub enum Verdict {
    /// The destination stays as it is.
    Keep(Option<Seq<char>>),
    /// Nothing tells which side is right.
    Undecidable,
    /// The source's content replaces the destination's.
    Overwrite(Option<Seq<char>>),
}

/// How two versions of a group are settled. Modified at the same time and of the same content,
/// they are left alone. Modified at the same time and different, they need the common ancestor,
/// which tells who changed the group; if both did, the destination stays. Modified at different
/// times, the newer one wins, but a source that did not change since the ancestor has no say.
pub open spec fn verdict(
    ours: GroupModel,
    our_time: Timestamp,
    theirs: GroupModel,
    their_time: Timestamp,
    base: Groups,
    g: GroupId,
) -> Verdict {
    let same = ours.content() == theirs.content();
    if our_time == their_time {
        if same {
            Verdict::Keep(None)
        } else if !base.contains_key(g) {
            Verdict::Undecidable
        } else if !differs_from_base(theirs, base, g) {
            Verdict::Keep(None)
        } else if differs_from_base(ours, base, g) {
            Verdict::Keep(
                Some(
                    about(
                        "Group "@,
                        g,
                        " was modified in both databases at the same timestamp since the common ancestor. Resolving by keeping the destination copy."@,
                    ),
                ),
            )
        } else {
            Verdict::Overwrite(None)
        }
    } else {
        let base_time = if base.contains_key(g) {
            base[g].times.last_modification
        } else {
            None
        };
        let warning = if base_time is Some && rules::changed_since(base_time, our_time) && !same {
            Some(
                about(
                    "Group "@,
                    g,
                    " was modified in both databases since the common ancestor. Resolving by keeping the most recently modified version."@,
                ),
            )
        } else {
            None
        };
        if !rules::changed_since(base_time, their_time) {
            Verdict::Keep(None)
        } else if their_time.before(our_time) {
            Verdict::Keep(warning)
        } else {
            Verdict::Overwrite(warning)
        }
    }
}

/// The log with a warning, if there is one.
pub open spec fn warned_of(log: LogModel, warning: Option<Seq<char>>) -> LogModel {
    match warning {
        Some(text) => log.warned(text),
        None => log,
    }
}

/// The progress once the content of a group that both sides have was settled.
pub open spec fn group_settled(
    p: Progress,
    source: DatabaseModel,
    base: DatabaseModel,
    now: Timestamp,
    g: GroupId,
) -> Progress {
    let ours = p.db.groups[g];
    let theirs = source.groups[g];
    let log = p.log.warned_if(
        ours.times.last_modification is None,
        about("Destination group "@, g, " did not have a last modification timestamp"@),
    ).warned_if(
        theirs.times.last_modification is None,
        about("Source group "@, g, " did not have a last modification timestamp"@),
    );
    let our_time = match ours.times.last_modification {
        Some(time) => time,
        None => now,
    };
    let their_time = match theirs.times.last_modification {
        Some(time) => time,
        None => Times::spec_epoch(),
    };
    match verdict(ours, our_time, theirs, their_time, base.groups, g) {
        Verdict::Keep(warning) => entries::going(p.db, warned_of(log, warning)),
        Verdict::Undecidable => Progress {
            db: p.db,
            log,
            error: Some(MergeError::GroupModificationTimeNotUpdated(g)),
        },
        Verdict::Overwrite(warning) => entries::going(
            DatabaseModel {
                groups: p.db.groups.insert(g, ours.overwritten_by(theirs)),
                ..p.db
            },
            warned_of(log, warning).noted(MergeEventTarget::Group(g), MergeEventType::Updated),
        ),
    }
}

/// The progress of the merging of the groups that both sides have, and the moves that are put off
/// until all of them were dealt with: the group, and the group that it goes to.
#[verifier::ext_equal]
pub struct Regrouping {
    /// The progress.
    pub p: Progress,
    /// The moves that are put off.
    pub moves: Seq<(GroupId, GroupId)>,
}

/// The progress once a group that both sides have was dealt with: first its place, then its
/// content. A group that the source moved later is put under the root and its move put off, so
/// that groups which change places do not end up below each other. A group that cannot be put
/// where the source has it keeps its content too.
#[verifier::opaque]
pub open spec fn group_common(
    r: Regrouping,
    source: DatabaseModel,
    base: DatabaseModel,
    now: Timestamp,
    known: Set<GroupId>,
    g: GroupId,
) -> Regrouping {
    let p = r.p;
    match placement(p.db.groups[g], source.groups[g], known) {
        Placement::Stay => Regrouping { p: group_settled(p, source, base, now, g), ..r },
        Placement::Ambiguous => Regrouping {
            p: group_settled(
                entries::going(
                    p.db,
                    p.log.warned(
                        about(
                            "Cannot determine which group "@,
                            g,
                            " move is more recent because one of the groups does not have a location changed timestamp."@,
                        ),
                    ),
                ),
                source,
                base,
                now,
                g,
            ),
            ..r
        },
        Placement::SourceRoot => Regrouping {
            p: entries::going(
                p.db,
                p.log.warned("Cannot move root group "@ + ids::hyphenated(g.0.0)),
            ),
            ..r
        },
        Placement::Nowhere(to) => Regrouping {
            p: entries::going(
                p.db,
                p.log.warned(
                    "Cannot move group "@ + ids::hyphenated(g.0.0) + " to group "@
                        + ids::hyphenated(to.0.0)
                        + " because the group does not exist in the destination database."@,
                ),
            ),
            ..r
        },
        Placement::Move(to, time) => {
            let up = group_uprooted(p, g, time);
            Regrouping {
                p: if up.error is Some {
                    up
                } else {
                    group_settled(up, source, base, now, g)
                },
                moves: r.moves.push((g, to)),
            }
        },
    }
}

/// The progress once groups that both sides have were dealt with, one after the other. An error
/// ends the merge.
pub open spec fn all_common(
    r: Regrouping,
    source: DatabaseModel,
    base: DatabaseModel,
    now: Timestamp,
    known: Set<GroupId>,
    listed: Seq<GroupId>,
) -> Regrouping
    decreases listed.len(),
{
    if listed.len() == 0 {
        r
    } else {
        let before = all_common(r, source, base, now, known, listed.drop_last());
        if before.p.error is Some {
            before
        } else {
            group_common(before, source, base, now, known, listed.last())
        }
    }
}

/// The progress once the moves that were put off were made. A move that cannot be made ends the
/// merge.
pub open spec fn all_moved(p: Progress, moves: Seq<(GroupId, GroupId)>) -> Progress
    decreases moves.len(),
{
    if moves.len() == 0 {
        p
    } else {
        let before = all_moved(p, moves.drop_last());
        let (g, to) = moves.last();
        if before.error is Some {
            before
        } else {
            match tree::move_error(before.db, g, to) {
                Some(error) => Progress {
                    error: Some(MergeError::MoveGroupError(error)),
                    ..before
                },
                None => Progress { db: tree::group_moved(before.db, g, to), ..before },
            }
        }
    }
}

/// The progress once the groups were added that the destination lacks.
pub open spec fn groups_added(p: Progress, source: DatabaseModel, base: DatabaseModel) -> Progress {
    let offered = order::ordered::<GroupId>(
        source.groups.dom().difference(p.db.groups.dom()),
    );
    all_restored(
        entries::going(
            p.db,
            offers_logged(p.log, p.db.deleted_objects, source, base, offered),
        ),
        source,
        order::ordered::<GroupId>(groups_to_add(p.db, source)),
    )
}

/// The progress once the groups that both sides have were merged.
pub open spec fn groups_settled(
    p: Progress,
    source: DatabaseModel,
    base: DatabaseModel,
    now: Timestamp,
) -> Progress {
    let settled = all_common(
        Regrouping { p, moves: Seq::empty() },
        source,
        base,
        now,
        p.db.groups.dom(),
        order::ordered::<GroupId>(p.db.groups.dom().intersect(source.groups.dom())),
    );
    if settled.p.error is Some {
        settled.p
    } else {
        all_moved(settled.p, settled.moves)
    }
}

/// The progress once all groups and entries were merged. Groups that the destination lacks are
/// added first, so that entries find them, and groups that the source deleted are removed only
/// after the entries were merged; then the groups that both sides have are settled.
pub open spec fn groups_merged(
    p: Progress,
    source: DatabaseModel,
    base: DatabaseModel,
    now: Timestamp,
) -> Progress {
    let added = groups_added(p, source, base);
    let only_ours = order::ordered::<GroupId>(
        p.db.groups.dom().difference(source.groups.dom()),
    );
    let marked = all_missing(added, source, base, only_ours);
    let merged = entries::entries_merged(marked, source, base, now);
    if merged.error is Some {
        merged
    } else {
        groups_settled(
            Progress {
                db: all_removed(
                    merged.db,
                    doomed(added.db.groups, added.db.entries, source, only_ours),
                ),
                ..merged
            },
            source,
            base,
            now,
        )
    }
}

/// There is only one latest time.
proof fn lemma_latest_unique(times: Set<Timestamp>, a: Option<Timestamp>, b: Option<Timestamp>)
    requires
        is_latest(times, a),
        is_latest(times, b),
    ensures
        a == b,
{
    broadcast use Timestamp::numbers_decide;

    if a is Some && b is Some {
        assert(times.contains(a->0) && times.contains(b->0));
        assert(!a->0.before(b->0) && !b->0.before(a->0));
    } else if a is Some {
        assert(times.contains(a->0));
    } else if b is Some {
        assert(times.contains(b->0));
    }
}

/// The later of two points in time, if there is one.
fn later_of(a: Option<Timestamp>, b: Option<Timestamp>, times: Ghost<Set<Timestamp>>) -> (result:
    Option<Timestamp>)
    requires
        is_latest(times@, a),
    ensures
        is_latest(
            match b {
                Some(time) => times@.insert(time),
                None => times@,
            },
            result,
        ),
{
    broadcast use Timestamp::numbers_decide;

    match (a, b) {
        (Some(x), Some(y)) => {
            if x.is_before(&y) {
                proof {
                    assert forall|other: Timestamp| #[trigger] times@.insert(y).contains(
                        other,
                    ) implies !y.before(other) by {
                        if other != y {
                            assert(!x.before(other));
                        }
                    }
                }
                Some(y)
            } else {
                Some(x)
            }
        },
        (Some(x), None) => Some(x),
        (None, _) => b,
    }
}

/// Get the last update time (modification or location change) of a group, considering its entries
/// and subgroups.
pub fn get_last_update(db: &Database, g: GroupId) -> (result: Option<Timestamp>)
    requires
        db.wf(),
        db.deep_view().groups.contains_key(g),
    ensures
        result == last_update(db.deep_view().groups, db.deep_view().entries, g),
        is_latest(update_times(db.deep_view().groups, db.deep_view().entries, g), result),
{
    let ghost groups = db.deep_view().groups;
    let ghost entries = db.deep_view().entries;
    let group = match db.groups.get(&g) {
        Some(group) => group,
        None => {
            return None;
        },
    };
    let ghost listed_entries = groups[g].entries;
    let ghost listed_groups = groups[g].groups;
    let ghost mut seen: Set<Timestamp> = Set::empty();
    let own = group.times.last_update();
    let mut latest = later_of(None, own, Ghost(seen));
    proof {
        seen = Set::new(|time: Timestamp| own == Some(time));
        match own {
            Some(time) => {
                assert(seen =~= Set::empty().insert(time));
            },
            None => {
                assert(seen =~= Set::empty());
            },
        }
    }
    let entry_ids = group.entries.members();
    let ghost first = entry_ids.deep_view();
    let mut i: usize = 0;
    while i < entry_ids.len()
        invariant
            entries == db.deep_view().entries,
            groups == db.deep_view().groups,
            db.wf(),
            groups.contains_key(g),
            listed_entries == groups[g].entries,
            first == entry_ids.deep_view(),
            order::lists::<EntryId>(first, listed_entries),
            i <= entry_ids@.len(),
            is_latest(seen, latest),
            forall|time: Timestamp| #[trigger]
                seen.contains(time) <==> own == Some(time) || exists|j: int|
                    0 <= j < i && entries[#[trigger] first[j]].times.updated() == Some(time),
        decreases entry_ids@.len() - i,
    {
        let id = entry_ids[i];
        let ghost before = seen;
        proof {
            assert(first[i as int] == id);
            assert(first.contains(id));
            assert(listed_entries.contains(id));
            assert(groups[g].entries.contains(id));
        }
        if let Some(entry) = db.entries.get(&id) {
            let updated = entry.times.last_update();
            latest = later_of(latest, updated, Ghost(seen));
            proof {
                seen = match updated {
                    Some(time) => seen.insert(time),
                    None => seen,
                };
                assert forall|time: Timestamp| #[trigger] seen.contains(time) <==> own == Some(
                    time,
                ) || exists|j: int|
                    0 <= j < i + 1 && entries[#[trigger] first[j]].times.updated() == Some(
                        time,
                    ) by {
                    assert(before.contains(time) <==> own == Some(time) || exists|j: int|
                        0 <= j < i && entries[#[trigger] first[j]].times.updated() == Some(time));
                    if updated == Some(time) {
                        assert(entries[first[i as int]].times.updated() == Some(time));
                    }
                }
            }
        }
        i += 1;
    }
    let ghost from_entries = seen;
    let group_ids = group.groups.members();
    let ghost second = group_ids.deep_view();
    let mut i: usize = 0;
    while i < group_ids.len()
        invariant
            groups == db.deep_view().groups,
            db.wf(),
            groups.contains_key(g),
            listed_groups == groups[g].groups,
            second == group_ids.deep_view(),
            order::lists::<GroupId>(second, listed_groups),
            i <= group_ids@.len(),
            is_latest(seen, latest),
            forall|time: Timestamp| #[trigger]
                seen.contains(time) <==> from_entries.contains(time) || exists|j: int|
                    0 <= j < i && groups[#[trigger] second[j]].times.updated() == Some(time),
        decreases group_ids@.len() - i,
    {
        let id = group_ids[i];
        let ghost before = seen;
        proof {
            assert(second[i as int] == id);
            assert(second.contains(id));
            assert(listed_groups.contains(id));
            assert(database::group_placed(groups, db.root, g));
            assert(groups[g].groups.contains(id));
        }
        if let Some(child) = db.groups.get(&id) {
            let updated = child.times.last_update();
            latest = later_of(latest, updated, Ghost(seen));
            proof {
                seen = match updated {
                    Some(time) => seen.insert(time),
                    None => seen,
                };
                assert forall|time: Timestamp| #[trigger] seen.contains(time)
                    <==> from_entries.contains(time) || exists|j: int|
                    0 <= j < i + 1 && groups[#[trigger] second[j]].times.updated() == Some(
                        time,
                    ) by {
                    assert(before.contains(time) <==> from_entries.contains(time) || exists|j: int|
                        0 <= j < i && groups[#[trigger] second[j]].times.updated() == Some(time));
                    if updated == Some(time) {
                        assert(groups[second[i as int]].times.updated() == Some(time));
                    }
                }
            }
        }
        i += 1;
    }
    proof {
        let times = update_times(groups, entries, g);
        assert forall|time: Timestamp| #[trigger] seen.contains(time) <==> times.contains(time) by {
            if exists|e: EntryId| #[trigger]
                groups[g].entries.contains(e) && entries[e].times.updated() == Some(time) {
                let e = choose|e: EntryId| #[trigger]
                    groups[g].entries.contains(e) && entries[e].times.updated() == Some(time);
                let j = choose|j: int| 0 <= j < first.len() && first[j] == e;
                assert(entries[first[j]].times.updated() == Some(time));
                assert(from_entries.contains(time));
            }
            if exists|c: GroupId| #[trigger]
                groups[g].groups.contains(c) && groups[c].times.updated() == Some(time) {
                let c = choose|c: GroupId| #[trigger]
                    groups[g].groups.contains(c) && groups[c].times.updated() == Some(time);
                let j = choose|j: int| 0 <= j < second.len() && second[j] == c;
                assert(groups[second[j]].times.updated() == Some(time));
            }
            if exists|j: int|
                0 <= j < first.len() && entries[#[trigger] first[j]].times.updated() == Some(
                    time,
                ) {
                let j = choose|j: int|
                    0 <= j < first.len() && entries[#[trigger] first[j]].times.updated() == Some(
                        time,
                    );
                assert(first.contains(first[j]));
                assert(groups[g].entries.contains(first[j]));
            }
            if exists|j: int|
                0 <= j < second.len() && groups[#[trigger] second[j]].times.updated() == Some(
                    time,
                ) {
                let j = choose|j: int|
                    0 <= j < second.len() && groups[#[trigger] second[j]].times.updated() == Some(
                        time,
                    );
                assert(second.contains(second[j]));
                assert(groups[g].groups.contains(second[j]));
            }
        }
        assert(seen =~= times);
        lemma_latest_unique(times, latest, last_update(groups, entries, g));
    }
    latest
}

/// Whether a group differs from what the common ancestor had.
fn group_differs_from_base(group: &Group, base_db: &Database, id: GroupId) -> (result: bool)
    ensures
        result == differs_from_base(group.deep_view(), base_db.deep_view().groups, id),
{
    match base_db.groups.get(&id) {
        Some(base_group) => group::have_groups_diverged(group, base_group),
        None => false,
    }
}

/// A text about a group.
fn group_text(before: &str, id: GroupId, after: &str) -> (result: String)
    ensures
        result@ == about(before@, id, after@),
{
    text::join3(before, id.text().as_str(), after)
}

/// A connected group has a gap.
pub proof fn lemma_gap(groups: Groups, source: Groups, g: GroupId)
    requires
        connected(groups, source, g),
    ensures
        is_gap(groups, source, g, gap(groups, source, g)),
{
    let n = choose|n: nat| #[trigger] reaches(groups, source, g, n);
    lemma_some_gap(groups, source, g, n);
}

proof fn lemma_some_gap(groups: Groups, source: Groups, g: GroupId, n: nat)
    requires
        reaches(groups, source, g, n),
    ensures
        exists|m: nat| is_gap(groups, source, g, m),
    decreases n,
{
    if exists|m: nat| m < n && #[trigger] reaches(groups, source, g, m) {
        let m = choose|m: nat| m < n && #[trigger] reaches(groups, source, g, m);
        lemma_some_gap(groups, source, g, m);
    } else {
        assert(is_gap(groups, source, g, n));
    }
}

/// There is only one gap.
pub proof fn lemma_gap_is(groups: Groups, source: Groups, g: GroupId, n: nat)
    requires
        is_gap(groups, source, g, n),
    ensures
        gap(groups, source, g) == n,
{
    let m = gap(groups, source, g);
    assert(is_gap(groups, source, g, m));
    if m < n {
        assert(!reaches(groups, source, g, m));
    }
    if n < m {
        assert(!reaches(groups, source, g, n));
    }
}

/// The parent of a group that is missing is one step closer.
pub proof fn lemma_gap_of_parent(groups: Groups, source: Groups, g: GroupId)
    requires
        connected(groups, source, g),
        source.contains_key(g),
        !groups.contains_key(g),
    ensures
        source[g].parent is Some,
        connected(groups, source, source[g].parent->0),
        gap(groups, source, g) == gap(groups, source, source[g].parent->0) + 1,
{
    lemma_gap(groups, source, g);
    let n = gap(groups, source, g);
    assert(tree::ancestor(source, g, 0) == Some(g));
    assert(!reaches(groups, source, g, 0));
    assert(n > 0);
    if source[g].parent is None {
        assert(tree::ancestor(source, g, 1) is None);
        lemma_none_above(source, g, n);
    }
    let p = source[g].parent->0;
    let m = (n - 1) as nat;
    tree::lemma_ancestor_of_parent(source, g, p, m);
    assert(reaches(groups, source, p, m));
    assert forall|k: nat| k < m implies !#[trigger] reaches(groups, source, p, k) by {
        tree::lemma_ancestor_of_parent(source, g, p, k);
        assert(!reaches(groups, source, g, k + 1));
    }
    lemma_gap_is(groups, source, p, m);
}

proof fn lemma_none_above(source: Groups, g: GroupId, n: nat)
    requires
        source.contains_key(g),
        source[g].parent is None,
        n > 0,
    ensures
        tree::ancestor(source, g, n) is None,
    decreases n,
{
    assert(tree::ancestor(source, g, 0) == Some(g));
    if n > 1 {
        lemma_none_above(source, g, (n - 1) as nat);
    }
}

/// A group stays connected when the destination gets more groups.
pub proof fn lemma_stays_connected(groups: Groups, larger: Groups, source: Groups, g: GroupId)
    requires
        connected(groups, source, g),
        forall|x: GroupId| #[trigger] groups.contains_key(x) ==> larger.contains_key(x),
    ensures
        connected(larger, source, g),
{
    let n = choose|n: nat| #[trigger] reaches(groups, source, g, n);
    assert(reaches(larger, source, g, n));
}

/// A group of the source that has no place yet, as it is created in the destination.
fn without_children(source: &Group) -> (result: Group)
    ensures
        result.deep_view() == childless(source.deep_view()),
{
    let mut result = source.duplicate();
    result.entries = SortedSet::new();
    result.groups = SortedSet::new();
    result.previous_parent_group = None;
    result
}

/// Creates a group of the source in the destination, where its parent is.
fn create_group(
    dest_db: &mut Database,
    source_db: &Database,
    log: &mut MergeLog,
    g: GroupId,
    parent_id: GroupId,
)
    requires
        old(dest_db).wf(),
        source_db.wf(),
        source_db.deep_view().groups.contains_key(g),
        source_db.deep_view().groups[g].parent == Some(parent_id),
        old(dest_db).deep_view().groups.contains_key(parent_id),
        !old(dest_db).deep_view().groups.contains_key(g),
    ensures
        final(dest_db).wf(),
        entries::going(final(dest_db).deep_view(), final(log).deep_view()) == group_created(
            entries::going(old(dest_db).deep_view(), old(log).deep_view()),
            source_db.deep_view(),
            g,
        ),
        final(dest_db).deep_view() == (DatabaseModel {
            groups: final(dest_db).deep_view().groups,
            ..old(dest_db).deep_view()
        }),
        forall|x: GroupId| #[trigger]
            final(dest_db).deep_view().groups.contains_key(x) <==> old(dest_db).deep_view().groups.contains_key(x) || x == g,
{
    proof {
        assert(database::group_placed(
            source_db.deep_view().groups,
            source_db.deep_view().root,
            g,
        ));
    }
    if let Some(source_group) = source_db.groups.get(&g) {
        let group = without_children(source_group);
        let added = dest_db.insert_group(parent_id, group);
        assert(added is Ok);
        log.note(MergeEventTarget::Group(g), MergeEventType::Created);
    }
}

/// Creates a group of the source in the destination, with the groups above it that are missing,
/// the outermost first.
fn restore_group(dest_db: &mut Database, source_db: &Database, log: &mut MergeLog, g: GroupId)
    requires
        old(dest_db).wf(),
        source_db.wf(),
        source_db.deep_view().groups.contains_key(g),
        connected(old(dest_db).deep_view().groups, source_db.deep_view().groups, g),
    ensures
        final(dest_db).wf(),
        old(dest_db).deep_view().sound() ==> final(dest_db).deep_view().sound(),
        entries::going(final(dest_db).deep_view(), final(log).deep_view()) == group_restored(
            entries::going(old(dest_db).deep_view(), old(log).deep_view()),
            source_db.deep_view(),
            g,
        ),
        final(dest_db).deep_view() == (DatabaseModel {
            groups: final(dest_db).deep_view().groups,
            ..old(dest_db).deep_view()
        }),
        final(dest_db).deep_view().groups.contains_key(g),
        forall|x: GroupId| #[trigger]
            old(dest_db).deep_view().groups.contains_key(x) ==> final(dest_db).deep_view().groups.contains_key(x),
        forall|x: GroupId| #[trigger]
            final(dest_db).deep_view().groups.contains_key(x) ==> old(dest_db).deep_view().groups.contains_key(x) || tree::in_subtree(
                source_db.deep_view().groups,
                g,
                x,
            ),
    decreases gap(old(dest_db).deep_view().groups, source_db.deep_view().groups, g),
{
    let ghost dest = dest_db.deep_view();
    let ghost source = source_db.deep_view();
    proof {
        lemma_gap(dest.groups, source.groups, g);
        assert(tree::ancestor(source.groups, g, 0) == Some(g));
        assert(database::group_placed(source.groups, source.root, g));
    }
    if dest_db.groups.contains_key(&g) {
        proof {
            assert(reaches(dest.groups, source.groups, g, 0));
        }
        return ;
    }
    proof {
        lemma_gap_of_parent(dest.groups, source.groups, g);
    }
    let parent = match source_db.groups.get(&g) {
        Some(group) => group.parent,
        None => None,
    };
    if let Some(parent_id) = parent {
        restore_group(dest_db, source_db, log, parent_id);
        proof {
            removal::lemma_parent_outside(source.groups, source.root, g, parent_id);
            assert forall|x: GroupId| tree::in_subtree(source.groups, parent_id, x) implies
                #[trigger] tree::in_subtree(source.groups, g, x) by {
                tree::lemma_child_in_subtree(source.groups, g, parent_id, x);
            }
            assert(tree::in_subtree(source.groups, g, g));
        }
        create_group(dest_db, source_db, log, g, parent_id);
        assert(dest.sound() ==> dest_db.deep_view().sound());
    }
}

/// How deep a group stands in a tree.
pub open spec fn depth(groups: Groups, g: GroupId) -> nat {
    let depth = choose|depth: spec_fn(GroupId) -> nat|
        database::deeper_than_parent(groups, depth);
    depth(g)
}

/// Whether a group of the source stands below a group that the destination has, or is one.
fn is_connected(dest_db: &Database, source_db: &Database, g: GroupId) -> (result: bool)
    requires
        source_db.wf(),
        source_db.deep_view().groups.contains_key(g),
    ensures
        result == connected(dest_db.deep_view().groups, source_db.deep_view().groups, g),
    decreases depth(source_db.deep_view().groups, g),
{
    let ghost dest = dest_db.deep_view().groups;
    let ghost source = source_db.deep_view().groups;
    proof {
        assert(tree::ancestor(source, g, 0) == Some(g));
        assert(database::group_placed(source, source_db.deep_view().root, g));
    }
    if dest_db.groups.contains_key(&g) {
        assert(reaches(dest, source, g, 0));
        return true;
    }
    let parent = match source_db.groups.get(&g) {
        Some(group) => group.parent,
        None => None,
    };
    match parent {
        Some(parent_id) => {
            let result = is_connected(dest_db, source_db, parent_id);
            proof {
                if result {
                    let n = choose|n: nat| #[trigger] reaches(dest, source, parent_id, n);
                    tree::lemma_ancestor_of_parent(source, g, parent_id, n);
                    assert(reaches(dest, source, g, n + 1));
                }
                if connected(dest, source, g) {
                    let n = choose|n: nat| #[trigger] reaches(dest, source, g, n);
                    assert(n > 0);
                    tree::lemma_ancestor_of_parent(source, g, parent_id, (n - 1) as nat);
                    assert(reaches(dest, source, parent_id, (n - 1) as nat));
                }
            }
            result
        },
        None => {
            proof {
                if connected(dest, source, g) {
                    let n = choose|n: nat| #[trigger] reaches(dest, source, g, n);
                    assert(n > 0);
                    assert(tree::ancestor(source, g, 1) is None);
                    lemma_none_above(source, g, n);
                }
            }
            false
        },
    }
}

/// Whether each group that is to be added has a place in the destination's tree.
pub fn is_mergeable(dest_db: &Database, source_db: &Database) -> (result: bool)
    requires
        source_db.wf(),
    ensures
        result == mergeable(dest_db.deep_view(), source_db.deep_view()),
{
    let ghost dest = dest_db.deep_view();
    let ghost source = source_db.deep_view();
    let ids = sorted_map::keys_only_in(&source_db.groups, &dest_db.groups);
    let ghost listing = ids.deep_view();
    let mut i: usize = 0;
    while i < ids.len()
        invariant
            source_db.wf(),
            dest == dest_db.deep_view(),
            source == source_db.deep_view(),
            listing == ids.deep_view(),
            order::lists::<GroupId>(listing, source.groups.dom().difference(dest.groups.dom())),
            i <= ids@.len(),
            forall|j: int|
                0 <= j < i && groups_to_add(dest, source).contains(#[trigger] listing[j])
                    ==> connected(dest.groups, source.groups, listing[j]),
        decreases ids@.len() - i,
    {
        let id = ids[i];
        proof {
            assert(listing[i as int] == id);
            assert(listing.contains(id));
            assert(source.groups.dom().difference(dest.groups.dom()).contains(id));
        }
        if rules::is_revived(
            &dest_db.deleted_objects,
            id.uuid(),
            get_last_update(source_db, id),
        ) && !is_connected(dest_db, source_db, id) {
            assert(groups_to_add(dest, source).contains(id));
            return false;
        }
        i += 1;
    }
    proof {
        assert forall|g: GroupId| #[trigger] groups_to_add(dest, source).contains(g) implies
            connected(dest.groups, source.groups, g) by {
            assert(source.groups.dom().difference(dest.groups.dom()).contains(g));
            assert(listing.contains(g));
            let n = choose|n: int| 0 <= n < listing.len() && listing[n] == g;
            assert(groups_to_add(dest, source).contains(listing[n]));
        }
    }
    true
}

/// Adds the groups that the destination lacks.
fn merge_offered_groups(
    dest_db: &mut Database,
    source_db: &Database,
    base_db: &Database,
    log: &mut MergeLog,
)
    requires
        old(dest_db).wf(),
        source_db.wf(),
        mergeable(old(dest_db).deep_view(), source_db.deep_view()),
    ensures
        final(dest_db).wf(),
        old(dest_db).deep_view().sound() ==> final(dest_db).deep_view().sound(),
        entries::going(final(dest_db).deep_view(), final(log).deep_view()) == groups_added(
            entries::going(old(dest_db).deep_view(), old(log).deep_view()),
            source_db.deep_view(),
            base_db.deep_view(),
        ),
        final(dest_db).deep_view() == (DatabaseModel {
            groups: final(dest_db).deep_view().groups,
            ..old(dest_db).deep_view()
        }),
        forall|x: GroupId| #[trigger]
            old(dest_db).deep_view().groups.contains_key(x) ==> final(dest_db).deep_view().groups.contains_key(x),
{
    let ghost dest = dest_db.deep_view();
    let ghost source = source_db.deep_view();
    let ghost base = base_db.deep_view();
    let offered_ids = sorted_map::keys_only_in(&source_db.groups, &dest_db.groups);
    let ghost offered = offered_ids.deep_view();
    assert(offered.take(0) =~= Seq::<GroupId>::empty());
    let mut to_add: SortedSet<GroupId> = SortedSet::new();

    // Handle groups that exist only in source and might need to be added.
    let mut i: usize = 0;
    while i < offered_ids.len()
        invariant
            *dest_db == *old(dest_db),
            dest == dest_db.deep_view(),
            source_db.wf(),
            source == source_db.deep_view(),
            base == base_db.deep_view(),
            offered == offered_ids.deep_view(),
            order::lists::<GroupId>(offered, source.groups.dom().difference(dest.groups.dom())),
            i <= offered_ids@.len(),
            log.deep_view() == offers_logged(
                old(log).deep_view(),
                dest.deleted_objects,
                source,
                base,
                offered.take(i as int),
            ),
            forall|g: GroupId| #[trigger]
                to_add.deep_view().contains(g) <==> offered.take(i as int).contains(g)
                    && groups_to_add(dest, source).contains(g),
        decreases offered_ids@.len() - i,
    {
        let id = offered_ids[i];
        proof {
            assert(offered[i as int] == id);
            assert(offered.contains(id));
            assert(source.groups.dom().difference(dest.groups.dom()).contains(id));
            assert(offered.take(i + 1).drop_last() =~= offered.take(i as int));
            assert(offered.take(i + 1).last() == id);
            order::lemma_take_next(offered, i as int);
        }
        if let Some(source_group) = source_db.groups.get(&id) {
            // was the group deleted in dest?
            if dest_db.deleted_objects.contains_key(&id.uuid()) && group_differs_from_base(
                source_group,
                base_db,
                id,
            ) {
                log.warn(
                    group_text(
                        "Group ",
                        id,
                        " was deleted in the destination but modified in the source since the common ancestor.",
                    ),
                );
            }
            if rules::is_revived(
                &dest_db.deleted_objects,
                id.uuid(),
                get_last_update(source_db, id),
            ) {
                to_add.insert(id);
            }
        }
        i += 1;
    }
    proof {
        assert(offered.take(offered.len() as int) =~= offered);
        assert forall|g: GroupId| #[trigger] groups_to_add(dest, source).contains(g) implies
            offered.contains(g) by {
            assert(source.groups.dom().difference(dest.groups.dom()).contains(g));
        }
        assert(to_add.deep_view() =~= groups_to_add(dest, source));
    }
    let ghost start = entries::going(dest, log.deep_view());

    // Add them, with the parent groups that are needed.
    let ids = to_add.members();
    let ghost listing = ids.deep_view();
    assert(listing.take(0) =~= Seq::<GroupId>::empty());
    let mut i: usize = 0;
    while i < ids.len()
        invariant
            dest_db.wf(),
            source_db.wf(),
            source == source_db.deep_view(),
            mergeable(dest, source),
            listing == ids.deep_view(),
            order::lists::<GroupId>(listing, groups_to_add(dest, source)),
            i <= ids@.len(),
            entries::going(dest_db.deep_view(), log.deep_view()) == all_restored(
                start,
                source,
                listing.take(i as int),
            ),
            dest_db.deep_view() == (DatabaseModel { groups: dest_db.deep_view().groups, ..dest }),
            forall|x: GroupId| #[trigger]
                dest.groups.contains_key(x) ==> dest_db.deep_view().groups.contains_key(x),
        decreases ids@.len() - i,
    {
        let id = ids[i];
        proof {
            assert(listing[i as int] == id);
            assert(listing.contains(id));
            assert(groups_to_add(dest, source).contains(id));
            lemma_stays_connected(dest.groups, dest_db.deep_view().groups, source.groups, id);
            assert(listing.take(i + 1).drop_last() =~= listing.take(i as int));
            assert(listing.take(i + 1).last() == id);
        }
        restore_group(dest_db, source_db, log, id);
        i += 1;
    }
    assert(listing.take(listing.len() as int) =~= listing);
}

/// What is to be removed among one group more.
proof fn lemma_doomed_next(
    groups: Groups,
    entries: Entries,
    source: DatabaseModel,
    listed: Seq<GroupId>,
    i: int,
)
    requires
        0 <= i < listed.len(),
    ensures
        doomed(groups, entries, source, listed.take(i + 1)) == if group_buried(
            groups,
            entries,
            source,
            listed[i],
        ) {
            doomed(groups, entries, source, listed.take(i)).push(listed[i])
        } else {
            doomed(groups, entries, source, listed.take(i))
        },
{
    reveal(Seq::filter);
    assert(listed.take(i + 1).drop_last() =~= listed.take(i));
    assert(listed.take(i + 1).last() == listed[i]);
}

/// Decides on the groups that only the destination has, and returns those that are to be removed.
fn merge_missing_groups(
    dest_db: &mut Database,
    source_db: &Database,
    base_db: &Database,
    log: &mut MergeLog,
    ids: &Vec<GroupId>,
) -> (result: Vec<GroupId>)
    requires
        old(dest_db).wf(),
        forall|j: int|
            0 <= j < ids@.len() ==> old(dest_db).deep_view().groups.contains_key(
                #[trigger] ids.deep_view()[j],
            ),
    ensures
        final(dest_db).wf(),
        old(dest_db).deep_view().sound() ==> final(dest_db).deep_view().sound(),
        entries::going(final(dest_db).deep_view(), final(log).deep_view()) == all_missing(
            entries::going(old(dest_db).deep_view(), old(log).deep_view()),
            source_db.deep_view(),
            base_db.deep_view(),
            ids.deep_view(),
        ),
        result@ == doomed(
            old(dest_db).deep_view().groups,
            old(dest_db).deep_view().entries,
            source_db.deep_view(),
            ids.deep_view(),
        ),
        final(dest_db).deep_view() == (DatabaseModel {
            deleted_objects: final(dest_db).deep_view().deleted_objects,
            ..old(dest_db).deep_view()
        }),
{
    let ghost dest = dest_db.deep_view();
    let ghost source = source_db.deep_view();
    let ghost base = base_db.deep_view();
    let ghost listing = ids.deep_view();
    let ghost start = entries::going(dest, log.deep_view());
    let mut to_delete: Vec<GroupId> = Vec::new();
    proof {
        assert(listing.take(0) =~= Seq::<GroupId>::empty());
        reveal(Seq::filter);
        assert(doomed(dest.groups, dest.entries, source, listing.take(0)) =~= to_delete@);
    }
    let mut i: usize = 0;
    while i < ids.len()
        invariant
            dest_db.wf(),
            source == source_db.deep_view(),
            base == base_db.deep_view(),
            listing == ids.deep_view(),
            i <= ids@.len(),
            forall|j: int|
                0 <= j < ids@.len() ==> dest.groups.contains_key(#[trigger] listing[j]),
            entries::going(dest_db.deep_view(), log.deep_view()) == all_missing(
                start,
                source,
                base,
                listing.take(i as int),
            ),
            to_delete@ == doomed(dest.groups, dest.entries, source, listing.take(i as int)),
            dest_db.deep_view() == (DatabaseModel {
                deleted_objects: dest_db.deep_view().deleted_objects,
                ..dest
            }),
        decreases ids@.len() - i,
    {
        let id = ids[i];
        proof {
            assert(listing[i as int] == id);
            assert(listing.take(i + 1).drop_last() =~= listing.take(i as int));
            assert(listing.take(i + 1).last() == id);
            lemma_doomed_next(dest.groups, dest.entries, source, listing, i as int);
        }
        if let Some(deletion) = source_db.deleted_objects.get(&id.uuid()) {
            if let Some(dest_group) = dest_db.groups.get(&id) {
                if group_differs_from_base(dest_group, base_db, id) {
                    log.warn(
                        group_text(
                            "Group ",
                            id,
                            " was modified in the destination but deleted in the source since the common ancestor.",
                        ),
                    );
                }
            }
            if rules::is_buried(
                &source_db.deleted_objects,
                id.uuid(),
                get_last_update(dest_db, id),
            ) {
                // queue the deletion so that all subgroups will also emit a deletion event
                to_delete.push(id);
                dest_db.deleted_objects.insert(id.uuid(), *deletion);
                log.note(MergeEventTarget::Group(id), MergeEventType::Deleted);
            }
        }
        i += 1;
    }
    assert(listing.take(listing.len() as int) =~= listing);
    to_delete
}

/// Removes groups, the last listed first.
fn remove_groups(dest_db: &mut Database, ids: Vec<GroupId>)
    requires
        old(dest_db).wf(),
    ensures
        final(dest_db).wf(),
        old(dest_db).deep_view().sound() ==> final(dest_db).deep_view().sound(),
        final(dest_db).deep_view() == all_removed(old(dest_db).deep_view(), ids@),
{
    let mut to_delete = ids;
    while to_delete.len() > 0
        invariant
            dest_db.wf(),
            old(dest_db).deep_view().sound() ==> dest_db.deep_view().sound(),
            all_removed(dest_db.deep_view(), to_delete@) == all_removed(
                old(dest_db).deep_view(),
                ids@,
            ),
        decreases to_delete@.len(),
    {
        let ghost before = to_delete@;
        if let Some(id) = to_delete.pop() {
            assert(to_delete@ =~= before.drop_last());
            if dest_db.groups.contains_key(&id) {
                proof {
                    if dest_db.deep_view().sound() {
                        soundness::group_removal_is_sound(dest_db.deep_view(), id);
                    }
                }
                dest_db.remove_group(id);
            }
        }
    }
}

/// Changing a group without moving it or what it lists keeps the database well formed.
pub proof fn lemma_group_changed_wf(db: DatabaseModel, g: GroupId, group: GroupModel)
    requires
        db.wf(),
        db.groups.contains_key(g),
        group.id == db.groups[g].id,
        group.parent == db.groups[g].parent,
        group.groups == db.groups[g].groups,
        group.entries == db.groups[g].entries,
    ensures
        (DatabaseModel { groups: db.groups.insert(g, group), ..db }).wf(),
{
    let after = DatabaseModel { groups: db.groups.insert(g, group), ..db };
    assert(after.groups.dom() =~= db.groups.dom());
    tree::lemma_same_tree(db.groups, after.groups, db.root);
    assert forall|e: EntryId| #[trigger] after.entries.contains_key(e) implies
        database::entry_placed(after.entries, after.groups, e) by {
        assert(database::entry_placed(db.entries, db.groups, e));
    }
}

/// The executable form of a [Verdict].
enum Decision {
    Keep(Option<String>),
    Undecidable,
    Overwrite(Option<String>),
}

impl Decision {
    spec fn verdict(&self) -> Verdict {
        match self {
            Decision::Keep(warning) => Verdict::Keep(warning.deep_view()),
            Decision::Undecidable => Verdict::Undecidable,
            Decision::Overwrite(warning) => Verdict::Overwrite(warning.deep_view()),
        }
    }
}

/// Decides how two versions of a group are settled.
fn decide(
    ours: &Group,
    our_time: Timestamp,
    theirs: &Group,
    their_time: Timestamp,
    base_db: &Database,
    g: GroupId,
) -> (result: Decision)
    ensures
        result.verdict() == verdict(
            ours.deep_view(),
            our_time,
            theirs.deep_view(),
            their_time,
            base_db.deep_view().groups,
            g,
        ),
{
    broadcast use Timestamp::numbers_decide;

    if our_time == their_time {
        if !group::have_groups_diverged(ours, theirs) {
            return Decision::Keep(None);
        }
        // Divergent content at the same timestamp — resolve as a three-way conflict when an
        // ancestor is present.

        if !base_db.groups.contains_key(&g) {
            return Decision::Undecidable;
        }
        if !group_differs_from_base(theirs, base_db, g) {
            return Decision::Keep(None);
        }
        if group_differs_from_base(ours, base_db, g) {
            return Decision::Keep(
                Some(
                    group_text(
                        "Group ",
                        g,
                        " was modified in both databases at the same timestamp since the common ancestor. Resolving by keeping the destination copy.",
                    ),
                ),
            );
        }
        // Only the source changed — adopt it despite the equal timestamp.

        Decision::Overwrite(None)
    } else {
        let base_time = match base_db.groups.get(&g) {
            Some(base_group) => base_group.times.last_modification,
            None => None,
        };
        if !rules::has_changed_since(base_time, their_time) {
            // The source contributed nothing since the ancestor; keep the destination as-is.
            return Decision::Keep(None);
        }
        let conflict = base_time.is_some() && rules::has_changed_since(base_time, our_time)
            && group::have_groups_diverged(ours, theirs);
        let warning = if conflict {
            Some(
                group_text(
                    "Group ",
                    g,
                    " was modified in both databases since the common ancestor. Resolving by keeping the most recently modified version.",
                ),
            )
        } else {
            None
        };
        if their_time.is_before(&our_time) {
            Decision::Keep(warning)
        } else {
            Decision::Overwrite(warning)
        }
    }
}

/// Settles the content of a group that both sides have.
fn settle_group(
    dest_db: &mut Database,
    source_db: &Database,
    base_db: &Database,
    now: Timestamp,
    log: &mut MergeLog,
    g: GroupId,
) -> (result: Result<(), MergeError>)
    requires
        old(dest_db).wf(),
        old(dest_db).deep_view().groups.contains_key(g),
        source_db.deep_view().groups.contains_key(g),
    ensures
        final(dest_db).wf(),
        old(dest_db).deep_view().sound() ==> final(dest_db).deep_view().sound(),
        (Progress {
            db: final(dest_db).deep_view(),
            log: final(log).deep_view(),
            error: result.err(),
        }) == group_settled(
            entries::going(old(dest_db).deep_view(), old(log).deep_view()),
            source_db.deep_view(),
            base_db.deep_view(),
            now,
            g,
        ),
        final(dest_db).deep_view().groups.dom() == old(dest_db).deep_view().groups.dom(),
{
    let ghost before = dest_db.deep_view();
    let (decision, theirs) = match (dest_db.groups.get(&g), source_db.groups.get(&g)) {
        (Some(dest_group), Some(source_group)) => {
            let our_time = match dest_group.times.last_modification {
                Some(time) => time,
                None => {
                    log.warn(
                        group_text(
                            "Destination group ",
                            g,
                            " did not have a last modification timestamp",
                        ),
                    );
                    now
                },
            };
            let their_time = match source_group.times.last_modification {
                Some(time) => time,
                None => {
                    log.warn(
                        group_text(
                            "Source group ",
                            g,
                            " did not have a last modification timestamp",
                        ),
                    );
                    Times::epoch()
                },
            };
            (
                decide(dest_group, our_time, source_group, their_time, base_db, g),
                source_group,
            )
        },
        _ => {
            return Ok(());
        },
    };
    match decision {
        Decision::Keep(warning) => {
            if let Some(warning) = warning {
                log.warn(warning);
            }
            Ok(())
        },
        Decision::Undecidable => Err(MergeError::GroupModificationTimeNotUpdated(g)),
        Decision::Overwrite(warning) => {
            if let Some(warning) = warning {
                log.warn(warning);
            }
            if let Some(dest_group) = dest_db.groups.get_mut(&g) {
                group::overwrite_group_fields(dest_group, theirs);
            }
            proof {
                lemma_group_changed_wf(
                    before,
                    g,
                    before.groups[g].overwritten_by(theirs.deep_view()),
                );
                assert(dest_db.deep_view().groups.dom() =~= before.groups.dom());
            }
            log.note(MergeEventTarget::Group(g), MergeEventType::Updated);
            Ok(())
        },
    }
}

/// Puts a group under the root, on the way to its new place.
fn uproot_group(dest_db: &mut Database, log: &mut MergeLog, g: GroupId, time: Timestamp) -> (result:
    Result<(), MergeError>)
    requires
        old(dest_db).wf(),
        old(dest_db).deep_view().groups.contains_key(g),
    ensures
        final(dest_db).wf(),
        old(dest_db).deep_view().sound() ==> final(dest_db).deep_view().sound(),
        (Progress {
            db: final(dest_db).deep_view(),
            log: final(log).deep_view(),
            error: result.err(),
        }) == group_uprooted(
            entries::going(old(dest_db).deep_view(), old(log).deep_view()),
            g,
            time,
        ),
        final(dest_db).deep_view().groups.dom() == old(dest_db).deep_view().groups.dom(),
{
    let ghost before = dest_db.deep_view();
    let root_id = dest_db.root;
    match dest_db.move_group(g, root_id) {
        Ok(_) => {
            let ghost moved = dest_db.deep_view();
            proof {
                assert(database::group_placed(before.groups, before.root, g));
                assert(moved.groups.dom() =~= before.groups.dom());
                assert(moved.groups.contains_key(g));
            }
            if let Some(group) = dest_db.groups.get_mut(&g) {
                group.times.location_changed = Some(time);
            }
            proof {
                lemma_group_changed_wf(moved, g, relocated_at(moved.groups[g], time));
                assert(dest_db.deep_view().groups.dom() =~= before.groups.dom());
            }
            log.note(MergeEventTarget::Group(g), MergeEventType::LocationUpdated);
            Ok(())
        },
        Err(error) => Err(MergeError::MoveGroupError(error)),
    }
}

/// Decides how the place of a group that both sides have is settled.
fn place_group(dest_db: &Database, ours: &Group, theirs: &Group) -> (result: Place)
    ensures
        result.placement() == placement(
            ours.deep_view(),
            theirs.deep_view(),
            dest_db.deep_view().groups.dom(),
        ),
{
    if ours.parent.same_as(&theirs.parent) {
        return Place::Stay;
    }
    match (ours.times.location_changed, theirs.times.location_changed) {
        (Some(dlc), Some(slc)) => {
            if !dlc.is_before(&slc) {
                return Place::Stay;
            }
            match theirs.parent {
                None => Place::SourceRoot,
                Some(to) => {
                    if dest_db.groups.contains_key(&to) {
                        Place::Move(to, slc)
                    } else {
                        Place::Nowhere(to)
                    }
                },
            }
        },
        _ => Place::Ambiguous,
    }
}

/// The executable form of a [Placement].
enum Place {
    Stay,
    Ambiguous,
    SourceRoot,
    Nowhere(GroupId),
    Move(GroupId, Timestamp),
}

impl Place {
    spec fn placement(&self) -> Placement {
        match self {
            Place::Stay => Placement::Stay,
            Place::Ambiguous => Placement::Ambiguous,
            Place::SourceRoot => Placement::SourceRoot,
            Place::Nowhere(to) => Placement::Nowhere(*to),
            Place::Move(to, time) => Placement::Move(*to, *time),
        }
    }
}

/// Deals with a group that both sides have.
fn merge_common_group(
    dest_db: &mut Database,
    source_db: &Database,
    base_db: &Database,
    now: Timestamp,
    log: &mut MergeLog,
    moves: &mut Vec<(GroupId, GroupId)>,
    g: GroupId,
) -> (result: Result<(), MergeError>)
    requires
        old(dest_db).wf(),
        old(dest_db).deep_view().groups.contains_key(g),
        source_db.deep_view().groups.contains_key(g),
        forall|i: int|
            0 <= i < old(moves)@.len() ==> old(dest_db).deep_view().groups.contains_key(
                (#[trigger] old(moves)@[i]).0,
            ),
    ensures
        final(dest_db).wf(),
        old(dest_db).deep_view().sound() ==> final(dest_db).deep_view().sound(),
        (Regrouping {
            p: Progress {
                db: final(dest_db).deep_view(),
                log: final(log).deep_view(),
                error: result.err(),
            },
            moves: final(moves)@,
        }) == group_common(
            Regrouping {
                p: entries::going(old(dest_db).deep_view(), old(log).deep_view()),
                moves: old(moves)@,
            },
            source_db.deep_view(),
            base_db.deep_view(),
            now,
            old(dest_db).deep_view().groups.dom(),
            g,
        ),
        final(dest_db).deep_view().groups.dom() == old(dest_db).deep_view().groups.dom(),
        forall|i: int|
            0 <= i < final(moves)@.len() ==> final(dest_db).deep_view().groups.contains_key(
                (#[trigger] final(moves)@[i]).0,
            ),
{
    proof {
        reveal(group_common);
        assert(dest_db.deep_view().groups.dom().contains(g));
    }
    let ghost known = dest_db.deep_view().groups.dom();
    let place = match (dest_db.groups.get(&g), source_db.groups.get(&g)) {
        (Some(ours), Some(theirs)) => place_group(dest_db, ours, theirs),
        _ => {
            return Ok(());
        },
    };
    let result = match place {
        Place::Stay => settle_group(dest_db, source_db, base_db, now, log, g),
        Place::Ambiguous => {
            log.warn(
                group_text(
                    "Cannot determine which group ",
                    g,
                    " move is more recent because one of the groups does not have a location changed timestamp.",
                ),
            );
            settle_group(dest_db, source_db, base_db, now, log, g)
        },
        Place::SourceRoot => {
            log.warn(text::join("Cannot move root group ", g.text().as_str()));
            Ok(())
        },
        Place::Nowhere(to) => {
            log.warn(
                text::join5(
                    "Cannot move group ",
                    g.text().as_str(),
                    " to group ",
                    to.text().as_str(),
                    " because the group does not exist in the destination database.",
                ),
            );
            Ok(())
        },
        Place::Move(to, time) => {
            // to avoid creating cycles in situations where two groups swap their parent-child
            // relationship, move all groups to root first and then to their final destination
            moves.push((g, to));
            match uproot_group(dest_db, log, g, time) {
                Ok(_) => {
                    assert(dest_db.deep_view().groups.dom().contains(g));
                    settle_group(dest_db, source_db, base_db, now, log, g)
                },
                Err(error) => Err(error),
            }
        },
    };
    proof {
        assert forall|i: int| 0 <= i < moves@.len() implies
            dest_db.deep_view().groups.contains_key((#[trigger] moves@[i]).0) by {
            if i < old(moves)@.len() {
                assert(moves@[i] == old(moves)@[i]);
                assert(known.contains(old(moves)@[i].0));
            }
            assert(known.contains(moves@[i].0));
        }
    }
    result
}

/// After an error no more groups are merged.
proof fn lemma_error_ends(
    r: Regrouping,
    source: DatabaseModel,
    base: DatabaseModel,
    now: Timestamp,
    known: Set<GroupId>,
    listed: Seq<GroupId>,
    n: int,
)
    requires
        0 <= n <= listed.len(),
        all_common(r, source, base, now, known, listed.take(n)).p.error is Some,
    ensures
        all_common(r, source, base, now, known, listed) == all_common(
            r,
            source,
            base,
            now,
            known,
            listed.take(n),
        ),
    decreases listed.len(),
{
    if n == listed.len() {
        assert(listed.take(n) =~= listed);
    } else {
        let shorter = listed.drop_last();
        assert(shorter.take(n) =~= listed.take(n));
        lemma_error_ends(r, source, base, now, known, shorter, n);
    }
}

/// After an error no more moves are made.
proof fn lemma_move_error_ends(p: Progress, moves: Seq<(GroupId, GroupId)>, n: int)
    requires
        0 <= n <= moves.len(),
        all_moved(p, moves.take(n)).error is Some,
    ensures
        all_moved(p, moves) == all_moved(p, moves.take(n)),
    decreases moves.len(),
{
    if n == moves.len() {
        assert(moves.take(n) =~= moves);
    } else {
        let shorter = moves.drop_last();
        assert(shorter.take(n) =~= moves.take(n));
        lemma_move_error_ends(p, shorter, n);
    }
}

/// Makes the moves that were put off.
fn make_moves(dest_db: &mut Database, moves: &Vec<(GroupId, GroupId)>, log: Ghost<LogModel>) -> (result:
    Result<(), MergeError>)
    requires
        old(dest_db).wf(),
        forall|i: int|
            0 <= i < moves@.len() ==> old(dest_db).deep_view().groups.contains_key(
                (#[trigger] moves@[i]).0,
            ),
    ensures
        final(dest_db).wf(),
        old(dest_db).deep_view().sound() ==> final(dest_db).deep_view().sound(),
        (Progress { db: final(dest_db).deep_view(), log: log@, error: result.err() }) == all_moved(
            entries::going(old(dest_db).deep_view(), log@),
            moves@,
        ),
{
    let ghost known = dest_db.deep_view().groups.dom();
    let ghost start = entries::going(dest_db.deep_view(), log@);
    assert(moves@.take(0) =~= Seq::<(GroupId, GroupId)>::empty());
    let mut i: usize = 0;
    while i < moves.len()
        invariant
            dest_db.wf(),
            old(dest_db).deep_view().sound() ==> dest_db.deep_view().sound(),
            start == entries::going(old(dest_db).deep_view(), log@),
            i <= moves@.len(),
            entries::going(dest_db.deep_view(), log@) == all_moved(start, moves@.take(i as int)),
            dest_db.deep_view().groups.dom() == known,
            forall|j: int| 0 <= j < moves@.len() ==> known.contains((#[trigger] moves@[j]).0),
        decreases moves@.len() - i,
    {
        let (group_id, parent_id) = moves[i];
        let ghost before = dest_db.deep_view();
        proof {
            assert(moves@[i as int] == (group_id, parent_id));
            assert(known.contains(moves@[i as int].0));
            assert(before.groups.dom().contains(group_id));
            assert(moves@.take(i + 1).drop_last() =~= moves@.take(i as int));
            assert(moves@.take(i + 1).last() == moves@[i as int]);
        }
        match dest_db.move_group(group_id, parent_id) {
            Ok(_) => {
                proof {
                    assert(database::group_placed(before.groups, before.root, group_id));
                    assert(dest_db.deep_view().groups.dom() =~= known);
                }
            },
            Err(error) => {
                proof {
                    lemma_move_error_ends(start, moves@, i + 1);
                }
                return Err(MergeError::MoveGroupError(error));
            },
        }
        i += 1;
    }
    assert(moves@.take(moves@.len() as int) =~= moves@);
    Ok(())
}

/// Merges the groups that both sides have.
fn merge_common_groups(
    dest_db: &mut Database,
    source_db: &Database,
    base_db: &Database,
    now: Timestamp,
    log: &mut MergeLog,
) -> (result: Result<(), MergeError>)
    requires
        old(dest_db).wf(),
    ensures
        final(dest_db).wf(),
        old(dest_db).deep_view().sound() ==> final(dest_db).deep_view().sound(),
        (Progress {
            db: final(dest_db).deep_view(),
            log: final(log).deep_view(),
            error: result.err(),
        }) == groups_settled(
            entries::going(old(dest_db).deep_view(), old(log).deep_view()),
            source_db.deep_view(),
            base_db.deep_view(),
            now,
        ),
{
    let ghost dest = dest_db.deep_view();
    let ghost source = source_db.deep_view();
    let ghost base = base_db.deep_view();
    let ghost known = dest.groups.dom();
    let ids = sorted_map::keys_in_both(&dest_db.groups, &source_db.groups);
    let ghost listing = ids.deep_view();
    let mut moves: Vec<(GroupId, GroupId)> = Vec::new();
    let ghost start = Regrouping {
        p: entries::going(dest, log.deep_view()),
        moves: Seq::empty(),
    };
    assert(listing.take(0) =~= Seq::<GroupId>::empty());
    assert(moves@ =~= Seq::empty());
    let mut i: usize = 0;
    while i < ids.len()
        invariant
            dest_db.wf(),
            old(dest_db).deep_view().sound() ==> dest_db.deep_view().sound(),
            dest == old(dest_db).deep_view(),
            source == source_db.deep_view(),
            base == base_db.deep_view(),
            known == dest.groups.dom(),
            start == (Regrouping {
                p: entries::going(dest, old(log).deep_view()),
                moves: Seq::empty(),
            }),
            listing == ids.deep_view(),
            listing == order::ordered::<GroupId>(known.intersect(source.groups.dom())),
            order::lists::<GroupId>(listing, known.intersect(source.groups.dom())),
            i <= ids@.len(),
            (Regrouping {
                p: entries::going(dest_db.deep_view(), log.deep_view()),
                moves: moves@,
            }) == all_common(start, source, base, now, known, listing.take(i as int)),
            dest_db.deep_view().groups.dom() == known,
            forall|j: int|
                0 <= j < moves@.len() ==> dest_db.deep_view().groups.contains_key(
                    (#[trigger] moves@[j]).0,
                ),
        decreases ids@.len() - i,
    {
        let id = ids[i];
        proof {
            assert(listing[i as int] == id);
            assert(listing.contains(id));
            assert(known.intersect(source.groups.dom()).contains(id));
            assert(dest_db.deep_view().groups.dom().contains(id));
            assert(listing.take(i + 1).drop_last() =~= listing.take(i as int));
            assert(listing.take(i + 1).last() == id);
        }
        let merged = merge_common_group(
            dest_db,
            source_db,
            base_db,
            now,
            log,
            &mut moves,
            id,
        );
        if merged.is_err() {
            proof {
                lemma_error_ends(start, source, base, now, known, listing, i + 1);
            }
            return merged;
        }
        i += 1;
    }
    assert(listing.take(listing.len() as int) =~= listing);
    // perform all the moves that were queued up
    make_moves(dest_db, &moves, Ghost(log.deep_view()))
}

/// Merge groups from `source` into `dest`, appending to a log of the merge process. `now` stands
/// in for the modification time of a group or an entry of the destination that has none.
///
/// NOTE: this function will also call `merge_entries` to handle entries within the groups.
pub fn merge_groups(
    dest_db: &mut Database,
    source_db: &Database,
    base_db: &Database,
    now: Timestamp,
    log: &mut MergeLog,
) -> (result: Result<(), MergeError>)
    requires
        old(dest_db).wf(),
        source_db.wf(),
        mergeable(old(dest_db).deep_view(), source_db.deep_view()),
    ensures
        final(dest_db).wf(),
        old(dest_db).deep_view().sound() ==> final(dest_db).deep_view().sound(),
        (Progress {
            db: final(dest_db).deep_view(),
            log: final(log).deep_view(),
            error: result.err(),
        }) == groups_merged(
            entries::going(old(dest_db).deep_view(), old(log).deep_view()),
            source_db.deep_view(),
            base_db.deep_view(),
            now,
        ),
{
    let ghost dest = dest_db.deep_view();
    let ghost source = source_db.deep_view();
    let only_dest = sorted_map::keys_only_in(&dest_db.groups, &source_db.groups);
    merge_offered_groups(dest_db, source_db, base_db, log);
    proof {
        let listing = only_dest.deep_view();
        assert forall|j: int| 0 <= j < only_dest@.len() implies
            dest_db.deep_view().groups.contains_key(#[trigger] only_dest.deep_view()[j]) by {
            assert(listing.contains(listing[j]));
            assert(dest.groups.dom().difference(source.groups.dom()).contains(listing[j]));
            assert(dest.groups.contains_key(listing[j]));
        }
    }
    let to_delete = merge_missing_groups(dest_db, source_db, base_db, log, &only_dest);

    // perform the entry merges now that all groups that need adding are added but the groups that
    // need deleting still haven't been deleted, so that the entries can still be accessed and
    // generate events
    let merged = entries::merge_entries(dest_db, source_db, base_db, now, log);
    if merged.is_err() {
        return merged;
    }
    // perform all group deletions

    remove_groups(dest_db, to_delete);
    merge_common_groups(dest_db, source_db, base_db, now, log)
}

} // verus!
