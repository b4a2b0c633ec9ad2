//! What a merge reports of each step: its warnings, its events and its errors.

use vstd::prelude::*;
use crate::database::DatabaseModel;
use crate::entry::EntryModel;
use crate::group::GroupModel;
use crate::ids;
use crate::ids::CustomIconId;
use crate::ids::EntryId;
use crate::ids::GroupId;
use crate::ids::Uuid;
use crate::laws::fields;
use crate::laws::fields::same_group;
use crate::laws::merging;
use crate::merge;
use crate::merge::entries;
use crate::merge::entries::Progress;
use crate::merge::groups;
use crate::merge::groups::Regrouping;
use crate::merge::history;
use crate::merge::icons;
use crate::merge::log::LogModel;
use crate::merge::log::MergeError;
use crate::merge::log::MergeEvent;
use crate::merge::log::MergeEventTarget;
use crate::merge::log::MergeEventType;
use crate::remap;
use crate::removal;
use crate::times;
use crate::times::Times;
use crate::times::Timestamp;
use crate::tree;

verus! {

/// Whether a log grew by these warnings and events, in this order, and lost nothing.
pub open spec fn grew(
    before: LogModel,
    after: LogModel,
    warnings: Seq<Seq<char>>,
    events: Seq<MergeEvent>,
) -> bool {
    &&& after.warnings =~= before.warnings + warnings
    &&& after.events =~= before.events + events
}

/// Whether a log holds all that another does, and what it has more comes after that.
pub open spec fn extends(before: LogModel, after: LogModel) -> bool {
    &&& before.warnings.is_prefix_of(after.warnings)
    &&& before.events.is_prefix_of(after.events)
}

/// A text, if there is reason for it.
pub open spec fn text_if(reason: bool, text: Seq<char>) -> Seq<Seq<char>> {
    if reason {
        seq![text]
    } else {
        Seq::empty()
    }
}

/// An event, if there is reason for it.
pub open spec fn event_if(
    reason: bool,
    target: MergeEventTarget,
    event_type: MergeEventType,
) -> Seq<MergeEvent> {
    if reason {
        seq![MergeEvent { target, event_type }]
    } else {
        Seq::empty()
    }
}

/// A time, or another where it is not known.
pub open spec fn known_or(time: Option<Timestamp>, other: Timestamp) -> Timestamp {
    match time {
        Some(known) => known,
        None => other,
    }
}

/// Both sides changed a group since the common ancestor, at different times and to different
/// content: the merge warns of it, exactly once, and goes on. The newest side wins, and if it is
/// the source's, the log says that the group was updated.
pub proof fn group_conflict_is_warned_of(
    p: Progress,
    source: DatabaseModel,
    base: DatabaseModel,
    now: Timestamp,
    g: GroupId,
)
    requires
        p.db.groups.contains_key(g),
        source.groups.contains_key(g),
        base.groups.contains_key(g),
        p.db.groups[g].times.last_modification is Some,
        source.groups[g].times.last_modification is Some,
        base.groups[g].times.last_modification is Some,
        p.db.groups[g].times.last_modification != source.groups[g].times.last_modification,
        base.groups[g].times.last_modification->0.before(
            p.db.groups[g].times.last_modification->0,
        ),
        base.groups[g].times.last_modification->0.before(
            source.groups[g].times.last_modification->0,
        ),
        ({
            let ours = p.db.groups[g];
            let theirs = source.groups[g];
            !{
                &&& ours.id == theirs.id
                &&& ours.name == theirs.name
                &&& ours.notes == theirs.notes
                &&& ours.icon == theirs.icon
                &&& ours.custom_data == theirs.custom_data
                &&& ours.is_expanded == theirs.is_expanded
                &&& ours.default_autotype_sequence == theirs.default_autotype_sequence
                &&& ours.enable_autotype == theirs.enable_autotype
                &&& ours.enable_searching == theirs.enable_searching
                &&& ours.last_top_visible_entry == theirs.last_top_visible_entry
            }
        }),
    ensures
        ({
            let after = groups::group_settled(p, source, base, now, g);
            let taken = p.db.groups[g].times.last_modification->0.before(
                source.groups[g].times.last_modification->0,
            );
            &&& after.error is None
            &&& after.log.warnings == p.log.warnings.push(
                "Group "@ + ids::hyphenated(g.0.0)
                    + " was modified in both databases since the common ancestor. Resolving by keeping the most recently modified version."@,
            )
            &&& after.log.events == if taken {
                p.log.events.push(
                    MergeEvent {
                        target: MergeEventTarget::Group(g),
                        event_type: MergeEventType::Updated,
                    },
                )
            } else {
                p.log.events
            }
        }),
{
    broadcast use Timestamp::numbers_decide;

    fields::groups_diverge_exactly_in_their_fields(p.db.groups[g], source.groups[g]);
}

/// What comes of a group that both sides have, and what is reported of it. A missing modification
/// time is warned of; the destination's counts as now, the source's as the start of the epoch.
/// The newest side wins, but a source that did not change since the common ancestor has no say.
/// Of the same time and of different content, only the ancestor tells: without it the merge fails;
/// with it, the source's content is taken if the source alone differs from the ancestor. Changes
/// on both sides to different content are warned of.
pub proof fn settling_a_group_is_reported(
    p: Progress,
    source: DatabaseModel,
    base: DatabaseModel,
    now: Timestamp,
    g: GroupId,
)
    requires
        p.db.groups.contains_key(g),
        source.groups.contains_key(g),
    ensures
        ({
            let after = groups::group_settled(p, source, base, now, g);
            let ours = p.db.groups[g];
            let theirs = source.groups[g];
            let our_time = known_or(ours.times.last_modification, now);
            let their_time = known_or(theirs.times.last_modification, Times::spec_epoch());
            let has_base = base.groups.contains_key(g);
            let origin = base.groups[g];
            let origin_time = origin.times.last_modification;
            let same = same_group(ours, theirs);
            let tie = our_time == their_time && !same;
            let we_differ = !same_group(ours, origin);
            let they_differ = !same_group(theirs, origin);
            let dated_base = has_base && origin_time is Some;
            let taken = if our_time == their_time {
                tie && has_base && they_differ && !we_differ
            } else {
                our_time.before(their_time) && (dated_base ==> origin_time->0.before(their_time))
            };
            &&& after.error == if tie && !has_base {
                Some(MergeError::GroupModificationTimeNotUpdated(g))
            } else {
                None
            }
            &&& grew(
                p.log,
                after.log,
                text_if(
                    ours.times.last_modification is None,
                    "Destination group "@ + ids::hyphenated(g.0.0)
                        + " did not have a last modification timestamp"@,
                ) + text_if(
                    theirs.times.last_modification is None,
                    "Source group "@ + ids::hyphenated(g.0.0)
                        + " did not have a last modification timestamp"@,
                ) + text_if(
                    our_time != their_time && !same && dated_base && origin_time->0.before(our_time)
                        && origin_time->0.before(their_time),
                    "Group "@ + ids::hyphenated(g.0.0)
                        + " was modified in both databases since the common ancestor. Resolving by keeping the most recently modified version."@,
                ) + text_if(
                    tie && has_base && we_differ && they_differ,
                    "Group "@ + ids::hyphenated(g.0.0)
                        + " was modified in both databases at the same timestamp since the common ancestor. Resolving by keeping the destination copy."@,
                ),
                event_if(taken, MergeEventTarget::Group(g), MergeEventType::Updated),
            )
        }),
{
    broadcast use Timestamp::numbers_decide;

    let after = groups::group_settled(p, source, base, now, g);
    let ours = p.db.groups[g];
    let theirs = source.groups[g];
    fields::groups_diverge_exactly_in_their_fields(ours, theirs);
    fields::groups_diverge_exactly_in_their_fields(ours, base.groups[g]);
    fields::groups_diverge_exactly_in_their_fields(theirs, base.groups[g]);
    let our_time = known_or(ours.times.last_modification, now);
    let their_time = known_or(theirs.times.last_modification, Times::spec_epoch());
    let ours_undated = groups::about(
        "Destination group "@,
        g,
        " did not have a last modification timestamp"@,
    );
    let theirs_undated = groups::about(
        "Source group "@,
        g,
        " did not have a last modification timestamp"@,
    );
    let undated = p.log.warned_if(
        ours.times.last_modification is None,
        ours_undated,
    ).warned_if(theirs.times.last_modification is None, theirs_undated);
    let so_far = text_if(ours.times.last_modification is None, ours_undated) + text_if(
        theirs.times.last_modification is None,
        theirs_undated,
    );
    assert(grew(p.log, undated, so_far, Seq::empty()));
    let warning = match groups::verdict(ours, our_time, theirs, their_time, base.groups, g) {
        groups::Verdict::Keep(warning) => warning,
        groups::Verdict::Undecidable => None,
        groups::Verdict::Overwrite(warning) => warning,
    };
    assert(after.log.warnings == groups::warned_of(undated, warning).warnings);
    assert(so_far + Seq::empty() + Seq::empty() =~= so_far);
    if let Some(text) = warning {
        assert(so_far + seq![text] + Seq::empty() =~= so_far.push(text));
        assert(so_far + Seq::empty() + seq![text] =~= so_far.push(text));
        assert(after.log.warnings =~= p.log.warnings + so_far.push(text));
    } else {
        assert(after.log.warnings =~= p.log.warnings + so_far);
    }
}

/// The source's version of a group is taken, field by field, exactly if it is newer and changed
/// since the common ancestor, or if it is of the same time and the source alone differs from the
/// ancestor; otherwise nothing changes.
pub proof fn settling_a_group_takes_the_fields(
    p: Progress,
    source: DatabaseModel,
    base: DatabaseModel,
    now: Timestamp,
    g: GroupId,
)
    requires
        p.db.groups.contains_key(g),
        source.groups.contains_key(g),
    ensures
        ({
            let after = groups::group_settled(p, source, base, now, g);
            let ours = p.db.groups[g];
            let theirs = source.groups[g];
            let our_time = known_or(ours.times.last_modification, now);
            let their_time = known_or(theirs.times.last_modification, Times::spec_epoch());
            let has_base = base.groups.contains_key(g);
            let origin = base.groups[g];
            let origin_time = origin.times.last_modification;
            let taken = if our_time == their_time {
                !same_group(ours, theirs) && has_base && !same_group(theirs, origin) && same_group(
                    ours,
                    origin,
                )
            } else {
                our_time.before(their_time) && (has_base && origin_time is Some
                    ==> origin_time->0.before(their_time))
            };
            &&& taken ==> {
                let group = after.db.groups[g];
                &&& group.name == theirs.name
                &&& group.notes == theirs.notes
                &&& group.icon == theirs.icon
                &&& group.custom_data == theirs.custom_data
                &&& group.is_expanded == theirs.is_expanded
                &&& group.default_autotype_sequence == theirs.default_autotype_sequence
                &&& group.enable_autotype == theirs.enable_autotype
                &&& group.enable_searching == theirs.enable_searching
                &&& group.last_top_visible_entry == theirs.last_top_visible_entry
                &&& group.times.last_modification == if theirs.times.last_modification is Some {
                    theirs.times.last_modification
                } else {
                    ours.times.last_modification
                }
                &&& group.times.creation == ours.times.creation
                &&& group.times.last_access == ours.times.last_access
                &&& group.times.expiry == ours.times.expiry
                &&& group.times.expires == ours.times.expires
                &&& group.times.usage_count == ours.times.usage_count
                &&& group.times.location_changed == ours.times.location_changed
                &&& group.id == ours.id
                &&& group.parent == ours.parent
                &&& group.previous_parent_group == ours.previous_parent_group
                &&& group.entries == ours.entries
                &&& group.groups == ours.groups
                &&& after.db.groups.dom() == p.db.groups.dom()
                &&& after.db.groups.remove(g) == p.db.groups.remove(g)
                &&& after.db == (DatabaseModel { groups: after.db.groups, ..p.db })
            }
            &&& !taken ==> after.db == p.db
        }),
{
    broadcast use Timestamp::numbers_decide;

    let after = groups::group_settled(p, source, base, now, g);
    let ours = p.db.groups[g];
    let theirs = source.groups[g];
    fields::groups_diverge_exactly_in_their_fields(ours, theirs);
    fields::groups_diverge_exactly_in_their_fields(ours, base.groups[g]);
    fields::groups_diverge_exactly_in_their_fields(theirs, base.groups[g]);
    assert(after.db.groups.remove(g) =~= p.db.groups.remove(g));
    assert(p.db.groups.insert(g, ours.overwritten_by(theirs)).dom() =~= p.db.groups.dom());
}

/// No group but the root itself stands above the root.
proof fn lemma_nothing_above_root(groups: Map<GroupId, GroupModel>, root: GroupId, g: GroupId)
    requires
        groups.contains_key(root),
        groups[root].parent is None,
        g != root,
    ensures
        !tree::in_subtree(groups, root, g),
{
    assert forall|n: nat| #[trigger] tree::ancestor(groups, root, n) != Some(g) by {
        lemma_above_root(groups, root, n);
    }
}

/// The root has no ancestor but itself.
proof fn lemma_above_root(groups: Map<GroupId, GroupModel>, root: GroupId, n: nat)
    requires
        groups.contains_key(root),
        groups[root].parent is None,
    ensures
        tree::ancestor(groups, root, n) == if n == 0 {
            Some(root)
        } else {
            None
        },
    decreases n,
{
    if n > 0 {
        lemma_above_root(groups, root, (n - 1) as nat);
    }
}

/// What is reported of a group that both sides have as to its place. Where it stands in different
/// groups, the later move wins; a move whose time is not known, that leads to a group that is not
/// there, or that makes the group the root, is warned of. In the last two cases the group's
/// content is not touched either; otherwise what settling the content reports follows.
pub proof fn placing_a_group_is_reported(
    r: Regrouping,
    source: DatabaseModel,
    base: DatabaseModel,
    now: Timestamp,
    known: Set<GroupId>,
    g: GroupId,
)
    requires
        r.p.error is None,
        r.p.db.wf(),
        r.p.db.groups.contains_key(g),
        source.groups.contains_key(g),
    ensures
        ({
            let after = groups::group_common(r, source, base, now, known, g);
            let ours = r.p.db.groups[g];
            let theirs = source.groups[g];
            let our_move = ours.times.location_changed;
            let their_move = theirs.times.location_changed;
            let later = our_move is Some && their_move is Some && our_move->0.before(
                their_move->0,
            );
            if ours.parent == theirs.parent || our_move is Some && their_move is Some && !later {
                &&& after.moves == r.moves
                &&& after.p == groups::group_settled(r.p, source, base, now, g)
            } else if !later {
                &&& after.moves == r.moves
                &&& exists|warned: Progress|
                    {
                        &&& after.p == #[trigger] groups::group_settled(
                            warned,
                            source,
                            base,
                            now,
                            g,
                        )
                        &&& warned.db == r.p.db
                        &&& warned.error is None
                        &&& grew(
                            r.p.log,
                            warned.log,
                            seq![
                                "Cannot determine which group "@ + ids::hyphenated(g.0.0)
                                    + " move is more recent because one of the groups does not have a location changed timestamp."@,
                            ],
                            Seq::empty(),
                        )
                    }
            } else if theirs.parent is None {
                &&& after.moves == r.moves
                &&& after.p.db == r.p.db
                &&& after.p.error is None
                &&& grew(
                    r.p.log,
                    after.p.log,
                    seq!["Cannot move root group "@ + ids::hyphenated(g.0.0)],
                    Seq::empty(),
                )
            } else if !known.contains(theirs.parent->0) {
                &&& after.moves == r.moves
                &&& after.p.db == r.p.db
                &&& after.p.error is None
                &&& grew(
                    r.p.log,
                    after.p.log,
                    seq![
                        "Cannot move group "@ + ids::hyphenated(g.0.0) + " to group "@
                            + ids::hyphenated((theirs.parent->0).0.0)
                            + " because the group does not exist in the destination database."@,
                    ],
                    Seq::empty(),
                )
            } else {
                &&& after.moves == r.moves.push((g, theirs.parent->0))
                &&& g == r.p.db.root ==> after.p.error is Some
                &&& g != r.p.db.root ==> exists|up: Progress|
                    {
                        &&& after.p == #[trigger] groups::group_settled(up, source, base, now, g)
                        &&& up.error is None
                        &&& up.db.groups.contains_key(g)
                        &&& up.db.groups[g].parent == Some(up.db.root)
                        &&& up.db.groups[g].times == (Times {
                            location_changed: their_move,
                            ..ours.times
                        })
                        &&& same_group(up.db.groups[g], ours)
                        &&& grew(
                            r.p.log,
                            up.log,
                            Seq::empty(),
                            seq![
                                MergeEvent {
                                    target: MergeEventTarget::Group(g),
                                    event_type: MergeEventType::LocationUpdated,
                                },
                            ],
                        )
                    }
            }
        }),
{
    reveal(groups::group_common);
    let p = r.p;
    let ours = p.db.groups[g];
    let theirs = source.groups[g];
    assert(crate::database::group_placed(p.db.groups, p.db.root, g));
    match groups::placement(ours, theirs, known) {
        groups::Placement::Ambiguous => {
            let warned = entries::going(
                p.db,
                p.log.warned(
                    groups::about(
                        "Cannot determine which group "@,
                        g,
                        " move is more recent because one of the groups does not have a location changed timestamp."@,
                    ),
                ),
            );
            assert(groups::group_common(r, source, base, now, known, g).p
                == groups::group_settled(warned, source, base, now, g));
        },
        groups::Placement::Move(to, time) => {
            let up = groups::group_uprooted(p, g, time);
            if g != p.db.root {
                lemma_nothing_above_root(p.db.groups, p.db.root, g);
                assert(groups::group_common(r, source, base, now, known, g).p
                    == groups::group_settled(up, source, base, now, g));
            }
        },
        _ => {},
    }
}

/// A group that only the destination has and that the source deleted at its last update or later
/// is marked as deleted, with the source's time, and reported; one that was modified since the
/// common ancestor though the source deleted it is warned of. Nothing else changes yet.
pub proof fn missing_group_is_reported(
    p: Progress,
    source: DatabaseModel,
    base: DatabaseModel,
    g: GroupId,
)
    requires
        p.db.groups.contains_key(g),
    ensures
        ({
            let after = groups::group_missing(p, source, base, g);
            let deleted = source.deleted_objects.contains_key(g.0);
            let deletion = source.deleted_objects[g.0];
            let update = groups::last_update(p.db.groups, p.db.entries, g);
            let gone = deleted && !(deletion is Some && update is Some && deletion->0.before(
                update->0,
            ));
            &&& after.error is None
            &&& grew(
                p.log,
                after.log,
                text_if(
                    deleted && base.groups.contains_key(g) && !same_group(
                        p.db.groups[g],
                        base.groups[g],
                    ),
                    "Group "@ + ids::hyphenated(g.0.0)
                        + " was modified in the destination but deleted in the source since the common ancestor."@,
                ),
                event_if(gone, MergeEventTarget::Group(g), MergeEventType::Deleted),
            )
            &&& after.db == (DatabaseModel {
                deleted_objects: if gone {
                    p.db.deleted_objects.insert(g.0, deletion)
                } else {
                    p.db.deleted_objects
                },
                ..p.db
            })
        }),
{
    fields::groups_diverge_exactly_in_their_fields(p.db.groups[g], base.groups[g]);
}

/// A group that only the source has, though the destination deleted it, is warned of if the source
/// modified it since the common ancestor.
pub proof fn offered_group_is_reported(
    log: LogModel,
    dest: DatabaseModel,
    source: DatabaseModel,
    base: DatabaseModel,
    listed: Seq<GroupId>,
    g: GroupId,
)
    requires
        source.groups.contains_key(g),
    ensures
        grew(
            groups::offers_logged(log, dest.deleted_objects, source, base, listed),
            groups::offers_logged(log, dest.deleted_objects, source, base, listed.push(g)),
            text_if(
                dest.deleted_objects.contains_key(g.0) && base.groups.contains_key(g)
                    && !same_group(source.groups[g], base.groups[g]),
                "Group "@ + ids::hyphenated(g.0.0)
                    + " was deleted in the destination but modified in the source since the common ancestor."@,
            ),
            Seq::empty(),
        ),
        groups::offers_logged(log, dest.deleted_objects, source, base, Seq::empty()) == log,
{
    fields::groups_diverge_exactly_in_their_fields(source.groups[g], base.groups[g]);
    assert(listed.push(g).drop_last() =~= listed);
}

/// A group that is created has each field and timestamp of the source's group and its parent, but
/// no children and no previous parent, and is listed by its parent. It is reported, and nothing
/// else changes.
pub proof fn created_group_is_reported(p: Progress, source: DatabaseModel, g: GroupId, x: GroupId)
    requires
        p.db.wf(),
        !p.db.groups.contains_key(g),
        source.groups.contains_key(g),
        source.groups[g].id == g,
        source.groups[g].parent is Some,
        p.db.groups.contains_key(source.groups[g].parent->0),
    ensures
        ({
            let after = groups::group_created(p, source, g);
            let group = after.db.groups[g];
            let theirs = source.groups[g];
            &&& after.error is None
            &&& grew(
                p.log,
                after.log,
                Seq::empty(),
                seq![
                    MergeEvent {
                        target: MergeEventTarget::Group(g),
                        event_type: MergeEventType::Created,
                    },
                ],
            )
            &&& after.db.groups.contains_key(g)
            &&& group.id == g
            &&& group.name == theirs.name
            &&& group.notes == theirs.notes
            &&& group.icon == theirs.icon
            &&& group.custom_data == theirs.custom_data
            &&& group.is_expanded == theirs.is_expanded
            &&& group.default_autotype_sequence == theirs.default_autotype_sequence
            &&& group.enable_autotype == theirs.enable_autotype
            &&& group.enable_searching == theirs.enable_searching
            &&& group.last_top_visible_entry == theirs.last_top_visible_entry
            &&& group.times == theirs.times
            &&& group.parent == theirs.parent
            &&& group.previous_parent_group is None
            &&& group.entries =~= Set::empty()
            &&& group.groups =~= Set::empty()
            &&& x != g ==> after.db.groups.contains_key(x) == p.db.groups.contains_key(x)
            &&& x != g && x != theirs.parent->0 ==> after.db.groups[x] == p.db.groups[x]
            &&& after.db.groups[theirs.parent->0] == (GroupModel {
                groups: p.db.groups[theirs.parent->0].groups.insert(g),
                ..p.db.groups[theirs.parent->0]
            })
            &&& after.db == (DatabaseModel { groups: after.db.groups, ..p.db })
        }),
{
}

/// An entry that only the source has is created under the source's parent group, and reported,
/// unless the destination deleted it: then it is created only if it was updated after that. A
/// parent group that is missing is warned of, and so is a deletion of what was modified since the
/// common ancestor.
pub proof fn offered_entry_is_reported(
    p: Progress,
    source: DatabaseModel,
    base: DatabaseModel,
    e: EntryId,
)
    requires
        source.entries.contains_key(e),
        !p.db.entries.contains_key(e),
        source.entries[e].id == e,
    ensures
        ({
            let after = entries::entry_offered(p, source, base, e);
            let theirs = source.entries[e];
            let deleted = p.db.deleted_objects.contains_key(e.0);
            let deletion = p.db.deleted_objects[e.0];
            let update = theirs.times.updated();
            let wanted = !deleted || update is Some && (deletion is Some ==> deletion->0.before(
                update->0,
            ));
            let has_place = p.db.groups.contains_key(theirs.parent);
            &&& after.error is None
            &&& grew(
                p.log,
                after.log,
                text_if(
                    deleted && base.entries.contains_key(e) && !remap::equivalent(
                        theirs,
                        source.attachments,
                        base.entries[e],
                        base.attachments,
                    ),
                    "Entry "@ + ids::hyphenated(e.0.0)
                        + " was deleted in the destination but modified in the source since the common ancestor."@,
                ) + text_if(
                    wanted && !has_place,
                    "Cannot add entry "@ + ids::hyphenated(e.0.0) + " because its parent group "@
                        + ids::hyphenated(theirs.parent.0.0)
                        + " does not exist in the destination database."@,
                ),
                event_if(wanted && has_place, MergeEventTarget::Entry(e), MergeEventType::Created),
            )
            &&& after.db.entries.dom() =~= if wanted && has_place {
                p.db.entries.dom().insert(e)
            } else {
                p.db.entries.dom()
            }
            &&& after.db.entries.remove(e) =~= p.db.entries
            &&& after.db.deleted_objects == p.db.deleted_objects
            &&& wanted && has_place ==> {
                let entry = after.db.entries[e];
                &&& entry.id == e
                &&& entry.fields == theirs.fields
                &&& entry.autotype == theirs.autotype
                &&& entry.tags == theirs.tags
                &&& entry.custom_data == theirs.custom_data
                &&& entry.icon == theirs.icon
                &&& entry.foreground_color == theirs.foreground_color
                &&& entry.background_color == theirs.background_color
                &&& entry.override_url == theirs.override_url
                &&& entry.quality_check == theirs.quality_check
                &&& entry.parent == theirs.parent
                &&& entry.previous_parent_group == theirs.previous_parent_group
                &&& entry.times == theirs.times
                &&& entry.history is Some == theirs.history is Some
                &&& after.db.groups[theirs.parent] == (GroupModel {
                    entries: p.db.groups[theirs.parent].entries.insert(e),
                    ..p.db.groups[theirs.parent]
                })
                &&& after.db.groups.remove(theirs.parent) =~= p.db.groups.remove(theirs.parent)
            }
            &&& !(wanted && has_place) ==> after.db.groups == p.db.groups
            &&& ({
                let (carried, pool) = remap::entry_remapped(
                    theirs,
                    source.attachments,
                    p.db.attachments,
                );
                &&& after.db.attachments == if wanted {
                    pool
                } else {
                    p.db.attachments
                }
                &&& wanted && has_place ==> after.db.entries[e] == carried
            })
        }),
{
    reveal(entries::entry_offered);
    assert(p.db.entries.remove(e) =~= p.db.entries);
}

/// An entry that only the destination has and that the source deleted at its last update or later
/// is removed, and reported; the deletion is taken over with its time. One that was modified since
/// the common ancestor though the source deleted it is warned of.
pub proof fn missing_entry_is_reported(
    p: Progress,
    source: DatabaseModel,
    base: DatabaseModel,
    e: EntryId,
)
    requires
        p.db.entries.contains_key(e),
    ensures
        ({
            let after = entries::entry_missing(p, source, base, e);
            let ours = p.db.entries[e];
            let deleted = source.deleted_objects.contains_key(e.0);
            let deletion = source.deleted_objects[e.0];
            let update = ours.times.updated();
            let gone = deleted && !(deletion is Some && update is Some && deletion->0.before(
                update->0,
            ));
            &&& after.error is None
            &&& grew(
                p.log,
                after.log,
                text_if(
                    deleted && base.entries.contains_key(e) && !remap::equivalent(
                        ours,
                        p.db.attachments,
                        base.entries[e],
                        base.attachments,
                    ),
                    "Entry "@ + ids::hyphenated(e.0.0)
                        + " was modified in the destination but deleted in the source since the common ancestor."@,
                ),
                event_if(gone, MergeEventTarget::Entry(e), MergeEventType::Deleted),
            )
            &&& !gone ==> after.db == p.db
            &&& gone ==> {
                &&& after.db.entries =~= p.db.entries.remove(e)
                &&& after.db.deleted_objects.contains_key(e.0)
                &&& after.db.deleted_objects[e.0] == deletion
                &&& after.db.deleted_objects.remove(e.0) =~= p.db.deleted_objects.remove(e.0)
                &&& after.db.custom_icons == p.db.custom_icons
                &&& after.db == (DatabaseModel {
                    deleted_objects: after.db.deleted_objects,
                    ..removal::entries_removed(p.db, Set::empty().insert(e))
                })
            }
        }),
{
    reveal(entries::entry_missing);
}

/// What comes of the place of an entry that both sides have, and what is reported of it. Where it
/// stands in different groups, the later move wins; it is reported. A move whose time is not known
/// or that leads to a group that is not there is warned of.
pub proof fn placing_an_entry_is_reported(p: Progress, source: DatabaseModel, e: EntryId)
    requires
        p.error is None,
        p.db.wf(),
        p.db.entries.contains_key(e),
        source.entries.contains_key(e),
    ensures
        ({
            let after = entries::entry_relocated(p, source, e);
            let ours = p.db.entries[e];
            let theirs = source.entries[e];
            let our_move = ours.times.location_changed;
            let their_move = theirs.times.location_changed;
            let known = our_move is Some && their_move is Some;
            let later = known && our_move->0.before(their_move->0);
            let has_place = p.db.groups.contains_key(theirs.parent);
            let elsewhere = ours.parent != theirs.parent;
            &&& after.error is None
            &&& grew(
                p.log,
                after.log,
                text_if(
                    elsewhere && !known,
                    "Cannot determine which entry "@ + ids::hyphenated(e.0.0)
                        + " move is more recent because one of the entries does not have a location changed timestamp."@,
                ) + text_if(
                    elsewhere && later && !has_place,
                    "Cannot move entry "@ + ids::hyphenated(e.0.0) + " to group "@
                        + ids::hyphenated(theirs.parent.0.0)
                        + " because the group does not exist in the destination database."@,
                ),
                event_if(
                    elsewhere && later && has_place,
                    MergeEventTarget::Entry(e),
                    MergeEventType::LocationUpdated,
                ),
            )
            &&& if elsewhere && later && has_place {
                &&& after.db.entries.dom() =~= p.db.entries.dom()
                &&& after.db.entries.remove(e) =~= p.db.entries.remove(e)
                &&& after.db.entries[e] == (EntryModel {
                    parent: theirs.parent,
                    previous_parent_group: Some(ours.parent),
                    times: Times { location_changed: their_move, ..ours.times },
                    ..ours
                })
                &&& after.db.groups.dom() =~= p.db.groups.dom()
                &&& after.db.groups[theirs.parent].entries.contains(e)
                &&& !after.db.groups[ours.parent].entries.contains(e)
                &&& after.db.attachments == p.db.attachments
                &&& after.db.custom_icons == p.db.custom_icons
                &&& after.db.deleted_objects == p.db.deleted_objects
            } else {
                after.db == p.db
            }
        }),
{
    assert(crate::database::entry_placed(p.db.entries, p.db.groups, e));
}

/// Two texts, as far as there is reason for them.
proof fn lemma_two_texts(log: LogModel, a: bool, a_text: Seq<char>, b: bool, b_text: Seq<char>)
    ensures
        log.warned_if(a, a_text).warned_if(b, b_text) == (LogModel {
            warnings: log.warnings + (text_if(a, a_text) + text_if(b, b_text)),
            events: log.events,
        }),
{
    assert(log.warned_if(a, a_text).warned_if(b, b_text).warnings =~= log.warnings + (text_if(
        a,
        a_text,
    ) + text_if(b, b_text)));
}

/// Joining texts is associative.
proof fn lemma_joined(
    w: Seq<Seq<char>>,
    x: Seq<Seq<char>>,
    y: Seq<Seq<char>>,
    z: Seq<Seq<char>>,
)
    ensures
        (w + x) + (y + z) == w + (x + y + z),
{
    assert((w + x) + (y + z) =~= w + (x + y + z));
}

/// Texts, as far as there is reason for them.
proof fn lemma_six_texts(
    log: LogModel,
    a: bool,
    a_text: Seq<char>,
    b: bool,
    b_text: Seq<char>,
    c: bool,
    c_text: Seq<char>,
    d: bool,
    d_text: Seq<char>,
    x: bool,
    x_text: Seq<char>,
    y: bool,
    y_text: Seq<char>,
)
    ensures
        log.warned_if(a, a_text).warned_if(b, b_text).warned_if(c, c_text).warned_if(
            d,
            d_text,
        ).warned_if(x, x_text).warned_if(y, y_text) == (LogModel {
            warnings: log.warnings + (text_if(a, a_text) + text_if(b, b_text) + text_if(c, c_text)
                + text_if(d, d_text)) + (text_if(x, x_text) + text_if(y, y_text)),
            events: log.events,
        }),
{
    let first = log.warned_if(a, a_text).warned_if(b, b_text);
    lemma_two_texts(log, a, a_text, b, b_text);
    lemma_two_texts(first, c, c_text, d, d_text);
    let second = first.warned_if(c, c_text).warned_if(d, d_text);
    lemma_two_texts(second, x, x_text, y, y_text);
    lemma_joined(
        log.warnings,
        text_if(a, a_text) + text_if(b, b_text),
        text_if(c, c_text),
        text_if(d, d_text),
    );
}

/// How the content of an entry that both sides have is settled, step by step.
pub proof fn lemma_entry_steps(
    p: Progress,
    source: DatabaseModel,
    base: DatabaseModel,
    now: Timestamp,
    e: EntryId,
)
    ensures
        ({
            let ours = p.db.entries[e];
            let theirs = source.entries[e];
            let our_time = known_or(ours.times.last_modification, now);
            let their_time = known_or(theirs.times.last_modification, Times::spec_epoch());
            let has_base = base.entries.contains_key(e);
            let origin = base.entries[e];
            let origin_time = origin.times.last_modification;
            let dated_base = has_base && origin_time is Some;
            let same = remap::equivalent(
                ours,
                p.db.attachments,
                theirs,
                source.attachments,
            );
            let tie = our_time == their_time && !same;
            let we_differ = !remap::equivalent(
                ours,
                p.db.attachments,
                origin,
                base.attachments,
            );
            let they_differ = !remap::equivalent(
                theirs,
                source.attachments,
                origin,
                base.attachments,
            );
            let blended = if our_time == their_time {
                tie && has_base
            } else {
                dated_base ==> origin_time->0.before(their_time)
            };
            let taken = blended && if our_time == their_time {
                they_differ && !we_differ
            } else {
                our_time.before(their_time)
            };
            let undated = p.log.warned_if(
                theirs.times.last_modification is None,
                entries::about("Source entry "@, e, " did not have a last modification timestamp"@),
            ).warned_if(
                ours.times.last_modification is None,
                entries::about("Destination entry "@, e, " did not have a last modification timestamp"@),
            );
            let conflict = our_time != their_time && !same && dated_base && origin_time->0.before(our_time)
                && origin_time->0.before(their_time);
            let stalemate = tie && has_base && we_differ && they_differ;
            let told = undated.warned_if(
                conflict,
                "Entry "@ + ids::hyphenated(e.0.0)
                    + " was modified in both databases since the common ancestor. Resolving by keeping the most recently modified version."@,
            ).warned_if(
                stalemate,
                "Entry "@ + ids::hyphenated(e.0.0)
                    + " was modified in both databases at the same timestamp since the common ancestor. Resolving by keeping the destination copy."@,
            );
            entries::entry_settled(p, source, base, now, e) == if tie && !has_base {
                Progress {
                    db: p.db,
                    log: told,
                    error: Some(MergeError::EntryModificationTimeNotUpdated(e)),
                }
            } else if !blended {
                entries::going(p.db, told)
            } else {
                entries::entry_blended(p.db, told, source, e, taken)
            }
        }),
{
    broadcast use Timestamp::numbers_decide;

}

/// What is reported when the versions of an entry are blended.
pub proof fn lemma_blended_log(
    db: DatabaseModel,
    log: LogModel,
    source: DatabaseModel,
    e: EntryId,
    taken: bool,
)
    ensures
        ({
            let after = entries::entry_blended(db, log, source, e, taken);
            let opened = log.warned_if(
                source.entries[e].history is None,
                entries::about("Source entry "@, e, " had no history."@),
            ).warned_if(
                db.entries[e].history is None,
                entries::about("Destination entry "@, e, " had no history."@),
            );
            let reported = history::history_logged(
                opened,
                entries::versions_or_none(db.entries[e].history),
                entries::versions_or_none(source.entries[e].history),
                source.attachments,
                db.attachments,
            );
            &&& after.error is None
            &&& after.log == if taken {
                reported.noted(MergeEventTarget::Entry(e), MergeEventType::Updated)
            } else {
                reported
            }
        }),
{
}

/// What is reported of the content of an entry that both sides have. A missing modification time
/// is warned of; the destination's counts as now, the source's as the start of the epoch. Of the
/// same time and of different content, only the common ancestor tells: without it the merge fails.
/// Changes on both sides to different content are warned of, once. Where the histories are merged,
/// a missing history is warned of, and what their merging reports follows. If the source's content
/// is taken, that is reported last.
pub proof fn settling_an_entry_is_reported(
    p: Progress,
    source: DatabaseModel,
    base: DatabaseModel,
    now: Timestamp,
    e: EntryId,
)
    requires
        p.db.entries.contains_key(e),
        source.entries.contains_key(e),
    ensures
        ({
            let after = entries::entry_settled(p, source, base, now, e);
            let ours = p.db.entries[e];
            let theirs = source.entries[e];
            let our_time = known_or(ours.times.last_modification, now);
            let their_time = known_or(theirs.times.last_modification, Times::spec_epoch());
            let has_base = base.entries.contains_key(e);
            let origin = base.entries[e];
            let origin_time = origin.times.last_modification;
            let dated_base = has_base && origin_time is Some;
            let same = remap::equivalent(
                ours,
                p.db.attachments,
                theirs,
                source.attachments,
            );
            let tie = our_time == their_time && !same;
            let we_differ = !remap::equivalent(
                ours,
                p.db.attachments,
                origin,
                base.attachments,
            );
            let they_differ = !remap::equivalent(
                theirs,
                source.attachments,
                origin,
                base.attachments,
            );
            let blended = if our_time == their_time {
                tie && has_base
            } else {
                dated_base ==> origin_time->0.before(their_time)
            };
            let taken = blended && if our_time == their_time {
                they_differ && !we_differ
            } else {
                our_time.before(their_time)
            };
            let our_versions = if ours.history is Some {
                ours.history->0
            } else {
                Seq::empty()
            };
            let their_versions = if theirs.history is Some {
                theirs.history->0
            } else {
                Seq::empty()
            };
            &&& after.error == if tie && !has_base {
                Some(MergeError::EntryModificationTimeNotUpdated(e))
            } else {
                None
            }
            &&& {
                let settled = LogModel {
                    warnings: p.log.warnings + (text_if(
                        theirs.times.last_modification is None,
                        "Source entry "@ + ids::hyphenated(e.0.0)
                            + " did not have a last modification timestamp"@,
                    ) + text_if(
                        ours.times.last_modification is None,
                        "Destination entry "@ + ids::hyphenated(e.0.0)
                            + " did not have a last modification timestamp"@,
                    ) + text_if(
                        our_time != their_time && !same && dated_base && origin_time->0.before(our_time)
                            && origin_time->0.before(their_time),
                        "Entry "@ + ids::hyphenated(e.0.0)
                            + " was modified in both databases since the common ancestor. Resolving by keeping the most recently modified version."@,
                    ) + text_if(
                        tie && has_base && we_differ && they_differ,
                        "Entry "@ + ids::hyphenated(e.0.0)
                            + " was modified in both databases at the same timestamp since the common ancestor. Resolving by keeping the destination copy."@,
                    )),
                    events: p.log.events,
                };
                let opened = LogModel {
                    warnings: settled.warnings + (text_if(
                        blended && theirs.history is None,
                        "Source entry "@ + ids::hyphenated(e.0.0) + " had no history."@,
                    ) + text_if(
                        blended && ours.history is None,
                        "Destination entry "@ + ids::hyphenated(e.0.0) + " had no history."@,
                    )),
                    events: p.log.events,
                };
                let reported = if blended {
                    history::history_logged(
                        opened,
                        our_versions,
                        their_versions,
                        source.attachments,
                        p.db.attachments,
                    )
                } else {
                    opened
                };
                grew(
                    reported,
                    after.log,
                    Seq::empty(),
                    event_if(taken, MergeEventTarget::Entry(e), MergeEventType::Updated),
                )
            }
        }),
{
    let after = entries::entry_settled(p, source, base, now, e);
    let ours = p.db.entries[e];
    let theirs = source.entries[e];
    let our_time = known_or(ours.times.last_modification, now);
    let their_time = known_or(theirs.times.last_modification, Times::spec_epoch());
    let has_base = base.entries.contains_key(e);
    let origin = base.entries[e];
    let origin_time = origin.times.last_modification;
    let dated_base = has_base && origin_time is Some;
    let same = remap::equivalent(
        ours,
        p.db.attachments,
        theirs,
        source.attachments,
    );
    let tie = our_time == their_time && !same;
    let we_differ = !remap::equivalent(
        ours,
        p.db.attachments,
        origin,
        base.attachments,
    );
    let they_differ = !remap::equivalent(
        theirs,
        source.attachments,
        origin,
        base.attachments,
    );
    let blended = if our_time == their_time {
        tie && has_base
    } else {
        dated_base ==> origin_time->0.before(their_time)
    };
    let taken = blended && if our_time == their_time {
        they_differ && !we_differ
    } else {
        our_time.before(their_time)
    };
    let undated = p.log.warned_if(
        theirs.times.last_modification is None,
        entries::about("Source entry "@, e, " did not have a last modification timestamp"@),
    ).warned_if(
        ours.times.last_modification is None,
        entries::about("Destination entry "@, e, " did not have a last modification timestamp"@),
    );
    let conflict = our_time != their_time && !same && dated_base && origin_time->0.before(our_time)
        && origin_time->0.before(their_time);
    let stalemate = tie && has_base && we_differ && they_differ;
    let told = undated.warned_if(
        conflict,
        "Entry "@ + ids::hyphenated(e.0.0)
            + " was modified in both databases since the common ancestor. Resolving by keeping the most recently modified version."@,
    ).warned_if(
        stalemate,
        "Entry "@ + ids::hyphenated(e.0.0)
            + " was modified in both databases at the same timestamp since the common ancestor. Resolving by keeping the destination copy."@,
    );
    let settled = LogModel {
        warnings: p.log.warnings + (text_if(
            theirs.times.last_modification is None,
            "Source entry "@ + ids::hyphenated(e.0.0)
                + " did not have a last modification timestamp"@,
        ) + text_if(
            ours.times.last_modification is None,
            "Destination entry "@ + ids::hyphenated(e.0.0)
                + " did not have a last modification timestamp"@,
        ) + text_if(
            our_time != their_time && !same && dated_base && origin_time->0.before(our_time)
                && origin_time->0.before(their_time),
            "Entry "@ + ids::hyphenated(e.0.0)
                + " was modified in both databases since the common ancestor. Resolving by keeping the most recently modified version."@,
        ) + text_if(
            tie && has_base && we_differ && they_differ,
            "Entry "@ + ids::hyphenated(e.0.0)
                + " was modified in both databases at the same timestamp since the common ancestor. Resolving by keeping the destination copy."@,
        )),
        events: p.log.events,
    };
    let opened = LogModel {
        warnings: settled.warnings + (text_if(
            blended && theirs.history is None,
            "Source entry "@ + ids::hyphenated(e.0.0) + " had no history."@,
        ) + text_if(
            blended && ours.history is None,
            "Destination entry "@ + ids::hyphenated(e.0.0) + " had no history."@,
        )),
        events: p.log.events,
    };
    lemma_entry_steps(p, source, base, now, e);
    lemma_blended_log(p.db, told, source, e, taken);
    lemma_six_texts(
        p.log,
        theirs.times.last_modification is None,
        entries::about("Source entry "@, e, " did not have a last modification timestamp"@),
        ours.times.last_modification is None,
        entries::about("Destination entry "@, e, " did not have a last modification timestamp"@),
        conflict,
        "Entry "@ + ids::hyphenated(e.0.0)
            + " was modified in both databases since the common ancestor. Resolving by keeping the most recently modified version."@,
        stalemate,
        "Entry "@ + ids::hyphenated(e.0.0)
            + " was modified in both databases at the same timestamp since the common ancestor. Resolving by keeping the destination copy."@,
        blended && theirs.history is None,
        entries::about("Source entry "@, e, " had no history."@),
        blended && ours.history is None,
        entries::about("Destination entry "@, e, " had no history."@),
    );
    if blended {
        assert(opened == told.warned_if(
            theirs.history is None,
            entries::about("Source entry "@, e, " had no history."@),
        ).warned_if(
            ours.history is None,
            entries::about("Destination entry "@, e, " had no history."@),
        ));
    } else {
        assert(opened == told);
    }
}

/// The source's version of an entry is taken, field by field, exactly if it is newer and changed
/// since the common ancestor, or if it is of the same time and the source alone differs from the
/// ancestor; otherwise the destination's fields stay. Identifier, place and the other timestamps
/// stay either way, and the time of the last move is taken over only where there was none. No other
/// entry changes, and no group.
pub proof fn settling_an_entry_takes_the_fields(
    p: Progress,
    source: DatabaseModel,
    base: DatabaseModel,
    now: Timestamp,
    e: EntryId,
)
    requires
        p.db.entries.contains_key(e),
        source.entries.contains_key(e),
    ensures
        ({
            let after = entries::entry_settled(p, source, base, now, e);
            let ours = p.db.entries[e];
            let theirs = source.entries[e];
            let our_time = known_or(ours.times.last_modification, now);
            let their_time = known_or(theirs.times.last_modification, Times::spec_epoch());
            let has_base = base.entries.contains_key(e);
            let origin = base.entries[e];
            let origin_time = origin.times.last_modification;
            let dated_base = has_base && origin_time is Some;
            let same = remap::equivalent(
                ours,
                p.db.attachments,
                theirs,
                source.attachments,
            );
            let tie = our_time == their_time && !same;
            let we_differ = !remap::equivalent(
                ours,
                p.db.attachments,
                origin,
                base.attachments,
            );
            let they_differ = !remap::equivalent(
                theirs,
                source.attachments,
                origin,
                base.attachments,
            );
            let blended = if our_time == their_time {
                tie && has_base
            } else {
                dated_base ==> origin_time->0.before(their_time)
            };
            let taken = blended && if our_time == their_time {
                they_differ && !we_differ
            } else {
                our_time.before(their_time)
            };
            let entry = after.db.entries[e];
            &&& taken ==> {
                &&& entry.fields == theirs.fields
                &&& entry.autotype == theirs.autotype
                &&& entry.tags == theirs.tags
                &&& entry.custom_data == theirs.custom_data
                &&& entry.icon == theirs.icon
                &&& entry.foreground_color == theirs.foreground_color
                &&& entry.background_color == theirs.background_color
                &&& entry.override_url == theirs.override_url
                &&& entry.quality_check == theirs.quality_check
                &&& entry.times.last_modification == theirs.times.last_modification
            }
            &&& !taken ==> {
                &&& entry.fields == ours.fields
                &&& entry.autotype == ours.autotype
                &&& entry.tags == ours.tags
                &&& entry.custom_data == ours.custom_data
                &&& entry.icon == ours.icon
                &&& entry.foreground_color == ours.foreground_color
                &&& entry.background_color == ours.background_color
                &&& entry.override_url == ours.override_url
                &&& entry.quality_check == ours.quality_check
                &&& entry.attachments == ours.attachments
                &&& entry.times.last_modification == ours.times.last_modification
            }
            &&& blended ==> {
                let our_versions = if ours.history is Some {
                    ours.history->0
                } else {
                    Seq::empty()
                };
                let their_versions = if theirs.history is Some {
                    theirs.history->0
                } else {
                    Seq::empty()
                };
                let merged = history::history_merged(
                    our_versions,
                    their_versions,
                    source.attachments,
                    p.db.attachments,
                );
                let pool = history::all_carried(
                    their_versions,
                    source.attachments,
                    p.db.attachments,
                ).1;
                let (incoming, larger) = remap::entry_remapped(
                    EntryModel { history: None, ..theirs },
                    source.attachments,
                    pool,
                );
                if taken {
                    &&& entry.history == Some(entries::archived(merged, ours, pool))
                    &&& entry.attachments == incoming.attachments
                    &&& after.db.attachments == larger
                } else {
                    &&& entry.history == Some(merged)
                    &&& after.db.attachments == pool
                }
            }
            &&& !blended ==> after.db == p.db
            &&& entry.id == ours.id
            &&& entry.parent == ours.parent
            &&& entry.previous_parent_group == ours.previous_parent_group
            &&& entry.times.creation == ours.times.creation
            &&& entry.times.last_access == ours.times.last_access
            &&& entry.times.expiry == ours.times.expiry
            &&& entry.times.expires == ours.times.expires
            &&& entry.times.usage_count == ours.times.usage_count
            &&& entry.times.location_changed == if blended && ours.times.location_changed is None {
                theirs.times.location_changed
            } else {
                ours.times.location_changed
            }
            &&& after.db.entries.dom() =~= p.db.entries.dom()
            &&& after.db.entries.remove(e) =~= p.db.entries.remove(e)
            &&& after.db == (DatabaseModel {
                entries: after.db.entries,
                attachments: after.db.attachments,
                ..p.db
            })
        }),
{
    broadcast use Timestamp::numbers_decide;

}

/// What comes of an icon that both sides have, and what is reported of it. A missing modification
/// time is warned of and counts as the start of the epoch. The newest side wins, but a source that
/// did not change since the common ancestor has no say. Of the same time and different, the
/// source's is taken if the destination's is as in the ancestor; if neither side is, that is warned
/// of. Changes on both sides to different icons are warned of.
pub proof fn common_icon_is_reported(
    dest: DatabaseModel,
    source: DatabaseModel,
    base: DatabaseModel,
    i: CustomIconId,
    log: LogModel,
)
    requires
        dest.custom_icons.contains_key(i),
        source.custom_icons.contains_key(i),
    ensures
        ({
            let after = icons::common_log(dest, source, base, i, log);
            let merged = icons::icons_merged(dest, source, base).custom_icons;
            let ours = dest.custom_icons[i];
            let theirs = source.custom_icons[i];
            let our_time = known_or(ours.last_modification_time, Times::spec_epoch());
            let their_time = known_or(theirs.last_modification_time, Times::spec_epoch());
            let has_base = base.custom_icons.contains_key(i);
            let origin = base.custom_icons[i];
            let origin_time = origin.last_modification_time;
            let dated_base = has_base && origin_time is Some;
            let taken = if our_time == their_time {
                ours != theirs && has_base && ours == origin
            } else {
                our_time.before(their_time) && (dated_base ==> origin_time->0.before(their_time))
            };
            &&& merged.contains_key(i)
            &&& merged[i] == if taken {
                theirs
            } else {
                ours
            }
            &&& grew(
                log,
                after,
                text_if(
                    ours.last_modification_time is None,
                    "Destination custom icon "@ + ids::hyphenated(i.0.0)
                        + " did not have a last modification timestamp"@,
                ) + text_if(
                    theirs.last_modification_time is None,
                    "Source custom icon "@ + ids::hyphenated(i.0.0)
                        + " did not have a last modification timestamp"@,
                ) + text_if(
                    our_time == their_time && ours != theirs && !(has_base && ours == origin)
                        && !(has_base && theirs == origin),
                    "Custom icons with UUID "@ + ids::hyphenated(i.0.0)
                        + " have the same modification time but have diverged."@,
                ) + text_if(
                    our_time != their_time && ours != theirs && dated_base && origin_time->0.before(
                        our_time,
                    ) && origin_time->0.before(their_time),
                    "Custom icon "@ + ids::hyphenated(i.0.0)
                        + " was modified in both databases since the common ancestor. Resolving by keeping the most recently modified version."@,
                ),
                event_if(taken, MergeEventTarget::Icon(i), MergeEventType::Updated),
            )
        }),
{
    broadcast use Timestamp::numbers_decide;

    let ours = dest.custom_icons[i];
    let theirs = source.custom_icons[i];
    lemma_two_texts(
        log,
        ours.last_modification_time is None,
        icons::destination_undated(i),
        theirs.last_modification_time is None,
        icons::source_undated(i),
    );
    let first = log.warned_if(
        ours.last_modification_time is None,
        icons::destination_undated(i),
    ).warned_if(theirs.last_modification_time is None, icons::source_undated(i));
    let undecided = icons::undecided(ours, theirs, base.custom_icons, i);
    let conflict = icons::in_conflict(ours, theirs, base.custom_icons, i);
    lemma_two_texts(first, undecided, icons::diverged(i), conflict, icons::modified_in_both(i));
    lemma_joined(
        log.warnings,
        text_if(ours.last_modification_time is None, icons::destination_undated(i)) + text_if(
            theirs.last_modification_time is None,
            icons::source_undated(i),
        ),
        text_if(undecided, icons::diverged(i)),
        text_if(conflict, icons::modified_in_both(i)),
    );
}

/// An icon that only the source has is taken over and reported, unless the destination deleted it:
/// then only if it was modified after that. A deletion of what was modified since the common
/// ancestor is warned of.
pub proof fn offered_icon_is_reported(
    dest: DatabaseModel,
    source: DatabaseModel,
    base: DatabaseModel,
    i: CustomIconId,
    log: LogModel,
)
    requires
        !dest.custom_icons.contains_key(i),
        source.custom_icons.contains_key(i),
    ensures
        ({
            let after = icons::offered_log(dest, source, base, i, log);
            let merged = icons::icons_merged(dest, source, base);
            let theirs = source.custom_icons[i];
            let deleted = dest.deleted_objects.contains_key(i.0);
            let deletion = dest.deleted_objects[i.0];
            let update = theirs.last_modification_time;
            let wanted = !deleted || update is Some && (deletion is Some ==> deletion->0.before(
                update->0,
            ));
            &&& merged.custom_icons.contains_key(i) == wanted
            &&& wanted ==> merged.custom_icons[i] == theirs
            &&& grew(
                log,
                after,
                text_if(
                    deleted && base.custom_icons.contains_key(i) && theirs != base.custom_icons[i],
                    "Custom icon "@ + ids::hyphenated(i.0.0)
                        + " was deleted in the destination but modified in the source since the common ancestor."@,
                ),
                event_if(wanted, MergeEventTarget::Icon(i), MergeEventType::Created),
            )
        }),
{
}

/// An icon that only the destination has and that the source deleted at its last modification or
/// later is removed, and reported; the deletion is taken over with its time. One that was modified
/// since the common ancestor though the source deleted it is warned of. No other deletion changes.
pub proof fn missing_icon_is_reported(
    dest: DatabaseModel,
    source: DatabaseModel,
    base: DatabaseModel,
    i: CustomIconId,
    log: LogModel,
)
    requires
        dest.custom_icons.contains_key(i),
        !source.custom_icons.contains_key(i),
    ensures
        ({
            let after = icons::missing_log(dest, source, base, i, log);
            let merged = icons::icons_merged(dest, source, base);
            let ours = dest.custom_icons[i];
            let deleted = source.deleted_objects.contains_key(i.0);
            let deletion = source.deleted_objects[i.0];
            let update = ours.last_modification_time;
            let gone = deleted && !(deletion is Some && update is Some && deletion->0.before(
                update->0,
            ));
            &&& merged.custom_icons.contains_key(i) == !gone
            &&& !gone ==> merged.custom_icons[i] == ours
            &&& gone ==> merged.deleted_objects.contains_key(i.0) && merged.deleted_objects[i.0]
                == deletion
            &&& !gone ==> merged.deleted_objects.contains_key(i.0)
                == dest.deleted_objects.contains_key(i.0)
            &&& !gone && dest.deleted_objects.contains_key(i.0) ==> merged.deleted_objects[i.0]
                == dest.deleted_objects[i.0]
            &&& grew(
                log,
                after,
                text_if(
                    deleted && base.custom_icons.contains_key(i) && ours != base.custom_icons[i],
                    "Custom icon "@ + ids::hyphenated(i.0.0)
                        + " was modified in the destination but deleted in the source since the common ancestor."@,
                ),
                event_if(gone, MergeEventTarget::Icon(i), MergeEventType::Deleted),
            )
        }),
{
    assert(CustomIconId(i.0) == i);
}

/// The merging of icons changes nothing but icons and their deletions.
pub proof fn merging_icons_keeps_the_rest(
    dest: DatabaseModel,
    source: DatabaseModel,
    base: DatabaseModel,
    i: CustomIconId,
    object: Uuid,
)
    ensures
        ({
            let after = icons::icons_merged(dest, source, base);
            &&& !dest.custom_icons.contains_key(i) && !source.custom_icons.contains_key(i)
                ==> !after.custom_icons.contains_key(i)
            &&& !dest.custom_icons.contains_key(CustomIconId(object)) ==> {
                &&& after.deleted_objects.contains_key(object)
                    == dest.deleted_objects.contains_key(object)
                &&& dest.deleted_objects.contains_key(object) ==> after.deleted_objects[object]
                    == dest.deleted_objects[object]
            }
            &&& after.config == dest.config
            &&& after.meta == dest.meta
            &&& after.root == dest.root
            &&& after.attachments == dest.attachments
            &&& after.entries == dest.entries
            &&& after.groups == dest.groups
        }),
{
}

/// A merge gives each icon that both sides have, and whose modification times differ, as the newest
/// side has it; what the common ancestor had already is no change.
pub proof fn merge_gives_the_newest_icons(
    dest: DatabaseModel,
    source: DatabaseModel,
    base: DatabaseModel,
    now: Timestamp,
    i: CustomIconId,
)
    requires
        dest.finite(),
        source.finite(),
        source.wf(),
        dest.custom_icons.contains_key(i),
        source.custom_icons.contains_key(i),
        dest.custom_icons[i].last_modification_time is Some,
        source.custom_icons[i].last_modification_time is Some,
        dest.custom_icons[i].last_modification_time != source.custom_icons[i].last_modification_time,
    ensures
        ({
            let after = merge::merged(dest, source, base, now).db.custom_icons;
            let ours = dest.custom_icons[i];
            let theirs = source.custom_icons[i];
            let winner = if ours.last_modification_time->0.before(theirs.last_modification_time->0)
                && !(base.custom_icons.contains_key(i)
                && base.custom_icons[i].last_modification_time is Some
                && !base.custom_icons[i].last_modification_time->0.before(
                theirs.last_modification_time->0,
            )) {
                theirs
            } else {
                ours
            };
            &&& after.contains_key(i)
            &&& after[i].id == winner.id
            &&& after[i].name == winner.name
            &&& after[i].data == winner.data
            &&& after[i].groups == winner.groups
            &&& after[i].last_modification_time == winner.last_modification_time
        }),
{
    merging::merge_settles_the_icons(dest, source, base, now);
    common_icon_is_reported(dest, source, base, i, LogModel::blank());
}

} // verus!
