//! What the log of a merge says: every change that a merge makes is reported.

use vstd::prelude::*;
use crate::database::DatabaseModel;
use crate::entry::EntryModel;
use crate::group::GroupModel;
use crate::ids;
use crate::ids::CustomIconId;
use crate::ids::EntryId;
use crate::ids::GroupId;
use crate::ids::Uuid;
use crate::laws::chronicle;
use crate::laws::fields;
use crate::laws::gathering;
use crate::laws::merging;
use crate::laws::outcome;
use crate::laws::reports;
use crate::laws::reports::extends;
use crate::laws::reports::known_or;
use crate::laws::underway;
use crate::merge;
use crate::merge::entries;
use crate::merge::entries::Progress;
use crate::merge::groups;
use crate::merge::groups::Regrouping;
use crate::merge::history;
use crate::merge::icons;
use crate::merge::log::LogModel;
use crate::merge::log::MergeEvent;
use crate::merge::log::MergeEventTarget;
use crate::merge::log::MergeEventType;
use crate::order;
use crate::remap;
use crate::times::Times;
use crate::times::Timestamp;
use crate::tree;

verus! {

/// Whether a log holds an event.
pub open spec fn reported(
    log: LogModel,
    target: MergeEventTarget,
    event_type: MergeEventType,
) -> bool {
    log.events.contains(MergeEvent { target, event_type })
}

/// Whether two entries agree on everything that a merge takes over from the source but for
/// attachments.
pub open spec fn same_entry(a: EntryModel, b: EntryModel) -> bool {
    &&& a.fields == b.fields
    &&& a.autotype == b.autotype
    &&& a.tags == b.tags
    &&& a.custom_data == b.custom_data
    &&& a.icon == b.icon
    &&& a.foreground_color == b.foreground_color
    &&& a.background_color == b.background_color
    &&& a.override_url == b.override_url
    &&& a.quality_check == b.quality_check
}

/// Whether two groups agree on everything that a merge takes over from the source but for the
/// entry that is shown at the top.
pub open spec fn same_group(a: GroupModel, b: GroupModel) -> bool {
    &&& a.name == b.name
    &&& a.notes == b.notes
    &&& a.icon == b.icon
    &&& a.custom_data == b.custom_data
    &&& a.is_expanded == b.is_expanded
    &&& a.default_autotype_sequence == b.default_autotype_sequence
    &&& a.enable_autotype == b.enable_autotype
    &&& a.enable_searching == b.enable_searching
}

/// What a log holds stays there when it grows.
proof fn lemma_extends(a: LogModel, b: LogModel, c: LogModel)
    requires
        extends(a, b),
        extends(b, c),
    ensures
        extends(a, c),
        forall|event: MergeEvent| #[trigger] a.events.contains(event) ==> b.events.contains(event),
        forall|event: MergeEvent| #[trigger] b.events.contains(event) ==> c.events.contains(event),
        forall|text: Seq<char>| #[trigger]
            a.warnings.contains(text) ==> b.warnings.contains(text),
        forall|text: Seq<char>| #[trigger]
            b.warnings.contains(text) ==> c.warnings.contains(text),
{
    assert forall|event: MergeEvent| #[trigger] a.events.contains(event) implies b.events.contains(
        event,
    ) by {
        let n = choose|n: int| 0 <= n < a.events.len() && a.events[n] == event;
        assert(b.events[n] == event);
    }
    assert forall|event: MergeEvent| #[trigger] b.events.contains(event) implies c.events.contains(
        event,
    ) by {
        let n = choose|n: int| 0 <= n < b.events.len() && b.events[n] == event;
        assert(c.events[n] == event);
    }
    assert forall|text: Seq<char>| #[trigger] a.warnings.contains(text) implies b.warnings.contains(
        text,
    ) by {
        let n = choose|n: int| 0 <= n < a.warnings.len() && a.warnings[n] == text;
        assert(b.warnings[n] == text);
    }
    assert forall|text: Seq<char>| #[trigger] b.warnings.contains(text) implies c.warnings.contains(
        text,
    ) by {
        let n = choose|n: int| 0 <= n < b.warnings.len() && b.warnings[n] == text;
        assert(c.warnings[n] == text);
    }
}

/// A log with one more event holds it.
proof fn lemma_noted(log: LogModel, target: MergeEventTarget, event_type: MergeEventType)
    ensures
        reported(log.noted(target, event_type), target, event_type),
        extends(log, log.noted(target, event_type)),
{
    let after = log.noted(target, event_type);
    assert(after.events[log.events.len() as int] == (MergeEvent { target, event_type }));
}

/// Whether a listing holds what a shorter one does, and one more.
proof fn lemma_one_more<K>(listed: Seq<K>, x: K)
    requires
        listed.len() > 0,
    ensures
        listed.contains(x) <==> listed.drop_last().contains(x) || x == listed.last(),
{
    let shorter = listed.drop_last();
    if listed.contains(x) && x != listed.last() {
        let n = choose|n: int| 0 <= n < listed.len() && listed[n] == x;
        assert(shorter[n] == x);
    }
    if shorter.contains(x) {
        let n = choose|n: int| 0 <= n < shorter.len() && shorter[n] == x;
        assert(listed[n] == x);
    }
    if x == listed.last() {
        assert(listed[listed.len() - 1] == x);
    }
}

/// Each group that is created on the way to another is reported.
proof fn lemma_chain(p: Progress, dest: DatabaseModel, source: DatabaseModel, g: GroupId, n: nat)
    requires
        source.wf(),
        gathering::bare(p.db).wf(),
        gathering::groups_from(p.db.groups, dest, source),
        forall|x: GroupId| #[trigger] dest.groups.contains_key(x) ==> p.db.groups.contains_key(x),
        source.groups.contains_key(g),
        groups::is_gap(p.db.groups, source.groups, g, n),
    ensures
        ({
            let after = groups::chain_created(p, source, g, n);
            &&& extends(p.log, after.log)
            &&& forall|x: GroupId| #[trigger]
                after.db.groups.contains_key(x) && !p.db.groups.contains_key(x) ==> reported(
                    after.log,
                    MergeEventTarget::Group(x),
                    MergeEventType::Created,
                )
        }),
    decreases n,
{
    assert(tree::ancestor(source.groups, g, 0) == Some(g));
    assert(crate::database::group_placed(source.groups, source.root, g));
    if n > 0 {
        assert(!groups::reaches(p.db.groups, source.groups, g, 0));
        assert(groups::connected(p.db.groups, source.groups, g));
        groups::lemma_gap_of_parent(p.db.groups, source.groups, g);
        let parent = source.groups[g].parent->0;
        groups::lemma_gap(p.db.groups, source.groups, parent);
        groups::lemma_gap(p.db.groups, source.groups, g);
        groups::lemma_gap_is(p.db.groups, source.groups, g, n);
        lemma_chain(p, dest, source, parent, (n - 1) as nat);
        gathering::lemma_chain(p, dest, source, parent, (n - 1) as nat);
        let up = groups::chain_created(p, source, parent, (n - 1) as nat);
        let after = groups::chain_created(p, source, g, n);
        assert(after.db.groups.dom() =~= up.db.groups.dom().insert(g));
        lemma_noted(up.log, MergeEventTarget::Group(g), MergeEventType::Created);
        lemma_extends(p.log, up.log, after.log);
        assert forall|x: GroupId| #[trigger]
            after.db.groups.contains_key(x) && !p.db.groups.contains_key(x) implies reported(
            after.log,
            MergeEventTarget::Group(x),
            MergeEventType::Created,
        ) by {
            assert(after.db.groups.dom().contains(x));
            if x != g {
                assert(up.db.groups.contains_key(x));
            }
        }
    }
}

/// Each group that is created is reported.
proof fn lemma_restored(
    p: Progress,
    dest: DatabaseModel,
    source: DatabaseModel,
    listed: Seq<GroupId>,
)
    requires
        source.wf(),
        gathering::bare(p.db).wf(),
        gathering::groups_from(p.db.groups, dest, source),
        forall|x: GroupId| #[trigger] dest.groups.contains_key(x) ==> p.db.groups.contains_key(x),
        forall|i: int|
            0 <= i < listed.len() ==> source.groups.contains_key(#[trigger] listed[i])
                && groups::connected(p.db.groups, source.groups, listed[i]),
    ensures
        ({
            let after = groups::all_restored(p, source, listed);
            &&& extends(p.log, after.log)
            &&& forall|x: GroupId| #[trigger]
                after.db.groups.contains_key(x) && !p.db.groups.contains_key(x) ==> reported(
                    after.log,
                    MergeEventTarget::Group(x),
                    MergeEventType::Created,
                )
        }),
    decreases listed.len(),
{
    if listed.len() > 0 {
        let shorter = listed.drop_last();
        let g = listed[listed.len() - 1];
        assert(source.groups.contains_key(g));
        assert forall|i: int| 0 <= i < shorter.len() implies source.groups.contains_key(
            #[trigger] shorter[i],
        ) && groups::connected(p.db.groups, source.groups, shorter[i]) by {
            assert(shorter[i] == listed[i]);
            assert(source.groups.contains_key(listed[i]));
        }
        lemma_restored(p, dest, source, shorter);
        gathering::lemma_restored(p, dest, source, shorter);
        let before = groups::all_restored(p, source, shorter);
        let n = choose|n: nat| #[trigger] groups::reaches(p.db.groups, source.groups, g, n);
        assert(groups::reaches(before.db.groups, source.groups, g, n));
        groups::lemma_gap(before.db.groups, source.groups, g);
        let m = groups::gap(before.db.groups, source.groups, g);
        lemma_chain(before, dest, source, g, m);
        let after = groups::all_restored(p, source, listed);
        lemma_extends(p.log, before.log, after.log);
        assert forall|x: GroupId| #[trigger]
            after.db.groups.contains_key(x) && !p.db.groups.contains_key(x) implies reported(
            after.log,
            MergeEventTarget::Group(x),
            MergeEventType::Created,
        ) by {
            if before.db.groups.contains_key(x) {
                assert(reported(
                    before.log,
                    MergeEventTarget::Group(x),
                    MergeEventType::Created,
                ));
            }
        }
    }
}

/// The log grows when groups are offered, and each that was deleted but modified is warned of.
proof fn lemma_offers(
    log: LogModel,
    dest: DatabaseModel,
    source: DatabaseModel,
    base: DatabaseModel,
    listed: Seq<GroupId>,
)
    ensures
        ({
            let after = groups::offers_logged(log, dest.deleted_objects, source, base, listed);
            &&& extends(log, after)
            &&& forall|g: GroupId| #[trigger]
                listed.contains(g) && dest.deleted_objects.contains_key(g.0)
                    && base.groups.contains_key(g) && !same_group(source.groups[g], base.groups[g])
                    ==> after.warnings.contains(
                    "Group "@ + ids::hyphenated(g.0.0)
                        + " was deleted in the destination but modified in the source since the common ancestor."@,
                )
        }),
    decreases listed.len(),
{
    if listed.len() > 0 {
        let shorter = listed.drop_last();
        lemma_offers(log, dest, source, base, shorter);
        let before = groups::offers_logged(log, dest.deleted_objects, source, base, shorter);
        let after = groups::offers_logged(log, dest.deleted_objects, source, base, listed);
        lemma_extends(log, before, after);
        assert forall|g: GroupId| #[trigger]
            listed.contains(g) && dest.deleted_objects.contains_key(g.0)
                && base.groups.contains_key(g) && !same_group(
                source.groups[g],
                base.groups[g],
            ) implies after.warnings.contains(
            "Group "@ + ids::hyphenated(g.0.0)
                + " was deleted in the destination but modified in the source since the common ancestor."@,
        ) by {
            lemma_one_more(listed, g);
            if g == listed.last() {
                fields::groups_diverge_exactly_in_their_fields(source.groups[g], base.groups[g]);
                assert(after.warnings[before.warnings.len() as int] == groups::about(
                    "Group "@,
                    g,
                    " was deleted in the destination but modified in the source since the common ancestor."@,
                ));
            } else {
                assert(shorter.contains(g));
            }
        }
    }
}

/// Each deletion of a group that is taken over is reported.
proof fn lemma_groups_missing(
    p: Progress,
    source: DatabaseModel,
    base: DatabaseModel,
    listed: Seq<GroupId>,
)
    ensures
        ({
            let after = groups::all_missing(p, source, base, listed);
            &&& extends(p.log, after.log)
            &&& forall|object: Uuid| #[trigger]
                after.db.deleted_objects.contains_key(object) && !p.db.deleted_objects.contains_key(
                    object,
                ) ==> reported(
                    after.log,
                    MergeEventTarget::Group(GroupId(object)),
                    MergeEventType::Deleted,
                )
            &&& forall|g: GroupId| #[trigger]
                listed.contains(g) && source.deleted_objects.contains_key(g.0)
                    && base.groups.contains_key(g) && !same_group(p.db.groups[g], base.groups[g])
                    ==> after.log.warnings.contains(
                    "Group "@ + ids::hyphenated(g.0.0)
                        + " was modified in the destination but deleted in the source since the common ancestor."@,
                )
        }),
    decreases listed.len(),
{
    if listed.len() > 0 {
        let shorter = listed.drop_last();
        let g = listed.last();
        lemma_groups_missing(p, source, base, shorter);
        merging::lemma_groups_missing(p, source, base, shorter);
        let before = groups::all_missing(p, source, base, shorter);
        let after = groups::all_missing(p, source, base, listed);
        assert(extends(before.log, after.log));
        lemma_extends(p.log, before.log, after.log);
        if groups::group_buried(before.db.groups, before.db.entries, source, g) {
            assert(after.log.events[before.log.events.len() as int] == (MergeEvent {
                target: MergeEventTarget::Group(g),
                event_type: MergeEventType::Deleted,
            }));
        }
        assert forall|object: Uuid| #[trigger]
            after.db.deleted_objects.contains_key(object) && !p.db.deleted_objects.contains_key(
                object,
            ) implies reported(
            after.log,
            MergeEventTarget::Group(GroupId(object)),
            MergeEventType::Deleted,
        ) by {
            if before.db.deleted_objects.contains_key(object) {
                assert(reported(
                    before.log,
                    MergeEventTarget::Group(GroupId(object)),
                    MergeEventType::Deleted,
                ));
            } else {
                assert(GroupId(object) == g);
            }
        }
        assert forall|x: GroupId| #[trigger]
            listed.contains(x) && source.deleted_objects.contains_key(x.0)
                && base.groups.contains_key(x) && !same_group(
                p.db.groups[x],
                base.groups[x],
            ) implies after.log.warnings.contains(
            "Group "@ + ids::hyphenated(x.0.0)
                + " was modified in the destination but deleted in the source since the common ancestor."@,
        ) by {
            lemma_one_more(listed, x);
            if x == g {
                fields::groups_diverge_exactly_in_their_fields(p.db.groups[x], base.groups[x]);
                assert(after.log.warnings[before.log.warnings.len() as int] == groups::about(
                    "Group "@,
                    x,
                    " was modified in the destination but deleted in the source since the common ancestor."@,
                ));
            } else {
                assert(shorter.contains(x));
            }
        }
    }
}

/// Each entry that is created is reported.
proof fn lemma_offered(
    p: Progress,
    source: DatabaseModel,
    base: DatabaseModel,
    listed: Seq<EntryId>,
)
    requires
        forall|e: EntryId| #[trigger]
            source.entries.contains_key(e) ==> source.entries[e].id == e,
        forall|i: int| 0 <= i < listed.len() ==> source.entries.contains_key(#[trigger] listed[i]),
    ensures
        ({
            let after = entries::all_offered(p, source, base, listed);
            &&& extends(p.log, after.log)
            &&& forall|e: EntryId| #[trigger]
                after.db.entries.contains_key(e) && !p.db.entries.contains_key(e) ==> reported(
                    after.log,
                    MergeEventTarget::Entry(e),
                    MergeEventType::Created,
                )
            &&& forall|e: EntryId| #[trigger]
                listed.contains(e) && p.db.deleted_objects.contains_key(e.0)
                    && base.entries.contains_key(e) && !same_entry(
                    source.entries[e],
                    base.entries[e],
                ) ==> after.log.warnings.contains(
                    "Entry "@ + ids::hyphenated(e.0.0)
                        + " was deleted in the destination but modified in the source since the common ancestor."@,
                )
        }),
    decreases listed.len(),
{
    if listed.len() > 0 {
        let shorter = listed.drop_last();
        let x = listed.last();
        assert(listed[listed.len() - 1] == x);
        assert forall|i: int| 0 <= i < shorter.len() implies source.entries.contains_key(
            #[trigger] shorter[i],
        ) by {
            assert(shorter[i] == listed[i]);
        }
        lemma_offered(p, source, base, shorter);
        merging::lemma_offered(p, source, base, shorter);
        let before = entries::all_offered(p, source, base, shorter);
        let after = entries::all_offered(p, source, base, listed);
        reveal(entries::entry_offered);
        assert(extends(before.log, after.log));
        lemma_extends(p.log, before.log, after.log);
        let carried = remap::entry_remapped(
            source.entries[x],
            source.attachments,
            before.db.attachments,
        ).0;
        assert(carried.id == x);
        assert forall|e: EntryId| #[trigger]
            after.db.entries.contains_key(e) && !p.db.entries.contains_key(e) implies reported(
            after.log,
            MergeEventTarget::Entry(e),
            MergeEventType::Created,
        ) by {
            if before.db.entries.contains_key(e) {
                assert(reported(
                    before.log,
                    MergeEventTarget::Entry(e),
                    MergeEventType::Created,
                ));
            } else {
                assert(e == x);
                assert(after.log.events[before.log.events.len() as int] == (MergeEvent {
                    target: MergeEventTarget::Entry(e),
                    event_type: MergeEventType::Created,
                }));
            }
        }
        assert forall|e: EntryId| #[trigger]
            listed.contains(e) && p.db.deleted_objects.contains_key(e.0)
                && base.entries.contains_key(e) && !same_entry(
                source.entries[e],
                base.entries[e],
            ) implies after.log.warnings.contains(
            "Entry "@ + ids::hyphenated(e.0.0)
                + " was deleted in the destination but modified in the source since the common ancestor."@,
        ) by {
            lemma_one_more(listed, e);
            if e == x {
                fields::entries_are_equivalent_exactly_in_their_fields(
                    source.entries[e],
                    source.attachments,
                    base.entries[e],
                    base.attachments,
                );
                assert(after.log.warnings[before.log.warnings.len() as int] == entries::about(
                    "Entry "@,
                    e,
                    " was deleted in the destination but modified in the source since the common ancestor."@,
                ));
            } else {
                assert(shorter.contains(e));
            }
        }
    }
}

/// Each entry that is deleted is reported, and each deletion that is taken over.
proof fn lemma_missing(
    p: Progress,
    source: DatabaseModel,
    base: DatabaseModel,
    listed: Seq<EntryId>,
)
    requires
        listed.no_duplicates(),
    ensures
        ({
            let after = entries::all_missing(p, source, base, listed);
            &&& extends(p.log, after.log)
            &&& forall|e: EntryId| #[trigger]
                p.db.entries.contains_key(e) && !after.db.entries.contains_key(e) ==> reported(
                    after.log,
                    MergeEventTarget::Entry(e),
                    MergeEventType::Deleted,
                )
            &&& forall|object: Uuid| #[trigger]
                after.db.deleted_objects.contains_key(object) && !p.db.deleted_objects.contains_key(
                    object,
                ) ==> reported(
                    after.log,
                    MergeEventTarget::Entry(EntryId(object)),
                    MergeEventType::Deleted,
                )
            &&& forall|e: EntryId| #[trigger]
                listed.contains(e) && p.db.entries.contains_key(e)
                    && source.deleted_objects.contains_key(e.0) && base.entries.contains_key(e)
                    && !same_entry(p.db.entries[e], base.entries[e])
                    ==> after.log.warnings.contains(
                    "Entry "@ + ids::hyphenated(e.0.0)
                        + " was modified in the destination but deleted in the source since the common ancestor."@,
                )
        }),
    decreases listed.len(),
{
    if listed.len() > 0 {
        let shorter = listed.drop_last();
        let x = listed.last();
        assert(!shorter.contains(x)) by {
            if shorter.contains(x) {
                let n = choose|n: int| 0 <= n < shorter.len() && shorter[n] == x;
                assert(listed[n] == listed[listed.len() - 1]);
            }
        }
        lemma_missing(p, source, base, shorter);
        merging::lemma_missing(p, source, base, shorter);
        let before = entries::all_missing(p, source, base, shorter);
        let after = entries::all_missing(p, source, base, listed);
        reveal(entries::entry_missing);
        let gone = Set::<EntryId>::empty().insert(x);
        assert forall|e: EntryId| #[trigger] gone.contains(e) <==> e == x by {}
        assert(extends(before.log, after.log));
        lemma_extends(p.log, before.log, after.log);
        if crate::merge::rules::buried(
            source.deleted_objects,
            x.0,
            before.db.entries[x].times.updated(),
        ) {
            assert(after.log.events[before.log.events.len() as int] == (MergeEvent {
                target: MergeEventTarget::Entry(x),
                event_type: MergeEventType::Deleted,
            }));
        }
        assert forall|e: EntryId| #[trigger]
            p.db.entries.contains_key(e) && !after.db.entries.contains_key(e) implies reported(
            after.log,
            MergeEventTarget::Entry(e),
            MergeEventType::Deleted,
        ) by {
            if !before.db.entries.contains_key(e) {
                assert(reported(
                    before.log,
                    MergeEventTarget::Entry(e),
                    MergeEventType::Deleted,
                ));
            }
        }
        assert forall|object: Uuid| #[trigger]
            after.db.deleted_objects.contains_key(object) && !p.db.deleted_objects.contains_key(
                object,
            ) implies reported(
            after.log,
            MergeEventTarget::Entry(EntryId(object)),
            MergeEventType::Deleted,
        ) by {
            if before.db.deleted_objects.contains_key(object) {
                assert(reported(
                    before.log,
                    MergeEventTarget::Entry(EntryId(object)),
                    MergeEventType::Deleted,
                ));
            } else {
                assert(EntryId(object) == x);
            }
        }
        assert forall|e: EntryId| #[trigger]
            listed.contains(e) && p.db.entries.contains_key(e)
                && source.deleted_objects.contains_key(e.0) && base.entries.contains_key(e)
                && !same_entry(
                p.db.entries[e],
                base.entries[e],
            ) implies after.log.warnings.contains(
            "Entry "@ + ids::hyphenated(e.0.0)
                + " was modified in the destination but deleted in the source since the common ancestor."@,
        ) by {
            lemma_one_more(listed, e);
            if e == x {
                assert(before.db.entries[e] == p.db.entries[e]);
                fields::entries_are_equivalent_exactly_in_their_fields(
                    p.db.entries[e],
                    before.db.attachments,
                    base.entries[e],
                    base.attachments,
                );
                assert(after.log.warnings[before.log.warnings.len() as int] == entries::about(
                    "Entry "@,
                    e,
                    " was modified in the destination but deleted in the source since the common ancestor."@,
                ));
            } else {
                assert(shorter.contains(e));
            }
        }
    }
}

/// Whether both sides changed an entry since the common ancestor, at different times and to
/// different fields.
pub open spec fn entry_conflict(
    ours: EntryModel,
    theirs: EntryModel,
    base: DatabaseModel,
    e: EntryId,
) -> bool {
    let our_time = ours.times.last_modification;
    let their_time = theirs.times.last_modification;
    let base_time = base.entries[e].times.last_modification;
    &&& our_time is Some
    &&& their_time is Some
    &&& our_time != their_time
    &&& base.entries.contains_key(e)
    &&& base_time is Some
    &&& base_time->0.before(our_time->0)
    &&& base_time->0.before(their_time->0)
    &&& !same_entry(ours, theirs)
}

/// The warning that both sides changed an entry.
pub open spec fn entry_conflict_text(e: EntryId) -> Seq<char> {
    "Entry "@ + ids::hyphenated(e.0.0)
        + " was modified in both databases since the common ancestor. Resolving by keeping the most recently modified version."@
}

/// Settling the content of an entry is reported if it changes the entry, and a conflict is warned
/// of.
proof fn lemma_settled_entry(
    p: Progress,
    source: DatabaseModel,
    base: DatabaseModel,
    now: Timestamp,
    e: EntryId,
)
    requires
        p.db.entries.contains_key(e),
        source.entries.contains_key(e),
    ensures
        ({
            let after = entries::entry_settled(p, source, base, now, e);
            let ours = p.db.entries[e];
            let entry = after.db.entries[e];
            &&& extends(p.log, after.log)
            &&& !same_entry(entry, ours) || entry.times.last_modification
                != ours.times.last_modification ==> reported(
                after.log,
                MergeEventTarget::Entry(e),
                MergeEventType::Updated,
            )
            &&& entry_conflict(ours, source.entries[e], base, e) ==> after.log.warnings.contains(
                entry_conflict_text(e),
            )
        }),
{
    reports::settling_an_entry_takes_the_fields(p, source, base, now, e);
    lemma_entry_log(p, source, base, now, e);
}

/// How the log of the settling of an entry grows.
proof fn lemma_entry_log(
    p: Progress,
    source: DatabaseModel,
    base: DatabaseModel,
    now: Timestamp,
    e: EntryId,
)
    requires
        p.db.entries.contains_key(e),
        source.entries.contains_key(e),
    ensures
        ({
            let after = entries::entry_settled(p, source, base, now, e);
            let ours = p.db.entries[e];
            let theirs = source.entries[e];
            let our_time = known_or(ours.times.last_modification, now);
            let their_time = known_or(theirs.times.last_modification, Times::spec_epoch());
            let has_base = base.entries.contains_key(e);
            let origin = base.entries[e];
            let origin_time = origin.times.last_modification;
            let dated_base = has_base && origin_time is Some;
            let same = remap::equivalent(ours, p.db.attachments, theirs, source.attachments);
            let tie = our_time == their_time && !same;
            let we_differ = !remap::equivalent(
                ours,
                p.db.attachments,
                origin,
                base.attachments,
            );
            let they_differ = !remap::equivalent(
                theirs,
                source.attachments,
                origin,
                base.attachments,
            );
            let blended = if our_time == their_time {
                tie && has_base
            } else {
                dated_base ==> origin_time->0.before(their_time)
            };
            let taken = blended && if our_time == their_time {
                they_differ && !we_differ
            } else {
                our_time.before(their_time)
            };
            &&& extends(p.log, after.log)
            &&& taken ==> reported(
                after.log,
                MergeEventTarget::Entry(e),
                MergeEventType::Updated,
            )
            &&& entry_conflict(ours, theirs, base, e) ==> after.log.warnings.contains(
                entry_conflict_text(e),
            )
        }),
{
    let after = entries::entry_settled(p, source, base, now, e);
    let ours = p.db.entries[e];
    let theirs = source.entries[e];
    reports::lemma_entry_steps(p, source, base, now, e);
    let our_time = known_or(ours.times.last_modification, now);
    let their_time = known_or(theirs.times.last_modification, Times::spec_epoch());
    let origin_time = base.entries[e].times.last_modification;
    let dated_base = base.entries.contains_key(e) && origin_time is Some;
    fields::entries_are_equivalent_exactly_in_their_fields(
        ours,
        p.db.attachments,
        theirs,
        source.attachments,
    );
    let undated = p.log.warned_if(
        theirs.times.last_modification is None,
        entries::about("Source entry "@, e, " did not have a last modification timestamp"@),
    ).warned_if(
        ours.times.last_modification is None,
        entries::about("Destination entry "@, e, " did not have a last modification timestamp"@),
    );
    let conflict = our_time != their_time && !remap::equivalent(
        ours,
        p.db.attachments,
        theirs,
        source.attachments,
    ) && dated_base && origin_time->0.before(our_time) && origin_time->0.before(their_time);
    let first = undated.warned_if(conflict, entry_conflict_text(e));
    assert(extends(p.log, undated));
    assert(extends(undated, first));
    lemma_extends(p.log, undated, first);
    if conflict {
        assert(first.warnings[undated.warnings.len() as int] == entry_conflict_text(e));
        assert(first.warnings.contains(entry_conflict_text(e)));
    }
    lemma_rest_of_log(p, source, base, now, e, first);
    lemma_extends(p.log, first, after.log);
}

/// What follows in the log of the settling of an entry.
proof fn lemma_rest_of_log(
    p: Progress,
    source: DatabaseModel,
    base: DatabaseModel,
    now: Timestamp,
    e: EntryId,
    first: LogModel,
)
    requires
        ({
            let ours = p.db.entries[e];
            let theirs = source.entries[e];
            let our_time = known_or(ours.times.last_modification, now);
            let their_time = known_or(theirs.times.last_modification, Times::spec_epoch());
            let origin_time = base.entries[e].times.last_modification;
            let dated_base = base.entries.contains_key(e) && origin_time is Some;
            first == p.log.warned_if(
                theirs.times.last_modification is None,
                entries::about(
                    "Source entry "@,
                    e,
                    " did not have a last modification timestamp"@,
                ),
            ).warned_if(
                ours.times.last_modification is None,
                entries::about(
                    "Destination entry "@,
                    e,
                    " did not have a last modification timestamp"@,
                ),
            ).warned_if(
                our_time != their_time && !remap::equivalent(
                    ours,
                    p.db.attachments,
                    theirs,
                    source.attachments,
                ) && dated_base && origin_time->0.before(our_time) && origin_time->0.before(
                    their_time,
                ),
                entry_conflict_text(e),
            )
        }),
    ensures
        ({
            let after = entries::entry_settled(p, source, base, now, e);
            let ours = p.db.entries[e];
            let theirs = source.entries[e];
            let our_time = known_or(ours.times.last_modification, now);
            let their_time = known_or(theirs.times.last_modification, Times::spec_epoch());
            let has_base = base.entries.contains_key(e);
            let origin = base.entries[e];
            let origin_time = origin.times.last_modification;
            let dated_base = has_base && origin_time is Some;
            let same = remap::equivalent(ours, p.db.attachments, theirs, source.attachments);
            let tie = our_time == their_time && !same;
            let we_differ = !remap::equivalent(
                ours,
                p.db.attachments,
                origin,
                base.attachments,
            );
            let they_differ = !remap::equivalent(
                theirs,
                source.attachments,
                origin,
                base.attachments,
            );
            let blended = if our_time == their_time {
                tie && has_base
            } else {
                dated_base ==> origin_time->0.before(their_time)
            };
            let taken = blended && if our_time == their_time {
                they_differ && !we_differ
            } else {
                our_time.before(their_time)
            };
            &&& extends(first, after.log)
            &&& taken ==> reported(
                after.log,
                MergeEventTarget::Entry(e),
                MergeEventType::Updated,
            )
        }),
{
    let after = entries::entry_settled(p, source, base, now, e);
    let ours = p.db.entries[e];
    let theirs = source.entries[e];
    reports::lemma_entry_steps(p, source, base, now, e);
    let our_time = known_or(ours.times.last_modification, now);
    let their_time = known_or(theirs.times.last_modification, Times::spec_epoch());
    let has_base = base.entries.contains_key(e);
    let origin = base.entries[e];
    let origin_time = origin.times.last_modification;
    let same = remap::equivalent(ours, p.db.attachments, theirs, source.attachments);
    let tie = our_time == their_time && !same;
    let we_differ = !remap::equivalent(ours, p.db.attachments, origin, base.attachments);
    let they_differ = !remap::equivalent(theirs, source.attachments, origin, base.attachments);
    let blended = if our_time == their_time {
        tie && has_base
    } else {
        has_base && origin_time is Some ==> origin_time->0.before(their_time)
    };
    let taken = blended && if our_time == their_time {
        they_differ && !we_differ
    } else {
        our_time.before(their_time)
    };
    let told = first.warned_if(
        tie && has_base && we_differ && they_differ,
        "Entry "@ + ids::hyphenated(e.0.0)
            + " was modified in both databases at the same timestamp since the common ancestor. Resolving by keeping the destination copy."@,
    );
    assert(extends(first, told));
    if tie && !has_base || !blended {
        assert(after.log == told);
    } else {
        lemma_blended(p.db, told, source, e, taken);
        lemma_extends(first, told, after.log);
    }
}

/// How the log of the blending of two versions of an entry grows.
proof fn lemma_blended(
    db: DatabaseModel,
    log: LogModel,
    source: DatabaseModel,
    e: EntryId,
    taken: bool,
)
    ensures
        ({
            let after = entries::entry_blended(db, log, source, e, taken);
            &&& extends(log, after.log)
            &&& taken ==> reported(
                after.log,
                MergeEventTarget::Entry(e),
                MergeEventType::Updated,
            )
        }),
{
    reports::lemma_blended_log(db, log, source, e, taken);
    let after = entries::entry_blended(db, log, source, e, taken);
    let opened = log.warned_if(
        source.entries[e].history is None,
        entries::about("Source entry "@, e, " had no history."@),
    ).warned_if(
        db.entries[e].history is None,
        entries::about("Destination entry "@, e, " had no history."@),
    );
    let our_versions = entries::versions_or_none(db.entries[e].history);
    let their_versions = entries::versions_or_none(source.entries[e].history);
    let merged = history::history_logged(
        opened,
        our_versions,
        their_versions,
        source.attachments,
        db.attachments,
    );
    chronicle::undated_versions_are_warned_of(
        opened,
        our_versions,
        their_versions,
        source.attachments,
        db.attachments,
        0,
    );
    assert(extends(log, opened));
    assert(extends(opened, merged));
    lemma_extends(log, opened, merged);
    if taken {
        lemma_noted(merged, MergeEventTarget::Entry(e), MergeEventType::Updated);
        lemma_extends(log, merged, after.log);
    }
}

/// Dealing with an entry that both sides have is reported if it changes the entry, and no other
/// entry changes.
proof fn lemma_common_entry(
    p: Progress,
    source: DatabaseModel,
    base: DatabaseModel,
    now: Timestamp,
    e: EntryId,
)
    requires
        p.error is None,
        p.db.entries.contains_key(e),
        source.entries.contains_key(e),
    ensures
        ({
            let after = entries::entry_common(p, source, base, now, e);
            let ours = p.db.entries[e];
            let entry = after.db.entries[e];
            &&& extends(p.log, after.log)
            &&& after.db.entries.dom() =~= p.db.entries.dom()
            &&& entry.parent != ours.parent ==> reported(
                after.log,
                MergeEventTarget::Entry(e),
                MergeEventType::LocationUpdated,
            )
            &&& !same_entry(entry, ours) || entry.times.last_modification
                != ours.times.last_modification ==> reported(
                after.log,
                MergeEventTarget::Entry(e),
                MergeEventType::Updated,
            )
            &&& entry_conflict(ours, source.entries[e], base, e) ==> after.log.warnings.contains(
                entry_conflict_text(e),
            )
            &&& forall|x: EntryId| x != e ==> #[trigger] after.db.entries[x] == p.db.entries[x]
        }),
{
    reveal(entries::entry_common);
    let placed = entries::entry_relocated(p, source, e);
    let after = entries::entry_settled(placed, source, base, now, e);
    assert(placed.db.entries.dom() =~= p.db.entries.dom());
    assert(placed.db.entries.contains_key(e));
    assert(extends(p.log, placed.log));
    if placed.db.entries[e].parent != p.db.entries[e].parent {
        assert(placed.log.events[p.log.events.len() as int] == (MergeEvent {
            target: MergeEventTarget::Entry(e),
            event_type: MergeEventType::LocationUpdated,
        }));
        assert(reported(
            placed.log,
            MergeEventTarget::Entry(e),
            MergeEventType::LocationUpdated,
        ));
    }
    assert(same_entry(placed.db.entries[e], p.db.entries[e]));
    assert(placed.db.entries[e].times.last_modification
        == p.db.entries[e].times.last_modification);
    lemma_settled_entry(placed, source, base, now, e);
    reports::settling_an_entry_takes_the_fields(placed, source, base, now, e);
    lemma_extends(p.log, placed.log, after.log);
    assert forall|x: EntryId| x != e implies #[trigger] after.db.entries[x]
        == p.db.entries[x] by {
        assert(after.db.entries.remove(e)[x] == placed.db.entries.remove(e)[x]);
    }
}

/// What changes of the entries that both sides have is reported.
proof fn lemma_common(
    p: Progress,
    source: DatabaseModel,
    base: DatabaseModel,
    now: Timestamp,
    listed: Seq<EntryId>,
)
    requires
        p.error is None,
        listed.no_duplicates(),
        forall|i: int|
            0 <= i < listed.len() ==> p.db.entries.contains_key(#[trigger] listed[i])
                && source.entries.contains_key(listed[i]),
        entries::all_common(p, source, base, now, listed).error is None,
    ensures
        ({
            let after = entries::all_common(p, source, base, now, listed);
            &&& extends(p.log, after.log)
            &&& after.db.entries.dom() =~= p.db.entries.dom()
            &&& forall|e: EntryId|
                p.db.entries.contains_key(e) && (#[trigger] after.db.entries[e]).parent
                    != p.db.entries[e].parent ==> reported(
                    after.log,
                    MergeEventTarget::Entry(e),
                    MergeEventType::LocationUpdated,
                )
            &&& forall|e: EntryId|
                p.db.entries.contains_key(e) && (!same_entry(
                    #[trigger] after.db.entries[e],
                    p.db.entries[e],
                ) || after.db.entries[e].times.last_modification
                    != p.db.entries[e].times.last_modification) ==> reported(
                    after.log,
                    MergeEventTarget::Entry(e),
                    MergeEventType::Updated,
                )
            &&& forall|e: EntryId| #[trigger]
                listed.contains(e) && entry_conflict(
                    p.db.entries[e],
                    source.entries[e],
                    base,
                    e,
                ) ==> after.log.warnings.contains(entry_conflict_text(e))
            &&& forall|e: EntryId|
                !listed.contains(e) ==> #[trigger] after.db.entries[e] == p.db.entries[e]
        }),
    decreases listed.len(),
{
    if listed.len() > 0 {
        let shorter = listed.drop_last();
        let x = listed.last();
        assert(listed[listed.len() - 1] == x);
        assert(!shorter.contains(x)) by {
            if shorter.contains(x) {
                let n = choose|n: int| 0 <= n < shorter.len() && shorter[n] == x;
                assert(listed[n] == listed[listed.len() - 1]);
            }
        }
        assert forall|i: int| 0 <= i < shorter.len() implies p.db.entries.contains_key(
            #[trigger] shorter[i],
        ) && source.entries.contains_key(shorter[i]) by {
            assert(shorter[i] == listed[i]);
            assert(p.db.entries.contains_key(listed[i]));
        }
        lemma_common(p, source, base, now, shorter);
        let before = entries::all_common(p, source, base, now, shorter);
        let after = entries::all_common(p, source, base, now, listed);
        assert(p.db.entries.contains_key(x));
        assert(before.db.entries.dom().contains(x));
        lemma_common_entry(before, source, base, now, x);
        lemma_extends(p.log, before.log, after.log);
        assert(before.db.entries[x] == p.db.entries[x]);
        assert forall|e: EntryId|
            p.db.entries.contains_key(e) && (#[trigger] after.db.entries[e]).parent
                != p.db.entries[e].parent implies reported(
            after.log,
            MergeEventTarget::Entry(e),
            MergeEventType::LocationUpdated,
        ) by {
            if e != x {
                assert(after.db.entries[e] == before.db.entries[e]);
                assert(reported(
                    before.log,
                    MergeEventTarget::Entry(e),
                    MergeEventType::LocationUpdated,
                ));
            }
        }
        assert forall|e: EntryId|
            p.db.entries.contains_key(e) && (!same_entry(
                #[trigger] after.db.entries[e],
                p.db.entries[e],
            ) || after.db.entries[e].times.last_modification
                != p.db.entries[e].times.last_modification) implies reported(
            after.log,
            MergeEventTarget::Entry(e),
            MergeEventType::Updated,
        ) by {
            if e != x {
                assert(after.db.entries[e] == before.db.entries[e]);
                assert(reported(
                    before.log,
                    MergeEventTarget::Entry(e),
                    MergeEventType::Updated,
                ));
            }
        }
        assert forall|e: EntryId| #[trigger]
            listed.contains(e) && entry_conflict(
                p.db.entries[e],
                source.entries[e],
                base,
                e,
            ) implies after.log.warnings.contains(entry_conflict_text(e)) by {
            lemma_one_more(listed, e);
            if e != x {
                assert(shorter.contains(e));
                assert(before.log.warnings.contains(entry_conflict_text(e)));
            }
        }
        assert forall|e: EntryId| !listed.contains(e) implies #[trigger] after.db.entries[e]
            == p.db.entries[e] by {
            lemma_one_more(listed, e);
            assert(after.db.entries[e] == before.db.entries[e]);
        }
    }
}

/// Whether both sides changed a group since the common ancestor, at different times and to
/// different fields.
pub open spec fn group_conflict(
    ours: GroupModel,
    theirs: GroupModel,
    base: DatabaseModel,
    g: GroupId,
) -> bool {
    let our_time = ours.times.last_modification;
    let their_time = theirs.times.last_modification;
    let base_time = base.groups[g].times.last_modification;
    &&& our_time is Some
    &&& their_time is Some
    &&& our_time != their_time
    &&& base.groups.contains_key(g)
    &&& base_time is Some
    &&& base_time->0.before(our_time->0)
    &&& base_time->0.before(their_time->0)
    &&& !same_group(ours, theirs)
}

/// The warning that both sides changed a group.
pub open spec fn group_conflict_text(g: GroupId) -> Seq<char> {
    "Group "@ + ids::hyphenated(g.0.0)
        + " was modified in both databases since the common ancestor. Resolving by keeping the most recently modified version."@
}

/// Whether a group can be put where the later move has it.
pub open spec fn has_place(ours: GroupModel, theirs: GroupModel, known: Set<GroupId>) -> bool {
    ours.parent == theirs.parent || theirs.parent is Some && known.contains(theirs.parent->0)
}

/// Settling the content of a group is reported if it changes the group, and a conflict is warned
/// of.
proof fn lemma_settled_group(
    p: Progress,
    source: DatabaseModel,
    base: DatabaseModel,
    now: Timestamp,
    g: GroupId,
)
    requires
        p.db.groups.contains_key(g),
        source.groups.contains_key(g),
    ensures
        ({
            let after = groups::group_settled(p, source, base, now, g);
            let ours = p.db.groups[g];
            let group = after.db.groups[g];
            &&& extends(p.log, after.log)
            &&& !same_group(group, ours) || group.times.last_modification
                != ours.times.last_modification ==> reported(
                after.log,
                MergeEventTarget::Group(g),
                MergeEventType::Updated,
            )
            &&& group.parent == ours.parent
            &&& group_conflict(ours, source.groups[g], base, g) ==> after.log.warnings.contains(
                group_conflict_text(g),
            )
        }),
{
    let after = groups::group_settled(p, source, base, now, g);
    let ours = p.db.groups[g];
    reports::settling_a_group_is_reported(p, source, base, now, g);
    reports::settling_a_group_takes_the_fields(p, source, base, now, g);
    assert(p.log.warnings.is_prefix_of(after.log.warnings));
    assert(p.log.events.is_prefix_of(after.log.events));
    if after.db != p.db {
        assert(after.log.events[p.log.events.len() as int] == (MergeEvent {
            target: MergeEventTarget::Group(g),
            event_type: MergeEventType::Updated,
        }));
    }
    if group_conflict(ours, source.groups[g], base, g) {
        reports::group_conflict_is_warned_of(p, source, base, now, g);
        assert(after.log.warnings[p.log.warnings.len() as int] == group_conflict_text(g));
    }
}

/// Dealing with a group that both sides have is reported if it changes the group or puts off a
/// move.
proof fn lemma_common_group(
    r: Regrouping,
    source: DatabaseModel,
    base: DatabaseModel,
    now: Timestamp,
    known: Set<GroupId>,
    g: GroupId,
)
    requires
        gathering::bare(r.p.db).wf(),
        known == r.p.db.groups.dom(),
        r.p.db.groups.contains_key(g),
        source.groups.contains_key(g),
        !gathering::moved(r.moves, g),
        r.p.error is None,
        groups::group_common(r, source, base, now, known, g).p.error is None,
    ensures
        ({
            let after = groups::group_common(r, source, base, now, known, g);
            let ours = r.p.db.groups[g];
            let group = after.p.db.groups[g];
            &&& extends(r.p.log, after.p.log)
            &&& group.parent != ours.parent || after.moves != r.moves ==> reported(
                after.p.log,
                MergeEventTarget::Group(g),
                MergeEventType::LocationUpdated,
            )
            &&& !same_group(group, ours) || group.times.last_modification
                != ours.times.last_modification ==> reported(
                after.p.log,
                MergeEventTarget::Group(g),
                MergeEventType::Updated,
            )
            &&& group_conflict(ours, source.groups[g], base, g) && has_place(
                ours,
                source.groups[g],
                known,
            ) ==> after.p.log.warnings.contains(group_conflict_text(g))
        }),
{
    reveal(groups::group_common);
    let p = r.p;
    let ours = p.db.groups[g];
    let theirs = source.groups[g];
    let after = groups::group_common(r, source, base, now, known, g);
    match groups::placement(ours, theirs, known) {
        groups::Placement::Stay => {
            lemma_settled_group(p, source, base, now, g);
        },
        groups::Placement::Ambiguous => {
            let warned = entries::going(
                p.db,
                p.log.warned(
                    groups::about(
                        "Cannot determine which group "@,
                        g,
                        " move is more recent because one of the groups does not have a location changed timestamp."@,
                    ),
                ),
            );
            assert(extends(p.log, warned.log));
            lemma_settled_group(warned, source, base, now, g);
            lemma_extends(p.log, warned.log, after.p.log);
        },
        groups::Placement::SourceRoot => {
            assert(extends(p.log, after.p.log));
        },
        groups::Placement::Nowhere(_) => {
            assert(extends(p.log, after.p.log));
        },
        groups::Placement::Move(to, time) => {
            let up = groups::group_uprooted(p, g, time);
            lemma_noted(p.log, MergeEventTarget::Group(g), MergeEventType::LocationUpdated);
            assert(up.db.groups.contains_key(g));
            assert(same_group(up.db.groups[g], ours));
            assert(up.db.groups[g].times.last_modification == ours.times.last_modification);
            lemma_settled_group(up, source, base, now, g);
            lemma_extends(p.log, up.log, after.p.log);
        },
    }
}

/// What changes of the groups that both sides have is reported, and so are the moves that are put
/// off.
proof fn lemma_common_groups(
    r: Regrouping,
    source: DatabaseModel,
    base: DatabaseModel,
    now: Timestamp,
    known: Set<GroupId>,
    listed: Seq<GroupId>,
)
    requires
        gathering::bare(r.p.db).wf(),
        known == r.p.db.groups.dom(),
        r.p.error is None,
        r.moves.len() == 0,
        listed.no_duplicates(),
        forall|i: int|
            0 <= i < listed.len() ==> known.contains(#[trigger] listed[i])
                && source.groups.contains_key(listed[i]),
        groups::all_common(r, source, base, now, known, listed).p.error is None,
    ensures
        ({
            let after = groups::all_common(r, source, base, now, known, listed);
            &&& extends(r.p.log, after.p.log)
            &&& forall|g: GroupId|
                known.contains(g) && ((#[trigger] after.p.db.groups[g]).parent
                    != r.p.db.groups[g].parent || gathering::moved(after.moves, g)) ==> reported(
                    after.p.log,
                    MergeEventTarget::Group(g),
                    MergeEventType::LocationUpdated,
                )
            &&& forall|g: GroupId|
                known.contains(g) && (!same_group(
                    #[trigger] after.p.db.groups[g],
                    r.p.db.groups[g],
                ) || after.p.db.groups[g].times.last_modification
                    != r.p.db.groups[g].times.last_modification) ==> reported(
                    after.p.log,
                    MergeEventTarget::Group(g),
                    MergeEventType::Updated,
                )
            &&& forall|g: GroupId| #[trigger]
                listed.contains(g) && group_conflict(
                    r.p.db.groups[g],
                    source.groups[g],
                    base,
                    g,
                ) && has_place(r.p.db.groups[g], source.groups[g], known)
                    ==> after.p.log.warnings.contains(group_conflict_text(g))
        }),
    decreases listed.len(),
{
    if listed.len() > 0 {
        let shorter = listed.drop_last();
        let x = listed.last();
        assert(listed[listed.len() - 1] == x);
        assert(!shorter.contains(x)) by {
            if shorter.contains(x) {
                let n = choose|n: int| 0 <= n < shorter.len() && shorter[n] == x;
                assert(listed[n] == listed[listed.len() - 1]);
            }
        }
        assert forall|i: int| 0 <= i < shorter.len() implies known.contains(#[trigger] shorter[i])
            && source.groups.contains_key(shorter[i]) by {
            assert(shorter[i] == listed[i]);
            assert(known.contains(listed[i]));
        }
        let before = groups::all_common(r, source, base, now, known, shorter);
        let after = groups::all_common(r, source, base, now, known, listed);
        lemma_common_groups(r, source, base, now, known, shorter);
        gathering::lemma_common(r, source, base, now, known, shorter);
        assert(known.contains(x));
        assert(before.p.db.groups.dom().contains(x));
        assert(!gathering::moved(before.moves, x));
        lemma_common_group(before, source, base, now, known, x);
        gathering::lemma_common_step(before, source, base, now, known, x);
        lemma_extends(r.p.log, before.p.log, after.p.log);
        assert(gathering::same_node(before.p.db.groups[x], r.p.db.groups[x]));
        fields::groups_diverge_exactly_in_their_fields(before.p.db.groups[x], r.p.db.groups[x]);
        assert forall|g: GroupId| known.contains(g) && g != x implies gathering::same_node(
            #[trigger] after.p.db.groups[g],
            before.p.db.groups[g],
        ) && same_group(after.p.db.groups[g], before.p.db.groups[g]) by {
            fields::groups_diverge_exactly_in_their_fields(
                after.p.db.groups[g],
                before.p.db.groups[g],
            );
        }
        assert forall|g: GroupId|
            known.contains(g) && ((#[trigger] after.p.db.groups[g]).parent
                != r.p.db.groups[g].parent || gathering::moved(after.moves, g)) implies reported(
            after.p.log,
            MergeEventTarget::Group(g),
            MergeEventType::LocationUpdated,
        ) by {
            if g != x {
                assert(before.p.db.groups[g].parent == after.p.db.groups[g].parent);
                if gathering::moved(after.moves, g) {
                    let k = choose|k: int|
                        0 <= k < after.moves.len() && (#[trigger] after.moves[k]).0 == g;
                    assert(k < before.moves.len());
                    assert(before.moves[k].0 == g);
                }
                assert(reported(
                    before.p.log,
                    MergeEventTarget::Group(g),
                    MergeEventType::LocationUpdated,
                ));
            } else if after.moves == before.moves {
                assert(!gathering::moved(after.moves, g));
            }
        }
        assert forall|g: GroupId|
            known.contains(g) && (!same_group(
                #[trigger] after.p.db.groups[g],
                r.p.db.groups[g],
            ) || after.p.db.groups[g].times.last_modification
                != r.p.db.groups[g].times.last_modification) implies reported(
            after.p.log,
            MergeEventTarget::Group(g),
            MergeEventType::Updated,
        ) by {
            if g != x {
                assert(gathering::same_node(after.p.db.groups[g], before.p.db.groups[g]));
                assert(!same_group(before.p.db.groups[g], r.p.db.groups[g])
                    || before.p.db.groups[g].times.last_modification
                    != r.p.db.groups[g].times.last_modification);
                assert(reported(
                    before.p.log,
                    MergeEventTarget::Group(g),
                    MergeEventType::Updated,
                ));
            }
        }
        assert forall|g: GroupId| #[trigger]
            listed.contains(g) && group_conflict(
                r.p.db.groups[g],
                source.groups[g],
                base,
                g,
            ) && has_place(
                r.p.db.groups[g],
                source.groups[g],
                known,
            ) implies after.p.log.warnings.contains(group_conflict_text(g)) by {
            lemma_one_more(listed, g);
            if g != x {
                assert(shorter.contains(g));
                assert(before.p.log.warnings.contains(group_conflict_text(g)));
            }
        }
    }
}

/// Making the moves that were put off adds nothing to the log.
proof fn lemma_moved_silently(p: Progress, moves: Seq<(GroupId, GroupId)>)
    ensures
        groups::all_moved(p, moves).log == p.log,
    decreases moves.len(),
{
    if moves.len() > 0 {
        lemma_moved_silently(p, moves.drop_last());
    }
}

/// What changes of the groups that both sides have is reported.
proof fn lemma_groups_settled(
    p: Progress,
    source: DatabaseModel,
    base: DatabaseModel,
    now: Timestamp,
)
    requires
        gathering::bare(p.db).wf(),
        p.db.groups.dom().finite(),
        p.error is None,
        groups::groups_settled(p, source, base, now).error is None,
    ensures
        ({
            let after = groups::groups_settled(p, source, base, now);
            let known = p.db.groups.dom();
            &&& extends(p.log, after.log)
            &&& forall|g: GroupId|
                known.contains(g) && (#[trigger] after.db.groups[g]).parent
                    != p.db.groups[g].parent ==> reported(
                    after.log,
                    MergeEventTarget::Group(g),
                    MergeEventType::LocationUpdated,
                )
            &&& forall|g: GroupId|
                known.contains(g) && (!same_group(#[trigger] after.db.groups[g], p.db.groups[g])
                    || after.db.groups[g].times.last_modification
                    != p.db.groups[g].times.last_modification) ==> reported(
                    after.log,
                    MergeEventTarget::Group(g),
                    MergeEventType::Updated,
                )
            &&& forall|g: GroupId| #[trigger]
                p.db.groups.contains_key(g) && source.groups.contains_key(g) && group_conflict(
                    p.db.groups[g],
                    source.groups[g],
                    base,
                    g,
                ) && has_place(p.db.groups[g], source.groups[g], known)
                    ==> after.log.warnings.contains(group_conflict_text(g))
        }),
{
    let known = p.db.groups.dom();
    let shared = known.intersect(source.groups.dom());
    let listing = order::ordered::<GroupId>(shared);
    order::lemma_ordered_lists::<GroupId>(shared);
    order::lemma_increasing_no_duplicates::<GroupId>(listing);
    assert forall|i: int| 0 <= i < listing.len() implies known.contains(#[trigger] listing[i])
        && source.groups.contains_key(listing[i]) by {
        assert(listing.contains(listing[i]));
        assert(shared.contains(listing[i]));
    }
    let start = Regrouping { p, moves: Seq::empty() };
    let settled = groups::all_common(start, source, base, now, known, listing);
    lemma_common_groups(start, source, base, now, known, listing);
    gathering::lemma_common(start, source, base, now, known, listing);
    let moves = settled.moves;
    assert forall|k: int| 0 <= k < moves.len() implies settled.p.db.groups.contains_key(
        (#[trigger] moves[k]).0,
    ) && source.groups[moves[k].0].parent == Some(moves[k].1) by {
        assert(listing.contains(moves[k].0));
        assert(shared.contains(moves[k].0));
        assert(settled.p.db.groups.dom().contains(moves[k].0));
    }
    gathering::lemma_moved(settled.p, source, moves);
    lemma_moved_silently(settled.p, moves);
    let after = groups::groups_settled(p, source, base, now);
    assert(after == groups::all_moved(settled.p, moves));
    assert forall|g: GroupId| known.contains(g) implies {
        &&& same_group(#[trigger] after.db.groups[g], settled.p.db.groups[g])
        &&& after.db.groups[g].times == settled.p.db.groups[g].times
        &&& !gathering::moved(moves, g) ==> after.db.groups[g].parent
            == settled.p.db.groups[g].parent
    } by {
        assert(settled.p.db.groups.dom().contains(g));
        assert(settled.p.db.groups.contains_key(g));
        fields::groups_diverge_exactly_in_their_fields(
            after.db.groups[g],
            settled.p.db.groups[g],
        );
    }
    assert forall|g: GroupId|
        known.contains(g) && (#[trigger] after.db.groups[g]).parent
            != p.db.groups[g].parent implies reported(
        after.log,
        MergeEventTarget::Group(g),
        MergeEventType::LocationUpdated,
    ) by {
        assert(settled.p.db.groups[g].parent != p.db.groups[g].parent || gathering::moved(
            moves,
            g,
        ));
    }
    assert forall|g: GroupId|
        known.contains(g) && (!same_group(#[trigger] after.db.groups[g], p.db.groups[g])
            || after.db.groups[g].times.last_modification
            != p.db.groups[g].times.last_modification) implies reported(
        after.log,
        MergeEventTarget::Group(g),
        MergeEventType::Updated,
    ) by {
        assert(!same_group(settled.p.db.groups[g], p.db.groups[g])
            || settled.p.db.groups[g].times.last_modification
            != p.db.groups[g].times.last_modification);
    }
    assert forall|g: GroupId| #[trigger]
        p.db.groups.contains_key(g) && source.groups.contains_key(g) && group_conflict(
            p.db.groups[g],
            source.groups[g],
            base,
            g,
        ) && has_place(
            p.db.groups[g],
            source.groups[g],
            known,
        ) implies after.log.warnings.contains(group_conflict_text(g)) by {
        assert(shared.contains(g));
        assert(listing.contains(g));
    }
}

/// What is logged of an icon that only the source has stays in the log.
proof fn lemma_offered_icons(
    dest: DatabaseModel,
    source: DatabaseModel,
    base: DatabaseModel,
    listed: Seq<CustomIconId>,
    log: LogModel,
)
    ensures
        extends(log, icons::offered_logs(dest, source, base, listed, log)),
        forall|i: CustomIconId| #[trigger]
            listed.contains(i) && !dest.custom_icons.contains_key(i) ==> exists|before: LogModel|
                extends(
                    #[trigger] icons::offered_log(dest, source, base, i, before),
                    icons::offered_logs(dest, source, base, listed, log),
                ),
    decreases listed.len(),
{
    if listed.len() > 0 {
        let shorter = listed.drop_last();
        let x = listed.last();
        lemma_offered_icons(dest, source, base, shorter, log);
        let before = icons::offered_logs(dest, source, base, shorter, log);
        let after = icons::offered_logs(dest, source, base, listed, log);
        assert(extends(before, after));
        lemma_extends(log, before, after);
        assert forall|i: CustomIconId| #[trigger]
            listed.contains(i) && !dest.custom_icons.contains_key(i) implies exists|mid: LogModel|
            extends(#[trigger] icons::offered_log(dest, source, base, i, mid), after) by {
            lemma_one_more(listed, i);
            if i == x {
                assert(extends(icons::offered_log(dest, source, base, i, before), after));
            } else {
                assert(shorter.contains(i));
                let mid = choose|mid: LogModel|
                    extends(#[trigger] icons::offered_log(dest, source, base, i, mid), before);
                lemma_extends(icons::offered_log(dest, source, base, i, mid), before, after);
            }
        }
    }
}

/// What is logged of an icon that only the destination has stays in the log.
proof fn lemma_missing_icons(
    dest: DatabaseModel,
    source: DatabaseModel,
    base: DatabaseModel,
    listed: Seq<CustomIconId>,
    log: LogModel,
)
    ensures
        extends(log, icons::missing_logs(dest, source, base, listed, log)),
        forall|i: CustomIconId| #[trigger]
            listed.contains(i) && !source.custom_icons.contains_key(i) ==> exists|before: LogModel|
                extends(
                    #[trigger] icons::missing_log(dest, source, base, i, before),
                    icons::missing_logs(dest, source, base, listed, log),
                ),
    decreases listed.len(),
{
    if listed.len() > 0 {
        let shorter = listed.drop_last();
        let x = listed.last();
        lemma_missing_icons(dest, source, base, shorter, log);
        let before = icons::missing_logs(dest, source, base, shorter, log);
        let after = icons::missing_logs(dest, source, base, listed, log);
        assert(extends(before, after));
        lemma_extends(log, before, after);
        assert forall|i: CustomIconId| #[trigger]
            listed.contains(i) && !source.custom_icons.contains_key(i) implies exists|mid: LogModel|
            extends(#[trigger] icons::missing_log(dest, source, base, i, mid), after) by {
            lemma_one_more(listed, i);
            if i == x {
                assert(extends(icons::missing_log(dest, source, base, i, before), after));
            } else {
                assert(shorter.contains(i));
                let mid = choose|mid: LogModel|
                    extends(#[trigger] icons::missing_log(dest, source, base, i, mid), before);
                lemma_extends(icons::missing_log(dest, source, base, i, mid), before, after);
            }
        }
    }
}

/// What is logged of an icon that both sides have stays in the log.
proof fn lemma_common_icons(
    dest: DatabaseModel,
    source: DatabaseModel,
    base: DatabaseModel,
    listed: Seq<CustomIconId>,
    log: LogModel,
)
    ensures
        extends(log, icons::common_logs(dest, source, base, listed, log)),
        forall|i: CustomIconId| #[trigger]
            listed.contains(i) && source.custom_icons.contains_key(i) ==> exists|before: LogModel|
                extends(
                    #[trigger] icons::common_log(dest, source, base, i, before),
                    icons::common_logs(dest, source, base, listed, log),
                ),
    decreases listed.len(),
{
    if listed.len() > 0 {
        let shorter = listed.drop_last();
        let x = listed.last();
        lemma_common_icons(dest, source, base, shorter, log);
        let before = icons::common_logs(dest, source, base, shorter, log);
        let after = icons::common_logs(dest, source, base, listed, log);
        assert(extends(before, after));
        lemma_extends(log, before, after);
        assert forall|i: CustomIconId| #[trigger]
            listed.contains(i) && source.custom_icons.contains_key(i) implies exists|mid: LogModel|
            extends(#[trigger] icons::common_log(dest, source, base, i, mid), after) by {
            lemma_one_more(listed, i);
            if i == x {
                assert(extends(icons::common_log(dest, source, base, i, before), after));
            } else {
                assert(shorter.contains(i));
                let mid = choose|mid: LogModel|
                    extends(#[trigger] icons::common_log(dest, source, base, i, mid), before);
                lemma_extends(icons::common_log(dest, source, base, i, mid), before, after);
            }
        }
    }
}

/// What is logged of each icon stays in the log.
proof fn lemma_icons(
    dest: DatabaseModel,
    source: DatabaseModel,
    base: DatabaseModel,
    log: LogModel,
    i: CustomIconId,
)
    requires
        dest.custom_icons.dom().finite(),
        source.custom_icons.dom().finite(),
    ensures
        extends(log, icons::icons_log(dest, source, base, log)),
        source.custom_icons.contains_key(i) && !dest.custom_icons.contains_key(i) ==> exists|
            before: LogModel,
        |
            extends(
                #[trigger] icons::offered_log(dest, source, base, i, before),
                icons::icons_log(dest, source, base, log),
            ),
        dest.custom_icons.contains_key(i) && !source.custom_icons.contains_key(i) ==> exists|
            before: LogModel,
        |
            extends(
                #[trigger] icons::missing_log(dest, source, base, i, before),
                icons::icons_log(dest, source, base, log),
            ),
        dest.custom_icons.contains_key(i) && source.custom_icons.contains_key(i) ==> exists|
            before: LogModel,
        |
            extends(
                #[trigger] icons::common_log(dest, source, base, i, before),
                icons::icons_log(dest, source, base, log),
            ),
{
    let ours = order::ordered::<CustomIconId>(dest.custom_icons.dom());
    let theirs = order::ordered::<CustomIconId>(source.custom_icons.dom());
    order::lemma_ordered_lists::<CustomIconId>(dest.custom_icons.dom());
    order::lemma_ordered_lists::<CustomIconId>(source.custom_icons.dom());
    let offered = icons::offered_logs(dest, source, base, theirs, log);
    let missing = icons::missing_logs(dest, source, base, ours, offered);
    let after = icons::common_logs(dest, source, base, ours, missing);
    lemma_offered_icons(dest, source, base, theirs, log);
    lemma_missing_icons(dest, source, base, ours, offered);
    lemma_common_icons(dest, source, base, ours, missing);
    lemma_extends(log, offered, missing);
    lemma_extends(offered, missing, after);
    lemma_extends(log, missing, after);
    assert(dest.custom_icons.dom().contains(i) <==> ours.contains(i));
    assert(source.custom_icons.dom().contains(i) <==> theirs.contains(i));
    if source.custom_icons.contains_key(i) && !dest.custom_icons.contains_key(i) {
        let mid = choose|mid: LogModel|
            extends(#[trigger] icons::offered_log(dest, source, base, i, mid), offered);
        lemma_extends(icons::offered_log(dest, source, base, i, mid), offered, after);
    }
    if dest.custom_icons.contains_key(i) && !source.custom_icons.contains_key(i) {
        let mid = choose|mid: LogModel|
            extends(#[trigger] icons::missing_log(dest, source, base, i, mid), missing);
        lemma_extends(icons::missing_log(dest, source, base, i, mid), missing, after);
    }
}

/// The log of a merge as far as the icons go.
pub open spec fn icon_log(
    dest: DatabaseModel,
    source: DatabaseModel,
    base: DatabaseModel,
) -> LogModel {
    icons::icons_log(dest, source, base, LogModel::blank())
}

/// What the gathering of groups and the marking of deletions report.
proof fn lemma_marked(dest: DatabaseModel, source: DatabaseModel, base: DatabaseModel)
    requires
        outcome::two_versions(dest, source),
    ensures
        ({
            let gathered = underway::gathered(dest, source, base);
            let marked = underway::marked(dest, source, base);
            &&& extends(icon_log(dest, source, base), gathered.log)
            &&& extends(gathered.log, marked.log)
            &&& marked.error is None
            &&& marked.db.entries == dest.entries
            &&& marked.db.groups == gathered.db.groups
            &&& forall|g: GroupId| #[trigger]
                gathered.db.groups.contains_key(g) && !dest.groups.contains_key(g) ==> reported(
                    gathered.log,
                    MergeEventTarget::Group(g),
                    MergeEventType::Created,
                )
            &&& forall|g: GroupId| #[trigger]
                source.groups.contains_key(g) && !dest.groups.contains_key(g)
                    && dest.deleted_objects.contains_key(g.0) && base.groups.contains_key(g)
                    && !same_group(source.groups[g], base.groups[g])
                    ==> gathered.log.warnings.contains(
                    "Group "@ + ids::hyphenated(g.0.0)
                        + " was deleted in the destination but modified in the source since the common ancestor."@,
                )
            &&& forall|object: Uuid| #[trigger]
                marked.db.deleted_objects.contains_key(object)
                    && !icons::icons_merged(dest, source, base).deleted_objects.contains_key(object)
                    ==> reported(
                    marked.log,
                    MergeEventTarget::Group(GroupId(object)),
                    MergeEventType::Deleted,
                )
            &&& forall|g: GroupId| #[trigger]
                dest.groups.contains_key(g) && !source.groups.contains_key(g)
                    && source.deleted_objects.contains_key(g.0) && base.groups.contains_key(g)
                    && !same_group(dest.groups[g], base.groups[g]) ==> marked.log.warnings.contains(
                    "Group "@ + ids::hyphenated(g.0.0)
                        + " was modified in the destination but deleted in the source since the common ancestor."@,
                )
        }),
{
    let start = icons::icons_merged(dest, source, base);
    merging::lemma_icons_carry_on(dest, source, base);
    merging::versions_of_a_database_are_mergeable(dest, source, base);
    underway::lemma_gathered(dest, source, base);
    let gathered = underway::gathered(dest, source, base);
    let marked = underway::marked(dest, source, base);
    let log = icon_log(dest, source, base);
    let offered = order::ordered::<GroupId>(source.groups.dom().difference(start.groups.dom()));
    order::lemma_ordered_lists::<GroupId>(source.groups.dom().difference(start.groups.dom()));
    lemma_offers(log, start, source, base, offered);
    let logged = entries::going(
        start,
        groups::offers_logged(log, start.deleted_objects, source, base, offered),
    );
    let wanted = groups::groups_to_add(start, source);
    assert(wanted.subset_of(source.groups.dom()));
    vstd::set_lib::lemma_len_subset(wanted, source.groups.dom());
    let to_add = order::ordered::<GroupId>(wanted);
    order::lemma_ordered_lists::<GroupId>(wanted);
    assert(gathering::bare(start).wf());
    assert(gathering::groups_from(start.groups, dest, source));
    assert forall|i: int| 0 <= i < to_add.len() implies source.groups.contains_key(
        #[trigger] to_add[i],
    ) && groups::connected(start.groups, source.groups, to_add[i]) by {
        assert(to_add.contains(to_add[i]));
        assert(wanted.contains(to_add[i]));
    }
    lemma_restored(logged, dest, source, to_add);
    lemma_extends(log, logged.log, gathered.log);
    assert forall|g: GroupId| #[trigger]
        source.groups.contains_key(g) && !dest.groups.contains_key(g)
            && dest.deleted_objects.contains_key(g.0) && base.groups.contains_key(g)
            && !same_group(
            source.groups[g],
            base.groups[g],
        ) implies gathered.log.warnings.contains(
        "Group "@ + ids::hyphenated(g.0.0)
            + " was deleted in the destination but modified in the source since the common ancestor."@,
    ) by {
        assert(source.groups.dom().difference(start.groups.dom()).contains(g));
        assert(offered.contains(g));
        assert(start.deleted_objects.contains_key(g.0));
    }
    let only_ours = order::ordered::<GroupId>(dest.groups.dom().difference(source.groups.dom()));
    order::lemma_ordered_lists::<GroupId>(dest.groups.dom().difference(source.groups.dom()));
    lemma_groups_missing(gathered, source, base, only_ours);
    merging::lemma_groups_missing(gathered, source, base, only_ours);
    assert forall|g: GroupId| #[trigger]
        dest.groups.contains_key(g) && !source.groups.contains_key(g)
            && source.deleted_objects.contains_key(g.0) && base.groups.contains_key(g)
            && !same_group(dest.groups[g], base.groups[g]) implies marked.log.warnings.contains(
        "Group "@ + ids::hyphenated(g.0.0)
            + " was modified in the destination but deleted in the source since the common ancestor."@,
    ) by {
        assert(dest.groups.dom().difference(source.groups.dom()).contains(g));
        assert(only_ours.contains(g));
        assert(gathered.db.groups.contains_key(g));
        lemma_alike(gathered.db.groups[g], dest.groups[g]);
    }
}

/// Groups that are alike have the same fields.
proof fn lemma_alike(a: GroupModel, b: GroupModel)
    requires
        gathering::alike(a, b),
    ensures
        same_group(a, b),
        a.parent == b.parent,
        a.times == b.times,
{
    let c = GroupModel { last_top_visible_entry: a.last_top_visible_entry, ..b };
    assert(c.content() =~= (GroupModel {
        last_top_visible_entry: a.last_top_visible_entry,
        ..b.content()
    }));
    fields::groups_diverge_exactly_in_their_fields(a, c);
}

/// What the merging of the entries reports.
proof fn lemma_assembled(
    dest: DatabaseModel,
    source: DatabaseModel,
    base: DatabaseModel,
    now: Timestamp,
)
    requires
        outcome::two_versions(dest, source),
        underway::assembled(dest, source, base, now).error is None,
    ensures
        ({
            let marked = underway::marked(dest, source, base);
            let after = underway::assembled(dest, source, base, now);
            &&& extends(marked.log, after.log)
            &&& forall|e: EntryId| #[trigger]
                after.db.entries.contains_key(e) && !dest.entries.contains_key(e) ==> reported(
                    after.log,
                    MergeEventTarget::Entry(e),
                    MergeEventType::Created,
                )
            &&& forall|e: EntryId| #[trigger]
                dest.entries.contains_key(e) && !after.db.entries.contains_key(e) ==> reported(
                    after.log,
                    MergeEventTarget::Entry(e),
                    MergeEventType::Deleted,
                )
            &&& forall|object: Uuid| #[trigger]
                after.db.deleted_objects.contains_key(object)
                    && !marked.db.deleted_objects.contains_key(object) ==> reported(
                    after.log,
                    MergeEventTarget::Entry(EntryId(object)),
                    MergeEventType::Deleted,
                )
            &&& forall|e: EntryId|
                dest.entries.contains_key(e) && after.db.entries.contains_key(e) && (
                #[trigger] after.db.entries[e]).parent != dest.entries[e].parent ==> reported(
                    after.log,
                    MergeEventTarget::Entry(e),
                    MergeEventType::LocationUpdated,
                )
            &&& forall|e: EntryId|
                dest.entries.contains_key(e) && after.db.entries.contains_key(e) && (!same_entry(
                    #[trigger] after.db.entries[e],
                    dest.entries[e],
                ) || after.db.entries[e].times.last_modification
                    != dest.entries[e].times.last_modification) ==> reported(
                    after.log,
                    MergeEventTarget::Entry(e),
                    MergeEventType::Updated,
                )
            &&& forall|e: EntryId| #[trigger]
                dest.entries.contains_key(e) && source.entries.contains_key(e) && entry_conflict(
                    dest.entries[e],
                    source.entries[e],
                    base,
                    e,
                ) ==> after.log.warnings.contains(entry_conflict_text(e))
            &&& forall|e: EntryId| #[trigger]
                source.entries.contains_key(e) && !dest.entries.contains_key(e)
                    && dest.deleted_objects.contains_key(e.0) && base.entries.contains_key(e)
                    && !same_entry(source.entries[e], base.entries[e])
                    ==> after.log.warnings.contains(
                    "Entry "@ + ids::hyphenated(e.0.0)
                        + " was deleted in the destination but modified in the source since the common ancestor."@,
                )
            &&& forall|e: EntryId| #[trigger]
                dest.entries.contains_key(e) && !source.entries.contains_key(e)
                    && source.deleted_objects.contains_key(e.0) && base.entries.contains_key(e)
                    && !same_entry(dest.entries[e], base.entries[e])
                    ==> after.log.warnings.contains(
                    "Entry "@ + ids::hyphenated(e.0.0)
                        + " was modified in the destination but deleted in the source since the common ancestor."@,
                )
        }),
{
    lemma_marked(dest, source, base);
    let p = underway::marked(dest, source, base);
    let after = underway::assembled(dest, source, base, now);
    let ours = dest.entries.dom();
    let theirs = source.entries.dom();
    let offered_ids = order::ordered::<EntryId>(theirs.difference(ours));
    let missing_ids = order::ordered::<EntryId>(ours.difference(theirs));
    let common_ids = order::ordered::<EntryId>(ours.intersect(theirs));
    order::lemma_ordered_lists::<EntryId>(theirs.difference(ours));
    order::lemma_ordered_lists::<EntryId>(ours.difference(theirs));
    order::lemma_ordered_lists::<EntryId>(ours.intersect(theirs));
    order::lemma_increasing_no_duplicates::<EntryId>(missing_ids);
    order::lemma_increasing_no_duplicates::<EntryId>(common_ids);
    assert forall|e: EntryId| #[trigger] source.entries.contains_key(e) implies
        source.entries[e].id == e by {
        assert(crate::database::entry_placed(source.entries, source.groups, e));
    }
    assert forall|i: int| 0 <= i < offered_ids.len() implies source.entries.contains_key(
        #[trigger] offered_ids[i],
    ) by {
        assert(offered_ids.contains(offered_ids[i]));
        assert(theirs.difference(ours).contains(offered_ids[i]));
    }
    let offered = entries::all_offered(p, source, base, offered_ids);
    lemma_offered(p, source, base, offered_ids);
    merging::lemma_offered(p, source, base, offered_ids);
    let missing = entries::all_missing(offered, source, base, missing_ids);
    lemma_missing(offered, source, base, missing_ids);
    merging::lemma_missing(offered, source, base, missing_ids);
    assert(after == entries::all_common(missing, source, base, now, common_ids));
    assert forall|e: EntryId| #[trigger] dest.entries.contains_key(e) implies
        offered.db.entries.contains_key(e) && offered.db.entries[e] == dest.entries[e] by {
        assert(!theirs.difference(ours).contains(e));
        assert(!offered_ids.contains(e));
        assert(p.db.entries.contains_key(e));
    }
    assert forall|i: int| 0 <= i < common_ids.len() implies missing.db.entries.contains_key(
        #[trigger] common_ids[i],
    ) && source.entries.contains_key(common_ids[i]) by {
        let e = common_ids[i];
        assert(common_ids.contains(e));
        assert(ours.intersect(theirs).contains(e));
        assert(!ours.difference(theirs).contains(e));
        assert(!missing_ids.contains(e));
        assert(dest.entries.contains_key(e));
    }
    lemma_common(missing, source, base, now, common_ids);
    merging::lemma_common(missing, source, base, now, common_ids);
    lemma_extends(p.log, offered.log, missing.log);
    lemma_extends(offered.log, missing.log, after.log);
    lemma_extends(p.log, missing.log, after.log);
    assert forall|e: EntryId| #[trigger] after.db.entries.contains_key(e)
        == missing.db.entries.contains_key(e) by {
        assert(after.db.entries.dom().contains(e) == missing.db.entries.dom().contains(e));
    }
    assert forall|e: EntryId|
        dest.entries.contains_key(e) && #[trigger] missing.db.entries.contains_key(e) && (
        source.entries.contains_key(e)) implies missing.db.entries[e] == dest.entries[e] by {
        assert(!ours.difference(theirs).contains(e));
        assert(!missing_ids.contains(e));
        assert(offered.db.entries.contains_key(e));
    }
    assert forall|e: EntryId| #[trigger]
        after.db.entries.contains_key(e) && !dest.entries.contains_key(e) implies reported(
        after.log,
        MergeEventTarget::Entry(e),
        MergeEventType::Created,
    ) by {
        assert(missing.db.entries.contains_key(e));
        assert(offered.db.entries.contains_key(e));
        assert(reported(offered.log, MergeEventTarget::Entry(e), MergeEventType::Created));
    }
    assert forall|e: EntryId| #[trigger]
        dest.entries.contains_key(e) && !after.db.entries.contains_key(e) implies reported(
        after.log,
        MergeEventTarget::Entry(e),
        MergeEventType::Deleted,
    ) by {
        assert(offered.db.entries.contains_key(e));
        assert(!missing.db.entries.contains_key(e));
        assert(reported(missing.log, MergeEventTarget::Entry(e), MergeEventType::Deleted));
    }
    assert forall|object: Uuid| #[trigger]
        after.db.deleted_objects.contains_key(object) && !p.db.deleted_objects.contains_key(
            object,
        ) implies reported(
        after.log,
        MergeEventTarget::Entry(EntryId(object)),
        MergeEventType::Deleted,
    ) by {
        assert(missing.db.deleted_objects.contains_key(object));
        assert(reported(
            missing.log,
            MergeEventTarget::Entry(EntryId(object)),
            MergeEventType::Deleted,
        ));
    }
    assert forall|e: EntryId|
        dest.entries.contains_key(e) && after.db.entries.contains_key(e) implies {
        &&& (#[trigger] after.db.entries[e]).parent != dest.entries[e].parent ==> reported(
            after.log,
            MergeEventTarget::Entry(e),
            MergeEventType::LocationUpdated,
        )
        &&& !same_entry(after.db.entries[e], dest.entries[e])
            || after.db.entries[e].times.last_modification
            != dest.entries[e].times.last_modification ==> reported(
            after.log,
            MergeEventTarget::Entry(e),
            MergeEventType::Updated,
        )
    } by {
        assert(missing.db.entries.contains_key(e));
        assert(offered.db.entries.contains_key(e));
        if source.entries.contains_key(e) {
            assert(missing.db.entries[e] == dest.entries[e]);
        } else {
            assert(!ours.intersect(theirs).contains(e));
            assert(!common_ids.contains(e));
            assert(after.db.entries[e] == missing.db.entries[e]);
            lemma_left_alone(offered, source, base, missing_ids, e);
        }
    }
    assert forall|e: EntryId| #[trigger]
        dest.entries.contains_key(e) && source.entries.contains_key(e) && entry_conflict(
            dest.entries[e],
            source.entries[e],
            base,
            e,
        ) implies after.log.warnings.contains(entry_conflict_text(e)) by {
        assert(ours.intersect(theirs).contains(e));
        assert(common_ids.contains(e));
        let n = choose|n: int| 0 <= n < common_ids.len() && common_ids[n] == e;
        assert(missing.db.entries.contains_key(common_ids[n]));
        assert(missing.db.entries[e] == dest.entries[e]);
    }
    assert forall|e: EntryId| #[trigger]
        source.entries.contains_key(e) && !dest.entries.contains_key(e)
            && dest.deleted_objects.contains_key(e.0) && base.entries.contains_key(e)
            && !same_entry(
            source.entries[e],
            base.entries[e],
        ) implies after.log.warnings.contains(
        "Entry "@ + ids::hyphenated(e.0.0)
            + " was deleted in the destination but modified in the source since the common ancestor."@,
    ) by {
        assert(theirs.difference(ours).contains(e));
        assert(offered_ids.contains(e));
        lemma_deletions_stay(dest, source, base, e.0);
        let text = "Entry "@ + ids::hyphenated(e.0.0)
            + " was deleted in the destination but modified in the source since the common ancestor."@;
        assert(offered.log.warnings.contains(text));
    }
    assert forall|e: EntryId| #[trigger]
        dest.entries.contains_key(e) && !source.entries.contains_key(e)
            && source.deleted_objects.contains_key(e.0) && base.entries.contains_key(e)
            && !same_entry(
            dest.entries[e],
            base.entries[e],
        ) implies after.log.warnings.contains(
        "Entry "@ + ids::hyphenated(e.0.0)
            + " was modified in the destination but deleted in the source since the common ancestor."@,
    ) by {
        assert(ours.difference(theirs).contains(e));
        assert(missing_ids.contains(e));
        assert(offered.db.entries.contains_key(e));
        let text = "Entry "@ + ids::hyphenated(e.0.0)
            + " was modified in the destination but deleted in the source since the common ancestor."@;
        assert(missing.log.warnings.contains(text));
    }
}

/// A deletion that the destination knew is still known when the entries are merged.
proof fn lemma_deletions_stay(
    dest: DatabaseModel,
    source: DatabaseModel,
    base: DatabaseModel,
    object: Uuid,
)
    requires
        outcome::two_versions(dest, source),
        dest.deleted_objects.contains_key(object),
    ensures
        underway::marked(dest, source, base).db.deleted_objects.contains_key(object),
{
    merging::lemma_icons_carry_on(dest, source, base);
    merging::versions_of_a_database_are_mergeable(dest, source, base);
    underway::lemma_gathered(dest, source, base);
    let gathered = underway::gathered(dest, source, base);
    merging::lemma_groups_missing(
        gathered,
        source,
        base,
        order::ordered::<GroupId>(dest.groups.dom().difference(source.groups.dom())),
    );
    assert(icons::icons_merged(dest, source, base).deleted_objects.contains_key(object));
}

/// An entry that only the destination has and that is not deleted stays as it is.
proof fn lemma_left_alone(
    p: Progress,
    source: DatabaseModel,
    base: DatabaseModel,
    listed: Seq<EntryId>,
    e: EntryId,
)
    requires
        entries::all_missing(p, source, base, listed).db.entries.contains_key(e),
    ensures
        entries::all_missing(p, source, base, listed).db.entries[e] == p.db.entries[e],
    decreases listed.len(),
{
    if listed.len() > 0 {
        reveal(entries::entry_missing);
        lemma_left_alone(p, source, base, listed.drop_last(), e);
    }
}

/// Every entry that a merge creates, deletes, moves or updates is reported: an entry that is new
/// was created, one that both sides do not have any more was deleted, one in another group was
/// moved, and one of which a field or the modification time changed was updated.
pub proof fn every_change_of_an_entry_is_reported(
    dest: DatabaseModel,
    source: DatabaseModel,
    base: DatabaseModel,
    now: Timestamp,
    e: EntryId,
)
    requires
        outcome::two_versions(dest, source),
        merge::merged(dest, source, base, now).error is None,
    ensures
        ({
            let after = merge::merged(dest, source, base, now);
            let log = after.log;
            let target = MergeEventTarget::Entry(e);
            &&& after.db.entries.contains_key(e) && !dest.entries.contains_key(e) ==> reported(
                log,
                target,
                MergeEventType::Created,
            )
            &&& dest.entries.contains_key(e) && !source.entries.contains_key(e)
                && source.deleted_objects.contains_key(e.0) && !(source.deleted_objects[e.0] is Some
                && dest.entries[e].times.updated() is Some
                && source.deleted_objects[e.0]->0.before(dest.entries[e].times.updated()->0))
                ==> reported(log, target, MergeEventType::Deleted)
            &&& after.db.entries.contains_key(e) && dest.entries.contains_key(e) ==> {
                let ours = dest.entries[e];
                let entry = after.db.entries[e];
                &&& entry.parent != ours.parent ==> reported(
                    log,
                    target,
                    MergeEventType::LocationUpdated,
                )
                &&& entry.times.last_modification != ours.times.last_modification || !{
                    &&& entry.fields == ours.fields
                    &&& entry.autotype == ours.autotype
                    &&& entry.tags == ours.tags
                    &&& entry.custom_data == ours.custom_data
                    &&& entry.icon == ours.icon
                    &&& entry.foreground_color == ours.foreground_color
                    &&& entry.background_color == ours.background_color
                    &&& entry.override_url == ours.override_url
                    &&& entry.quality_check == ours.quality_check
                } ==> reported(log, target, MergeEventType::Updated)
            }
        }),
{
    lemma_whole(dest, source, base, now);
    lemma_assembled(dest, source, base, now);
    let before = underway::assembled(dest, source, base, now);
    let after = merge::merged(dest, source, base, now);
    lemma_extends(before.log, before.log, after.log);
    if after.db.entries.contains_key(e) {
        assert(before.db.entries.contains_key(e));
        assert(after.db.entries[e] == before.db.entries[e]);
    }
    if dest.entries.contains_key(e) && !source.entries.contains_key(e)
        && crate::merge::rules::buried(
        source.deleted_objects,
        e.0,
        dest.entries[e].times.updated(),
    ) {
        outcome::merge_takes_over_deletions(dest, source, base, now, e);
        outcome::lemma_assembled(dest, source, base, now);
        assert(!before.db.entries.contains_key(e));
    }
}

/// How the log and the entries end up once the groups are settled.
proof fn lemma_whole(
    dest: DatabaseModel,
    source: DatabaseModel,
    base: DatabaseModel,
    now: Timestamp,
)
    requires
        outcome::two_versions(dest, source),
        merge::merged(dest, source, base, now).error is None,
    ensures
        ({
            let before = underway::assembled(dest, source, base, now);
            let left = underway::left(dest, source, base, now);
            let after = merge::merged(dest, source, base, now);
            &&& before.error is None
            &&& left.error is None
            &&& gathering::bare(left.db).wf()
            &&& left.db.groups.dom().finite()
            &&& left.log == before.log
            &&& extends(before.log, after.log)
            &&& after == groups::groups_settled(left, source, base, now)
            &&& after.db.groups.dom() == left.db.groups.dom()
            &&& after.db.deleted_objects == before.db.deleted_objects
            &&& forall|e: EntryId| #[trigger]
                after.db.entries.contains_key(e) ==> before.db.entries.contains_key(e)
                    && after.db.entries[e] == before.db.entries[e]
            &&& gathering::groups_from(left.db.groups, dest, source)
            &&& left.db.groups.dom().subset_of(
                underway::gathered(dest, source, base).db.groups.dom(),
            )
        }),
{
    outcome::lemma_left(dest, source, base, now);
    outcome::lemma_assembled(dest, source, base, now);
    let before = underway::assembled(dest, source, base, now);
    let left = underway::left(dest, source, base, now);
    lemma_groups_settled(left, source, base, now);
    gathering::lemma_groups_settled(left, source, base, now);
    let after = merge::merged(dest, source, base, now);
    assert forall|e: EntryId| #[trigger] after.db.entries.contains_key(e) implies
        before.db.entries.contains_key(e) && after.db.entries[e] == before.db.entries[e] by {
        assert(left.db.entries.dom().contains(e));
        assert(before.db.entries.dom().contains(e));
    }
}

/// Every group that a merge creates, moves or updates is reported: a group that is new was created,
/// one in another group was moved, and one of which a field or the modification time changed was
/// updated.
pub proof fn every_change_of_a_group_is_reported(
    dest: DatabaseModel,
    source: DatabaseModel,
    base: DatabaseModel,
    now: Timestamp,
    g: GroupId,
)
    requires
        outcome::two_versions(dest, source),
        merge::merged(dest, source, base, now).error is None,
        merge::merged(dest, source, base, now).db.groups.contains_key(g),
    ensures
        ({
            let after = merge::merged(dest, source, base, now);
            let log = after.log;
            let target = MergeEventTarget::Group(g);
            let group = after.db.groups[g];
            let ours = dest.groups[g];
            &&& !dest.groups.contains_key(g) ==> reported(log, target, MergeEventType::Created)
            &&& dest.groups.contains_key(g) ==> {
                &&& group.parent != ours.parent ==> reported(
                    log,
                    target,
                    MergeEventType::LocationUpdated,
                )
                &&& group.times.last_modification != ours.times.last_modification || !{
                    &&& group.name == ours.name
                    &&& group.notes == ours.notes
                    &&& group.icon == ours.icon
                    &&& group.custom_data == ours.custom_data
                    &&& group.is_expanded == ours.is_expanded
                    &&& group.default_autotype_sequence == ours.default_autotype_sequence
                    &&& group.enable_autotype == ours.enable_autotype
                    &&& group.enable_searching == ours.enable_searching
                } ==> reported(log, target, MergeEventType::Updated)
            }
        }),
{
    lemma_whole(dest, source, base, now);
    lemma_marked(dest, source, base);
    lemma_assembled(dest, source, base, now);
    let gathered = underway::gathered(dest, source, base);
    let marked = underway::marked(dest, source, base);
    let left = underway::left(dest, source, base, now);
    let after = merge::merged(dest, source, base, now);
    lemma_extends(gathered.log, marked.log, left.log);
    lemma_extends(gathered.log, left.log, after.log);
    lemma_groups_settled(left, source, base, now);
    assert(after.db.groups.dom().contains(g));
    assert(left.db.groups.dom().contains(g));
    assert(left.db.groups.contains_key(g));
    assert(gathered.db.groups.dom().contains(g));
    if dest.groups.contains_key(g) {
        lemma_alike(left.db.groups[g], dest.groups[g]);
    } else {
        assert(gathered.db.groups.contains_key(g));
        assert(reported(gathered.log, MergeEventTarget::Group(g), MergeEventType::Created));
    }
}

/// Both sides changed an entry or a group since the common ancestor, at different times and to
/// different fields: a merge warns of it, of a group if it can be put where the later move has it.
pub proof fn every_conflict_is_warned_of(
    dest: DatabaseModel,
    source: DatabaseModel,
    base: DatabaseModel,
    now: Timestamp,
    e: EntryId,
    g: GroupId,
)
    requires
        outcome::two_versions(dest, source),
        merge::merged(dest, source, base, now).error is None,
    ensures
        ({
            let after = merge::merged(dest, source, base, now);
            &&& dest.entries.contains_key(e) && source.entries.contains_key(e) && entry_conflict(
                dest.entries[e],
                source.entries[e],
                base,
                e,
            ) ==> after.log.warnings.contains(
                "Entry "@ + ids::hyphenated(e.0.0)
                    + " was modified in both databases since the common ancestor. Resolving by keeping the most recently modified version."@,
            )
            &&& dest.groups.contains_key(g) && source.groups.contains_key(g)
                && after.db.groups.contains_key(g) && group_conflict(
                dest.groups[g],
                source.groups[g],
                base,
                g,
            ) && (dest.groups[g].parent == source.groups[g].parent || source.groups[g].parent
                is Some && after.db.groups.contains_key(source.groups[g].parent->0))
                ==> after.log.warnings.contains(
                "Group "@ + ids::hyphenated(g.0.0)
                    + " was modified in both databases since the common ancestor. Resolving by keeping the most recently modified version."@,
            )
        }),
{
    lemma_whole(dest, source, base, now);
    lemma_assembled(dest, source, base, now);
    let left = underway::left(dest, source, base, now);
    let after = merge::merged(dest, source, base, now);
    lemma_extends(left.log, left.log, after.log);
    lemma_groups_settled(left, source, base, now);
    if after.db.groups.contains_key(g) && dest.groups.contains_key(g) {
        assert(after.db.groups.dom().contains(g));
        assert(left.db.groups.dom().contains(g));
        assert(left.db.groups.contains_key(g));
        lemma_alike(left.db.groups[g], dest.groups[g]);
        if source.groups.contains_key(g) && source.groups[g].parent is Some {
            let parent = source.groups[g].parent->0;
            assert(after.db.groups.contains_key(parent) == after.db.groups.dom().contains(parent));
        }
    }
}

/// A side deleted what the other modified since the common ancestor: a merge warns of it.
pub proof fn every_deletion_of_modified_objects_is_warned_of(
    dest: DatabaseModel,
    source: DatabaseModel,
    base: DatabaseModel,
    now: Timestamp,
    e: EntryId,
    g: GroupId,
)
    requires
        outcome::two_versions(dest, source),
        merge::merged(dest, source, base, now).error is None,
    ensures
        ({
            let warnings = merge::merged(dest, source, base, now).log.warnings;
            &&& source.entries.contains_key(e) && !dest.entries.contains_key(e)
                && dest.deleted_objects.contains_key(e.0) && base.entries.contains_key(e)
                && !same_entry(source.entries[e], base.entries[e]) ==> warnings.contains(
                "Entry "@ + ids::hyphenated(e.0.0)
                    + " was deleted in the destination but modified in the source since the common ancestor."@,
            )
            &&& dest.entries.contains_key(e) && !source.entries.contains_key(e)
                && source.deleted_objects.contains_key(e.0) && base.entries.contains_key(e)
                && !same_entry(dest.entries[e], base.entries[e]) ==> warnings.contains(
                "Entry "@ + ids::hyphenated(e.0.0)
                    + " was modified in the destination but deleted in the source since the common ancestor."@,
            )
            &&& source.groups.contains_key(g) && !dest.groups.contains_key(g)
                && dest.deleted_objects.contains_key(g.0) && base.groups.contains_key(g)
                && !same_group(source.groups[g], base.groups[g]) ==> warnings.contains(
                "Group "@ + ids::hyphenated(g.0.0)
                    + " was deleted in the destination but modified in the source since the common ancestor."@,
            )
            &&& dest.groups.contains_key(g) && !source.groups.contains_key(g)
                && source.deleted_objects.contains_key(g.0) && base.groups.contains_key(g)
                && !same_group(dest.groups[g], base.groups[g]) ==> warnings.contains(
                "Group "@ + ids::hyphenated(g.0.0)
                    + " was modified in the destination but deleted in the source since the common ancestor."@,
            )
        }),
{
    lemma_whole(dest, source, base, now);
    lemma_marked(dest, source, base);
    lemma_assembled(dest, source, base, now);
    let gathered = underway::gathered(dest, source, base);
    let marked = underway::marked(dest, source, base);
    let before = underway::assembled(dest, source, base, now);
    let after = merge::merged(dest, source, base, now);
    lemma_extends(gathered.log, marked.log, before.log);
    lemma_extends(marked.log, before.log, after.log);
}

/// Every deletion that a merge takes over is reported, for an entry, a group or an icon.
pub proof fn every_deletion_is_reported(
    dest: DatabaseModel,
    source: DatabaseModel,
    base: DatabaseModel,
    now: Timestamp,
    object: Uuid,
)
    requires
        outcome::two_versions(dest, source),
        merge::merged(dest, source, base, now).error is None,
        merge::merged(dest, source, base, now).db.deleted_objects.contains_key(object),
        !dest.deleted_objects.contains_key(object),
    ensures
        ({
            let log = merge::merged(dest, source, base, now).log;
            ||| reported(log, MergeEventTarget::Entry(EntryId(object)), MergeEventType::Deleted)
            ||| reported(log, MergeEventTarget::Group(GroupId(object)), MergeEventType::Deleted)
            ||| reported(log, MergeEventTarget::Icon(CustomIconId(object)), MergeEventType::Deleted)
        }),
{
    lemma_whole(dest, source, base, now);
    lemma_marked(dest, source, base);
    lemma_assembled(dest, source, base, now);
    let i = CustomIconId(object);
    let start = icons::icons_merged(dest, source, base);
    let log = icon_log(dest, source, base);
    let gathered = underway::gathered(dest, source, base);
    let marked = underway::marked(dest, source, base);
    let before = underway::assembled(dest, source, base, now);
    let after = merge::merged(dest, source, base, now);
    lemma_extends(log, gathered.log, marked.log);
    lemma_extends(log, marked.log, before.log);
    lemma_extends(marked.log, before.log, after.log);
    lemma_extends(log, before.log, after.log);
    lemma_icons(dest, source, base, LogModel::blank(), i);
    if start.deleted_objects.contains_key(object) {
        assert(icons::icon_deleted(dest, source, i));
        let mid = choose|mid: LogModel|
            extends(#[trigger] icons::missing_log(dest, source, base, i, mid), log);
        let noted = icons::missing_log(dest, source, base, i, mid);
        assert(noted.events[mid.events.len() as int] == (MergeEvent {
            target: MergeEventTarget::Icon(i),
            event_type: MergeEventType::Deleted,
        }));
        lemma_extends(noted, log, after.log);
        assert(reported(noted, MergeEventTarget::Icon(i), MergeEventType::Deleted));
        assert(reported(log, MergeEventTarget::Icon(i), MergeEventType::Deleted));
    } else if marked.db.deleted_objects.contains_key(object) {
        assert(reported(
            marked.log,
            MergeEventTarget::Group(GroupId(object)),
            MergeEventType::Deleted,
        ));
    } else {
        assert(reported(
            before.log,
            MergeEventTarget::Entry(EntryId(object)),
            MergeEventType::Deleted,
        ));
    }
}

/// Every change of an icon is reported, and conflicts are warned of: an icon that is new was
/// created, one that is gone was deleted, and one that changed was updated. Icons that both sides
/// changed since the common ancestor, at different times, are warned of if they differ.
pub proof fn every_change_of_an_icon_is_reported(
    dest: DatabaseModel,
    source: DatabaseModel,
    base: DatabaseModel,
    now: Timestamp,
    i: CustomIconId,
)
    requires
        outcome::two_versions(dest, source),
        merge::merged(dest, source, base, now).error is None,
    ensures
        ({
            let after = merge::merged(dest, source, base, now);
            let target = MergeEventTarget::Icon(i);
            let ours = dest.custom_icons[i];
            let theirs = source.custom_icons[i];
            let origin = base.custom_icons[i];
            let here = dest.custom_icons.contains_key(i);
            let there = source.custom_icons.contains_key(i);
            let stays = after.db.custom_icons.contains_key(i);
            &&& stays && !here ==> reported(after.log, target, MergeEventType::Created)
            &&& here && !stays ==> reported(after.log, target, MergeEventType::Deleted)
            &&& stays && here && after.db.custom_icons[i] != ours ==> reported(
                after.log,
                target,
                MergeEventType::Updated,
            )
            &&& here && there && ours != theirs && ours.last_modification_time is Some
                && theirs.last_modification_time is Some && ours.last_modification_time
                != theirs.last_modification_time && base.custom_icons.contains_key(i)
                && origin.last_modification_time is Some && origin.last_modification_time->0.before(
                ours.last_modification_time->0,
            ) && origin.last_modification_time->0.before(theirs.last_modification_time->0)
                ==> after.log.warnings.contains(
                "Custom icon "@ + ids::hyphenated(i.0.0)
                    + " was modified in both databases since the common ancestor. Resolving by keeping the most recently modified version."@,
            )
        }),
{
    lemma_whole(dest, source, base, now);
    lemma_marked(dest, source, base);
    lemma_assembled(dest, source, base, now);
    merging::merge_settles_the_icons(dest, source, base, now);
    let log = icon_log(dest, source, base);
    let gathered = underway::gathered(dest, source, base);
    let marked = underway::marked(dest, source, base);
    let before = underway::assembled(dest, source, base, now);
    let after = merge::merged(dest, source, base, now);
    lemma_extends(log, gathered.log, marked.log);
    lemma_extends(log, marked.log, before.log);
    lemma_extends(log, before.log, after.log);
    lemma_icons(dest, source, base, LogModel::blank(), i);
    let here = dest.custom_icons.contains_key(i);
    let there = source.custom_icons.contains_key(i);
    if there && !here {
        let mid = choose|mid: LogModel|
            extends(#[trigger] icons::offered_log(dest, source, base, i, mid), log);
        let noted = icons::offered_log(dest, source, base, i, mid);
        lemma_extends(noted, log, after.log);
        if icons::icon_revived(dest, source, i) {
            assert(noted.events[mid.events.len() as int] == (MergeEvent {
                target: MergeEventTarget::Icon(i),
                event_type: MergeEventType::Created,
            }));
            assert(reported(noted, MergeEventTarget::Icon(i), MergeEventType::Created));
        }
    } else if here && !there {
        let mid = choose|mid: LogModel|
            extends(#[trigger] icons::missing_log(dest, source, base, i, mid), log);
        let noted = icons::missing_log(dest, source, base, i, mid);
        lemma_extends(noted, log, after.log);
        if icons::icon_buried(dest, source, i) {
            assert(noted.events[mid.events.len() as int] == (MergeEvent {
                target: MergeEventTarget::Icon(i),
                event_type: MergeEventType::Deleted,
            }));
            assert(reported(noted, MergeEventTarget::Icon(i), MergeEventType::Deleted));
        }
    } else if here && there {
        let mid = choose|mid: LogModel|
            extends(#[trigger] icons::common_log(dest, source, base, i, mid), log);
        let noted = icons::common_log(dest, source, base, i, mid);
        lemma_extends(noted, log, after.log);
        let ours = dest.custom_icons[i];
        let theirs = source.custom_icons[i];
        if icons::source_wins(ours, theirs, base.custom_icons, i) {
            assert(noted.events[mid.events.len() as int] == (MergeEvent {
                target: MergeEventTarget::Icon(i),
                event_type: MergeEventType::Updated,
            }));
            assert(reported(noted, MergeEventTarget::Icon(i), MergeEventType::Updated));
        }
        if icons::in_conflict(ours, theirs, base.custom_icons, i) {
            assert(noted.warnings[noted.warnings.len() - 1] == icons::modified_in_both(i));
            assert(noted.warnings.contains(icons::modified_in_both(i)));
            assert(log.warnings.contains(icons::modified_in_both(i)));
        }
    }
}

} // verus!
