//! When a merge finds nothing to do.

use vstd::prelude::*;
use crate::database::DatabaseModel;
use crate::entry::EntryModel;
use crate::group::GroupModel;
use crate::ids::CustomIconId;
use crate::ids::EntryId;
use crate::ids::GroupId;
use crate::merge;
use crate::merge::entries;
use crate::merge::entries::Progress;
use crate::merge::groups;
use crate::merge::groups::Placement;
use crate::merge::groups::Regrouping;
use crate::merge::history;
use crate::merge::icons;
use crate::merge::log::LogModel;
use crate::merge::rules;
use crate::order;
use crate::remap;
use crate::times::Timestamp;

verus! {

/// Whether a merge has nothing to do for the custom icons: none is to be added, deleted or
/// updated.
pub open spec fn quiet_icons(dest: DatabaseModel, source: DatabaseModel, base: DatabaseModel) -> bool {
    &&& forall|i: CustomIconId| #[trigger]
        source.custom_icons.contains_key(i) && !dest.custom_icons.contains_key(i)
            ==> !icons::icon_revived(dest, source, i)
    &&& forall|i: CustomIconId| #[trigger]
        dest.custom_icons.contains_key(i) && !source.custom_icons.contains_key(i)
            ==> !icons::icon_buried(dest, source, i)
    &&& forall|i: CustomIconId| #[trigger]
        dest.custom_icons.contains_key(i) && source.custom_icons.contains_key(i)
            ==> !icons::source_wins(
            dest.custom_icons[i],
            source.custom_icons[i],
            base.custom_icons,
            i,
        )
}

/// Whether a merge has nothing to do for a group that both sides have: it is not to be moved, and
/// its content stays. A group that cannot be put where the source has it is left alone.
pub open spec fn quiet_group(
    ours: GroupModel,
    theirs: GroupModel,
    known: Set<GroupId>,
    base: DatabaseModel,
    g: GroupId,
) -> bool {
    &&& ours.times.last_modification is Some
    &&& theirs.times.last_modification is Some
    &&& match groups::placement(ours, theirs, known) {
        Placement::Move(_, _) => false,
        Placement::SourceRoot => true,
        Placement::Nowhere(_) => true,
        _ => groups::verdict(
            ours,
            ours.times.last_modification->0,
            theirs,
            theirs.times.last_modification->0,
            base.groups,
            g,
        ) is Keep,
    }
}

/// Whether an entry that both sides have is not to be moved: it is where the source has it, the
/// source is not known to have moved it later, or the group that it would go to is missing.
pub open spec fn stays(ours: EntryModel, theirs: EntryModel, known: Set<GroupId>) -> bool {
    ||| ours.parent == theirs.parent
    ||| match (theirs.times.location_changed, ours.times.location_changed) {
        (Some(their_move), Some(our_move)) => !our_move.before(their_move) || !known.contains(
            theirs.parent,
        ),
        _ => true,
    }
}

/// Whether a merge has nothing to do for an entry that only the source has: the destination deleted
/// it since, or its group is missing and its attachments are there already.
pub open spec fn quiet_offer(dest: DatabaseModel, source: DatabaseModel, e: EntryId) -> bool {
    ||| !rules::revived(dest.deleted_objects, e.0, source.entries[e].times.updated())
    ||| !dest.groups.contains_key(source.entries[e].parent) && remap::entry_remapped(
        source.entries[e],
        source.attachments,
        dest.attachments,
    ).1 == dest.attachments
}

/// Whether a merge has nothing to do for an entry that both sides have: it is not to be moved, its
/// content stays, and the merging of the histories gives the history that is there.
pub open spec fn quiet_entry(
    dest: DatabaseModel,
    source: DatabaseModel,
    base: DatabaseModel,
    e: EntryId,
) -> bool {
    let ours = dest.entries[e];
    let theirs = source.entries[e];
    &&& ours.times.last_modification is Some
    &&& theirs.times.last_modification is Some
    &&& stays(ours, theirs, dest.groups.dom())
    &&& match entries::verdict(
        ours,
        dest.attachments,
        ours.times.last_modification->0,
        theirs,
        source.attachments,
        theirs.times.last_modification->0,
        base,
        e,
    ) {
        entries::Verdict::Keep => true,
        entries::Verdict::Undecidable => false,
        entries::Verdict::Blend { take_source, .. } => !take_source && entries::entry_blended(
            dest,
            LogModel::blank(),
            source,
            e,
            false,
        ).db == dest,
    }
}

/// Whether a merge has nothing to do.
pub open spec fn quiet(dest: DatabaseModel, source: DatabaseModel, base: DatabaseModel) -> bool {
    &&& quiet_icons(dest, source, base)
    &&& forall|g: GroupId| #[trigger]
        source.groups.contains_key(g) && !dest.groups.contains_key(g) ==> !groups::group_revived(
            dest.deleted_objects,
            source,
            g,
        )
    &&& forall|g: GroupId| #[trigger]
        dest.groups.contains_key(g) && !source.groups.contains_key(g) ==> !groups::group_buried(
            dest.groups,
            dest.entries,
            source,
            g,
        )
    &&& forall|g: GroupId| #[trigger]
        dest.groups.contains_key(g) && source.groups.contains_key(g) ==> quiet_group(
            dest.groups[g],
            source.groups[g],
            dest.groups.dom(),
            base,
            g,
        )
    &&& forall|e: EntryId| #[trigger]
        source.entries.contains_key(e) && !dest.entries.contains_key(e) ==> quiet_offer(
            dest,
            source,
            e,
        )
    &&& forall|e: EntryId| #[trigger]
        dest.entries.contains_key(e) && !source.entries.contains_key(e) ==> !rules::buried(
            source.deleted_objects,
            e.0,
            dest.entries[e].times.updated(),
        )
    &&& forall|e: EntryId| #[trigger]
        dest.entries.contains_key(e) && source.entries.contains_key(e) ==> quiet_entry(
            dest,
            source,
            base,
            e,
        )
}

/// Whether a step of a merge left the database as it is, noted no change and met no error.
pub open spec fn same_but_warnings(before: Progress, after: Progress) -> bool {
    &&& after.db == before.db
    &&& after.log.events == before.log.events
    &&& after.error is None
}

proof fn lemma_icons(dest: DatabaseModel, source: DatabaseModel, base: DatabaseModel, log: LogModel)
    requires
        dest.finite(),
        source.finite(),
        quiet_icons(dest, source, base),
    ensures
        icons::icons_merged(dest, source, base) == dest,
        icons::icons_log(dest, source, base, log).events == log.events,
{
    let after = icons::icons_merged(dest, source, base);
    assert(after.custom_icons =~= dest.custom_icons);
    assert(after.deleted_objects =~= dest.deleted_objects) by {
        assert forall|object: crate::ids::Uuid| !(#[trigger] icons::icon_deleted(
            dest,
            source,
            CustomIconId(object),
        )) by {}
    }
    assert(after =~= dest);
    let ours = order::ordered::<CustomIconId>(dest.custom_icons.dom());
    let theirs = order::ordered::<CustomIconId>(source.custom_icons.dom());
    order::lemma_ordered_lists::<CustomIconId>(dest.custom_icons.dom());
    order::lemma_ordered_lists::<CustomIconId>(source.custom_icons.dom());
    assert forall|i: int| 0 <= i < ours.len() implies dest.custom_icons.contains_key(
        #[trigger] ours[i],
    ) by {
        assert(ours.contains(ours[i]));
        assert(dest.custom_icons.dom().contains(ours[i]));
    }
    assert forall|i: int| 0 <= i < theirs.len() implies source.custom_icons.contains_key(
        #[trigger] theirs[i],
    ) by {
        assert(theirs.contains(theirs[i]));
        assert(source.custom_icons.dom().contains(theirs[i]));
    }
    lemma_offered_icons(dest, source, base, theirs, log);
    let offered = icons::offered_logs(dest, source, base, theirs, log);
    lemma_our_icons(dest, source, base, ours, offered);
    let missing = icons::missing_logs(dest, source, base, ours, offered);
    lemma_our_icons(dest, source, base, ours, missing);
}

proof fn lemma_offered_icons(
    dest: DatabaseModel,
    source: DatabaseModel,
    base: DatabaseModel,
    listed: Seq<CustomIconId>,
    log: LogModel,
)
    requires
        quiet_icons(dest, source, base),
        forall|i: int|
            0 <= i < listed.len() ==> source.custom_icons.contains_key(#[trigger] listed[i]),
    ensures
        icons::offered_logs(dest, source, base, listed, log).events == log.events,
    decreases listed.len(),
{
    if listed.len() > 0 {
        let shorter = listed.drop_last();
        assert forall|i: int| 0 <= i < shorter.len() implies source.custom_icons.contains_key(
            #[trigger] shorter[i],
        ) by {
            assert(shorter[i] == listed[i]);
        }
        lemma_offered_icons(dest, source, base, shorter, log);
        assert(source.custom_icons.contains_key(listed[listed.len() - 1]));
    }
}

proof fn lemma_our_icons(
    dest: DatabaseModel,
    source: DatabaseModel,
    base: DatabaseModel,
    listed: Seq<CustomIconId>,
    log: LogModel,
)
    requires
        quiet_icons(dest, source, base),
        forall|i: int|
            0 <= i < listed.len() ==> dest.custom_icons.contains_key(#[trigger] listed[i]),
    ensures
        icons::missing_logs(dest, source, base, listed, log).events == log.events,
        icons::common_logs(dest, source, base, listed, log).events == log.events,
    decreases listed.len(),
{
    if listed.len() > 0 {
        let shorter = listed.drop_last();
        assert forall|i: int| 0 <= i < shorter.len() implies dest.custom_icons.contains_key(
            #[trigger] shorter[i],
        ) by {
            assert(shorter[i] == listed[i]);
        }
        lemma_our_icons(dest, source, base, shorter, log);
        assert(dest.custom_icons.contains_key(listed[listed.len() - 1]));
    }
}

proof fn lemma_offers(
    log: LogModel,
    deleted: rules::Tombstones,
    source: DatabaseModel,
    base: DatabaseModel,
    listed: Seq<GroupId>,
)
    ensures
        groups::offers_logged(log, deleted, source, base, listed).events == log.events,
    decreases listed.len(),
{
    if listed.len() > 0 {
        lemma_offers(log, deleted, source, base, listed.drop_last());
    }
}

pub proof fn lemma_our_groups(
    p: Progress,
    source: DatabaseModel,
    base: DatabaseModel,
    listed: Seq<GroupId>,
)
    requires
        p.error is None,
        forall|i: int|
            0 <= i < listed.len() ==> !groups::group_buried(
                p.db.groups,
                p.db.entries,
                source,
                #[trigger] listed[i],
            ),
    ensures
        same_but_warnings(p, groups::all_missing(p, source, base, listed)),
        groups::doomed(p.db.groups, p.db.entries, source, listed) == Seq::<GroupId>::empty(),
    decreases listed.len(),
{
    reveal(Seq::filter);
    if listed.len() > 0 {
        let shorter = listed.drop_last();
        assert forall|i: int| 0 <= i < shorter.len() implies !groups::group_buried(
            p.db.groups,
            p.db.entries,
            source,
            #[trigger] shorter[i],
        ) by {
            assert(shorter[i] == listed[i]);
        }
        lemma_our_groups(p, source, base, shorter);
        assert(!groups::group_buried(
            p.db.groups,
            p.db.entries,
            source,
            listed[listed.len() - 1],
        ));
    } else {
        assert(groups::doomed(p.db.groups, p.db.entries, source, listed)
            =~= Seq::<GroupId>::empty());
    }
}

proof fn lemma_offered_entries(
    p: Progress,
    source: DatabaseModel,
    base: DatabaseModel,
    listed: Seq<EntryId>,
)
    requires
        p.error is None,
        forall|i: int| 0 <= i < listed.len() ==> quiet_offer(p.db, source, #[trigger] listed[i]),
    ensures
        same_but_warnings(p, entries::all_offered(p, source, base, listed)),
    decreases listed.len(),
{
    if listed.len() > 0 {
        let shorter = listed.drop_last();
        assert forall|i: int| 0 <= i < shorter.len() implies quiet_offer(
            p.db,
            source,
            #[trigger] shorter[i],
        ) by {
            assert(shorter[i] == listed[i]);
        }
        lemma_offered_entries(p, source, base, shorter);
        reveal(entries::entry_offered);
        assert(quiet_offer(p.db, source, listed[listed.len() - 1]));
    }
}

proof fn lemma_missing_entries(
    p: Progress,
    source: DatabaseModel,
    base: DatabaseModel,
    listed: Seq<EntryId>,
)
    requires
        p.error is None,
        forall|i: int|
            0 <= i < listed.len() ==> !rules::buried(
                source.deleted_objects,
                (#[trigger] listed[i]).0,
                p.db.entries[listed[i]].times.updated(),
            ),
    ensures
        same_but_warnings(p, entries::all_missing(p, source, base, listed)),
    decreases listed.len(),
{
    if listed.len() > 0 {
        let shorter = listed.drop_last();
        assert forall|i: int| 0 <= i < shorter.len() implies !rules::buried(
            source.deleted_objects,
            (#[trigger] shorter[i]).0,
            p.db.entries[shorter[i]].times.updated(),
        ) by {
            assert(shorter[i] == listed[i]);
        }
        lemma_missing_entries(p, source, base, shorter);
        reveal(entries::entry_missing);
        let last = listed[listed.len() - 1];
        assert(!rules::buried(
            source.deleted_objects,
            last.0,
            p.db.entries[last].times.updated(),
        ));
    }
}

/// The merging of histories notes no change.
proof fn lemma_history_log(
    log: LogModel,
    ours: Seq<EntryModel>,
    theirs: Seq<EntryModel>,
    source: crate::attachment::Pool,
    pool: crate::attachment::Pool,
)
    ensures
        history::history_logged(log, ours, theirs, source, pool).events == log.events,
{
    lemma_undated_log(log, "Destination"@, ours);
    let first = history::undated_logged(log, "Destination"@, ours);
    lemma_undated_log(first, "Source"@, theirs);
    let second = history::undated_logged(first, "Source"@, theirs);
    lemma_conflict_log(
        second,
        history::our_side(ours),
        history::their_side(theirs, source, pool),
        history::all_carried(theirs, source, pool).1,
    );
}

proof fn lemma_undated_log(log: LogModel, side: Seq<char>, versions: Seq<EntryModel>)
    ensures
        history::undated_logged(log, side, versions).events == log.events,
    decreases versions.len(),
{
    if versions.len() > 0 {
        lemma_undated_log(log, side, versions.drop_last());
    }
}

proof fn lemma_conflict_log(
    log: LogModel,
    ours: Seq<EntryModel>,
    theirs: Seq<EntryModel>,
    pool: crate::attachment::Pool,
)
    ensures
        history::conflicts_logged(log, ours, theirs, pool).events == log.events,
    decreases ours.len() + theirs.len(),
{
    if ours.len() == 0 || theirs.len() == 0 {
    } else if history::time_of(theirs.last()).before(history::time_of(ours.last())) {
        lemma_conflict_log(log, ours.drop_last(), theirs, pool);
    } else if history::time_of(ours.last()).before(history::time_of(theirs.last())) {
        lemma_conflict_log(log, ours, theirs.drop_last(), pool);
    } else {
        lemma_conflict_log(
            log.warned_if(
                !remap::equivalent(ours.last(), pool, theirs.last(), pool),
                history::versions_diverged(ours.last().id, history::time_of(theirs.last())),
            ),
            ours.drop_last(),
            theirs.drop_last(),
            pool,
        );
    }
}

/// An entry for which there is nothing to do is left alone.
proof fn lemma_quiet_entry(
    p: Progress,
    source: DatabaseModel,
    base: DatabaseModel,
    now: Timestamp,
    e: EntryId,
)
    requires
        p.error is None,
        quiet_entry(p.db, source, base, e),
    ensures
        same_but_warnings(p, entries::entry_common(p, source, base, now, e)),
{
    reveal(entries::entry_common);
    let our_versions = entries::versions_or_none(p.db.entries[e].history);
    let their_versions = entries::versions_or_none(source.entries[e].history);
    assert forall|log: LogModel|
        (#[trigger] history::history_logged(
            log,
            our_versions,
            their_versions,
            source.attachments,
            p.db.attachments,
        )).events == log.events by {
        lemma_history_log(
            log,
            our_versions,
            their_versions,
            source.attachments,
            p.db.attachments,
        );
    }
}

proof fn lemma_common_entries(
    p: Progress,
    source: DatabaseModel,
    base: DatabaseModel,
    now: Timestamp,
    listed: Seq<EntryId>,
)
    requires
        p.error is None,
        forall|i: int|
            0 <= i < listed.len() ==> quiet_entry(p.db, source, base, #[trigger] listed[i]),
    ensures
        same_but_warnings(p, entries::all_common(p, source, base, now, listed)),
    decreases listed.len(),
{
    if listed.len() > 0 {
        let shorter = listed.drop_last();
        assert forall|i: int| 0 <= i < shorter.len() implies quiet_entry(
            p.db,
            source,
            base,
            #[trigger] shorter[i],
        ) by {
            assert(shorter[i] == listed[i]);
        }
        lemma_common_entries(p, source, base, now, shorter);
        let before = entries::all_common(p, source, base, now, shorter);
        assert(quiet_entry(p.db, source, base, listed[listed.len() - 1]));
        lemma_quiet_entry(before, source, base, now, listed.last());
    }
}

proof fn lemma_common_groups(
    r: Regrouping,
    source: DatabaseModel,
    base: DatabaseModel,
    now: Timestamp,
    known: Set<GroupId>,
    listed: Seq<GroupId>,
)
    requires
        r.p.error is None,
        forall|i: int|
            0 <= i < listed.len() ==> quiet_group(
                r.p.db.groups[#[trigger] listed[i]],
                source.groups[listed[i]],
                known,
                base,
                listed[i],
            ),
    ensures
        ({
            let after = groups::all_common(r, source, base, now, known, listed);
            same_but_warnings(r.p, after.p) && after.moves == r.moves
        }),
    decreases listed.len(),
{
    if listed.len() > 0 {
        let shorter = listed.drop_last();
        assert forall|i: int| 0 <= i < shorter.len() implies quiet_group(
            r.p.db.groups[#[trigger] shorter[i]],
            source.groups[shorter[i]],
            known,
            base,
            shorter[i],
        ) by {
            assert(shorter[i] == listed[i]);
        }
        lemma_common_groups(r, source, base, now, known, shorter);
        reveal(groups::group_common);
        let last = listed[listed.len() - 1];
        assert(quiet_group(r.p.db.groups[last], source.groups[last], known, base, last));
    }
}

/// A merge that has nothing to do does nothing: the database stays as it is, no change is noted
/// and there is no error.
pub proof fn quiet_merge_changes_nothing(
    dest: DatabaseModel,
    source: DatabaseModel,
    base: DatabaseModel,
    now: Timestamp,
)
    requires
        dest.finite(),
        source.finite(),
        quiet(dest, source, base),
    ensures
        ({
            let after = merge::merged(dest, source, base, now);
            &&& after.db == dest
            &&& after.error is None
            &&& after.log.events == Seq::<crate::merge::log::MergeEvent>::empty()
        }),
{
    lemma_icons(dest, source, base, LogModel::blank());
    let p = entries::going(dest, icons::icons_log(dest, source, base, LogModel::blank()));
    crate::laws::self_merge::lemma_nothing_listed::<GroupId>();
    let offered_groups = order::ordered::<GroupId>(
        source.groups.dom().difference(dest.groups.dom()),
    );
    lemma_offers(p.log, dest.deleted_objects, source, base, offered_groups);
    assert(groups::groups_to_add(dest, source) =~= Set::<GroupId>::empty());
    let added = groups::groups_added(p, source, base);
    assert(same_but_warnings(p, added));

    let only_ours = order::ordered::<GroupId>(dest.groups.dom().difference(source.groups.dom()));
    order::lemma_ordered_lists::<GroupId>(dest.groups.dom().difference(source.groups.dom()));
    assert forall|i: int| 0 <= i < only_ours.len() implies !groups::group_buried(
        dest.groups,
        dest.entries,
        source,
        #[trigger] only_ours[i],
    ) by {
        assert(only_ours.contains(only_ours[i]));
        assert(dest.groups.dom().difference(source.groups.dom()).contains(only_ours[i]));
        assert(dest.groups.contains_key(only_ours[i]));
    }
    lemma_our_groups(added, source, base, only_ours);
    let marked = groups::all_missing(added, source, base, only_ours);

    let ours = dest.entries.dom();
    let theirs = source.entries.dom();
    let offered_ids = order::ordered::<EntryId>(theirs.difference(ours));
    let missing_ids = order::ordered::<EntryId>(ours.difference(theirs));
    let common_ids = order::ordered::<EntryId>(ours.intersect(theirs));
    order::lemma_ordered_lists::<EntryId>(theirs.difference(ours));
    order::lemma_ordered_lists::<EntryId>(ours.difference(theirs));
    order::lemma_ordered_lists::<EntryId>(ours.intersect(theirs));
    assert forall|i: int| 0 <= i < offered_ids.len() implies quiet_offer(
        dest,
        source,
        #[trigger] offered_ids[i],
    ) by {
        assert(offered_ids.contains(offered_ids[i]));
        assert(theirs.difference(ours).contains(offered_ids[i]));
        assert(source.entries.contains_key(offered_ids[i]));
    }
    lemma_offered_entries(marked, source, base, offered_ids);
    let offered = entries::all_offered(marked, source, base, offered_ids);
    assert forall|i: int| 0 <= i < missing_ids.len() implies !rules::buried(
        source.deleted_objects,
        (#[trigger] missing_ids[i]).0,
        dest.entries[missing_ids[i]].times.updated(),
    ) by {
        assert(missing_ids.contains(missing_ids[i]));
        assert(ours.difference(theirs).contains(missing_ids[i]));
        assert(dest.entries.contains_key(missing_ids[i]));
    }
    lemma_missing_entries(offered, source, base, missing_ids);
    let missing = entries::all_missing(offered, source, base, missing_ids);
    assert forall|i: int| 0 <= i < common_ids.len() implies quiet_entry(
        dest,
        source,
        base,
        #[trigger] common_ids[i],
    ) by {
        assert(common_ids.contains(common_ids[i]));
        assert(ours.intersect(theirs).contains(common_ids[i]));
        assert(dest.entries.contains_key(common_ids[i]));
    }
    lemma_common_entries(missing, source, base, now, common_ids);
    let merged = entries::entries_merged(marked, source, base, now);
    assert(same_but_warnings(p, merged));

    let known = dest.groups.dom();
    let listing = order::ordered::<GroupId>(known.intersect(source.groups.dom()));
    order::lemma_ordered_lists::<GroupId>(known.intersect(source.groups.dom()));
    assert forall|i: int| 0 <= i < listing.len() implies quiet_group(
        dest.groups[#[trigger] listing[i]],
        source.groups[listing[i]],
        known,
        base,
        listing[i],
    ) by {
        assert(listing.contains(listing[i]));
        assert(known.intersect(source.groups.dom()).contains(listing[i]));
        assert(dest.groups.contains_key(listing[i]));
    }
    let emptied = Progress {
        db: groups::all_removed(merged.db, Seq::<GroupId>::empty()),
        ..merged
    };
    assert(emptied == merged);
    lemma_common_groups(
        Regrouping { p: merged, moves: Seq::empty() },
        source,
        base,
        now,
        known,
        listing,
    );
}

} // verus!
