//! What becomes of a merge that is done again.

use vstd::prelude::*;
use crate::attachment;
use crate::attachment::Pool;
use crate::database;
use crate::database::DatabaseModel;
use crate::entry::EntryModel;
use crate::ids::AttachmentId;
use crate::ids::CustomIconId;
use crate::ids::EntryId;
use crate::ids::GroupId;
use crate::ids::Uuid;
use crate::laws::absorption;
use crate::laws::gathering;
use crate::laws::merging;
use crate::laws::outcome;
use crate::laws::quiet;
use crate::laws::remapping;
use crate::laws::soundness;
use crate::laws::underway;
use crate::merge;
use crate::merge::entries;
use crate::merge::entries::Progress;
use crate::merge::groups;
use crate::merge::history;
use crate::merge::icons;
use crate::merge::log::LogModel;
use crate::merge::log::MergeEvent;
use crate::merge::rules;
use crate::order;
use crate::references;
use crate::remap;
use crate::times::Timestamp;

verus! {

/// Whether all entries and groups have modification times.
pub open spec fn dated(db: DatabaseModel) -> bool {
    &&& forall|e: EntryId| #[trigger]
        db.entries.contains_key(e) ==> db.entries[e].times.last_modification is Some
    &&& forall|g: GroupId| #[trigger]
        db.groups.contains_key(g) ==> db.groups[g].times.last_modification is Some
}

/// Whether an identifier is that of an icon.
pub open spec fn names_icon(dest: DatabaseModel, source: DatabaseModel, object: Uuid) -> bool {
    ||| dest.custom_icons.contains_key(CustomIconId(object))
    ||| source.custom_icons.contains_key(CustomIconId(object))
}

/// Whether an identifier is that of a group.
pub open spec fn names_group(dest: DatabaseModel, source: DatabaseModel, object: Uuid) -> bool {
    ||| dest.groups.contains_key(GroupId(object))
    ||| source.groups.contains_key(GroupId(object))
}

/// Whether an identifier is that of an entry.
pub open spec fn names_entry(dest: DatabaseModel, source: DatabaseModel, object: Uuid) -> bool {
    ||| dest.entries.contains_key(EntryId(object))
    ||| source.entries.contains_key(EntryId(object))
}

/// Whether identifiers are unique: none is that of objects of different kinds.
pub open spec fn unique_ids(dest: DatabaseModel, source: DatabaseModel) -> bool {
    forall|object: Uuid|
        {
            &&& !(#[trigger] names_icon(dest, source, object) && names_group(dest, source, object))
            &&& !(names_icon(dest, source, object) && names_entry(dest, source, object))
            &&& !(names_group(dest, source, object) && names_entry(dest, source, object))
        }
}

/// Whether the histories of an entry have no two versions of the same time, but for versions of
/// both sides with the same content.
pub open spec fn compatible_histories(
    ours: EntryModel,
    pool: Pool,
    theirs: EntryModel,
    source: Pool,
) -> bool {
    let our_versions = entries::versions_or_none(ours.history);
    let their_versions = entries::versions_or_none(theirs.history);
    &&& absorption::distinct_times(our_versions)
    &&& absorption::distinct_times(their_versions)
    &&& absorption::agree_where_they_meet(our_versions, pool, their_versions, source)
}

/// Whether the versions in a history have no histories of their own.
pub open spec fn flat(entry: EntryModel) -> bool {
    entry.history matches Some(versions) ==> forall|i: int|
        0 <= i < versions.len() ==> (#[trigger] versions[i]).history is None
}

/// Whether each entry that the merge adds finds the group that it stands in.
pub open spec fn homes_exist(
    dest: DatabaseModel,
    source: DatabaseModel,
    base: DatabaseModel,
) -> bool {
    forall|e: EntryId| #[trigger]
        source.entries.contains_key(e) && !dest.entries.contains_key(e) && rules::revived(
            dest.deleted_objects,
            e.0,
            source.entries[e].times.updated(),
        ) ==> underway::gathered(dest, source, base).db.groups.contains_key(source.entries[e].parent)
}

/// Whether an entry that takes over the source's content stands where the source has it, and stood
/// in the same group before.
pub open spec fn lands_well(
    ours: EntryModel,
    pool: Pool,
    source: DatabaseModel,
    base: DatabaseModel,
    known: Set<GroupId>,
    e: EntryId,
) -> bool {
    let theirs = source.entries[e];
    let there = underway::relocated(ours, theirs, known);
    match entries::verdict(
        there,
        pool,
        ours.times.last_modification->0,
        theirs,
        source.attachments,
        theirs.times.last_modification->0,
        base,
        e,
    ) {
        entries::Verdict::Blend { take_source, .. } => take_source ==> there.parent
            == theirs.parent && there.previous_parent_group == theirs.previous_parent_group,
        _ => true,
    }
}

/// Whether a merge loses nothing that the source has: no such entry or group stands in a group
/// that is removed.
pub open spec fn nothing_lost(
    dest: DatabaseModel,
    source: DatabaseModel,
    base: DatabaseModel,
    now: Timestamp,
) -> bool {
    let before = underway::assembled(dest, source, base, now).db;
    let after = merge::merged(dest, source, base, now).db;
    &&& forall|g: GroupId| #[trigger]
        before.groups.contains_key(g) && source.groups.contains_key(g) ==> after.groups.contains_key(
            g,
        )
    &&& forall|e: EntryId| #[trigger]
        before.entries.contains_key(e) && source.entries.contains_key(e)
            ==> after.entries.contains_key(e)
}

/// Whether each group that the source deleted and that outlived the merge, because it was updated
/// later, still shows that update.
pub open spec fn survivors_stay(
    dest: DatabaseModel,
    source: DatabaseModel,
    base: DatabaseModel,
    now: Timestamp,
) -> bool {
    let after = merge::merged(dest, source, base, now).db;
    forall|g: GroupId| #[trigger]
        after.groups.contains_key(g) && !source.groups.contains_key(g) ==> !groups::group_buried(
            after.groups,
            after.entries,
            source,
            g,
        )
}

/// Two databases of which it is claimed that merging them again changes nothing: valid versions of
/// the same database, whose objects have modification times and whose histories are compatible.
/// Each entry that the merge adds finds its group, and each entry that takes over the source's
/// content ends up where the source has it.
pub open spec fn steady(dest: DatabaseModel, source: DatabaseModel, base: DatabaseModel) -> bool {
    let known = underway::gathered(dest, source, base).db.groups.dom();
    &&& outcome::two_versions(dest, source)
    &&& dest.attachments.dom().len() + 3 * source.attachments.dom().len() <= usize::MAX
    &&& dated(dest)
    &&& dated(source)
    &&& unique_ids(dest, source)
    &&& homes_exist(dest, source, base)
    &&& forall|e: EntryId| #[trigger] source.entries.contains_key(e) ==> flat(source.entries[e])
    &&& forall|e: EntryId| #[trigger]
        dest.entries.contains_key(e) && source.entries.contains_key(e) ==> compatible_histories(
            dest.entries[e],
            dest.attachments,
            source.entries[e],
            source.attachments,
        ) && lands_well(dest.entries[e], dest.attachments, source, base, known, e)
}

/// Whether merging the source's version of an entry again leaves the entry as it is.
pub open spec fn settled_entry(
    entry: EntryModel,
    pool: Pool,
    source: DatabaseModel,
    base: DatabaseModel,
    known: Set<GroupId>,
    e: EntryId,
) -> bool {
    let theirs = source.entries[e];
    &&& entry.times.last_modification is Some
    &&& theirs.times.last_modification is Some
    &&& quiet::stays(entry, theirs, known)
    &&& entry.sound(pool)
    &&& match entries::verdict(
        entry,
        pool,
        entry.times.last_modification->0,
        theirs,
        source.attachments,
        theirs.times.last_modification->0,
        base,
        e,
    ) {
        entries::Verdict::Keep => true,
        entries::Verdict::Undecidable => false,
        entries::Verdict::Blend { take_source, .. } => {
            &&& !take_source
            &&& entry.history is Some
            &&& absorption::absorbed(
                entry.history->0,
                pool,
                entries::versions_or_none(theirs.history),
                source.attachments,
            )
            &&& entry.times.location_changed is Some || theirs.times.location_changed is None
        },
    }
}

/// An entry that is settled is settled in another pool with the same attachments for it, and if
/// there are fewer groups.
proof fn lemma_settled_elsewhere(
    entry: EntryModel,
    pool: Pool,
    other: Pool,
    source: DatabaseModel,
    base: DatabaseModel,
    known: Set<GroupId>,
    fewer: Set<GroupId>,
    e: EntryId,
)
    requires
        settled_entry(entry, pool, source, base, known, e),
        underway::kept_for(entry, pool, other),
        fewer.subset_of(known),
        flat(source.entries[e]),
    ensures
        settled_entry(entry, other, source, base, fewer, e),
{
    let live: Option<int> = None;
    assert(entry.has_version(live) && entry.version(live) == entry);
    underway::lemma_kept_for(entry, pool, other, live);
    assert forall|index: Option<int>| #[trigger] entry.has_version(index) implies
        references::resolves(entry.version(index).attachments, other) by {
        underway::lemma_kept_for(entry, pool, other, index);
    }
    let their_versions = entries::versions_or_none(source.entries[e].history);
    if entry.history is Some && absorption::absorbed(
        entry.history->0,
        pool,
        their_versions,
        source.attachments,
    ) {
        let versions = entry.history->0;
        assert forall|i: int| 0 <= i < versions.len() implies references::resolves(
            #[trigger] versions[i].attachments,
            other,
        ) && remap::resolved(versions[i].attachments, other) == remap::resolved(
            versions[i].attachments,
            pool,
        ) by {
            assert(entry.has_version(Some(i)) && entry.version(Some(i)) == versions[i]);
            underway::lemma_kept_for(entry, pool, other, Some(i));
        }
        absorption::lemma_absorbed_elsewhere(
            versions,
            pool,
            other,
            their_versions,
            source.attachments,
        );
    }
}

/// What the merging of an entry that both sides have leaves behind is settled.
proof fn lemma_settles(
    p: Progress,
    dest: DatabaseModel,
    source: DatabaseModel,
    base: DatabaseModel,
    now: Timestamp,
    known: Set<GroupId>,
    e: EntryId,
    limit: nat,
)
    requires
        steady(dest, source, base),
        known == underway::gathered(dest, source, base).db.groups.dom(),
        p.error is None,
        gathering::bare(p.db).wf(),
        gathering::groups_from(p.db.groups, dest, source),
        p.db.groups.dom() == known,
        remapping::room(p.db.attachments, source.attachments, limit),
        dest.entries.contains_key(e),
        source.entries.contains_key(e),
        p.db.entries.contains_key(e),
        p.db.entries[e] == dest.entries[e],
        underway::kept_for(dest.entries[e], dest.attachments, p.db.attachments),
        entries::entry_common(p, source, base, now, e).error is None,
    ensures
        ({
            let after = entries::entry_common(p, source, base, now, e);
            &&& settled_entry(
                after.db.entries[e],
                after.db.attachments,
                source,
                base,
                known,
                e,
            )
            &&& attachment::extends(p.db.attachments, after.db.attachments)
            &&& remapping::room(after.db.attachments, source.attachments, limit)
            &&& after.db == (DatabaseModel {
                groups: after.db.groups,
                entries: p.db.entries.insert(e, after.db.entries[e]),
                attachments: after.db.attachments,
                ..p.db
            })
            &&& gathering::bare(after.db).wf()
            &&& gathering::groups_from(after.db.groups, dest, source)
            &&& after.db.groups.dom() == known
        }),
{
    broadcast use Timestamp::numbers_decide;

    reveal(entries::entry_common);
    let theirs = source.entries[e];
    let ours = underway::relocated(dest.entries[e], theirs, known);
    let pool = p.db.attachments;
    let after = entries::entry_common(p, source, base, now, e);
    let our_time = ours.times.last_modification->0;
    let their_time = theirs.times.last_modification->0;
    outcome::lemma_fulfils(p, dest, source, base, now, known, e, limit);
    underway::lemma_relocated(p, dest, source, known, e);
    assert(underway::kept_for(ours, dest.attachments, pool)) by {
        assert forall|a: AttachmentId| #[trigger] ours.uses(a) implies dest.attachments.contains_key(
            a,
        ) && pool.contains_key(a) && pool[a] == dest.attachments[a] by {
            underway::lemma_same_uses(ours, dest.entries[e], a);
        }
    }
    let live: Option<int> = None;
    assert(ours.has_version(live) && ours.version(live) == ours);
    underway::lemma_kept_for(ours, dest.attachments, pool, live);
    assert(lands_well(dest.entries[e], dest.attachments, source, base, known, e));
    underway::lemma_same_verdict(ours, pool, ours, dest.attachments, our_time, source, base, e);
    let verdict = entries::verdict(
        ours,
        pool,
        our_time,
        theirs,
        source.attachments,
        their_time,
        base,
        e,
    );
    match verdict {
        entries::Verdict::Blend { take_source, warning } => {
            let our_versions = entries::versions_or_none(ours.history);
            let their_versions = entries::versions_or_none(theirs.history);
            assert(theirs.sound(source.attachments));
            soundness::lemma_sound_versions(theirs, source.attachments);
            assert(history::all_resolve(their_versions, source.attachments)) by {
                if theirs.history is Some {
                    assert forall|i: int| 0 <= i < their_versions.len() implies
                        references::resolves(
                        #[trigger] their_versions[i].attachments,
                        source.attachments,
                    ) by {}
                }
            }
            assert forall|i: int| 0 <= i < our_versions.len() implies references::resolves(
                #[trigger] our_versions[i].attachments,
                pool,
            ) && remap::resolved(our_versions[i].attachments, pool) == remap::resolved(
                our_versions[i].attachments,
                dest.attachments,
            ) by {
                let index: Option<int> = Some(i);
                assert(ours.has_version(index) && ours.version(index) == our_versions[i]);
                underway::lemma_kept_for(ours, dest.attachments, pool, index);
            }
            assert(absorption::agree_where_they_meet(
                our_versions,
                pool,
                their_versions,
                source.attachments,
            )) by {
                assert(compatible_histories(
                    dest.entries[e],
                    dest.attachments,
                    theirs,
                    source.attachments,
                ));
                assert forall|i: int, k: int|
                    0 <= i < our_versions.len() && 0 <= k < their_versions.len()
                        && history::time_of(#[trigger] our_versions[i]) == history::time_of(
                        #[trigger] their_versions[k],
                    ) implies remap::equivalent(
                    our_versions[i],
                    pool,
                    their_versions[k],
                    source.attachments,
                ) by {
                    assert(references::resolves(our_versions[i].attachments, pool));
                    assert(remap::equivalent(
                        our_versions[i],
                        dest.attachments,
                        their_versions[k],
                        source.attachments,
                    ));
                }
            }
            absorption::merged_history_has_absorbed(
                our_versions,
                their_versions,
                source.attachments,
                pool,
                limit,
            );
            let merged = history::history_merged(
                our_versions,
                their_versions,
                source.attachments,
                pool,
            );
            let between = history::all_carried(their_versions, source.attachments, pool).1;
            let entry = after.db.entries[e];
            if take_source {
                assert(database::entry_placed(after.db.entries, after.db.groups, e));
                assert(database::entry_placed(source.entries, source.groups, e));
                assert(entry.content() =~= theirs.content());
            } else {
                absorption::lemma_resolved_further(ours.attachments, pool, between);
                assert(entry.content() =~= ours.content());
                underway::lemma_same_verdict(
                    entry,
                    between,
                    ours,
                    pool,
                    our_time,
                    source,
                    base,
                    e,
                );
                assert(entry.history == Some(merged));
            }
        },
        _ => {},
    }
}

/// How far the merging of entries that both sides have has come: those listed are settled, the
/// others are as they were.
pub open spec fn settling(
    db: DatabaseModel,
    dest: DatabaseModel,
    source: DatabaseModel,
    base: DatabaseModel,
    known: Set<GroupId>,
    listed: Seq<EntryId>,
    limit: nat,
) -> bool {
    &&& gathering::bare(db).wf()
    &&& gathering::groups_from(db.groups, dest, source)
    &&& db.groups.dom() == known
    &&& remapping::room(db.attachments, source.attachments, limit)
    &&& forall|e: EntryId| #[trigger]
        dest.entries.contains_key(e) && source.entries.contains_key(e) ==> {
            &&& db.entries.contains_key(e)
            &&& if listed.contains(e) {
                settled_entry(db.entries[e], db.attachments, source, base, known, e)
            } else {
                db.entries[e] == dest.entries[e] && underway::kept_for(
                    dest.entries[e],
                    dest.attachments,
                    db.attachments,
                )
            }
        }
    &&& forall|e: EntryId| #[trigger]
        db.entries.contains_key(e) && dest.entries.contains_key(e)
            && !source.entries.contains_key(e) ==> db.entries[e] == dest.entries[e]
    &&& forall|e: EntryId| #[trigger]
        db.entries.contains_key(e) && !dest.entries.contains_key(e)
            ==> source.entries.contains_key(e) && underway::copied(
            db.entries[e],
            db.attachments,
            source,
            e,
        )
}

proof fn lemma_common(
    p: Progress,
    dest: DatabaseModel,
    source: DatabaseModel,
    base: DatabaseModel,
    now: Timestamp,
    known: Set<GroupId>,
    listed: Seq<EntryId>,
    limit: nat,
)
    requires
        steady(dest, source, base),
        known == underway::gathered(dest, source, base).db.groups.dom(),
        p.error is None,
        settling(p.db, dest, source, base, known, Seq::empty(), limit),
        listed.no_duplicates(),
        forall|i: int|
            0 <= i < listed.len() ==> dest.entries.contains_key(#[trigger] listed[i])
                && source.entries.contains_key(listed[i]),
        entries::all_common(p, source, base, now, listed).error is None,
    ensures
        ({
            let after = entries::all_common(p, source, base, now, listed);
            &&& settling(after.db, dest, source, base, known, listed, limit)
            &&& after.db.entries.dom() == p.db.entries.dom()
            &&& after.db == (DatabaseModel {
                groups: after.db.groups,
                entries: after.db.entries,
                attachments: after.db.attachments,
                ..p.db
            })
        }),
    decreases listed.len(),
{
    if listed.len() == 0 {
        assert(listed =~= Seq::<EntryId>::empty());
    } else {
        let shorter = listed.drop_last();
        let e = listed[listed.len() - 1];
        assert(dest.entries.contains_key(e));
        assert forall|i: int| 0 <= i < shorter.len() implies dest.entries.contains_key(
            #[trigger] shorter[i],
        ) && source.entries.contains_key(shorter[i]) by {
            assert(shorter[i] == listed[i]);
            assert(dest.entries.contains_key(listed[i]));
        }
        lemma_common(p, dest, source, base, now, known, shorter, limit);
        let before = entries::all_common(p, source, base, now, shorter);
        let after = entries::all_common(p, source, base, now, listed);
        assert(!shorter.contains(e)) by {
            if shorter.contains(e) {
                let n = choose|n: int| 0 <= n < shorter.len() && shorter[n] == e;
                assert(listed[n] == e);
            }
        }
        lemma_settles(before, dest, source, base, now, known, e, limit);
        let pool = before.db.attachments;
        let larger = after.db.attachments;
        assert(after.db.entries.dom() =~= before.db.entries.dom());
        assert forall|x: EntryId| #[trigger]
            dest.entries.contains_key(x) && source.entries.contains_key(x) implies {
            &&& after.db.entries.contains_key(x)
            &&& if listed.contains(x) {
                settled_entry(after.db.entries[x], larger, source, base, known, x)
            } else {
                after.db.entries[x] == dest.entries[x] && underway::kept_for(
                    dest.entries[x],
                    dest.attachments,
                    larger,
                )
            }
        } by {
            assert(before.db.entries.contains_key(x));
            if x != e {
                if listed.contains(x) {
                    let n = choose|n: int| 0 <= n < listed.len() && listed[n] == x;
                    assert(shorter[n] == x);
                    underway::lemma_kept_in_larger(before.db.entries[x], pool, larger);
                    lemma_settled_elsewhere(
                        before.db.entries[x],
                        pool,
                        larger,
                        source,
                        base,
                        known,
                        known,
                        x,
                    );
                } else {
                    if shorter.contains(x) {
                        let n = choose|n: int| 0 <= n < shorter.len() && shorter[n] == x;
                        assert(listed[n] == x);
                    }
                    underway::lemma_kept_further(dest.entries[x], dest.attachments, pool, larger);
                }
            } else {
                assert(listed.contains(x));
            }
        }
        assert forall|x: EntryId| #[trigger]
            after.db.entries.contains_key(x) && !dest.entries.contains_key(x) implies
            source.entries.contains_key(x) && underway::copied(after.db.entries[x], larger, source, x) by {
            assert(before.db.entries.contains_key(x));
            underway::lemma_copied_further(before.db.entries[x], pool, larger, source, x);
        }
    }
}

/// The merging of the entries of steady databases.
proof fn lemma_entries(
    p: Progress,
    dest: DatabaseModel,
    source: DatabaseModel,
    base: DatabaseModel,
    now: Timestamp,
    known: Set<GroupId>,
)
    requires
        steady(dest, source, base),
        known == underway::gathered(dest, source, base).db.groups.dom(),
        p.error is None,
        p.db.entries == dest.entries,
        p.db.attachments == dest.attachments,
        p.db.deleted_objects.dom().finite(),
        gathering::bare(p.db).wf(),
        gathering::groups_from(p.db.groups, dest, source),
        p.db.groups.dom() == known,
        forall|e: EntryId| #[trigger]
            source.entries.contains_key(e) && !dest.entries.contains_key(e) && rules::revived(
                p.db.deleted_objects,
                e.0,
                source.entries[e].times.updated(),
            ) ==> known.contains(source.entries[e].parent),
        entries::entries_merged(p, source, base, now).error is None,
    ensures
        ({
            let after = entries::entries_merged(p, source, base, now);
            &&& gathering::bare(after.db).wf()
            &&& gathering::groups_from(after.db.groups, dest, source)
            &&& after.db.groups.dom() == known
            &&& after.db.custom_icons == p.db.custom_icons
            &&& after.db.entries.dom().finite()
            &&& after.db.attachments.dom().finite()
            &&& after.db.attachments.dom().len() <= dest.attachments.dom().len() + 2
                * source.attachments.dom().len()
            &&& after.db.deleted_objects.dom().finite()
            &&& forall|object: Uuid|
                !names_entry(dest, source, object) || !dest.entries.contains_key(EntryId(object))
                    ==> (#[trigger] after.db.deleted_objects.contains_key(object)
                    == p.db.deleted_objects.contains_key(object)) && (
                p.db.deleted_objects.contains_key(object) ==> after.db.deleted_objects[object]
                    == p.db.deleted_objects[object])
            &&& forall|e: EntryId| #[trigger]
                source.entries.contains_key(e) && !after.db.entries.contains_key(e)
                    ==> !dest.entries.contains_key(e) && !rules::revived(
                    p.db.deleted_objects,
                    e.0,
                    source.entries[e].times.updated(),
                )
            &&& forall|e: EntryId| #[trigger]
                after.db.entries.contains_key(e) && !source.entries.contains_key(e)
                    ==> !rules::buried(
                    source.deleted_objects,
                    e.0,
                    after.db.entries[e].times.updated(),
                )
            &&& forall|e: EntryId| #[trigger]
                after.db.entries.contains_key(e) && source.entries.contains_key(e) ==> if (
                dest.entries.contains_key(e)) {
                    settled_entry(
                        after.db.entries[e],
                        after.db.attachments,
                        source,
                        base,
                        known,
                        e,
                    )
                } else {
                    underway::copied(after.db.entries[e], after.db.attachments, source, e)
                }
        }),
{
    let ours = dest.entries.dom();
    let theirs = source.entries.dom();
    let size = (dest.attachments.dom().len() + source.attachments.dom().len()) as nat;
    let limit = (size + source.attachments.dom().len()) as nat;
    remapping::lemma_room(dest.attachments, source.attachments, size);
    assert(underway::underway(p.db, dest, source, known, size)) by {
        assert forall|e: EntryId| #[trigger]
            dest.entries.contains_key(e) && source.entries.contains_key(e) implies underway::kept_for(
            dest.entries[e],
            dest.attachments,
            p.db.attachments,
        ) by {
            underway::lemma_sound_kept(dest.entries[e], dest.attachments);
        }
    }
    let offered_ids = order::ordered::<EntryId>(theirs.difference(ours));
    let missing_ids = order::ordered::<EntryId>(ours.difference(theirs));
    let common_ids = order::ordered::<EntryId>(ours.intersect(theirs));
    order::lemma_ordered_lists::<EntryId>(theirs.difference(ours));
    order::lemma_ordered_lists::<EntryId>(ours.difference(theirs));
    order::lemma_ordered_lists::<EntryId>(ours.intersect(theirs));
    order::lemma_increasing_no_duplicates::<EntryId>(offered_ids);
    order::lemma_increasing_no_duplicates::<EntryId>(missing_ids);
    order::lemma_increasing_no_duplicates::<EntryId>(common_ids);
    assert forall|i: int| 0 <= i < offered_ids.len() implies source.entries.contains_key(
        #[trigger] offered_ids[i],
    ) && !dest.entries.contains_key(offered_ids[i]) && !p.db.entries.contains_key(
        offered_ids[i],
    ) by {
        assert(offered_ids.contains(offered_ids[i]));
        assert(theirs.difference(ours).contains(offered_ids[i]));
        assert(source.entries.contains_key(offered_ids[i]));
    }
    underway::lemma_offered(p, dest, source, base, known, offered_ids, size);
    let offered = entries::all_offered(p, source, base, offered_ids);
    underway::lemma_more_room(offered.db, dest, source, known, size, limit);
    assert forall|i: int| 0 <= i < missing_ids.len() implies dest.entries.contains_key(
        #[trigger] missing_ids[i],
    ) && !source.entries.contains_key(missing_ids[i]) by {
        assert(missing_ids.contains(missing_ids[i]));
        assert(ours.difference(theirs).contains(missing_ids[i]));
    }
    underway::lemma_missing(offered, dest, source, base, known, missing_ids, size, limit);
    let missing = entries::all_missing(offered, source, base, missing_ids);
    assert(settling(missing.db, dest, source, base, known, Seq::empty(), limit));
    assert forall|i: int| 0 <= i < common_ids.len() implies dest.entries.contains_key(
        #[trigger] common_ids[i],
    ) && source.entries.contains_key(common_ids[i]) by {
        assert(common_ids.contains(common_ids[i]));
        assert(ours.intersect(theirs).contains(common_ids[i]));
    }
    lemma_common(missing, dest, source, base, now, known, common_ids, limit);
    let after = entries::entries_merged(p, source, base, now);
    assert(after == entries::all_common(missing, source, base, now, common_ids));
    assert forall|e: EntryId| #[trigger] after.db.entries.contains_key(e)
        == missing.db.entries.contains_key(e) by {
        assert(after.db.entries.dom().contains(e) == missing.db.entries.dom().contains(e));
    }
    assert forall|e: EntryId| #[trigger]
        source.entries.contains_key(e) && !after.db.entries.contains_key(e) implies
        !dest.entries.contains_key(e) && !rules::revived(
        p.db.deleted_objects,
        e.0,
        source.entries[e].times.updated(),
    ) by {
        assert(!missing.db.entries.contains_key(e));
        if !dest.entries.contains_key(e) {
            assert(!offered.db.entries.contains_key(e));
            assert(theirs.difference(ours).contains(e));
            assert(offered_ids.contains(e));
            let n = choose|n: int| 0 <= n < offered_ids.len() && offered_ids[n] == e;
            assert(offered.db.entries.contains_key(offered_ids[n]) || !known.contains(
                source.entries[offered_ids[n]].parent,
            ) || !rules::revived(
                p.db.deleted_objects,
                offered_ids[n].0,
                source.entries[offered_ids[n]].times.updated(),
            ));
        }
    }
    assert forall|e: EntryId| #[trigger]
        after.db.entries.contains_key(e) && !source.entries.contains_key(e) implies !rules::buried(
        source.deleted_objects,
        e.0,
        after.db.entries[e].times.updated(),
    ) by {
        assert(missing.db.entries.contains_key(e));
        assert(dest.entries.contains_key(e));
        assert(ours.difference(theirs).contains(e));
        assert(missing_ids.contains(e));
        let n = choose|n: int| 0 <= n < missing_ids.len() && missing_ids[n] == e;
        assert(missing.db.entries.contains_key(missing_ids[n]));
        assert(after.db.entries[e] == dest.entries[e]);
    }
    assert forall|e: EntryId| #[trigger]
        after.db.entries.contains_key(e) && source.entries.contains_key(e)
            && dest.entries.contains_key(e) implies settled_entry(
        after.db.entries[e],
        after.db.attachments,
        source,
        base,
        known,
        e,
    ) by {
        assert(ours.intersect(theirs).contains(e));
        assert(common_ids.contains(e));
    }
    assert forall|object: Uuid|
        !names_entry(dest, source, object) || !dest.entries.contains_key(
            EntryId(object),
        ) implies (#[trigger] after.db.deleted_objects.contains_key(object)
        == p.db.deleted_objects.contains_key(object)) && (p.db.deleted_objects.contains_key(object)
        ==> after.db.deleted_objects[object] == p.db.deleted_objects[object]) by {
        assert(!ours.difference(theirs).contains(EntryId(object)));
        assert(!missing_ids.contains(EntryId(object)));
        assert(missing.db.deleted_objects.contains_key(object)
            == offered.db.deleted_objects.contains_key(object));
    }
}

/// A settled entry leaves a merge nothing to do.
proof fn lemma_settled_is_quiet(
    db: DatabaseModel,
    source: DatabaseModel,
    base: DatabaseModel,
    e: EntryId,
    limit: nat,
)
    requires
        source.sound(),
        underway::finite_names(source),
        source.entries.contains_key(e),
        db.entries.contains_key(e),
        settled_entry(
            db.entries[e],
            db.attachments,
            source,
            base,
            db.groups.dom(),
            e,
        ),
        absorption::distinct_times(entries::versions_or_none(source.entries[e].history)),
        remapping::room(db.attachments, source.attachments, limit),
    ensures
        quiet::quiet_entry(db, source, base, e),
{
    let ours = db.entries[e];
    let theirs = source.entries[e];
    let their_versions = entries::versions_or_none(theirs.history);
    assert(theirs.sound(source.attachments));
    soundness::lemma_sound_versions(theirs, source.attachments);
    assert(history::all_resolve(their_versions, source.attachments)) by {
        if theirs.history is Some {
            assert forall|i: int| 0 <= i < their_versions.len() implies references::resolves(
                #[trigger] their_versions[i].attachments,
                source.attachments,
            ) by {}
        }
    }
    match entries::verdict(
        ours,
        db.attachments,
        ours.times.last_modification->0,
        theirs,
        source.attachments,
        theirs.times.last_modification->0,
        base,
        e,
    ) {
        entries::Verdict::Blend { take_source, warning } => {
            absorption::absorbed_history_stays(
                ours.history->0,
                db.attachments,
                their_versions,
                source.attachments,
                limit,
            );
            let blended = entries::entry_blended(db, LogModel::blank(), source, e, false);
            assert(blended.db.entries[e] =~= ours);
            assert(blended.db.entries =~= db.entries);
            assert(blended.db =~= db);
        },
        _ => {},
    }
}

/// What is left of a settled entry, or of a copy of the source's, once groups were removed leaves a
/// merge nothing to do.
proof fn lemma_left_quiet(
    before: DatabaseModel,
    after: DatabaseModel,
    dest: DatabaseModel,
    source: DatabaseModel,
    base: DatabaseModel,
    known: Set<GroupId>,
    e: EntryId,
)
    requires
        steady(dest, source, base),
        gathering::trimmed(before, after),
        before.groups.dom() == known,
        before.attachments.dom().finite(),
        before.attachments.dom().len() <= dest.attachments.dom().len() + 2
            * source.attachments.dom().len(),
        after.entries.contains_key(e),
        source.entries.contains_key(e),
        if dest.entries.contains_key(e) {
            settled_entry(before.entries[e], before.attachments, source, base, known, e)
        } else {
            underway::copied(before.entries[e], before.attachments, source, e)
        },
    ensures
        quiet::quiet_entry(after, source, base, e),
{
    let entry = before.entries[e];
    let pool = before.attachments;
    let other = after.attachments;
    assert(after.entries[e] == entry);
    if dest.entries.contains_key(e) {
        underway::lemma_sound_kept(entry, pool);
        assert(underway::kept_for(entry, pool, other)) by {
            assert forall|a: AttachmentId| #[trigger] entry.uses(a) implies pool.contains_key(a)
                && other.contains_key(a) && other[a] == pool[a] by {
                assert(after.entries[e].uses(a));
            }
        }
        lemma_settled_elsewhere(
            entry,
            pool,
            other,
            source,
            base,
            known,
            after.groups.dom(),
            e,
        );
        vstd::set_lib::lemma_len_subset(other.dom(), pool.dom());
        let limit = (dest.attachments.dom().len() + 3 * source.attachments.dom().len()) as nat;
        remapping::lemma_room(other, source.attachments, limit);
        assert(compatible_histories(
            dest.entries[e],
            dest.attachments,
            source.entries[e],
            source.attachments,
        ));
        lemma_settled_is_quiet(after, source, base, e, limit);
    } else {
        let theirs = source.entries[e];
        soundness::lemma_faithful_sound(theirs, source.attachments, entry, pool);
        underway::lemma_sound_kept(entry, pool);
        assert(underway::kept_for(entry, pool, other)) by {
            assert forall|a: AttachmentId| #[trigger] entry.uses(a) implies pool.contains_key(a)
                && other.contains_key(a) && other[a] == pool[a] by {
                assert(after.entries[e].uses(a));
            }
        }
        underway::lemma_copied_elsewhere(entry, pool, other, source, e);
        assert(theirs.sound(source.attachments));
        soundness::lemma_sound_versions(theirs, source.attachments);
        absorption::lemma_faithful_resolved(
            theirs.attachments,
            source.attachments,
            entry.attachments,
            other,
        );
        assert(entry.content() =~= theirs.content());
    }
}

/// Merging the same source again changes nothing. A second merge with the same source leaves the
/// database as the first made it, notes no change and meets no error, whenever it is done,
/// provided that the databases are steady, that the first merge met no error, that it lost
/// nothing of the source by removing groups, and that groups which outlived their deletion still
/// show why.
pub proof fn merging_again_changes_nothing(
    dest: DatabaseModel,
    source: DatabaseModel,
    base: DatabaseModel,
    now: Timestamp,
    later: Timestamp,
)
    requires
        steady(dest, source, base),
        merge::merged(dest, source, base, now).error is None,
        nothing_lost(dest, source, base, now),
        survivors_stay(dest, source, base, now),
    ensures
        ({
            let once = merge::merged(dest, source, base, now);
            let twice = merge::merged(once.db, source, base, later);
            &&& twice.db == once.db
            &&& twice.error is None
            &&& twice.log.events == Seq::<MergeEvent>::empty()
        }),
{
    broadcast use Timestamp::numbers_decide;

    let start = icons::icons_merged(dest, source, base);
    merging::lemma_icons_carry_on(dest, source, base);
    merging::versions_of_a_database_are_mergeable(dest, source, base);
    underway::lemma_gathered(dest, source, base);
    let added = underway::gathered(dest, source, base);
    let known = added.db.groups.dom();

    // It is decided on the groups that only the destination has.
    let only_ours = order::ordered::<GroupId>(dest.groups.dom().difference(source.groups.dom()));
    order::lemma_ordered_lists::<GroupId>(dest.groups.dom().difference(source.groups.dom()));
    merging::lemma_groups_missing(added, source, base, only_ours);
    let decided = underway::marked(dest, source, base);
    assert forall|object: Uuid| !(#[trigger] names_group(dest, source, object)) || source.groups
        .contains_key(GroupId(object)) implies (decided.db.deleted_objects.contains_key(object)
        == start.deleted_objects.contains_key(object)) && (start.deleted_objects.contains_key(
        object,
    ) ==> decided.db.deleted_objects[object] == start.deleted_objects[object]) by {
        assert(!dest.groups.dom().difference(source.groups.dom()).contains(GroupId(object)));
        assert(!only_ours.contains(GroupId(object)));
        assert(decided.db.deleted_objects.contains_key(object)
            == added.db.deleted_objects.contains_key(object));
    }
    assert(gathering::bare(decided.db).wf());
    assert forall|e: EntryId| #[trigger]
        source.entries.contains_key(e) && !dest.entries.contains_key(e) && rules::revived(
            decided.db.deleted_objects,
            e.0,
            source.entries[e].times.updated(),
        ) implies known.contains(source.entries[e].parent) by {
        lemma_entry_tombstone(dest, source, base, e);
    }

    // The entries are merged.
    lemma_entries(decided, dest, source, base, now, known);
    let merged = underway::assembled(dest, source, base, now);

    // Groups are removed.
    let doomed = groups::doomed(added.db.groups, added.db.entries, source, only_ours);
    gathering::lemma_all_removed(merged.db, doomed);
    let left = Progress { db: groups::all_removed(merged.db, doomed), ..merged };
    gathering::lemma_places_kept(merged.db.groups, left.db.groups, dest, source);
    vstd::set_lib::lemma_len_subset(left.db.entries.dom(), merged.db.entries.dom());
    vstd::set_lib::lemma_len_subset(left.db.attachments.dom(), merged.db.attachments.dom());

    // The groups that both sides have are settled.
    let once = merge::merged(dest, source, base, now);
    assert(once == groups::groups_settled(left, source, base, now));
    assert forall|g: GroupId| #[trigger]
        left.db.groups.contains_key(g) && source.groups.contains_key(g) implies
        left.db.groups[g].times.last_modification is Some
        && source.groups[g].times.last_modification is Some by {
        assert(gathering::group_from(left.db.groups, dest, source, g));
    }
    gathering::lemma_groups_settled(left, source, base, now);
    let after = once.db;
    assert forall|g: GroupId| #[trigger]
        after.groups.contains_key(g) && source.groups.contains_key(g) implies quiet::quiet_group(
        after.groups[g],
        source.groups[g],
        after.groups.dom(),
        base,
        g,
    ) by {
        assert(after.groups.dom().contains(g));
        assert(left.db.groups.contains_key(g));
        assert(database::group_placed(left.db.groups, left.db.root, g));
        assert(database::group_placed(source.groups, source.root, g));
        gathering::lemma_outcome_is_quiet(
            left.db.groups[g],
            after.groups[g],
            source.groups[g],
            left.db.groups.dom(),
            base,
            now,
            g,
        );
    }

    // So there is nothing left to do.
    assert(quiet::quiet_icons(after, source, base)) by {
        assert(after.custom_icons == start.custom_icons);
        assert forall|i: CustomIconId| #[trigger]
            source.custom_icons.contains_key(i) && !after.custom_icons.contains_key(i) implies
            !icons::icon_revived(after, source, i) by {
            assert(!icons::icon_kept(dest, source, i));
            assert(names_icon(dest, source, i.0));
            assert(!names_entry(dest, source, i.0));
            assert(!names_group(dest, source, i.0));
            assert(after.deleted_objects.contains_key(i.0)
                == decided.db.deleted_objects.contains_key(i.0));
            assert(start.deleted_objects.contains_key(i.0) == dest.deleted_objects.contains_key(
                i.0,
            ));
        }
        assert forall|i: CustomIconId| #[trigger]
            after.custom_icons.contains_key(i) && !source.custom_icons.contains_key(i) implies
            !icons::icon_buried(after, source, i) by {
            assert(icons::icon_kept(dest, source, i));
        }
        assert forall|i: CustomIconId| #[trigger]
            after.custom_icons.contains_key(i) && source.custom_icons.contains_key(i) implies
            !icons::source_wins(
            after.custom_icons[i],
            source.custom_icons[i],
            base.custom_icons,
            i,
        ) by {
            assert(icons::icon_kept(dest, source, i));
            let time = icons::dated(source.custom_icons[i]);
            assert(!time.before(time));
        }
    }
    assert forall|g: GroupId| #[trigger]
        source.groups.contains_key(g) && !after.groups.contains_key(g) implies
        !groups::group_revived(after.deleted_objects, source, g) by {
        assert(!merged.db.groups.contains_key(g));
        assert(!known.contains(g));
        assert(!added.db.groups.contains_key(g));
        assert(names_group(dest, source, g.0));
        assert(!names_icon(dest, source, g.0));
        assert(!names_entry(dest, source, g.0));
        assert(after.deleted_objects.contains_key(g.0) == decided.db.deleted_objects.contains_key(
            g.0,
        ));
    }
    assert forall|e: EntryId| #[trigger]
        source.entries.contains_key(e) && !after.entries.contains_key(e) implies quiet::quiet_offer(
        after,
        source,
        e,
    ) by {
        assert(!merged.db.entries.contains_key(e));
        assert(after.deleted_objects.contains_key(e.0) == decided.db.deleted_objects.contains_key(
            e.0,
        ));
    }
    assert forall|e: EntryId| #[trigger]
        after.entries.contains_key(e) && !source.entries.contains_key(e) implies !rules::buried(
        source.deleted_objects,
        e.0,
        after.entries[e].times.updated(),
    ) by {
        assert(left.db.entries.contains_key(e));
        assert(merged.db.entries.dom().contains(e));
        assert(merged.db.entries.contains_key(e));
    }
    assert forall|e: EntryId| #[trigger]
        after.entries.contains_key(e) && source.entries.contains_key(e) implies quiet::quiet_entry(
        after,
        source,
        base,
        e,
    ) by {
        assert(left.db.entries.contains_key(e));
        assert(merged.db.entries.dom().contains(e));
        assert(merged.db.entries.contains_key(e));
        lemma_left_quiet(merged.db, left.db, dest, source, base, known, e);
        lemma_groups_do_not_matter(left.db, after, source, base, e);
    }
    quiet::quiet_merge_changes_nothing(after, source, base, later);
}

/// The tombstone of an entry that only the source has is that of the destination.
proof fn lemma_entry_tombstone(
    dest: DatabaseModel,
    source: DatabaseModel,
    base: DatabaseModel,
    e: EntryId,
)
    requires
        steady(dest, source, base),
        source.entries.contains_key(e),
        !dest.entries.contains_key(e),
    ensures
        ({
            let deleted = underway::marked(dest, source, base).db.deleted_objects;
            &&& deleted.contains_key(e.0) == dest.deleted_objects.contains_key(e.0)
            &&& deleted.contains_key(e.0) ==> deleted[e.0] == dest.deleted_objects[e.0]
        }),
{
    let start = icons::icons_merged(dest, source, base);
    merging::lemma_icons_carry_on(dest, source, base);
    merging::versions_of_a_database_are_mergeable(dest, source, base);
    underway::lemma_gathered(dest, source, base);
    let added = underway::gathered(dest, source, base);
    let only_ours = order::ordered::<GroupId>(dest.groups.dom().difference(source.groups.dom()));
    order::lemma_ordered_lists::<GroupId>(dest.groups.dom().difference(source.groups.dom()));
    merging::lemma_groups_missing(added, source, base, only_ours);
    let decided = underway::marked(dest, source, base);
    assert(names_entry(dest, source, e.0));
    assert(!names_icon(dest, source, e.0));
    assert(!names_group(dest, source, e.0));
    assert(!dest.groups.dom().difference(source.groups.dom()).contains(GroupId(e.0)));
    assert(!only_ours.contains(GroupId(e.0)));
    assert(decided.db.deleted_objects.contains_key(e.0) == added.db.deleted_objects.contains_key(
        e.0,
    ));
    assert(start.deleted_objects.contains_key(e.0) == dest.deleted_objects.contains_key(e.0));
}

/// Whether there is something to do for an entry does not depend on the groups, but for which
/// there are.
proof fn lemma_groups_do_not_matter(
    before: DatabaseModel,
    after: DatabaseModel,
    source: DatabaseModel,
    base: DatabaseModel,
    e: EntryId,
)
    requires
        quiet::quiet_entry(before, source, base, e),
        after == (DatabaseModel { groups: after.groups, ..before }),
        after.groups.dom() == before.groups.dom(),
    ensures
        quiet::quiet_entry(after, source, base, e),
{
    let blended = entries::entry_blended(before, LogModel::blank(), source, e, false).db;
    let other = entries::entry_blended(after, LogModel::blank(), source, e, false).db;
    assert(other == (DatabaseModel { groups: after.groups, ..blended }));
}

} // verus!
