//! What becomes of each entry and each group by a whole merge.

use vstd::prelude::*;
use crate::attachment;
use crate::attachment::Pool;
use crate::database;
use crate::database::DatabaseModel;
use crate::entry::EntryModel;
use crate::ids::AttachmentId;
use crate::ids::CustomIconId;
use crate::ids::EntryId;
use crate::ids::GroupId;
use crate::laws::absorption;
use crate::laws::entries as entry_laws;
use crate::laws::gathering;
use crate::laws::groups as group_laws;
use crate::laws::history as history_laws;
use crate::laws::merging;
use crate::laws::remapping;
use crate::laws::soundness;
use crate::laws::underway;
use crate::merge;
use crate::merge::entries;
use crate::merge::entries::Progress;
use crate::merge::entries::Verdict;
use crate::merge::groups;
use crate::merge::history;
use crate::merge::icons;
use crate::merge::rules;
use crate::order;
use crate::references;
use crate::remap;
use crate::times::Timestamp;

verus! {

/// Two valid versions of the same database: they share the root group, no reference dangles, and
/// there are enough identifiers for all attachments.
pub open spec fn two_versions(dest: DatabaseModel, source: DatabaseModel) -> bool {
    &&& dest.finite()
    &&& source.finite()
    &&& dest.wf()
    &&& source.wf()
    &&& dest.sound()
    &&& source.sound()
    &&& underway::finite_names(source)
    &&& dest.attachments.dom().len() + 2 * source.attachments.dom().len() <= usize::MAX
    &&& dest.groups.contains_key(source.root)
}

/// The groups that there are while the entries are merged.
pub open spec fn groups_at_hand(
    dest: DatabaseModel,
    source: DatabaseModel,
    base: DatabaseModel,
) -> Set<GroupId> {
    underway::gathered(dest, source, base).db.groups.dom()
}

/// How the content of an entry that both sides have is settled at a given time, once its place is.
pub open spec fn verdict_on(
    dest: DatabaseModel,
    source: DatabaseModel,
    base: DatabaseModel,
    now: Timestamp,
    known: Set<GroupId>,
    e: EntryId,
) -> Verdict {
    let ours = underway::relocated(dest.entries[e], source.entries[e], known);
    entries::verdict(
        ours,
        dest.attachments,
        match ours.times.last_modification {
            Some(time) => time,
            None => now,
        },
        source.entries[e],
        source.attachments,
        history::time_of(source.entries[e]),
        base,
        e,
    )
}

/// Whether an entry has the content of another, but for its place, with the same data under the
/// same names.
pub open spec fn has_content_of(
    entry: EntryModel,
    pool: Pool,
    other: EntryModel,
    other_pool: Pool,
) -> bool {
    &&& entry_laws::same_fields(entry, other)
    &&& remap::resolved(entry.attachments, pool) == remap::resolved(other.attachments, other_pool)
}

/// Whether an entry has the merged histories of both sides: each version of the destination's
/// history, and for each version of the source's one of the same time with the same content.
pub open spec fn has_histories(
    entry: EntryModel,
    pool: Pool,
    ours: EntryModel,
    theirs: EntryModel,
    source: Pool,
) -> bool {
    let our_versions = entries::versions_or_none(ours.history);
    let their_versions = entries::versions_or_none(theirs.history);
    &&& entry.history is Some
    &&& forall|i: int|
        0 <= i < our_versions.len() ==> entry.history->0.contains(
            history::dated(#[trigger] our_versions[i]),
        )
    &&& forall|k: int|
        0 <= k < their_versions.len() ==> absorption::has_counterpart(
            entry.history->0,
            pool,
            #[trigger] their_versions[k],
            source,
        )
}

/// Whether of an entry that both sides have has become what was to become: it stands where the
/// later move put it; it has the content of the side that the verdict is for; where the histories
/// are merged it has both, and content that was replaced is the latest version there, unless there
/// was no history at all.
pub open spec fn fulfilled(
    entry: EntryModel,
    pool: Pool,
    dest: DatabaseModel,
    source: DatabaseModel,
    base: DatabaseModel,
    now: Timestamp,
    known: Set<GroupId>,
    e: EntryId,
) -> bool {
    let theirs = source.entries[e];
    let ours = underway::relocated(dest.entries[e], theirs, known);
    &&& entry.sound(pool)
    &&& entry.id == dest.entries[e].id
    &&& entry.parent == ours.parent
    &&& entry.previous_parent_group == ours.previous_parent_group
    &&& entry.times.creation == dest.entries[e].times.creation
    &&& entry.times.last_access == dest.entries[e].times.last_access
    &&& entry.times.expiry == dest.entries[e].times.expiry
    &&& entry.times.expires == dest.entries[e].times.expires
    &&& entry.times.usage_count == dest.entries[e].times.usage_count
    &&& entry.times.location_changed == ours.times.location_changed
        || ours.times.location_changed is None && entry.times.location_changed
        == theirs.times.location_changed
    &&& match verdict_on(dest, source, base, now, known, e) {
        Verdict::Keep => entry == ours && has_content_of(entry, pool, ours, dest.attachments),
        Verdict::Undecidable => false,
        Verdict::Blend { take_source, .. } => {
            &&& has_histories(entry, pool, ours, theirs, source.attachments)
            &&& if take_source {
                &&& has_content_of(entry, pool, theirs, source.attachments)
                &&& entry.history->0.len() > 0 ==> remap::equivalent(
                    entry.history->0[0],
                    pool,
                    ours,
                    dest.attachments,
                )
            } else {
                has_content_of(entry, pool, ours, dest.attachments)
            }
        },
    }
}

/// What has become of an entry stays so in another pool with the same attachments for it.
proof fn lemma_fulfilled_elsewhere(
    entry: EntryModel,
    pool: Pool,
    other: Pool,
    dest: DatabaseModel,
    source: DatabaseModel,
    base: DatabaseModel,
    now: Timestamp,
    known: Set<GroupId>,
    e: EntryId,
)
    requires
        fulfilled(entry, pool, dest, source, base, now, known, e),
        underway::kept_for(entry, pool, other),
    ensures
        fulfilled(entry, other, dest, source, base, now, known, e),
{
    assert forall|index: Option<int>| #[trigger] entry.has_version(index) implies
        references::resolves(entry.version(index).attachments, other) && remap::resolved(
        entry.version(index).attachments,
        other,
    ) == remap::resolved(entry.version(index).attachments, pool) by {
        underway::lemma_kept_for(entry, pool, other, index);
    }
    let live: Option<int> = None;
    assert(entry.has_version(live) && entry.version(live) == entry);
    let their_versions = entries::versions_or_none(source.entries[e].history);
    if let Some(versions) = entry.history {
        assert forall|i: int| 0 <= i < versions.len() implies remap::resolved(
            (#[trigger] versions[i]).attachments,
            other,
        ) == remap::resolved(versions[i].attachments, pool) by {
            assert(entry.has_version(Some(i)) && entry.version(Some(i)) == versions[i]);
        }
        assert forall|k: int|
            0 <= k < their_versions.len() && absorption::has_counterpart(
                versions,
                pool,
                #[trigger] their_versions[k],
                source.attachments,
            ) implies absorption::has_counterpart(
            versions,
            other,
            their_versions[k],
            source.attachments,
        ) by {
            let i = choose|i: int|
                0 <= i < versions.len() && history::time_of(#[trigger] versions[i])
                    == history::time_of(their_versions[k]) && remap::equivalent(
                    versions[i],
                    pool,
                    their_versions[k],
                    source.attachments,
                );
            assert(remap::equivalent(versions[i], other, their_versions[k], source.attachments));
        }
    }
}

/// The merging of an entry that both sides have makes of it what is to become of it.
pub proof fn lemma_fulfils(
    p: Progress,
    dest: DatabaseModel,
    source: DatabaseModel,
    base: DatabaseModel,
    now: Timestamp,
    known: Set<GroupId>,
    e: EntryId,
    limit: nat,
)
    requires
        two_versions(dest, source),
        p.error is None,
        gathering::bare(p.db).wf(),
        gathering::groups_from(p.db.groups, dest, source),
        p.db.groups.dom() == known,
        remapping::room(p.db.attachments, source.attachments, limit),
        dest.entries.contains_key(e),
        source.entries.contains_key(e),
        p.db.entries.contains_key(e),
        p.db.entries[e] == dest.entries[e],
        underway::kept_for(dest.entries[e], dest.attachments, p.db.attachments),
        entries::entry_common(p, source, base, now, e).error is None,
    ensures
        ({
            let after = entries::entry_common(p, source, base, now, e);
            &&& fulfilled(
                after.db.entries[e],
                after.db.attachments,
                dest,
                source,
                base,
                now,
                known,
                e,
            )
            &&& attachment::extends(p.db.attachments, after.db.attachments)
            &&& remapping::room(after.db.attachments, source.attachments, limit)
            &&& after.db == (DatabaseModel {
                groups: after.db.groups,
                entries: p.db.entries.insert(e, after.db.entries[e]),
                attachments: after.db.attachments,
                ..p.db
            })
            &&& gathering::bare(after.db).wf()
            &&& gathering::groups_from(after.db.groups, dest, source)
            &&& after.db.groups.dom() == known
        }),
{
    reveal(entries::entry_common);
    let theirs = source.entries[e];
    let ours = underway::relocated(dest.entries[e], theirs, known);
    let pool = p.db.attachments;
    let after = entries::entry_common(p, source, base, now, e);
    underway::lemma_relocated(p, dest, source, known, e);
    let q = entries::entry_relocated(p, source, e);
    assert(underway::kept_for(ours, dest.attachments, pool)) by {
        assert forall|a: AttachmentId| #[trigger] ours.uses(a) implies dest.attachments.contains_key(
            a,
        ) && pool.contains_key(a) && pool[a] == dest.attachments[a] by {
            underway::lemma_same_uses(ours, dest.entries[e], a);
        }
    }
    assert forall|index: Option<int>| #[trigger] ours.has_version(index) implies
        references::resolves(ours.version(index).attachments, pool) && remap::resolved(
        ours.version(index).attachments,
        pool,
    ) == remap::resolved(ours.version(index).attachments, dest.attachments) by {
        underway::lemma_kept_for(ours, dest.attachments, pool, index);
    }
    let live: Option<int> = None;
    assert(ours.has_version(live) && ours.version(live) == ours);
    match verdict_on(dest, source, base, now, known, e) {
        Verdict::Keep => {
            assert(after.db == q.db);
        },
        Verdict::Undecidable => {},
        Verdict::Blend { take_source, warning } => {
            let our_versions = entries::versions_or_none(ours.history);
            let their_versions = entries::versions_or_none(theirs.history);
            assert(theirs.sound(source.attachments));
            soundness::lemma_sound_versions(theirs, source.attachments);
            assert forall|i: int| 0 <= i < our_versions.len() implies references::resolves(
                #[trigger] our_versions[i].attachments,
                pool,
            ) by {
                assert(ours.has_version(Some(i)) && ours.version(Some(i)) == our_versions[i]);
            }
            assert(history::all_resolve(their_versions, source.attachments));
            absorption::merged_history_is_faithful(
                our_versions,
                their_versions,
                source.attachments,
                pool,
                limit,
            );
            let merged = history::history_merged(
                our_versions,
                their_versions,
                source.attachments,
                pool,
            );
            let between = history::all_carried(their_versions, source.attachments, pool).1;
            let entry = after.db.entries[e];
            assert forall|i: int| 0 <= i < our_versions.len() implies merged.contains(
                history::dated(#[trigger] our_versions[i]),
            ) by {
                history_laws::merged_history_keeps_ours(
                    our_versions,
                    their_versions,
                    source.attachments,
                    pool,
                    i,
                );
            }
            entries::lemma_entry_changed_wf(gathering::bare(q.db), e, entry);
            assert(gathering::bare(after.db) =~= (DatabaseModel {
                entries: q.db.entries.insert(e, entry),
                ..gathering::bare(q.db)
            }));
            assert(q.db.entries.insert(e, entry) =~= p.db.entries.insert(e, entry));
            absorption::lemma_resolved_further(ours.attachments, pool, between);
            if take_source {
                lemma_taken(ours, theirs, source.attachments, pool, merged, between, limit);
                let (incoming, larger) = remap::entry_remapped(
                    theirs.without_history(),
                    source.attachments,
                    between,
                );
                let versions = entry.history->0;
                assert(versions == entries::archived(merged, ours, between));
                soundness::lemma_sound_from_versions(entry, larger);
                absorption::lemma_resolved_further(ours.attachments, pool, larger);
                assert forall|k: int| 0 <= k < their_versions.len() implies
                    absorption::has_counterpart(
                    versions,
                    larger,
                    #[trigger] their_versions[k],
                    source.attachments,
                ) by {
                    lemma_counterpart_archived(
                        merged,
                        ours,
                        between,
                        larger,
                        their_versions[k],
                        source.attachments,
                    );
                }
                assert forall|i: int| 0 <= i < our_versions.len() implies versions.contains(
                    history::dated(#[trigger] our_versions[i]),
                ) by {
                    let version = history::dated(our_versions[i]);
                    let n = choose|n: int| 0 <= n < merged.len() && merged[n] == version;
                    if versions != merged {
                        assert(versions[n + 1] == version);
                    }
                }
            } else {
                assert(entry.history == Some(merged));
                assert forall|i: int| 0 <= i < merged.len() implies references::resolves(
                    #[trigger] merged[i].attachments,
                    between,
                ) by {}
                soundness::lemma_sound_from_versions(entry, between);
            }
        },
    }
}

/// A version that has a counterpart in a history has one there once a further version was
/// archived, in a larger pool.
proof fn lemma_counterpart_archived(
    merged: Seq<EntryModel>,
    ours: EntryModel,
    pool: Pool,
    larger: Pool,
    version: EntryModel,
    source: Pool,
)
    requires
        absorption::has_counterpart(merged, pool, version, source),
        history::all_resolve(merged, pool),
        attachment::kept_in(pool, larger),
    ensures
        absorption::has_counterpart(
            entries::archived(merged, ours, pool),
            larger,
            version,
            source,
        ),
{
    let i = choose|i: int|
        0 <= i < merged.len() && history::time_of(#[trigger] merged[i]) == history::time_of(version)
            && remap::equivalent(merged[i], pool, version, source);
    assert(references::resolves(merged[i].attachments, pool));
    absorption::lemma_resolved_further(merged[i].attachments, pool, larger);
    let versions = entries::archived(merged, ours, pool);
    let n = if versions == merged {
        i
    } else {
        i + 1
    };
    assert(versions[n] == merged[i]);
    assert(remap::equivalent(versions[n], larger, version, source));
}

/// What the taking over of the source's content leaves in the history.
proof fn lemma_taken(
    ours: EntryModel,
    theirs: EntryModel,
    source: Pool,
    pool: Pool,
    merged: Seq<EntryModel>,
    between: Pool,
    limit: nat,
)
    requires
        theirs.sound(source),
        remapping::finite_names(theirs),
        references::resolves(ours.attachments, pool),
        attachment::extends(pool, between),
        history::all_resolve(merged, between),
        remapping::room(between, source, limit),
    ensures
        ({
            let (incoming, larger) = remap::entry_remapped(
                theirs.without_history(),
                source,
                between,
            );
            let versions = entries::archived(merged, ours, between);
            &&& attachment::extends(between, larger)
            &&& attachment::extends(pool, larger)
            &&& remapping::room(larger, source, limit)
            &&& references::resolves(incoming.attachments, larger)
            &&& remap::resolved(incoming.attachments, larger) == remap::resolved(
                theirs.attachments,
                source,
            )
            &&& history::all_resolve(versions, larger)
            &&& versions.len() > 0 ==> remap::equivalent(versions[0], larger, ours, pool)
        }),
{
    let incoming_before = theirs.without_history();
    remapping::remapping_is_faithful(incoming_before, source, between, limit);
    let (incoming, larger) = remap::entry_remapped(incoming_before, source, between);
    attachment::lemma_extends_transitive(pool, between, larger);
    soundness::lemma_sound_versions(theirs, source);
    absorption::lemma_faithful_resolved(
        theirs.attachments,
        source,
        incoming.attachments,
        larger,
    );
    soundness::lemma_faithful_resolves(theirs.attachments, source, incoming.attachments, larger);
    let versions = entries::archived(merged, ours, between);
    absorption::lemma_resolved_further(ours.attachments, pool, between);
    absorption::lemma_resolved_further(ours.attachments, pool, larger);
    assert forall|i: int| 0 <= i < versions.len() implies references::resolves(
        #[trigger] versions[i].attachments,
        larger,
    ) by {
        if versions == merged {
            assert(references::resolves(merged[i].attachments, between));
            absorption::lemma_resolved_further(merged[i].attachments, between, larger);
        } else if i > 0 {
            assert(versions[i] == merged[i - 1]);
            assert(references::resolves(merged[i - 1].attachments, between));
            absorption::lemma_resolved_further(merged[i - 1].attachments, between, larger);
        } else {
            assert(versions[0] == ours.without_history());
        }
    }
    if versions.len() > 0 {
        if versions == merged {
            assert(references::resolves(merged[0].attachments, between));
            absorption::lemma_resolved_further(merged[0].attachments, between, larger);
        } else {
            assert(versions[0] == ours.without_history());
            assert(versions[0].content() =~= ours.content());
        }
    }
}

/// How far the merging of entries that both sides have has come: of those listed has become what
/// was to become, the others are as they were.
pub open spec fn fulfilling(
    db: DatabaseModel,
    dest: DatabaseModel,
    source: DatabaseModel,
    base: DatabaseModel,
    now: Timestamp,
    known: Set<GroupId>,
    listed: Seq<EntryId>,
    limit: nat,
) -> bool {
    &&& gathering::bare(db).wf()
    &&& gathering::groups_from(db.groups, dest, source)
    &&& db.groups.dom() == known
    &&& remapping::room(db.attachments, source.attachments, limit)
    &&& forall|e: EntryId| #[trigger]
        dest.entries.contains_key(e) && source.entries.contains_key(e) ==> {
            &&& db.entries.contains_key(e)
            &&& if listed.contains(e) {
                fulfilled(db.entries[e], db.attachments, dest, source, base, now, known, e)
            } else {
                db.entries[e] == dest.entries[e] && underway::kept_for(
                    dest.entries[e],
                    dest.attachments,
                    db.attachments,
                )
            }
        }
    &&& forall|e: EntryId| #[trigger]
        db.entries.contains_key(e) && dest.entries.contains_key(e)
            && !source.entries.contains_key(e) ==> db.entries[e] == dest.entries[e]
    &&& forall|e: EntryId| #[trigger]
        db.entries.contains_key(e) && !dest.entries.contains_key(e)
            ==> source.entries.contains_key(e) && underway::copied(
            db.entries[e],
            db.attachments,
            source,
            e,
        )
}

proof fn lemma_common(
    p: Progress,
    dest: DatabaseModel,
    source: DatabaseModel,
    base: DatabaseModel,
    now: Timestamp,
    known: Set<GroupId>,
    listed: Seq<EntryId>,
    limit: nat,
)
    requires
        two_versions(dest, source),
        p.error is None,
        fulfilling(p.db, dest, source, base, now, known, Seq::empty(), limit),
        listed.no_duplicates(),
        forall|i: int|
            0 <= i < listed.len() ==> dest.entries.contains_key(#[trigger] listed[i])
                && source.entries.contains_key(listed[i]),
        entries::all_common(p, source, base, now, listed).error is None,
    ensures
        ({
            let after = entries::all_common(p, source, base, now, listed);
            &&& fulfilling(after.db, dest, source, base, now, known, listed, limit)
            &&& after.db.entries.dom() == p.db.entries.dom()
            &&& after.db.deleted_objects == p.db.deleted_objects
        }),
    decreases listed.len(),
{
    if listed.len() == 0 {
        assert(listed =~= Seq::<EntryId>::empty());
    } else {
        let shorter = listed.drop_last();
        let e = listed[listed.len() - 1];
        assert(dest.entries.contains_key(e));
        assert forall|i: int| 0 <= i < shorter.len() implies dest.entries.contains_key(
            #[trigger] shorter[i],
        ) && source.entries.contains_key(shorter[i]) by {
            assert(shorter[i] == listed[i]);
            assert(dest.entries.contains_key(listed[i]));
        }
        lemma_common(p, dest, source, base, now, known, shorter, limit);
        let before = entries::all_common(p, source, base, now, shorter);
        let after = entries::all_common(p, source, base, now, listed);
        assert(!shorter.contains(e)) by {
            if shorter.contains(e) {
                let n = choose|n: int| 0 <= n < shorter.len() && shorter[n] == e;
                assert(listed[n] == e);
            }
        }
        lemma_fulfils(before, dest, source, base, now, known, e, limit);
        let pool = before.db.attachments;
        let larger = after.db.attachments;
        assert(after.db.entries.dom() =~= before.db.entries.dom());
        assert forall|x: EntryId| #[trigger]
            dest.entries.contains_key(x) && source.entries.contains_key(x) implies {
            &&& after.db.entries.contains_key(x)
            &&& if listed.contains(x) {
                fulfilled(after.db.entries[x], larger, dest, source, base, now, known, x)
            } else {
                after.db.entries[x] == dest.entries[x] && underway::kept_for(
                    dest.entries[x],
                    dest.attachments,
                    larger,
                )
            }
        } by {
            assert(before.db.entries.contains_key(x));
            if x != e {
                if listed.contains(x) {
                    let n = choose|n: int| 0 <= n < listed.len() && listed[n] == x;
                    assert(shorter[n] == x);
                    underway::lemma_kept_in_larger(before.db.entries[x], pool, larger);
                    lemma_fulfilled_elsewhere(
                        before.db.entries[x],
                        pool,
                        larger,
                        dest,
                        source,
                        base,
                        now,
                        known,
                        x,
                    );
                } else {
                    if shorter.contains(x) {
                        let n = choose|n: int| 0 <= n < shorter.len() && shorter[n] == x;
                        assert(listed[n] == x);
                    }
                    underway::lemma_kept_further(
                        dest.entries[x],
                        dest.attachments,
                        pool,
                        larger,
                    );
                }
            } else {
                assert(listed.contains(x));
            }
        }
        assert forall|x: EntryId| #[trigger]
            after.db.entries.contains_key(x) && !dest.entries.contains_key(x) implies
            source.entries.contains_key(x) && underway::copied(
            after.db.entries[x],
            larger,
            source,
            x,
        ) by {
            assert(before.db.entries.contains_key(x));
            underway::lemma_copied_further(before.db.entries[x], pool, larger, source, x);
        }
    }
}

/// What has become of the entries once they were merged, before groups are removed.
pub proof fn lemma_assembled(
    dest: DatabaseModel,
    source: DatabaseModel,
    base: DatabaseModel,
    now: Timestamp,
)
    requires
        two_versions(dest, source),
        underway::assembled(dest, source, base, now).error is None,
    ensures
        ({
            let after = underway::assembled(dest, source, base, now).db;
            let known = groups_at_hand(dest, source, base);
            &&& gathering::bare(after).wf()
            &&& gathering::groups_from(after.groups, dest, source)
            &&& after.groups.dom() == known
            &&& forall|e: EntryId| #[trigger]
                after.entries.contains_key(e) ==> dest.entries.contains_key(e)
                    || source.entries.contains_key(e)
            &&& forall|e: EntryId| #[trigger]
                after.entries.contains_key(e) && dest.entries.contains_key(e)
                    ==> if source.entries.contains_key(e) {
                    fulfilled(
                        after.entries[e],
                        after.attachments,
                        dest,
                        source,
                        base,
                        now,
                        known,
                        e,
                    )
                } else {
                    after.entries[e] == dest.entries[e]
                }
            &&& forall|e: EntryId| #[trigger]
                dest.entries.contains_key(e) ==> (after.entries.contains_key(e)
                    <==> source.entries.contains_key(e) || !rules::buried(
                    source.deleted_objects,
                    e.0,
                    dest.entries[e].times.updated(),
                ))
            &&& forall|e: EntryId| #[trigger]
                dest.entries.contains_key(e) && !after.entries.contains_key(e)
                    ==> after.deleted_objects.contains_key(e.0) && after.deleted_objects[e.0]
                    == source.deleted_objects[e.0]
            &&& forall|e: EntryId| #[trigger]
                source.entries.contains_key(e) && !dest.entries.contains_key(e) && known.contains(
                    source.entries[e].parent,
                ) && rules::revived(
                    underway::marked(dest, source, base).db.deleted_objects,
                    e.0,
                    source.entries[e].times.updated(),
                ) ==> after.entries.contains_key(e)
            &&& forall|e: EntryId| #[trigger]
                after.entries.contains_key(e) && !dest.entries.contains_key(e) ==> underway::copied(
                    after.entries[e],
                    after.attachments,
                    source,
                    e,
                )
        }),
{
    let start = icons::icons_merged(dest, source, base);
    merging::lemma_icons_carry_on(dest, source, base);
    merging::versions_of_a_database_are_mergeable(dest, source, base);
    underway::lemma_gathered(dest, source, base);
    let added = underway::gathered(dest, source, base);
    let known = groups_at_hand(dest, source, base);
    let only_ours = order::ordered::<GroupId>(dest.groups.dom().difference(source.groups.dom()));
    merging::lemma_groups_missing(added, source, base, only_ours);
    let p = underway::marked(dest, source, base);
    assert(gathering::bare(p.db).wf());

    let ours = dest.entries.dom();
    let theirs = source.entries.dom();
    let size = (dest.attachments.dom().len() + source.attachments.dom().len()) as nat;
    let limit = (size + source.attachments.dom().len()) as nat;
    remapping::lemma_room(dest.attachments, source.attachments, size);
    assert(underway::underway(p.db, dest, source, known, size)) by {
        assert forall|e: EntryId| #[trigger]
            dest.entries.contains_key(e) && source.entries.contains_key(e) implies
            underway::kept_for(dest.entries[e], dest.attachments, p.db.attachments) by {
            underway::lemma_sound_kept(dest.entries[e], dest.attachments);
        }
    }
    let offered_ids = order::ordered::<EntryId>(theirs.difference(ours));
    let missing_ids = order::ordered::<EntryId>(ours.difference(theirs));
    let common_ids = order::ordered::<EntryId>(ours.intersect(theirs));
    order::lemma_ordered_lists::<EntryId>(theirs.difference(ours));
    order::lemma_ordered_lists::<EntryId>(ours.difference(theirs));
    order::lemma_ordered_lists::<EntryId>(ours.intersect(theirs));
    order::lemma_increasing_no_duplicates::<EntryId>(offered_ids);
    order::lemma_increasing_no_duplicates::<EntryId>(missing_ids);
    order::lemma_increasing_no_duplicates::<EntryId>(common_ids);
    assert forall|i: int| 0 <= i < offered_ids.len() implies source.entries.contains_key(
        #[trigger] offered_ids[i],
    ) && !dest.entries.contains_key(offered_ids[i]) && !p.db.entries.contains_key(
        offered_ids[i],
    ) by {
        assert(offered_ids.contains(offered_ids[i]));
        assert(theirs.difference(ours).contains(offered_ids[i]));
    }
    underway::lemma_offered(p, dest, source, base, known, offered_ids, size);
    let offered = entries::all_offered(p, source, base, offered_ids);
    underway::lemma_more_room(offered.db, dest, source, known, size, limit);
    assert forall|i: int| 0 <= i < missing_ids.len() implies dest.entries.contains_key(
        #[trigger] missing_ids[i],
    ) && !source.entries.contains_key(missing_ids[i]) by {
        assert(missing_ids.contains(missing_ids[i]));
        assert(ours.difference(theirs).contains(missing_ids[i]));
    }
    underway::lemma_missing(offered, dest, source, base, known, missing_ids, size, limit);
    let missing = entries::all_missing(offered, source, base, missing_ids);
    assert(fulfilling(missing.db, dest, source, base, now, known, Seq::empty(), limit));
    assert forall|i: int| 0 <= i < common_ids.len() implies dest.entries.contains_key(
        #[trigger] common_ids[i],
    ) && source.entries.contains_key(common_ids[i]) by {
        assert(common_ids.contains(common_ids[i]));
        assert(ours.intersect(theirs).contains(common_ids[i]));
    }
    lemma_common(missing, dest, source, base, now, known, common_ids, limit);
    let after = underway::assembled(dest, source, base, now);
    assert(after == entries::all_common(missing, source, base, now, common_ids));
    assert forall|e: EntryId| #[trigger]
        after.db.entries.contains_key(e) && dest.entries.contains_key(e)
            && source.entries.contains_key(e) implies fulfilled(
        after.db.entries[e],
        after.db.attachments,
        dest,
        source,
        base,
        now,
        known,
        e,
    ) by {
        assert(ours.intersect(theirs).contains(e));
        assert(common_ids.contains(e));
    }
    assert forall|e: EntryId| #[trigger] after.db.entries.contains_key(e)
        == missing.db.entries.contains_key(e) by {
        assert(after.db.entries.dom().contains(e) == missing.db.entries.dom().contains(e));
    }
    assert forall|e: EntryId| #[trigger] dest.entries.contains_key(e) implies (
    after.db.entries.contains_key(e) <==> source.entries.contains_key(e) || !rules::buried(
        source.deleted_objects,
        e.0,
        dest.entries[e].times.updated(),
    )) && (!after.db.entries.contains_key(e) ==> after.db.deleted_objects.contains_key(e.0)
        && after.db.deleted_objects[e.0] == source.deleted_objects[e.0]) by {
        assert(offered.db.entries.contains_key(e));
        if source.entries.contains_key(e) {
            assert(missing.db.entries.contains_key(e));
        } else {
            assert(ours.difference(theirs).contains(e));
            assert(missing_ids.contains(e));
            let n = choose|n: int| 0 <= n < missing_ids.len() && missing_ids[n] == e;
            if missing.db.entries.contains_key(e) {
                assert(missing.db.entries.contains_key(missing_ids[n]));
            }
        }
    }
    assert forall|e: EntryId| #[trigger]
        source.entries.contains_key(e) && !dest.entries.contains_key(e) && known.contains(
            source.entries[e].parent,
        ) && rules::revived(
            p.db.deleted_objects,
            e.0,
            source.entries[e].times.updated(),
        ) implies after.db.entries.contains_key(e) by {
        assert(theirs.difference(ours).contains(e));
        assert(offered_ids.contains(e));
        let n = choose|n: int| 0 <= n < offered_ids.len() && offered_ids[n] == e;
        assert(offered.db.entries.contains_key(offered_ids[n]));
        assert(missing.db.entries.contains_key(e));
    }
}

/// What a merge without error leaves of the entries and groups that were assembled.
pub proof fn lemma_left(
    dest: DatabaseModel,
    source: DatabaseModel,
    base: DatabaseModel,
    now: Timestamp,
)
    requires
        two_versions(dest, source),
        merge::merged(dest, source, base, now).error is None,
    ensures
        ({
            let before = underway::assembled(dest, source, base, now);
            let left = underway::left(dest, source, base, now);
            &&& before.error is None
            &&& gathering::bare(left.db).wf()
            &&& gathering::trimmed(before.db, left.db)
            &&& gathering::lost_with(
                before.db,
                left.db,
                groups::doomed(
                    underway::gathered(dest, source, base).db.groups,
                    underway::gathered(dest, source, base).db.entries,
                    source,
                    order::ordered::<GroupId>(dest.groups.dom().difference(source.groups.dom())),
                ),
            )
            &&& gathering::groups_from(left.db.groups, dest, source)
            &&& merge::merged(dest, source, base, now) == groups::groups_settled(
                left,
                source,
                base,
                now,
            )
        }),
{
    let before = underway::assembled(dest, source, base, now);
    let added = underway::gathered(dest, source, base);
    let only_ours = order::ordered::<GroupId>(dest.groups.dom().difference(source.groups.dom()));
    assert(icons::icons_merged(dest, source, base).groups == dest.groups);
    assert(before.error is None);
    lemma_assembled(dest, source, base, now);
    let doomed = groups::doomed(added.db.groups, added.db.entries, source, only_ours);
    gathering::lemma_all_removed(before.db, doomed);
    let left = groups::all_removed(before.db, doomed);
    gathering::lemma_places_kept(before.db.groups, left.groups, dest, source);
}

/// A merge settles each entry that both sides have and that it leaves: the entry stands where the
/// later move put it, it has the content and the data of the side that the verdict is for, and
/// where the histories are merged it has those of both sides.
pub proof fn merge_settles_each_entry(
    dest: DatabaseModel,
    source: DatabaseModel,
    base: DatabaseModel,
    now: Timestamp,
    e: EntryId,
)
    requires
        two_versions(dest, source),
        merge::merged(dest, source, base, now).error is None,
        merge::merged(dest, source, base, now).db.entries.contains_key(e),
        dest.entries.contains_key(e),
        source.entries.contains_key(e),
    ensures
        ({
            let after = merge::merged(dest, source, base, now).db;
            fulfilled(
                after.entries[e],
                after.attachments,
                dest,
                source,
                base,
                now,
                groups_at_hand(dest, source, base),
                e,
            )
        }),
{
    lemma_left(dest, source, base, now);
    lemma_assembled(dest, source, base, now);
    let before = underway::assembled(dest, source, base, now).db;
    let left = underway::left(dest, source, base, now);
    gathering::lemma_groups_settled(left, source, base, now);
    let after = merge::merged(dest, source, base, now).db;
    assert(left.db.entries.contains_key(e));
    assert(before.entries.dom().contains(e));
    assert(before.entries.contains_key(e));
    let known = groups_at_hand(dest, source, base);
    lemma_kept_when_trimmed(before, left.db, e);
    lemma_fulfilled_elsewhere(
        before.entries[e],
        before.attachments,
        after.attachments,
        dest,
        source,
        base,
        now,
        known,
        e,
    );
}

/// An entry that is left keeps its attachments.
proof fn lemma_kept_when_trimmed(before: DatabaseModel, after: DatabaseModel, e: EntryId)
    requires
        gathering::trimmed(before, after),
        after.entries.contains_key(e),
        before.entries[e].sound(before.attachments),
    ensures
        underway::kept_for(before.entries[e], before.attachments, after.attachments),
{
    let entry = before.entries[e];
    underway::lemma_sound_kept(entry, before.attachments);
    assert forall|a: AttachmentId| #[trigger] entry.uses(a) implies before.attachments.contains_key(
        a,
    ) && after.attachments.contains_key(a) && after.attachments[a] == before.attachments[a] by {
        assert(after.entries[e].uses(a));
    }
}

/// A merge changes no entry that only the destination has, unless it deletes it.
pub proof fn merge_leaves_other_entries_alone(
    dest: DatabaseModel,
    source: DatabaseModel,
    base: DatabaseModel,
    now: Timestamp,
    e: EntryId,
)
    requires
        two_versions(dest, source),
        merge::merged(dest, source, base, now).error is None,
        merge::merged(dest, source, base, now).db.entries.contains_key(e),
        !source.entries.contains_key(e),
    ensures
        dest.entries.contains_key(e),
        merge::merged(dest, source, base, now).db.entries[e] == dest.entries[e],
{
    lemma_left(dest, source, base, now);
    lemma_assembled(dest, source, base, now);
    let before = underway::assembled(dest, source, base, now).db;
    let left = underway::left(dest, source, base, now);
    gathering::lemma_groups_settled(left, source, base, now);
    assert(left.db.entries.contains_key(e));
    assert(before.entries.dom().contains(e));
    assert(before.entries.contains_key(e));
}

/// An entry that only the source has and that a merge adds is a copy of the source's, in all its
/// versions: in the same group, with the same content, times and history, and with the same data
/// under the same names.
pub proof fn merge_copies_new_entries(
    dest: DatabaseModel,
    source: DatabaseModel,
    base: DatabaseModel,
    now: Timestamp,
    e: EntryId,
)
    requires
        two_versions(dest, source),
        merge::merged(dest, source, base, now).error is None,
        merge::merged(dest, source, base, now).db.entries.contains_key(e),
        !dest.entries.contains_key(e),
    ensures
        source.entries.contains_key(e),
        ({
            let after = merge::merged(dest, source, base, now).db;
            underway::copied(after.entries[e], after.attachments, source, e)
        }),
{
    lemma_left(dest, source, base, now);
    lemma_assembled(dest, source, base, now);
    let before = underway::assembled(dest, source, base, now).db;
    let left = underway::left(dest, source, base, now);
    gathering::lemma_groups_settled(left, source, base, now);
    assert(left.db.entries.contains_key(e));
    assert(before.entries.dom().contains(e));
    assert(before.entries.contains_key(e));
    soundness::lemma_faithful_sound(
        source.entries[e],
        source.attachments,
        before.entries[e],
        before.attachments,
    );
    lemma_kept_when_trimmed(before, left.db, e);
    underway::lemma_copied_elsewhere(
        before.entries[e],
        before.attachments,
        left.db.attachments,
        source,
        e,
    );
}

/// A merge deletes an entry that only the destination has if the source deleted it at its last
/// update or later, and then takes over when that was. Any other entry of the destination it
/// keeps, unless it removes the group that the entry stands in.
pub proof fn merge_takes_over_deletions(
    dest: DatabaseModel,
    source: DatabaseModel,
    base: DatabaseModel,
    now: Timestamp,
    e: EntryId,
)
    requires
        two_versions(dest, source),
        merge::merged(dest, source, base, now).error is None,
        dest.entries.contains_key(e),
        !source.entries.contains_key(e),
    ensures
        ({
            let after = merge::merged(dest, source, base, now).db;
            if rules::buried(source.deleted_objects, e.0, dest.entries[e].times.updated()) {
                &&& !after.entries.contains_key(e)
                &&& after.deleted_objects.contains_key(e.0)
                &&& after.deleted_objects[e.0] == source.deleted_objects[e.0]
            } else {
                after.entries.contains_key(e) <==> after.groups.contains_key(
                    dest.entries[e].parent,
                )
            }
        }),
{
    lemma_left(dest, source, base, now);
    lemma_assembled(dest, source, base, now);
    lemma_present(dest, source, base, now, e);
}

/// A merge keeps an entry that both sides have, unless it removes the group that the entry stands
/// in once its place was settled.
pub proof fn merge_keeps_common_entries(
    dest: DatabaseModel,
    source: DatabaseModel,
    base: DatabaseModel,
    now: Timestamp,
    e: EntryId,
)
    requires
        two_versions(dest, source),
        merge::merged(dest, source, base, now).error is None,
        dest.entries.contains_key(e),
        source.entries.contains_key(e),
    ensures
        ({
            let after = merge::merged(dest, source, base, now).db;
            let place = underway::relocated(
                dest.entries[e],
                source.entries[e],
                groups_at_hand(dest, source, base),
            ).parent;
            after.entries.contains_key(e) <==> after.groups.contains_key(place)
        }),
{
    lemma_left(dest, source, base, now);
    lemma_assembled(dest, source, base, now);
    lemma_present(dest, source, base, now, e);
}

/// A merge adds an entry that only the source has if its group is there afterwards and the
/// destination did not delete the entry at its last update or later. The identifier of the entry
/// must not be that of a group or an icon as well.
pub proof fn merge_adds_new_entries(
    dest: DatabaseModel,
    source: DatabaseModel,
    base: DatabaseModel,
    now: Timestamp,
    e: EntryId,
)
    requires
        two_versions(dest, source),
        merge::merged(dest, source, base, now).error is None,
        source.entries.contains_key(e),
        !dest.entries.contains_key(e),
        !dest.groups.contains_key(GroupId(e.0)),
        !dest.custom_icons.contains_key(CustomIconId(e.0)),
    ensures
        ({
            let after = merge::merged(dest, source, base, now).db;
            after.entries.contains_key(e) <==> rules::revived(
                dest.deleted_objects,
                e.0,
                source.entries[e].times.updated(),
            ) && after.groups.contains_key(source.entries[e].parent)
        }),
{
    lemma_left(dest, source, base, now);
    lemma_assembled(dest, source, base, now);
    if !rules::revived(dest.deleted_objects, e.0, source.entries[e].times.updated()) {
        merging::deleted_entry_stays_deleted(dest, source, base, now, e);
    }
    merging::lemma_icons_carry_on(dest, source, base);
    merging::versions_of_a_database_are_mergeable(dest, source, base);
    underway::lemma_gathered(dest, source, base);
    let start = icons::icons_merged(dest, source, base);
    let added = underway::gathered(dest, source, base);
    let only_ours = order::ordered::<GroupId>(dest.groups.dom().difference(source.groups.dom()));
    order::lemma_ordered_lists::<GroupId>(dest.groups.dom().difference(source.groups.dom()));
    merging::lemma_groups_missing(added, source, base, only_ours);
    let deleted = underway::marked(dest, source, base).db.deleted_objects;
    assert(!dest.groups.dom().difference(source.groups.dom()).contains(GroupId(e.0)));
    assert(!only_ours.contains(GroupId(e.0)));
    assert(deleted.contains_key(e.0) == added.db.deleted_objects.contains_key(e.0));
    assert(start.deleted_objects.contains_key(e.0) == dest.deleted_objects.contains_key(e.0));
    let before = underway::assembled(dest, source, base, now).db;
    let after = merge::merged(dest, source, base, now).db;
    if before.entries.contains_key(e) {
        lemma_present(dest, source, base, now, e);
    } else {
        gathering::lemma_groups_settled(
            underway::left(dest, source, base, now),
            source,
            base,
            now,
        );
        let left = underway::left(dest, source, base, now).db;
        if after.entries.contains_key(e) {
            assert(left.entries.dom().contains(e));
        }
        if after.groups.contains_key(source.entries[e].parent) {
            assert(after.groups.dom().contains(source.entries[e].parent));
            assert(left.groups.dom().contains(source.entries[e].parent));
            assert(before.groups.dom().contains(source.entries[e].parent));
        }
    }
}

/// An entry that was there before groups were removed is there in the end exactly if its group is.
proof fn lemma_present(
    dest: DatabaseModel,
    source: DatabaseModel,
    base: DatabaseModel,
    now: Timestamp,
    e: EntryId,
)
    requires
        two_versions(dest, source),
        merge::merged(dest, source, base, now).error is None,
    ensures
        ({
            let before = underway::assembled(dest, source, base, now).db;
            let after = merge::merged(dest, source, base, now).db;
            &&& before.entries.contains_key(e) ==> (after.entries.contains_key(e)
                <==> after.groups.contains_key(before.entries[e].parent))
            &&& after.entries.contains_key(e) ==> before.entries.contains_key(e)
            &&& after.deleted_objects == before.deleted_objects
        }),
{
    lemma_left(dest, source, base, now);
    let left = underway::left(dest, source, base, now);
    gathering::lemma_groups_settled(left, source, base, now);
    let before = underway::assembled(dest, source, base, now).db;
    let after = merge::merged(dest, source, base, now).db;
    if after.entries.contains_key(e) {
        assert(left.db.entries.contains_key(e));
        assert(before.entries.dom().contains(e));
        assert(database::entry_placed(left.db.entries, left.db.groups, e));
        assert(left.db.groups.dom().contains(left.db.entries[e].parent));
    }
    if before.entries.contains_key(e) && after.groups.contains_key(before.entries[e].parent) {
        assert(after.groups.dom().contains(before.entries[e].parent));
        assert(left.db.groups.contains_key(before.entries[e].parent));
    }
}

/// A merge adds a group that only the source has if the destination did not delete it at its last
/// update or later, and the group that it stands in is there afterwards. The identifier of the
/// group must not be that of an icon as well.
pub proof fn merge_adds_new_groups(
    dest: DatabaseModel,
    source: DatabaseModel,
    base: DatabaseModel,
    now: Timestamp,
    g: GroupId,
)
    requires
        two_versions(dest, source),
        merge::merged(dest, source, base, now).error is None,
        source.groups.contains_key(g),
        !dest.groups.contains_key(g),
        !dest.custom_icons.contains_key(CustomIconId(g.0)),
        groups::group_revived(dest.deleted_objects, source, g),
    ensures
        ({
            let after = merge::merged(dest, source, base, now).db.groups;
            &&& source.groups[g].parent is Some
            &&& after.contains_key(source.groups[g].parent->0) ==> after.contains_key(g)
        }),
{
    lemma_left(dest, source, base, now);
    lemma_assembled(dest, source, base, now);
    merging::lemma_icons_carry_on(dest, source, base);
    merging::versions_of_a_database_are_mergeable(dest, source, base);
    underway::lemma_gathered(dest, source, base);
    let start = icons::icons_merged(dest, source, base);
    assert(start.deleted_objects.contains_key(g.0) == dest.deleted_objects.contains_key(g.0));
    let left = underway::left(dest, source, base, now);
    gathering::lemma_groups_settled(left, source, base, now);
    let before = underway::assembled(dest, source, base, now).db.groups;
    let after = merge::merged(dest, source, base, now).db.groups;
    assert(underway::gathered(dest, source, base).db.groups.contains_key(g));
    assert(before.dom().contains(g));
    assert(gathering::group_from(before, dest, source, g));
    assert(database::group_placed(source.groups, source.root, g));
    let parent = source.groups[g].parent->0;
    if after.contains_key(parent) && !after.contains_key(g) {
        assert(after.dom().contains(parent));
        assert(left.db.groups.contains_key(parent));
        assert(!after.dom().contains(g));
        assert(!left.db.groups.contains_key(g));
        lemma_doomed_is_ours(dest, source, base, g);
    }
}

/// Only groups that the source lacks are removed for their own sake.
proof fn lemma_doomed_is_ours(
    dest: DatabaseModel,
    source: DatabaseModel,
    base: DatabaseModel,
    g: GroupId,
)
    requires
        dest.finite(),
        source.groups.contains_key(g),
    ensures
        ({
            let added = underway::gathered(dest, source, base).db;
            !groups::doomed(
                added.groups,
                added.entries,
                source,
                order::ordered::<GroupId>(dest.groups.dom().difference(source.groups.dom())),
            ).contains(g)
        }),
{
    let added = underway::gathered(dest, source, base).db;
    let only_ours = order::ordered::<GroupId>(dest.groups.dom().difference(source.groups.dom()));
    order::lemma_ordered_lists::<GroupId>(dest.groups.dom().difference(source.groups.dom()));
    let buried = |x: GroupId| groups::group_buried(added.groups, added.entries, source, x);
    if only_ours.filter(buried).contains(g) {
        only_ours.lemma_filter_contains_rev(buried, g);
        assert(only_ours.contains(g));
        assert(dest.groups.dom().difference(source.groups.dom()).contains(g));
    }
}

/// Of the two sides of an entry the newest wins, with its data, where their modification times
/// differ. So what only the destination changed since the common ancestor is kept, and what only
/// the source changed is taken; a source that did not change since the ancestor has no say. Where
/// it has, both histories are kept.
pub proof fn merge_takes_the_newest_entry(
    dest: DatabaseModel,
    source: DatabaseModel,
    base: DatabaseModel,
    now: Timestamp,
    e: EntryId,
)
    requires
        two_versions(dest, source),
        merge::merged(dest, source, base, now).error is None,
        merge::merged(dest, source, base, now).db.entries.contains_key(e),
        dest.entries.contains_key(e),
        source.entries.contains_key(e),
        dest.entries[e].times.last_modification is Some,
        source.entries[e].times.last_modification is Some,
        dest.entries[e].times.last_modification != source.entries[e].times.last_modification,
    ensures
        ({
            let after = merge::merged(dest, source, base, now).db;
            let our_time = dest.entries[e].times.last_modification->0;
            let their_time = source.entries[e].times.last_modification->0;
            let they_changed = rules::changed_since(entry_laws::base_time(base, e), their_time);
            &&& if they_changed && our_time.before(their_time) {
                has_content_of(
                    after.entries[e],
                    after.attachments,
                    source.entries[e],
                    source.attachments,
                )
            } else {
                has_content_of(
                    after.entries[e],
                    after.attachments,
                    dest.entries[e],
                    dest.attachments,
                )
            }
            &&& they_changed ==> has_histories(
                after.entries[e],
                after.attachments,
                dest.entries[e],
                source.entries[e],
                source.attachments,
            )
        }),
{
    merge_settles_each_entry(dest, source, base, now, e);
}

/// A merge settles each group that the source has and that it leaves: a group that the destination
/// lacked is the source's, and one that both sides have is settled between the two. The entry that
/// a group shows at the top may have been removed.
pub proof fn merge_settles_each_group(
    dest: DatabaseModel,
    source: DatabaseModel,
    base: DatabaseModel,
    now: Timestamp,
    g: GroupId,
)
    requires
        two_versions(dest, source),
        merge::merged(dest, source, base, now).error is None,
        merge::merged(dest, source, base, now).db.groups.contains_key(g),
    ensures
        ({
            let left = underway::left(dest, source, base, now).db.groups;
            let after = merge::merged(dest, source, base, now).db.groups;
            &&& after.dom() == left.dom()
            &&& gathering::group_from(left, dest, source, g)
            &&& gathering::same_node(
                after[g],
                if source.groups.contains_key(g) {
                    gathering::group_outcome(
                        left[g],
                        source.groups[g],
                        left.dom(),
                        base,
                        now,
                        g,
                    )
                } else {
                    left[g]
                },
            )
        }),
{
    lemma_left(dest, source, base, now);
    let left = underway::left(dest, source, base, now);
    gathering::lemma_groups_settled(left, source, base, now);
    let after = merge::merged(dest, source, base, now).db.groups;
    assert(after.dom().contains(g));
    assert(left.db.groups.contains_key(g));
}

/// A merge changes no group that only the destination has, unless it deletes it, but for what
/// stands below the group and the entry that it shows at the top.
pub proof fn merge_leaves_other_groups_alone(
    dest: DatabaseModel,
    source: DatabaseModel,
    base: DatabaseModel,
    now: Timestamp,
    g: GroupId,
)
    requires
        two_versions(dest, source),
        merge::merged(dest, source, base, now).error is None,
        merge::merged(dest, source, base, now).db.groups.contains_key(g),
        !source.groups.contains_key(g),
    ensures
        dest.groups.contains_key(g),
        gathering::alike(merge::merged(dest, source, base, now).db.groups[g], dest.groups[g]),
{
    merge_settles_each_group(dest, source, base, now, g);
    let left = underway::left(dest, source, base, now).db.groups[g];
    let after = merge::merged(dest, source, base, now).db.groups[g];
    assert(after.last_top_visible_entry == after.content().last_top_visible_entry);
    assert(left.last_top_visible_entry == left.content().last_top_visible_entry);
}

/// Of the two sides of a group that stands in the same place on both, the newest wins, where their
/// modification times differ. So what only the destination changed since the common ancestor is
/// kept, but for an entry shown at the top that was removed, and what only the source changed is
/// taken.
pub proof fn merge_takes_the_newest_group(
    dest: DatabaseModel,
    source: DatabaseModel,
    base: DatabaseModel,
    now: Timestamp,
    g: GroupId,
)
    requires
        two_versions(dest, source),
        merge::merged(dest, source, base, now).error is None,
        merge::merged(dest, source, base, now).db.groups.contains_key(g),
        dest.groups.contains_key(g),
        source.groups.contains_key(g),
        dest.groups[g].parent == source.groups[g].parent,
        dest.groups[g].times.last_modification is Some,
        source.groups[g].times.last_modification is Some,
        dest.groups[g].times.last_modification != source.groups[g].times.last_modification,
    ensures
        ({
            let after = merge::merged(dest, source, base, now).db.groups[g];
            let our_time = dest.groups[g].times.last_modification->0;
            let their_time = source.groups[g].times.last_modification->0;
            let they_changed = rules::changed_since(group_laws::base_time(base, g), their_time);
            &&& after.parent == dest.groups[g].parent
            &&& if they_changed && our_time.before(their_time) {
                after.content() == source.groups[g].content() && after.times.last_modification
                    == Some(their_time)
            } else {
                gathering::alike(after, dest.groups[g])
            }
        }),
{
    broadcast use Timestamp::numbers_decide;

    merge_settles_each_group(dest, source, base, now, g);
    let left = underway::left(dest, source, base, now).db.groups[g];
    let after = merge::merged(dest, source, base, now).db.groups[g];
    assert(database::group_placed(dest.groups, dest.root, g));
    assert(database::group_placed(source.groups, source.root, g));
    assert(left.id == left.content().id);
    assert(left.overwritten_by(source.groups[g]).content() =~= source.groups[g].content());
    assert(after.last_top_visible_entry == after.content().last_top_visible_entry);
    assert(left.last_top_visible_entry == left.content().last_top_visible_entry);
}

/// A group that both sides have and that the source moved later, to a group that is there, is
/// moved there; one that the source did not move later stays where it is.
pub proof fn merge_makes_the_later_move(
    dest: DatabaseModel,
    source: DatabaseModel,
    base: DatabaseModel,
    now: Timestamp,
    g: GroupId,
)
    requires
        two_versions(dest, source),
        merge::merged(dest, source, base, now).error is None,
        merge::merged(dest, source, base, now).db.groups.contains_key(g),
        dest.groups.contains_key(g),
        source.groups.contains_key(g),
        dest.groups[g].times.location_changed is Some,
        source.groups[g].times.location_changed is Some,
    ensures
        ({
            let after = merge::merged(dest, source, base, now).db.groups;
            let our_move = dest.groups[g].times.location_changed->0;
            let their_move = source.groups[g].times.location_changed->0;
            &&& our_move.before(their_move) && source.groups[g].parent is Some
                && after.contains_key(source.groups[g].parent->0) ==> after[g].parent
                == source.groups[g].parent
            &&& !our_move.before(their_move) ==> after[g].parent == dest.groups[g].parent
        }),
{
    merge_settles_each_group(dest, source, base, now, g);
    let after = merge::merged(dest, source, base, now).db.groups;
    if source.groups[g].parent is Some {
        assert(after.contains_key(source.groups[g].parent->0) == after.dom().contains(
            source.groups[g].parent->0,
        ));
    }
}

/// The groups that are left were there while the entries were merged.
pub proof fn lemma_groups_at_hand(
    dest: DatabaseModel,
    source: DatabaseModel,
    base: DatabaseModel,
    now: Timestamp,
)
    requires
        two_versions(dest, source),
        merge::merged(dest, source, base, now).error is None,
    ensures
        merge::merged(dest, source, base, now).db.groups.dom().subset_of(
            groups_at_hand(dest, source, base),
        ),
{
    lemma_left(dest, source, base, now);
    lemma_assembled(dest, source, base, now);
    gathering::lemma_groups_settled(underway::left(dest, source, base, now), source, base, now);
}

} // verus!
