//! When the merging of histories adds nothing.

use vstd::prelude::*;
use crate::attachment;
use crate::attachment::Pool;
use crate::entry::EntryModel;
use crate::laws::history as history_laws;
use crate::laws::remapping;
use crate::merge::history;
use crate::references;
use crate::remap;
use crate::remap::Names;
use crate::times::Timestamp;

verus! {

/// Whether no two versions are of the same time.
pub open spec fn distinct_times(versions: Seq<EntryModel>) -> bool {
    forall|i: int, j: int|
        0 <= i < j < versions.len() ==> history::time_of(#[trigger] versions[i])
            != history::time_of(#[trigger] versions[j])
}

/// Whether each version is older than the one before.
pub open spec fn strictly_newest_first(versions: Seq<EntryModel>) -> bool {
    forall|i: int, j: int|
        0 <= i < j < versions.len() ==> history::time_of(#[trigger] versions[j]).before(
            history::time_of(#[trigger] versions[i]),
        )
}

/// Whether each version is newer than the one before.
pub open spec fn strictly_oldest_first(versions: Seq<EntryModel>) -> bool {
    forall|i: int, j: int|
        0 <= i < j < versions.len() ==> history::time_of(#[trigger] versions[i]).before(
            history::time_of(#[trigger] versions[j]),
        )
}

/// Whether all versions have modification times.
pub open spec fn all_have_times(versions: Seq<EntryModel>) -> bool {
    forall|i: int|
        0 <= i < versions.len() ==> (#[trigger] versions[i]).times.last_modification is Some
}

/// Whether versions of two histories that are of the same time have the same content.
pub open spec fn agree_where_they_meet(
    ours: Seq<EntryModel>,
    pool: Pool,
    theirs: Seq<EntryModel>,
    source: Pool,
) -> bool {
    forall|i: int, k: int|
        0 <= i < ours.len() && 0 <= k < theirs.len() && history::time_of(#[trigger] ours[i])
            == history::time_of(#[trigger] theirs[k]) ==> remap::equivalent(
            ours[i],
            pool,
            theirs[k],
            source,
        )
}

/// Whether a version has a counterpart in a history: one of the same time with the same content.
pub open spec fn has_counterpart(
    versions: Seq<EntryModel>,
    pool: Pool,
    version: EntryModel,
    source: Pool,
) -> bool {
    exists|i: int|
        0 <= i < versions.len() && history::time_of(#[trigger] versions[i]) == history::time_of(
            version,
        ) && remap::equivalent(versions[i], pool, version, source)
}

/// Whether a pool has all the data that the versions of an entry stand for in a source.
pub open spec fn entry_imported(entry: EntryModel, source: Pool, pool: Pool) -> bool {
    &&& remapping::imported(entry.attachments, source, pool)
    &&& entry.history matches Some(versions) ==> forall|i: int|
        0 <= i < versions.len() ==> remapping::imported(
            #[trigger] versions[i].attachments,
            source,
            pool,
        )
}

/// Whether a pool has all the data that versions stand for in a source.
pub open spec fn all_imported(versions: Seq<EntryModel>, source: Pool, pool: Pool) -> bool {
    forall|i: int|
        0 <= i < versions.len() ==> entry_imported(#[trigger] versions[i], source, pool)
}

/// Whether versions have finitely many names, as those of every entry in memory have.
pub open spec fn all_entries_finite(versions: Seq<EntryModel>) -> bool {
    forall|i: int| 0 <= i < versions.len() ==> remapping::finite_names(#[trigger] versions[i])
}

/// Whether a history has taken up all versions of the source's history.
pub open spec fn absorbed(
    versions: Seq<EntryModel>,
    pool: Pool,
    theirs: Seq<EntryModel>,
    source: Pool,
) -> bool {
    &&& strictly_newest_first(versions)
    &&& all_have_times(versions)
    &&& forall|k: int|
        0 <= k < theirs.len() ==> has_counterpart(versions, pool, #[trigger] theirs[k], source)
    &&& all_imported(theirs, source, pool)
}

/// Putting a version of a time of its own in order keeps the order strict.
proof fn lemma_put_strictly(sorted: Seq<EntryModel>, version: EntryModel)
    requires
        strictly_oldest_first(sorted),
        forall|i: int|
            0 <= i < sorted.len() ==> history::time_of(#[trigger] sorted[i]) != history::time_of(
                version,
            ),
    ensures
        strictly_oldest_first(history::put_in_order(sorted, version)),
    decreases sorted.len(),
{
    broadcast use Timestamp::numbers_decide;

    let result = history::put_in_order(sorted, version);
    assert(history_laws::ascending(sorted));
    if sorted.len() == 0 || !history::time_of(sorted[0]).before(history::time_of(version)) {
        assert(result =~= seq![version] + sorted);
        assert forall|i: int, j: int| 0 <= i < j < result.len() implies history::time_of(
            #[trigger] result[i],
        ).before(history::time_of(#[trigger] result[j])) by {
            assert(result[j] == sorted[j - 1]);
            assert(history::time_of(sorted[0]) != history::time_of(version));
            if i > 0 {
                assert(result[i] == sorted[i - 1]);
            } else if j > 1 {
                assert(history::time_of(sorted[0]).before(history::time_of(sorted[j - 1])));
            }
        }
    } else {
        let rest = sorted.drop_first();
        let tail = history::put_in_order(rest, version);
        assert forall|i: int| 0 <= i < rest.len() implies history::time_of(#[trigger] rest[i])
            != history::time_of(version) by {
            assert(rest[i] == sorted[i + 1]);
        }
        assert(strictly_oldest_first(rest)) by {
            assert forall|i: int, j: int| 0 <= i < j < rest.len() implies history::time_of(
                #[trigger] rest[i],
            ).before(history::time_of(#[trigger] rest[j])) by {
                assert(rest[i] == sorted[i + 1] && rest[j] == sorted[j + 1]);
            }
        }
        lemma_put_strictly(rest, version);
        assert(history_laws::ascending(rest));
        history_laws::lemma_put_in_order(rest, version);
        assert(result =~= seq![sorted[0]] + tail);
        assert forall|i: int, j: int| 0 <= i < j < result.len() implies history::time_of(
            #[trigger] result[i],
        ).before(history::time_of(#[trigger] result[j])) by {
            assert(result[j] == tail[j - 1]);
            if i > 0 {
                assert(result[i] == tail[i - 1]);
            } else {
                assert(tail.contains(tail[j - 1]));
                if tail[j - 1] != version {
                    assert(rest.contains(tail[j - 1]));
                    let n = choose|n: int| 0 <= n < rest.len() && rest[n] == tail[j - 1];
                    assert(sorted[n + 1] == tail[j - 1]);
                }
            }
        }
    }
}

/// Sorting versions of different times gives a strict order.
pub proof fn lemma_sorted_strictly(versions: Seq<EntryModel>)
    requires
        distinct_times(versions),
    ensures
        strictly_oldest_first(history::oldest_first(versions)),
    decreases versions.len(),
{
    if versions.len() > 0 {
        let rest = versions.drop_first();
        assert(distinct_times(rest)) by {
            assert forall|i: int, j: int| 0 <= i < j < rest.len() implies history::time_of(
                #[trigger] rest[i],
            ) != history::time_of(#[trigger] rest[j]) by {
                assert(rest[i] == versions[i + 1] && rest[j] == versions[j + 1]);
            }
        }
        lemma_sorted_strictly(rest);
        history_laws::sorting_orders_and_keeps(rest);
        let sorted = history::oldest_first(rest);
        assert forall|i: int| 0 <= i < sorted.len() implies history::time_of(#[trigger] sorted[i])
            != history::time_of(versions[0]) by {
            assert(sorted.contains(sorted[i]));
            assert(rest.contains(sorted[i]));
            let n = choose|n: int| 0 <= n < rest.len() && rest[n] == sorted[i];
            assert(versions[n + 1] == sorted[i]);
        }
        lemma_put_strictly(sorted, versions[0]);
    }
}

/// Versions from the newest to the oldest are turned round by sorting.
proof fn lemma_sorting_turns_round(versions: Seq<EntryModel>)
    requires
        strictly_newest_first(versions),
    ensures
        history::oldest_first(versions) == versions.reverse(),
    decreases versions.len(),
{
    if versions.len() == 0 {
        assert(versions.reverse() =~= versions);
    } else {
        let rest = versions.drop_first();
        assert(strictly_newest_first(rest)) by {
            assert forall|i: int, j: int| 0 <= i < j < rest.len() implies history::time_of(
                #[trigger] rest[j],
            ).before(history::time_of(#[trigger] rest[i])) by {
                assert(rest[i] == versions[i + 1] && rest[j] == versions[j + 1]);
            }
        }
        lemma_sorting_turns_round(rest);
        let sorted = rest.reverse();
        assert forall|j: int| 0 <= j < sorted.len() implies history::time_of(
            #[trigger] sorted[j],
        ).before(history::time_of(versions[0])) by {
            assert(sorted[j] == versions[rest.len() - j]);
        }
        history::lemma_put_at(sorted, versions[0], sorted.len() as int);
        assert(sorted.insert(sorted.len() as int, versions[0]) =~= versions.reverse());
    }
}

/// A history into which versions are merged that all have a counterpart there stays as it is.
proof fn lemma_nothing_to_add(versions: Seq<EntryModel>, theirs: Seq<EntryModel>, pool: Pool)
    requires
        strictly_newest_first(versions),
        strictly_oldest_first(theirs),
        forall|k: int|
            0 <= k < theirs.len() ==> has_counterpart(versions, pool, #[trigger] theirs[k], pool),
    ensures
        history::interleaved(versions.reverse(), theirs, pool) == versions,
    decreases versions.len() + theirs.len(),
{
    broadcast use Timestamp::numbers_decide;

    let turned = versions.reverse();
    if versions.len() == 0 {
        if theirs.len() > 0 {
            assert(has_counterpart(versions, pool, theirs[0], pool));
        }
        assert(history::interleaved(turned, theirs, pool) =~= versions);
    } else {
        let rest = versions.drop_first();
        assert(turned.last() == versions[0]);
        assert(turned.drop_last() =~= rest.reverse());
        assert(strictly_newest_first(rest)) by {
            assert forall|i: int, j: int| 0 <= i < j < rest.len() implies history::time_of(
                #[trigger] rest[j],
            ).before(history::time_of(#[trigger] rest[i])) by {
                assert(rest[i] == versions[i + 1] && rest[j] == versions[j + 1]);
            }
        }
        let newest = history::time_of(versions[0]);
        let takes = theirs.len() > 0 && history::time_of(theirs.last()) == newest;
        let their_rest = if takes { theirs.drop_last() } else { theirs };
        assert(strictly_oldest_first(their_rest)) by {
            assert forall|i: int, j: int| 0 <= i < j < their_rest.len() implies history::time_of(
                #[trigger] their_rest[i],
            ).before(history::time_of(#[trigger] their_rest[j])) by {
                assert(their_rest[i] == theirs[i] && their_rest[j] == theirs[j]);
            }
        }
        assert forall|k: int| 0 <= k < their_rest.len() implies has_counterpart(
            rest,
            pool,
            #[trigger] their_rest[k],
            pool,
        ) by {
            assert(their_rest[k] == theirs[k]);
            let i = choose|i: int|
                0 <= i < versions.len() && history::time_of(#[trigger] versions[i])
                    == history::time_of(theirs[k]) && remap::equivalent(
                    versions[i],
                    pool,
                    theirs[k],
                    pool,
                );
            if i == 0 {
                // Only the last one could be of the newest time.
                let last = theirs.len() - 1;
                if k < last {
                    assert(history::time_of(theirs[k]).before(history::time_of(theirs[last])));
                }
                let j = choose|j: int|
                    0 <= j < versions.len() && history::time_of(#[trigger] versions[j])
                        == history::time_of(theirs[last]) && remap::equivalent(
                        versions[j],
                        pool,
                        theirs[last],
                        pool,
                    );
                assert(has_counterpart(versions, pool, theirs[last], pool));
                if j > 0 {
                    assert(history::time_of(versions[j]).before(newest));
                }
            }
            assert(rest[i - 1] == versions[i]);
        }
        lemma_nothing_to_add(rest, their_rest, pool);
        if theirs.len() > 0 {
            let last = theirs.len() - 1;
            assert(has_counterpart(versions, pool, theirs[last], pool));
            let j = choose|j: int|
                0 <= j < versions.len() && history::time_of(#[trigger] versions[j])
                    == history::time_of(theirs[last]) && remap::equivalent(
                    versions[j],
                    pool,
                    theirs[last],
                    pool,
                );
            if j > 0 {
                assert(history::time_of(versions[j]).before(newest));
            }
        }
        assert(history::interleaved(turned, theirs, pool) == seq![versions[0]] + rest);
        assert(seq![versions[0]] + rest =~= versions);
    }
}

/// An entry whose data a pool has already is carried over without a change of the pool.
proof fn lemma_carried_again(entry: EntryModel, source: Pool, pool: Pool)
    requires
        remapping::finite_names(entry),
        entry_imported(entry, source, pool),
    ensures
        remap::entry_remapped(entry, source, pool).1 == pool,
{
    remapping::remapping_again_adds_nothing(entry.attachments, source, pool);
    if let Some(versions) = entry.history {
        lemma_versions_again(versions, source, pool);
    }
}

proof fn lemma_versions_again(versions: Seq<EntryModel>, source: Pool, pool: Pool)
    requires
        remapping::all_finite(versions),
        forall|i: int|
            0 <= i < versions.len() ==> remapping::imported(
                #[trigger] versions[i].attachments,
                source,
                pool,
            ),
    ensures
        remap::versions_remapped(versions, source, pool).1 == pool,
    decreases versions.len(),
{
    if versions.len() > 0 {
        let shorter = versions.drop_last();
        assert forall|i: int| 0 <= i < shorter.len() implies remapping::imported(
            #[trigger] shorter[i].attachments,
            source,
            pool,
        ) && shorter[i].attachments.dom().finite() by {
            assert(shorter[i] == versions[i]);
            assert(remapping::imported(versions[i].attachments, source, pool));
            assert(versions[i].attachments.dom().finite());
        }
        assert(remapping::all_finite(shorter));
        lemma_versions_again(shorter, source, pool);
        let last = versions[versions.len() - 1];
        assert(remapping::imported(last.attachments, source, pool));
        assert(last.attachments.dom().finite());
        remapping::remapping_again_adds_nothing(last.attachments, source, pool);
    }
}

/// Versions that are carried over stand for the same data in the pool that comes of it.
proof fn lemma_all_carried(versions: Seq<EntryModel>, source: Pool, pool: Pool, limit: nat)
    requires
        remapping::room(pool, source, limit),
        all_entries_finite(versions),
    ensures
        ({
            let (after, larger) = history::all_carried(versions, source, pool);
            &&& after.len() == versions.len()
            &&& attachment::extends(pool, larger)
            &&& remapping::room(larger, source, limit)
            &&& all_imported(versions, source, larger)
            &&& forall|i: int|
                0 <= i < versions.len() ==> {
                    &&& (#[trigger] after[i]).content() == versions[i].content()
                    &&& after[i].times == versions[i].times
                    &&& remap::faithful(
                        versions[i].attachments,
                        source,
                        after[i].attachments,
                        larger,
                    )
                }
        }),
    decreases versions.len(),
{
    if versions.len() > 0 {
        let shorter = versions.drop_last();
        assert forall|i: int| 0 <= i < shorter.len() implies remapping::finite_names(
            #[trigger] shorter[i],
        ) by {
            assert(shorter[i] == versions[i]);
        }
        lemma_all_carried(shorter, source, pool, limit);
        let (done, before) = history::all_carried(shorter, source, pool);
        let (after, larger) = history::all_carried(versions, source, pool);
        let last = versions[versions.len() - 1];
        assert(remapping::finite_names(last));
        remapping::remapping_is_faithful(last, source, before, limit);
        attachment::lemma_extends_transitive(pool, before, larger);
        let version = remap::entry_remapped(last, source, before).0;
        lemma_faithful_imports(last, source, version, larger);
        assert(version.content() =~= last.content());
        assert forall|i: int| 0 <= i < versions.len() implies {
            &&& (#[trigger] after[i]).content() == versions[i].content()
            &&& after[i].times == versions[i].times
            &&& remap::faithful(
                versions[i].attachments,
                source,
                after[i].attachments,
                larger,
            )
        } by {
            if i < shorter.len() {
                assert(after[i] == done[i] && shorter[i] == versions[i]);
                remap::lemma_faithful_extended(
                    versions[i].attachments,
                    source,
                    after[i].attachments,
                    before,
                    larger,
                );
            }
        }
        assert forall|i: int| 0 <= i < versions.len() implies entry_imported(
            #[trigger] versions[i],
            source,
            larger,
        ) by {
            if i < shorter.len() {
                assert(shorter[i] == versions[i]);
                lemma_imported_further(versions[i], source, before, larger);
            }
        }
    }
}

/// Data that was carried over is in the pool.
pub proof fn lemma_faithful_imports(
    before: EntryModel,
    source: Pool,
    after: EntryModel,
    pool: Pool,
)
    requires
        remap::entry_faithful(before, source, after, pool),
    ensures
        entry_imported(before, source, pool),
{
    lemma_names_import(before.attachments, source, after.attachments, pool);
    if let Some(versions) = before.history {
        assert forall|i: int| 0 <= i < versions.len() implies remapping::imported(
            #[trigger] versions[i].attachments,
            source,
            pool,
        ) by {
            assert(after.history->0[i] == (EntryModel {
                attachments: after.history->0[i].attachments,
                ..versions[i]
            }));
            lemma_names_import(
                versions[i].attachments,
                source,
                after.history->0[i].attachments,
                pool,
            );
        }
    }
}

proof fn lemma_names_import(before: Names, source: Pool, after: Names, pool: Pool)
    requires
        remap::faithful(before, source, after, pool),
    ensures
        remapping::imported(before, source, pool),
{
    let target = remap::without_dangling(remap::resolved(before, source));
    assert forall|name: Seq<char>| #[trigger]
        before.contains_key(name) && source.contains_key(before[name]) implies attachment::known(
        pool,
        source[before[name]].data,
    ) by {
        assert(target.contains_key(name));
        assert(remap::resolved(after, pool).contains_key(name));
        assert(remap::resolved(after, pool)[name] == Some(source[before[name]].data));
        assert(attachment::holds(pool, after[name], source[before[name]].data));
    }
}

/// Data that is in a pool is in a larger one.
pub proof fn lemma_imported_further(entry: EntryModel, source: Pool, pool: Pool, larger: Pool)
    requires
        entry_imported(entry, source, pool),
        attachment::kept_in(pool, larger),
    ensures
        entry_imported(entry, source, larger),
{
    lemma_names_imported_further(entry.attachments, source, pool, larger);
    if let Some(versions) = entry.history {
        assert forall|i: int| 0 <= i < versions.len() implies remapping::imported(
            #[trigger] versions[i].attachments,
            source,
            larger,
        ) by {
            lemma_names_imported_further(versions[i].attachments, source, pool, larger);
        }
    }
}

proof fn lemma_names_imported_further(names: Names, source: Pool, pool: Pool, larger: Pool)
    requires
        remapping::imported(names, source, pool),
        attachment::kept_in(pool, larger),
    ensures
        remapping::imported(names, source, larger),
{
    assert forall|name: Seq<char>| #[trigger]
        names.contains_key(name) && source.contains_key(names[name]) implies attachment::known(
        larger,
        source[names[name]].data,
    ) by {
        let data = source[names[name]].data;
        assert(attachment::known(pool, data));
        let id = choose|id: crate::ids::AttachmentId| attachment::holds(pool, id, data);
        assert(attachment::holds(larger, id, data));
    }
}

/// What names stand for that do not dangle stays in a larger pool.
pub proof fn lemma_resolved_further(names: Names, pool: Pool, larger: Pool)
    requires
        references::resolves(names, pool),
        attachment::kept_in(pool, larger),
    ensures
        remap::resolved(names, larger) == remap::resolved(names, pool),
        references::resolves(names, larger),
{
    assert forall|name: Seq<char>| #[trigger] names.contains_key(name) implies larger.contains_key(
        names[name],
    ) && larger[names[name]] == pool[names[name]] by {
        assert(pool.contains_key(names[name]));
    }
    assert(remap::resolved(names, larger) =~= remap::resolved(names, pool));
}

/// Names none of which dangles stand for their data, carried over.
pub proof fn lemma_faithful_resolved(before: Names, source: Pool, after: Names, pool: Pool)
    requires
        remap::faithful(before, source, after, pool),
        references::resolves(before, source),
    ensures
        remap::resolved(after, pool) == remap::resolved(before, source),
{
    let data = remap::resolved(before, source);
    assert forall|name: Seq<char>| #[trigger] data.contains_key(name) implies data[name] is Some by {
        assert(before.contains_key(name));
    }
    assert(remap::without_dangling(data) =~= data);
}

/// A history that has taken up all versions of the source's history stays as it is when that is
/// merged into it, and so does the pool.
pub proof fn absorbed_history_stays(
    versions: Seq<EntryModel>,
    pool: Pool,
    theirs: Seq<EntryModel>,
    source: Pool,
    limit: nat,
)
    requires
        absorbed(versions, pool, theirs, source),
        distinct_times(theirs),
        history::all_resolve(theirs, source),
        all_entries_finite(theirs),
        remapping::room(pool, source, limit),
    ensures
        history::history_merged(versions, theirs, source, pool) == versions,
        history::all_carried(theirs, source, pool).1 == pool,
{
    lemma_all_carried_again(theirs, source, pool);
    lemma_all_carried(theirs, source, pool, limit);
    let (carried, larger) = history::all_carried(theirs, source, pool);
    let dated = history::all_dated(carried);
    assert forall|k: int| 0 <= k < dated.len() implies history::time_of(#[trigger] dated[k])
        == history::time_of(theirs[k]) && has_counterpart(versions, pool, dated[k], pool) by {
        assert(carried[k].content() == theirs[k].content());
        assert(references::resolves(theirs[k].attachments, source));
        lemma_faithful_resolved(theirs[k].attachments, source, carried[k].attachments, pool);
        assert(has_counterpart(versions, pool, theirs[k], source));
        let i = choose|i: int|
            0 <= i < versions.len() && history::time_of(#[trigger] versions[i])
                == history::time_of(theirs[k]) && remap::equivalent(
                versions[i],
                pool,
                theirs[k],
                source,
            );
        assert(dated[k].content() =~= carried[k].content());
        assert(remap::equivalent(versions[i], pool, dated[k], pool));
    }
    assert(distinct_times(dated)) by {
        assert forall|i: int, j: int| 0 <= i < j < dated.len() implies history::time_of(
            #[trigger] dated[i],
        ) != history::time_of(#[trigger] dated[j]) by {
            assert(history::time_of(theirs[i]) != history::time_of(theirs[j]));
        }
    }
    lemma_sorted_strictly(dated);
    history_laws::sorting_orders_and_keeps(dated);
    let side = history::their_side(theirs, source, pool);
    assert forall|k: int| 0 <= k < side.len() implies has_counterpart(
        versions,
        pool,
        #[trigger] side[k],
        pool,
    ) by {
        assert(side.contains(side[k]));
        assert(dated.contains(side[k]));
        let n = choose|n: int| 0 <= n < dated.len() && dated[n] == side[k];
        assert(has_counterpart(versions, pool, dated[n], pool));
    }
    assert(history::all_dated(versions) =~= versions) by {
        assert forall|i: int| 0 <= i < versions.len() implies history::dated(
            #[trigger] versions[i],
        ) == versions[i] by {}
    }
    lemma_sorting_turns_round(versions);
    lemma_nothing_to_add(versions, side, pool);
}

proof fn lemma_all_carried_again(versions: Seq<EntryModel>, source: Pool, pool: Pool)
    requires
        all_entries_finite(versions),
        all_imported(versions, source, pool),
    ensures
        history::all_carried(versions, source, pool).1 == pool,
    decreases versions.len(),
{
    if versions.len() > 0 {
        let shorter = versions.drop_last();
        assert forall|i: int| 0 <= i < shorter.len() implies remapping::finite_names(
            #[trigger] shorter[i],
        ) && entry_imported(shorter[i], source, pool) by {
            assert(shorter[i] == versions[i]);
            assert(remapping::finite_names(versions[i]));
            assert(entry_imported(versions[i], source, pool));
        }
        lemma_all_carried_again(shorter, source, pool);
        let last = versions[versions.len() - 1];
        assert(remapping::finite_names(last));
        assert(entry_imported(last, source, pool));
        lemma_carried_again(last, source, pool);
    }
}

/// Two strictly ordered histories that agree where they meet are interleaved in strict order.
proof fn lemma_interleaved_strictly(ours: Seq<EntryModel>, theirs: Seq<EntryModel>, pool: Pool)
    requires
        strictly_oldest_first(ours),
        strictly_oldest_first(theirs),
        agree_where_they_meet(ours, pool, theirs, pool),
    ensures
        strictly_newest_first(history::interleaved(ours, theirs, pool)),
    decreases ours.len() + theirs.len(),
{
    broadcast use Timestamp::numbers_decide;

    let result = history::interleaved(ours, theirs, pool);
    if ours.len() == 0 && theirs.len() == 0 {
    } else {
        let a = ours.last();
        let b = theirs.last();
        let take_ours = ours.len() > 0 && (theirs.len() == 0 || !history::time_of(a).before(
            history::time_of(b),
        ));
        let take_theirs = theirs.len() > 0 && (ours.len() == 0 || !history::time_of(b).before(
            history::time_of(a),
        ));
        let our_rest = if take_ours { ours.drop_last() } else { ours };
        let their_rest = if take_theirs { theirs.drop_last() } else { theirs };
        let first = if take_ours { a } else { b };
        if take_ours && take_theirs {
            assert(ours[ours.len() - 1] == a && theirs[theirs.len() - 1] == b);
            assert(remap::equivalent(a, pool, b, pool));
        }
        assert forall|i: int| 0 <= i < our_rest.len() implies history::time_of(
            #[trigger] our_rest[i],
        ).before(history::time_of(first)) by {
            assert(our_rest[i] == ours[i]);
            if i < ours.len() - 1 {
                assert(history::time_of(ours[i]).before(history::time_of(ours[ours.len() - 1])));
            }
        }
        assert forall|i: int| 0 <= i < their_rest.len() implies history::time_of(
            #[trigger] their_rest[i],
        ).before(history::time_of(first)) by {
            assert(their_rest[i] == theirs[i]);
            if i < theirs.len() - 1 {
                assert(history::time_of(theirs[i]).before(
                    history::time_of(theirs[theirs.len() - 1]),
                ));
            }
        }
        assert(strictly_oldest_first(our_rest)) by {
            assert forall|i: int, j: int| 0 <= i < j < our_rest.len() implies history::time_of(
                #[trigger] our_rest[i],
            ).before(history::time_of(#[trigger] our_rest[j])) by {
                assert(our_rest[i] == ours[i] && our_rest[j] == ours[j]);
            }
        }
        assert(strictly_oldest_first(their_rest)) by {
            assert forall|i: int, j: int| 0 <= i < j < their_rest.len() implies history::time_of(
                #[trigger] their_rest[i],
            ).before(history::time_of(#[trigger] their_rest[j])) by {
                assert(their_rest[i] == theirs[i] && their_rest[j] == theirs[j]);
            }
        }
        assert(agree_where_they_meet(our_rest, pool, their_rest, pool)) by {
            assert forall|i: int, k: int|
                0 <= i < our_rest.len() && 0 <= k < their_rest.len() && history::time_of(
                    #[trigger] our_rest[i],
                ) == history::time_of(#[trigger] their_rest[k]) implies remap::equivalent(
                our_rest[i],
                pool,
                their_rest[k],
                pool,
            ) by {
                assert(our_rest[i] == ours[i] && their_rest[k] == theirs[k]);
            }
        }
        lemma_interleaved_strictly(our_rest, their_rest, pool);
        let rest = history::interleaved(our_rest, their_rest, pool);
        assert(history_laws::ascending(our_rest)) by {
            assert forall|i: int, j: int| 0 <= i < j < our_rest.len() implies !history::time_of(
                #[trigger] our_rest[j],
            ).before(history::time_of(#[trigger] our_rest[i])) by {}
        }
        assert(history_laws::ascending(their_rest)) by {
            assert forall|i: int, j: int| 0 <= i < j < their_rest.len() implies !history::time_of(
                #[trigger] their_rest[j],
            ).before(history::time_of(#[trigger] their_rest[i])) by {}
        }
        history_laws::lemma_interleaved(our_rest, their_rest, pool);
        assert(result == seq![first] + rest);
        assert forall|i: int, j: int| 0 <= i < j < result.len() implies history::time_of(
            #[trigger] result[j],
        ).before(history::time_of(#[trigger] result[i])) by {
            assert(result[j] == rest[j - 1]);
            if i > 0 {
                assert(result[i] == rest[i - 1]);
            } else {
                assert(rest.contains(rest[j - 1]));
                if our_rest.contains(rest[j - 1]) {
                    let n = choose|n: int| 0 <= n < our_rest.len() && our_rest[n] == rest[j - 1];
                    assert(history::time_of(our_rest[n]).before(history::time_of(first)));
                } else {
                    let n = choose|n: int|
                        0 <= n < their_rest.len() && their_rest[n] == rest[j - 1];
                    assert(history::time_of(their_rest[n]).before(history::time_of(first)));
                }
            }
        }
    }
}

/// Merging carries histories over faithfully: in the pool that comes of it no version of the merged
/// history has a dangling reference, and each version of the source's history has one there of the
/// same time, with the same content and the same data.
pub proof fn merged_history_is_faithful(
    ours: Seq<EntryModel>,
    theirs: Seq<EntryModel>,
    source: Pool,
    pool: Pool,
    limit: nat,
)
    requires
        history::all_resolve(ours, pool),
        history::all_resolve(theirs, source),
        all_entries_finite(theirs),
        remapping::room(pool, source, limit),
    ensures
        ({
            let larger = history::all_carried(theirs, source, pool).1;
            let merged = history::history_merged(ours, theirs, source, pool);
            &&& forall|k: int|
                0 <= k < theirs.len() ==> has_counterpart(
                    merged,
                    larger,
                    #[trigger] theirs[k],
                    source,
                )
            &&& all_have_times(merged)
            &&& history::all_resolve(merged, larger)
            &&& all_imported(theirs, source, larger)
            &&& attachment::extends(pool, larger)
            &&& remapping::room(larger, source, limit)
        }),
{
    lemma_all_carried(theirs, source, pool, limit);
    let (carried, larger) = history::all_carried(theirs, source, pool);
    let merged = history::history_merged(ours, theirs, source, pool);
    let a = history::all_dated(ours);
    let b = history::all_dated(carried);
    assert forall|k: int| 0 <= k < b.len() implies {
        &&& history::time_of(#[trigger] b[k]) == history::time_of(theirs[k])
        &&& b[k].content() == theirs[k].content()
        &&& remap::resolved(b[k].attachments, larger) == remap::resolved(
            theirs[k].attachments,
            source,
        )
        &&& references::resolves(b[k].attachments, larger)
    } by {
        lemma_their_version(theirs, source, pool, limit, k);
    }
    assert forall|i: int| 0 <= i < merged.len() implies (
    #[trigger] merged[i]).times.last_modification is Some && references::resolves(
        merged[i].attachments,
        larger,
    ) by {
        assert(merged.contains(merged[i]));
        history_laws::merged_history_invents_nothing(ours, theirs, source, pool, merged[i]);
        if a.contains(merged[i]) {
            let m = choose|m: int| 0 <= m < a.len() && a[m] == merged[i];
            assert(references::resolves(ours[m].attachments, pool));
            lemma_resolved_further(ours[m].attachments, pool, larger);
        } else {
            let n = choose|n: int| 0 <= n < b.len() && b[n] == merged[i];
            assert(references::resolves(b[n].attachments, larger));
        }
    }
    assert forall|i: int| 0 <= i < merged.len() implies references::resolves(
        #[trigger] merged[i].attachments,
        larger,
    ) by {
        assert(merged[i].times.last_modification is Some);
    }
    assert forall|k: int| 0 <= k < theirs.len() implies has_counterpart(
        merged,
        larger,
        #[trigger] theirs[k],
        source,
    ) by {
        history_laws::merged_history_keeps_theirs(ours, theirs, source, pool, k);
        assert(b[k] == history::dated(carried[k]));
        let i = choose|i: int|
            0 <= i < merged.len() && history::time_of(#[trigger] merged[i]) == history::time_of(
                b[k],
            ) && remap::equivalent(merged[i], larger, b[k], larger);
        assert(remap::equivalent(merged[i], larger, theirs[k], source));
        assert(history::time_of(merged[i]) == history::time_of(theirs[k]));
    }
}

/// What holds of a version of the source's history that was carried over.
pub proof fn lemma_their_version(
    theirs: Seq<EntryModel>,
    source: Pool,
    pool: Pool,
    limit: nat,
    k: int,
)
    requires
        history::all_resolve(theirs, source),
        all_entries_finite(theirs),
        remapping::room(pool, source, limit),
        0 <= k < theirs.len(),
    ensures
        ({
            let (carried, larger) = history::all_carried(theirs, source, pool);
            let version = history::all_dated(carried)[k];
            &&& carried.len() == theirs.len()
            &&& version == history::dated(carried[k])
            &&& history::time_of(version) == history::time_of(theirs[k])
            &&& version.content() == theirs[k].content()
            &&& remap::resolved(version.attachments, larger) == remap::resolved(
                theirs[k].attachments,
                source,
            )
            &&& references::resolves(version.attachments, larger)
        }),
{
    lemma_all_carried(theirs, source, pool, limit);
    let (carried, larger) = history::all_carried(theirs, source, pool);
    let version = history::all_dated(carried)[k];
    assert(carried[k].content() == theirs[k].content());
    assert(version.content() =~= carried[k].content());
    assert(references::resolves(theirs[k].attachments, source));
    lemma_faithful_resolved(theirs[k].attachments, source, carried[k].attachments, larger);
    crate::laws::soundness::lemma_faithful_resolves(
        theirs[k].attachments,
        source,
        carried[k].attachments,
        larger,
    );
}

/// Two histories without versions of the same time, which agree where they meet, are merged into
/// one that has taken up the source's.
pub proof fn merged_history_has_absorbed(
    ours: Seq<EntryModel>,
    theirs: Seq<EntryModel>,
    source: Pool,
    pool: Pool,
    limit: nat,
)
    requires
        distinct_times(ours),
        distinct_times(theirs),
        agree_where_they_meet(ours, pool, theirs, source),
        history::all_resolve(ours, pool),
        history::all_resolve(theirs, source),
        all_entries_finite(theirs),
        remapping::room(pool, source, limit),
    ensures
        ({
            let larger = history::all_carried(theirs, source, pool).1;
            let merged = history::history_merged(ours, theirs, source, pool);
            &&& absorbed(merged, larger, theirs, source)
            &&& history::all_resolve(merged, larger)
            &&& attachment::extends(pool, larger)
            &&& remapping::room(larger, source, limit)
        }),
{
    lemma_all_carried(theirs, source, pool, limit);
    merged_history_is_faithful(ours, theirs, source, pool, limit);
    let (carried, larger) = history::all_carried(theirs, source, pool);
    let merged = history::history_merged(ours, theirs, source, pool);
    let a = history::all_dated(ours);
    let b = history::all_dated(carried);
    assert forall|k: int| 0 <= k < b.len() implies {
        &&& history::time_of(#[trigger] b[k]) == history::time_of(theirs[k])
        &&& b[k].content() == theirs[k].content()
        &&& remap::resolved(b[k].attachments, larger) == remap::resolved(
            theirs[k].attachments,
            source,
        )
    } by {
        lemma_their_version(theirs, source, pool, limit, k);
    }
    assert forall|i: int| 0 <= i < a.len() implies {
        &&& history::time_of(#[trigger] a[i]) == history::time_of(ours[i])
        &&& a[i].content() == ours[i].content()
        &&& remap::resolved(a[i].attachments, larger) == remap::resolved(
            ours[i].attachments,
            pool,
        )
        &&& references::resolves(a[i].attachments, larger)
    } by {
        assert(a[i].content() =~= ours[i].content());
        assert(references::resolves(ours[i].attachments, pool));
        lemma_resolved_further(ours[i].attachments, pool, larger);
    }
    assert(distinct_times(a)) by {
        assert forall|i: int, j: int| 0 <= i < j < a.len() implies history::time_of(
            #[trigger] a[i],
        ) != history::time_of(#[trigger] a[j]) by {
            assert(history::time_of(ours[i]) != history::time_of(ours[j]));
        }
    }
    assert(distinct_times(b)) by {
        assert forall|i: int, j: int| 0 <= i < j < b.len() implies history::time_of(
            #[trigger] b[i],
        ) != history::time_of(#[trigger] b[j]) by {
            assert(history::time_of(theirs[i]) != history::time_of(theirs[j]));
        }
    }
    lemma_sorted_strictly(a);
    lemma_sorted_strictly(b);
    history_laws::sorting_orders_and_keeps(a);
    history_laws::sorting_orders_and_keeps(b);
    let our_side = history::our_side(ours);
    let their_side = history::their_side(theirs, source, pool);
    assert forall|i: int, k: int|
        0 <= i < our_side.len() && 0 <= k < their_side.len() && history::time_of(
            #[trigger] our_side[i],
        ) == history::time_of(#[trigger] their_side[k]) implies remap::equivalent(
        our_side[i],
        larger,
        their_side[k],
        larger,
    ) by {
        assert(our_side.contains(our_side[i]) && their_side.contains(their_side[k]));
        assert(a.contains(our_side[i]) && b.contains(their_side[k]));
        let m = choose|m: int| 0 <= m < a.len() && a[m] == our_side[i];
        let n = choose|n: int| 0 <= n < b.len() && b[n] == their_side[k];
        assert(history::time_of(ours[m]) == history::time_of(theirs[n]));
        assert(remap::equivalent(ours[m], pool, theirs[n], source));
    }
    lemma_interleaved_strictly(our_side, their_side, larger);
}

/// A history that has taken up all versions, none of which has a history of its own, still has in
/// another pool with the same data for it.
pub proof fn lemma_absorbed_elsewhere(
    versions: Seq<EntryModel>,
    pool: Pool,
    other: Pool,
    theirs: Seq<EntryModel>,
    source: Pool,
)
    requires
        absorbed(versions, pool, theirs, source),
        forall|i: int|
            0 <= i < versions.len() ==> references::resolves(
                #[trigger] versions[i].attachments,
                other,
            ) && remap::resolved(versions[i].attachments, other) == remap::resolved(
                versions[i].attachments,
                pool,
            ),
        forall|k: int| 0 <= k < theirs.len() ==> (#[trigger] theirs[k]).history is None,
    ensures
        absorbed(versions, other, theirs, source),
{
    assert forall|k: int| 0 <= k < theirs.len() implies has_counterpart(
        versions,
        other,
        #[trigger] theirs[k],
        source,
    ) && entry_imported(theirs[k], source, other) by {
        assert(has_counterpart(versions, pool, theirs[k], source));
        let i = choose|i: int|
            0 <= i < versions.len() && history::time_of(#[trigger] versions[i])
                == history::time_of(theirs[k]) && remap::equivalent(
                versions[i],
                pool,
                theirs[k],
                source,
            );
        let held = versions[i].attachments;
        assert(references::resolves(held, other));
        assert(remap::equivalent(versions[i], other, theirs[k], source));
        let names = theirs[k].attachments;
        assert forall|name: Seq<char>| #[trigger]
            names.contains_key(name) && source.contains_key(names[name]) implies attachment::known(
            other,
            source[names[name]].data,
        ) by {
            assert(remap::resolved(names, source).contains_key(name));
            assert(remap::resolved(held, other).contains_key(name));
            assert(remap::resolved(held, other)[name] == remap::resolved(names, source)[name]);
            assert(attachment::holds(other, held[name], source[names[name]].data));
        }
    }
}

} // verus!
