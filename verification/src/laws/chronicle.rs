//! What the merging of two histories reports.

use vstd::prelude::*;
use crate::attachment::Pool;
use crate::entry::EntryModel;
use crate::ids;
use crate::laws::absorption;
use crate::laws::history as history_laws;
use crate::laws::remapping;
use crate::laws::reports::known_or;
use crate::merge::entries;
use crate::merge::history;
use crate::merge::log::LogModel;
use crate::remap;
use crate::times;
use crate::times::Times;
use crate::times::Timestamp;

verus! {

/// Whether a log grew by warnings only.
pub open spec fn warned_more(before: LogModel, after: LogModel) -> bool {
    &&& before.warnings.is_prefix_of(after.warnings)
    &&& after.events == before.events
}

/// Whether a warning is among those by which a log grew.
pub open spec fn new_warning(before: LogModel, after: LogModel, text: Seq<char>) -> bool {
    exists|n: int|
        before.warnings.len() <= n < after.warnings.len() && #[trigger] after.warnings[n] == text
}

/// That a version in a history has no modification time.
pub open spec fn says_undated(text: Seq<char>, side: Seq<char>, version: EntryModel) -> bool {
    &&& version.times.last_modification is None
    &&& text == side + " history entry "@ + ids::hyphenated(version.id.0.0)
        + " did not have a last modification timestamp"@
}

/// When a version was modified; the start of the epoch where this is not known.
pub open spec fn time_at(version: EntryModel) -> Timestamp {
    known_or(version.times.last_modification, Times::spec_epoch())
}

/// That two versions of the same time differ.
pub open spec fn says_diverged(text: Seq<char>, version: EntryModel, time: Timestamp) -> bool {
    text == "History entries for "@ + ids::hyphenated(version.id.0.0)
        + " have the same modification timestamp "@ + times::timestamp_text(
        time.spec_seconds(),
        time.spec_nanos(),
    ) + " but have diverged."@
}

/// What was warned of stays so when a log grows further.
proof fn lemma_warned_further(a: LogModel, b: LogModel, c: LogModel)
    requires
        warned_more(a, b),
        warned_more(b, c),
    ensures
        warned_more(a, c),
        forall|text: Seq<char>| #[trigger] new_warning(a, b, text) ==> new_warning(a, c, text),
        forall|text: Seq<char>| #[trigger] new_warning(b, c, text) ==> new_warning(a, c, text),
{
    assert forall|text: Seq<char>| #[trigger] new_warning(a, b, text) implies new_warning(
        a,
        c,
        text,
    ) by {
        let n = choose|n: int|
            a.warnings.len() <= n < b.warnings.len() && #[trigger] b.warnings[n] == text;
        assert(c.warnings[n] == b.warnings[n]);
    }
    assert forall|text: Seq<char>| #[trigger] new_warning(b, c, text) implies new_warning(
        a,
        c,
        text,
    ) by {
        let n = choose|n: int|
            b.warnings.len() <= n < c.warnings.len() && #[trigger] c.warnings[n] == text;
        assert(c.warnings[n] == text);
    }
}

/// Each version without a modification time is warned of, and nothing else.
proof fn lemma_undated(log: LogModel, side: Seq<char>, versions: Seq<EntryModel>)
    ensures
        warned_more(log, history::undated_logged(log, side, versions)),
        forall|i: int, text: Seq<char>|
            0 <= i < versions.len() && #[trigger] says_undated(text, side, versions[i])
                ==> new_warning(log, history::undated_logged(log, side, versions), text),
        forall|n: int|
            log.warnings.len() <= n < history::undated_logged(log, side, versions).warnings.len()
                ==> exists|i: int|
                0 <= i < versions.len() && says_undated(
                    #[trigger] history::undated_logged(log, side, versions).warnings[n],
                    side,
                    #[trigger] versions[i],
                ),
    decreases versions.len(),
{
    let after = history::undated_logged(log, side, versions);
    if versions.len() > 0 {
        let shorter = versions.drop_last();
        let last = versions.len() - 1;
        lemma_undated(log, side, shorter);
        let before = history::undated_logged(log, side, shorter);
        assert(versions.last() == versions[last]);
        assert(warned_more(before, after));
        lemma_warned_further(log, before, after);
        assert forall|i: int, text: Seq<char>|
            0 <= i < versions.len() && #[trigger] says_undated(
                text,
                side,
                versions[i],
            ) implies new_warning(log, after, text) by {
            if i < last {
                assert(shorter[i] == versions[i]);
                assert(new_warning(log, before, text));
            } else {
                assert(after.warnings[after.warnings.len() - 1] == text);
                assert(new_warning(before, after, text));
            }
        }
        assert forall|n: int|
            log.warnings.len() <= n < after.warnings.len() implies exists|i: int|
            0 <= i < versions.len() && says_undated(
                #[trigger] after.warnings[n],
                side,
                #[trigger] versions[i],
            ) by {
            if n < before.warnings.len() {
                assert(after.warnings[n] == before.warnings[n]);
                let i = choose|i: int|
                    0 <= i < shorter.len() && says_undated(
                        before.warnings[n],
                        side,
                        #[trigger] shorter[i],
                    );
                assert(shorter[i] == versions[i]);
                assert(says_undated(after.warnings[n], side, versions[i]));
            } else {
                assert(says_undated(after.warnings[n], side, versions[last]));
            }
        }
    }
}

/// Whether two versions of two histories are of the same time and differ.
pub open spec fn clash(
    ours: EntryModel,
    our_pool: Pool,
    theirs: EntryModel,
    their_pool: Pool,
) -> bool {
    time_at(ours) == time_at(theirs) && !remap::equivalent(ours, our_pool, theirs, their_pool)
}

/// Whether a warning tells of two versions of the same time that differ.
pub open spec fn tells_of_a_clash(
    text: Seq<char>,
    ours: Seq<EntryModel>,
    our_pool: Pool,
    theirs: Seq<EntryModel>,
    their_pool: Pool,
) -> bool {
    exists|i: int, k: int|
        0 <= i < ours.len() && 0 <= k < theirs.len() && #[trigger] clash(
            ours[i],
            our_pool,
            theirs[k],
            their_pool,
        ) && says_diverged(text, ours[i], time_at(theirs[k]))
}

/// Nothing but versions of the same time that differ is warned of.
proof fn lemma_clashes_only(
    log: LogModel,
    ours: Seq<EntryModel>,
    theirs: Seq<EntryModel>,
    pool: Pool,
)
    ensures
        warned_more(log, history::conflicts_logged(log, ours, theirs, pool)),
        forall|n: int|
            log.warnings.len() <= n < history::conflicts_logged(
                log,
                ours,
                theirs,
                pool,
            ).warnings.len() ==> tells_of_a_clash(
                #[trigger] history::conflicts_logged(log, ours, theirs, pool).warnings[n],
                ours,
                pool,
                theirs,
                pool,
            ),
    decreases ours.len() + theirs.len(),
{
    broadcast use Timestamp::numbers_decide;

    let after = history::conflicts_logged(log, ours, theirs, pool);
    if ours.len() > 0 && theirs.len() > 0 {
        let a = ours.len() - 1;
        let b = theirs.len() - 1;
        let (next, fewer_ours, fewer_theirs) = if history::time_of(theirs.last()).before(
            history::time_of(ours.last()),
        ) {
            (log, ours.drop_last(), theirs)
        } else if history::time_of(ours.last()).before(history::time_of(theirs.last())) {
            (log, ours, theirs.drop_last())
        } else {
            (
                log.warned_if(
                    !remap::equivalent(ours.last(), pool, theirs.last(), pool),
                    history::versions_diverged(
                        ours.last().id,
                        history::time_of(theirs.last()),
                    ),
                ),
                ours.drop_last(),
                theirs.drop_last(),
            )
        };
        lemma_clashes_only(next, fewer_ours, fewer_theirs, pool);
        lemma_warned_further(log, next, after);
        assert forall|n: int|
            log.warnings.len() <= n < after.warnings.len() implies tells_of_a_clash(
            #[trigger] after.warnings[n],
            ours,
            pool,
            theirs,
            pool,
        ) by {
            if n < next.warnings.len() {
                assert(after.warnings[n] == next.warnings[n]);
                assert(clash(ours[a], pool, theirs[b], pool));
            } else {
                assert(tells_of_a_clash(
                    after.warnings[n],
                    fewer_ours,
                    pool,
                    fewer_theirs,
                    pool,
                ));
                let (i, k) = choose|i: int, k: int|
                    0 <= i < fewer_ours.len() && 0 <= k < fewer_theirs.len() && #[trigger] clash(
                        fewer_ours[i],
                        pool,
                        fewer_theirs[k],
                        pool,
                    ) && says_diverged(after.warnings[n], fewer_ours[i], time_at(fewer_theirs[k]));
                assert(fewer_ours[i] == ours[i] && fewer_theirs[k] == theirs[k]);
                assert(clash(ours[i], pool, theirs[k], pool));
            }
        }
    }
}

/// In histories of different times each two versions of the same time that differ are warned of.
proof fn lemma_each_clash(
    log: LogModel,
    ours: Seq<EntryModel>,
    theirs: Seq<EntryModel>,
    pool: Pool,
    i: int,
    k: int,
    text: Seq<char>,
)
    requires
        absorption::strictly_oldest_first(ours),
        absorption::strictly_oldest_first(theirs),
        0 <= i < ours.len(),
        0 <= k < theirs.len(),
        clash(ours[i], pool, theirs[k], pool),
        says_diverged(text, ours[i], time_at(theirs[k])),
    ensures
        new_warning(log, history::conflicts_logged(log, ours, theirs, pool), text),
    decreases ours.len() + theirs.len(),
{
    broadcast use Timestamp::numbers_decide;

    let after = history::conflicts_logged(log, ours, theirs, pool);
    let a = ours.len() - 1;
    let b = theirs.len() - 1;
    assert(ours.last() == ours[a] && theirs.last() == theirs[b]);
    let fewer_ours = ours.drop_last();
    let fewer_theirs = theirs.drop_last();
    assert(absorption::strictly_oldest_first(fewer_ours)) by {
        assert forall|x: int, y: int| 0 <= x < y < fewer_ours.len() implies history::time_of(
            #[trigger] fewer_ours[x],
        ).before(history::time_of(#[trigger] fewer_ours[y])) by {
            assert(fewer_ours[x] == ours[x] && fewer_ours[y] == ours[y]);
        }
    }
    assert(absorption::strictly_oldest_first(fewer_theirs)) by {
        assert forall|x: int, y: int| 0 <= x < y < fewer_theirs.len() implies history::time_of(
            #[trigger] fewer_theirs[x],
        ).before(history::time_of(#[trigger] fewer_theirs[y])) by {
            assert(fewer_theirs[x] == theirs[x] && fewer_theirs[y] == theirs[y]);
        }
    }
    if i < a {
        assert(history::time_of(ours[i]).before(history::time_of(ours[a])));
    }
    if k < b {
        assert(history::time_of(theirs[k]).before(history::time_of(theirs[b])));
    }
    let next = log.warned_if(
        !remap::equivalent(ours.last(), pool, theirs.last(), pool),
        history::versions_diverged(ours.last().id, history::time_of(theirs.last())),
    );
    if history::time_of(theirs[b]).before(history::time_of(ours[a])) {
        lemma_each_clash(log, fewer_ours, theirs, pool, i, k, text);
    } else if history::time_of(ours[a]).before(history::time_of(theirs[b])) {
        lemma_each_clash(log, ours, fewer_theirs, pool, i, k, text);
    } else if i == a {
        assert(k == b);
        lemma_clashes_only(next, fewer_ours, fewer_theirs, pool);
        lemma_warned_further(log, next, after);
        assert(next.warnings[next.warnings.len() - 1] == text);
        assert(new_warning(log, next, text));
    } else {
        assert(k != b);
        lemma_clashes_only(next, fewer_ours, fewer_theirs, pool);
        lemma_warned_further(log, next, after);
        lemma_each_clash(next, fewer_ours, fewer_theirs, pool, i, k, text);
    }
}

/// How the reports of the merging of two histories follow each other.
proof fn lemma_report(
    log: LogModel,
    ours: Seq<EntryModel>,
    theirs: Seq<EntryModel>,
    source: Pool,
    pool: Pool,
)
    ensures
        ({
            let first = history::undated_logged(log, "Destination"@, ours);
            let second = history::undated_logged(first, "Source"@, theirs);
            let after = history::history_logged(log, ours, theirs, source, pool);
            &&& warned_more(log, first)
            &&& warned_more(first, second)
            &&& warned_more(second, after)
            &&& warned_more(log, second)
            &&& warned_more(first, after)
            &&& warned_more(log, after)
        }),
{
    let first = history::undated_logged(log, "Destination"@, ours);
    let second = history::undated_logged(first, "Source"@, theirs);
    let after = history::history_logged(log, ours, theirs, source, pool);
    lemma_undated(log, "Destination"@, ours);
    lemma_undated(first, "Source"@, theirs);
    lemma_clashes_only(
        second,
        history::our_side(ours),
        history::their_side(theirs, source, pool),
        history::all_carried(theirs, source, pool).1,
    );
    lemma_warned_further(log, first, second);
    lemma_warned_further(first, second, after);
    lemma_warned_further(log, first, after);
}

/// The merging of two histories warns of each version, on either side, that has no modification
/// time, and reports no change.
pub proof fn undated_versions_are_warned_of(
    log: LogModel,
    ours: Seq<EntryModel>,
    theirs: Seq<EntryModel>,
    source: Pool,
    pool: Pool,
    i: int,
)
    ensures
        ({
            let after = history::history_logged(log, ours, theirs, source, pool);
            &&& log.warnings.is_prefix_of(after.warnings)
            &&& after.events == log.events
            &&& 0 <= i < ours.len() && ours[i].times.last_modification is None ==> new_warning(
                log,
                after,
                "Destination"@ + " history entry "@ + ids::hyphenated(ours[i].id.0.0)
                    + " did not have a last modification timestamp"@,
            )
            &&& 0 <= i < theirs.len() && theirs[i].times.last_modification is None ==> new_warning(
                log,
                after,
                "Source"@ + " history entry "@ + ids::hyphenated(theirs[i].id.0.0)
                    + " did not have a last modification timestamp"@,
            )
        }),
{
    let first = history::undated_logged(log, "Destination"@, ours);
    let second = history::undated_logged(first, "Source"@, theirs);
    let after = history::history_logged(log, ours, theirs, source, pool);
    lemma_report(log, ours, theirs, source, pool);
    lemma_undated(log, "Destination"@, ours);
    lemma_undated(first, "Source"@, theirs);
    lemma_warned_further(log, first, after);
    lemma_warned_further(first, second, after);
    if 0 <= i < ours.len() && ours[i].times.last_modification is None {
        let text = "Destination"@ + " history entry "@ + ids::hyphenated(ours[i].id.0.0)
            + " did not have a last modification timestamp"@;
        assert(says_undated(text, "Destination"@, ours[i]));
        assert(new_warning(log, first, text));
    }
    if 0 <= i < theirs.len() && theirs[i].times.last_modification is None {
        let text = "Source"@ + " history entry "@ + ids::hyphenated(theirs[i].id.0.0)
            + " did not have a last modification timestamp"@;
        assert(says_undated(text, "Source"@, theirs[i]));
        assert(new_warning(first, second, text));
        assert(new_warning(first, after, text));
    }
}

/// A version that was dated and sorted stands among the sorted ones.
proof fn lemma_sorted_place(versions: Seq<EntryModel>, i: int) -> (n: int)
    requires
        0 <= i < versions.len(),
    ensures
        0 <= n < history::oldest_first(history::all_dated(versions)).len(),
        history::oldest_first(history::all_dated(versions))[n] == history::dated(versions[i]),
{
    let all = history::all_dated(versions);
    history_laws::sorting_orders_and_keeps(all);
    assert(all[i] == history::dated(versions[i]));
    assert(all.contains(all[i]));
    let sorted = history::oldest_first(all);
    assert(sorted.contains(all[i]));
    choose|n: int| 0 <= n < sorted.len() && sorted[n] == all[i]
}

/// Versions of different times stay so when they are dated.
proof fn lemma_dated_distinct(versions: Seq<EntryModel>)
    requires
        absorption::distinct_times(versions),
    ensures
        absorption::distinct_times(history::all_dated(versions)),
{
    let all = history::all_dated(versions);
    assert forall|i: int, j: int| 0 <= i < j < all.len() implies history::time_of(
        #[trigger] all[i],
    ) != history::time_of(#[trigger] all[j]) by {
        assert(all[i] == history::dated(versions[i]) && all[j] == history::dated(versions[j]));
        assert(history::time_of(versions[i]) != history::time_of(versions[j]));
    }
}

/// Two versions clash exactly if they do once they were dated and carried over.
proof fn lemma_clash_carried(
    ours: Seq<EntryModel>,
    theirs: Seq<EntryModel>,
    source: Pool,
    pool: Pool,
    limit: nat,
    i: int,
    k: int,
)
    requires
        history::all_resolve(ours, pool),
        history::all_resolve(theirs, source),
        absorption::all_entries_finite(theirs),
        remapping::room(pool, source, limit),
        0 <= i < ours.len(),
        0 <= k < theirs.len(),
    ensures
        ({
            let (carried, larger) = history::all_carried(theirs, source, pool);
            let version = history::all_dated(carried)[k];
            &&& clash(ours[i], pool, theirs[k], source) == clash(
                history::dated(ours[i]),
                larger,
                version,
                larger,
            )
            &&& time_at(version) == time_at(theirs[k])
        }),
{
    let (carried, larger) = history::all_carried(theirs, source, pool);
    let version = history::all_dated(carried)[k];
    absorption::lemma_their_version(theirs, source, pool, limit, k);
    absorption::merged_history_is_faithful(ours, theirs, source, pool, limit);
    assert(crate::references::resolves(ours[i].attachments, pool));
    absorption::lemma_resolved_further(ours[i].attachments, pool, larger);
    assert(history::dated(ours[i]).content() =~= ours[i].content());
}

/// Where no two versions of one history are of the same time, the merging of two histories warns of
/// each version of the one that differs from the version of the other that is of the same time.
pub proof fn differing_versions_are_warned_of(
    log: LogModel,
    ours: Seq<EntryModel>,
    theirs: Seq<EntryModel>,
    source: Pool,
    pool: Pool,
    limit: nat,
    i: int,
    k: int,
)
    requires
        history::all_resolve(ours, pool),
        history::all_resolve(theirs, source),
        absorption::all_entries_finite(theirs),
        remapping::room(pool, source, limit),
        absorption::distinct_times(ours),
        absorption::distinct_times(theirs),
        0 <= i < ours.len(),
        0 <= k < theirs.len(),
        time_at(ours[i]) == time_at(theirs[k]),
        !remap::equivalent(ours[i], pool, theirs[k], source),
    ensures
        new_warning(
            log,
            history::history_logged(log, ours, theirs, source, pool),
            "History entries for "@ + ids::hyphenated(ours[i].id.0.0)
                + " have the same modification timestamp "@ + times::timestamp_text(
                time_at(theirs[k]).spec_seconds(),
                time_at(theirs[k]).spec_nanos(),
            ) + " but have diverged."@,
        ),
{
    let second = history::undated_logged(
        history::undated_logged(log, "Destination"@, ours),
        "Source"@,
        theirs,
    );
    let after = history::history_logged(log, ours, theirs, source, pool);
    lemma_report(log, ours, theirs, source, pool);
    let (carried, larger) = history::all_carried(theirs, source, pool);
    let a = lemma_sorted_place(ours, i);
    absorption::lemma_their_version(theirs, source, pool, limit, k);
    let b = lemma_sorted_place(carried, k);
    lemma_clash_carried(ours, theirs, source, pool, limit, i, k);
    lemma_dated_distinct(ours);
    absorption::lemma_sorted_strictly(history::all_dated(ours));
    assert(absorption::distinct_times(carried)) by {
        assert forall|x: int, y: int| 0 <= x < y < carried.len() implies history::time_of(
            #[trigger] carried[x],
        ) != history::time_of(#[trigger] carried[y]) by {
            absorption::lemma_their_version(theirs, source, pool, limit, x);
            absorption::lemma_their_version(theirs, source, pool, limit, y);
            assert(history::time_of(theirs[x]) != history::time_of(theirs[y]));
        }
    }
    lemma_dated_distinct(carried);
    absorption::lemma_sorted_strictly(history::all_dated(carried));
    let text = history::versions_diverged(ours[i].id, time_at(theirs[k]));
    lemma_each_clash(
        second,
        history::our_side(ours),
        history::their_side(theirs, source, pool),
        larger,
        a,
        b,
        text,
    );
    lemma_warned_further(log, second, after);
    assert(new_warning(second, after, text));
}

/// The merging of two histories warns of nothing but versions that have no modification time and
/// of versions of the same time that differ.
pub proof fn histories_are_merged_silently_otherwise(
    log: LogModel,
    ours: Seq<EntryModel>,
    theirs: Seq<EntryModel>,
    source: Pool,
    pool: Pool,
    limit: nat,
    n: int,
)
    requires
        history::all_resolve(ours, pool),
        history::all_resolve(theirs, source),
        absorption::all_entries_finite(theirs),
        remapping::room(pool, source, limit),
        log.warnings.len() <= n < history::history_logged(
            log,
            ours,
            theirs,
            source,
            pool,
        ).warnings.len(),
    ensures
        ({
            let text = history::history_logged(log, ours, theirs, source, pool).warnings[n];
            ||| exists|i: int|
                0 <= i < ours.len() && says_undated(text, "Destination"@, #[trigger] ours[i])
            ||| exists|k: int|
                0 <= k < theirs.len() && says_undated(text, "Source"@, #[trigger] theirs[k])
            ||| tells_of_a_clash(text, ours, pool, theirs, source)
        }),
{
    let first = history::undated_logged(log, "Destination"@, ours);
    let second = history::undated_logged(first, "Source"@, theirs);
    let after = history::history_logged(log, ours, theirs, source, pool);
    let text = after.warnings[n];
    lemma_report(log, ours, theirs, source, pool);
    lemma_undated(log, "Destination"@, ours);
    lemma_undated(first, "Source"@, theirs);
    if n < first.warnings.len() {
        assert(first.warnings[n] == text);
    } else if n < second.warnings.len() {
        assert(second.warnings[n] == text);
    } else {
        let (carried, larger) = history::all_carried(theirs, source, pool);
        let a = history::our_side(ours);
        let b = history::their_side(theirs, source, pool);
        lemma_clashes_only(second, a, b, larger);
        assert(history::conflicts_logged(second, a, b, larger).warnings[n] == text);
        let (x, y) = choose|x: int, y: int|
            0 <= x < a.len() && 0 <= y < b.len() && #[trigger] clash(a[x], larger, b[y], larger)
                && says_diverged(text, a[x], time_at(b[y]));
        history_laws::sorting_orders_and_keeps(history::all_dated(ours));
        history_laws::sorting_orders_and_keeps(history::all_dated(carried));
        assert(a.contains(a[x]) && b.contains(b[y]));
        let all_ours = history::all_dated(ours);
        let all_theirs = history::all_dated(carried);
        assert(all_ours.contains(a[x]) && all_theirs.contains(b[y]));
        let i = choose|i: int| 0 <= i < all_ours.len() && all_ours[i] == a[x];
        let k = choose|k: int| 0 <= k < all_theirs.len() && all_theirs[k] == b[y];
        assert(a[x] == history::dated(ours[i]));
        absorption::merged_history_is_faithful(ours, theirs, source, pool, limit);
        assert(carried.len() == theirs.len()) by {
            if theirs.len() > 0 {
                absorption::lemma_their_version(theirs, source, pool, limit, 0);
            }
        }
        lemma_clash_carried(ours, theirs, source, pool, limit, i, k);
        assert(clash(ours[i], pool, theirs[k], source));
        assert(says_diverged(text, ours[i], time_at(theirs[k])));
    }
}

/// Where no version of the one history has one of the same time with the same content in the other,
/// the merged history has all versions of both; it never has more, nor fewer than either side.
proof fn lemma_interleaved_length(ours: Seq<EntryModel>, theirs: Seq<EntryModel>, pool: Pool)
    ensures
        ours.len() <= history::interleaved(ours, theirs, pool).len(),
        theirs.len() <= history::interleaved(ours, theirs, pool).len(),
        history::interleaved(ours, theirs, pool).len() <= ours.len() + theirs.len(),
        (forall|i: int, k: int|
            0 <= i < ours.len() && 0 <= k < theirs.len() && time_at(#[trigger] ours[i]) == time_at(
                #[trigger] theirs[k],
            ) ==> clash(ours[i], pool, theirs[k], pool)) ==> history::interleaved(
            ours,
            theirs,
            pool,
        ).len() == ours.len() + theirs.len(),
    decreases ours.len() + theirs.len(),
{
    broadcast use Timestamp::numbers_decide;

    if ours.len() > 0 && theirs.len() > 0 {
        let a = ours.len() - 1;
        let b = theirs.len() - 1;
        let fewer_ours = ours.drop_last();
        let fewer_theirs = theirs.drop_last();
        lemma_interleaved_length(fewer_ours, theirs, pool);
        lemma_interleaved_length(ours, fewer_theirs, pool);
        lemma_interleaved_length(fewer_ours, fewer_theirs, pool);
        if forall|i: int, k: int|
            0 <= i < ours.len() && 0 <= k < theirs.len() && time_at(#[trigger] ours[i]) == time_at(
                #[trigger] theirs[k],
            ) ==> clash(ours[i], pool, theirs[k], pool) {
            assert forall|i: int, k: int|
                0 <= i < fewer_ours.len() && 0 <= k < theirs.len() && time_at(
                    #[trigger] fewer_ours[i],
                ) == time_at(#[trigger] theirs[k]) implies clash(
                fewer_ours[i],
                pool,
                theirs[k],
                pool,
            ) by {
                assert(fewer_ours[i] == ours[i]);
            }
            assert forall|i: int, k: int|
                0 <= i < ours.len() && 0 <= k < fewer_theirs.len() && time_at(#[trigger] ours[i])
                    == time_at(#[trigger] fewer_theirs[k]) implies clash(
                ours[i],
                pool,
                fewer_theirs[k],
                pool,
            ) by {
                assert(fewer_theirs[k] == theirs[k]);
            }
            assert forall|i: int, k: int|
                0 <= i < fewer_ours.len() && 0 <= k < fewer_theirs.len() && time_at(
                    #[trigger] fewer_ours[i],
                ) == time_at(#[trigger] fewer_theirs[k]) implies clash(
                fewer_ours[i],
                pool,
                fewer_theirs[k],
                pool,
            ) by {
                assert(fewer_ours[i] == ours[i] && fewer_theirs[k] == theirs[k]);
            }
            assert(ours[a] == ours.last() && theirs[b] == theirs.last());
        }
    } else if ours.len() > 0 {
        lemma_interleaved_length(ours.drop_last(), theirs, pool);
    } else if theirs.len() > 0 {
        lemma_interleaved_length(ours, theirs.drop_last(), pool);
    }
}

/// A merged history has no fewer versions than either side, and no more than both together; it has
/// as many as both together where versions of the same time always differ.
pub proof fn merged_history_has_each_version_once(
    ours: Seq<EntryModel>,
    theirs: Seq<EntryModel>,
    source: Pool,
    pool: Pool,
    limit: nat,
)
    requires
        history::all_resolve(ours, pool),
        history::all_resolve(theirs, source),
        absorption::all_entries_finite(theirs),
        remapping::room(pool, source, limit),
    ensures
        ({
            let merged = history::history_merged(ours, theirs, source, pool);
            &&& ours.len() <= merged.len()
            &&& theirs.len() <= merged.len()
            &&& merged.len() <= ours.len() + theirs.len()
            &&& (forall|i: int, k: int|
                0 <= i < ours.len() && 0 <= k < theirs.len() && time_at(#[trigger] ours[i])
                    == time_at(#[trigger] theirs[k]) ==> !remap::equivalent(
                    ours[i],
                    pool,
                    theirs[k],
                    source,
                )) ==> merged.len() == ours.len() + theirs.len()
        }),
{
    let (carried, larger) = history::all_carried(theirs, source, pool);
    let all_ours = history::all_dated(ours);
    let all_theirs = history::all_dated(carried);
    history_laws::sorting_orders_and_keeps(all_ours);
    history_laws::sorting_orders_and_keeps(all_theirs);
    let a = history::our_side(ours);
    let b = history::their_side(theirs, source, pool);
    lemma_interleaved_length(a, b, larger);
    assert(carried.len() == theirs.len()) by {
        if theirs.len() > 0 {
            history_laws::merged_history_keeps_theirs(ours, theirs, source, pool, 0);
        }
    }
    if forall|i: int, k: int|
        0 <= i < ours.len() && 0 <= k < theirs.len() && time_at(#[trigger] ours[i]) == time_at(
            #[trigger] theirs[k],
        ) ==> !remap::equivalent(ours[i], pool, theirs[k], source) {
        assert forall|x: int, y: int|
            0 <= x < a.len() && 0 <= y < b.len() && time_at(#[trigger] a[x]) == time_at(
                #[trigger] b[y],
            ) implies clash(a[x], larger, b[y], larger) by {
            assert(a.contains(a[x]) && b.contains(b[y]));
            assert(all_ours.contains(a[x]) && all_theirs.contains(b[y]));
            let i = choose|i: int| 0 <= i < all_ours.len() && all_ours[i] == a[x];
            let k = choose|k: int| 0 <= k < all_theirs.len() && all_theirs[k] == b[y];
            assert(a[x] == history::dated(ours[i]));
            lemma_clash_carried(ours, theirs, source, pool, limit, i, k);
            assert(time_at(ours[i]) == time_at(theirs[k]));
        }
    }
}

/// Sorting puts each version in front of those after it that are not older, so versions of the same
/// time stay in their order.
pub proof fn sorting_is_stable(versions: Seq<EntryModel>, at: int)
    requires
        versions.len() > 0,
        ({
            let rest = history::oldest_first(versions.drop_first());
            &&& 0 <= at <= rest.len()
            &&& forall|j: int|
                0 <= j < at ==> time_at(#[trigger] rest[j]).before(time_at(versions[0]))
            &&& at < rest.len() ==> !time_at(rest[at]).before(time_at(versions[0]))
        }),
    ensures
        history::oldest_first(versions) == history::oldest_first(versions.drop_first()).insert(
            at,
            versions[0],
        ),
        history::oldest_first(Seq::empty()) == Seq::<EntryModel>::empty(),
{
    let rest = history::oldest_first(versions.drop_first());
    assert forall|j: int| 0 <= j < at implies history::time_of(#[trigger] rest[j]).before(
        history::time_of(versions[0]),
    ) by {
        assert(time_at(rest[j]).before(time_at(versions[0])));
    }
    history::lemma_put_at(rest, versions[0], at);
}

/// Of two versions that a merged history has of the same time, where no history has two of them,
/// ours comes first, and theirs comes next.
proof fn lemma_ours_first(ours: Seq<EntryModel>, theirs: Seq<EntryModel>, pool: Pool, n: int)
    requires
        absorption::strictly_oldest_first(ours),
        absorption::strictly_oldest_first(theirs),
        0 <= n < history::interleaved(ours, theirs, pool).len() - 1,
        time_at(history::interleaved(ours, theirs, pool)[n]) == time_at(
            history::interleaved(ours, theirs, pool)[n + 1],
        ),
    ensures
        ours.contains(history::interleaved(ours, theirs, pool)[n]),
        theirs.contains(history::interleaved(ours, theirs, pool)[n + 1]),
    decreases ours.len() + theirs.len(),
{
    broadcast use Timestamp::numbers_decide;

    let result = history::interleaved(ours, theirs, pool);
    let a = ours.len() - 1;
    let b = theirs.len() - 1;
    let take_ours = ours.len() > 0 && (theirs.len() == 0 || !history::time_of(ours.last()).before(
        history::time_of(theirs.last()),
    ));
    let take_theirs = theirs.len() > 0 && (ours.len() == 0 || !history::time_of(
        theirs.last(),
    ).before(history::time_of(ours.last())));
    let both = take_ours && take_theirs && !remap::equivalent(
        ours.last(),
        pool,
        theirs.last(),
        pool,
    );
    let our_rest = if take_ours {
        ours.drop_last()
    } else {
        ours
    };
    let their_rest = if take_theirs {
        theirs.drop_last()
    } else {
        theirs
    };
    let rest = history::interleaved(our_rest, their_rest, pool);
    let front: int = if both {
        2
    } else {
        1
    };
    assert(result.len() == front + rest.len());
    assert forall|m: int| front <= m < result.len() implies #[trigger] result[m] == rest[m
        - front] by {}
    assert(absorption::strictly_oldest_first(our_rest)) by {
        assert forall|x: int, y: int| 0 <= x < y < our_rest.len() implies history::time_of(
            #[trigger] our_rest[x],
        ).before(history::time_of(#[trigger] our_rest[y])) by {
            assert(our_rest[x] == ours[x] && our_rest[y] == ours[y]);
        }
    }
    assert(absorption::strictly_oldest_first(their_rest)) by {
        assert forall|x: int, y: int| 0 <= x < y < their_rest.len() implies history::time_of(
            #[trigger] their_rest[x],
        ).before(history::time_of(#[trigger] their_rest[y])) by {
            assert(their_rest[x] == theirs[x] && their_rest[y] == theirs[y]);
        }
    }
    if n >= front {
        lemma_ours_first(our_rest, their_rest, pool, n - front);
        let x = result[n];
        let y = result[n + 1];
        let i = choose|i: int| 0 <= i < our_rest.len() && our_rest[i] == x;
        let k = choose|k: int| 0 <= k < their_rest.len() && their_rest[k] == y;
        assert(ours[i] == x);
        assert(theirs[k] == y);
    } else if both && n == 0 {
        assert(result[0] == ours[a] && result[1] == theirs[b]);
    } else {
        let next = result[n + 1];
        assert(next == rest[n + 1 - front]);
        lemma_rest_is_older(our_rest, their_rest, pool, next);
        if our_rest.contains(next) {
            let i = choose|i: int| 0 <= i < our_rest.len() && our_rest[i] == next;
            assert(ours[i] == next);
            if take_ours {
                assert(history::time_of(ours[i]).before(history::time_of(ours[a])));
            } else {
                assert(i <= a);
                if i < a {
                    assert(history::time_of(ours[i]).before(history::time_of(ours[a])));
                }
            }
        } else {
            let k = choose|k: int| 0 <= k < their_rest.len() && their_rest[k] == next;
            assert(theirs[k] == next);
            if take_theirs {
                assert(history::time_of(theirs[k]).before(history::time_of(theirs[b])));
            } else {
                if k < b {
                    assert(history::time_of(theirs[k]).before(history::time_of(theirs[b])));
                }
            }
        }
    }
}

/// What an interleaved history has comes from one of the two.
proof fn lemma_rest_is_older(
    ours: Seq<EntryModel>,
    theirs: Seq<EntryModel>,
    pool: Pool,
    version: EntryModel,
)
    requires
        absorption::strictly_oldest_first(ours),
        absorption::strictly_oldest_first(theirs),
        history::interleaved(ours, theirs, pool).contains(version),
    ensures
        ours.contains(version) || theirs.contains(version),
{
    broadcast use Timestamp::numbers_decide;

    assert(history_laws::ascending(ours));
    assert(history_laws::ascending(theirs));
    history_laws::lemma_interleaved(ours, theirs, pool);
}

/// Where no two versions of one history are of the same time, two versions of the same time in a
/// merged history are one of the destination's, which comes first, and one of the source's.
pub proof fn our_version_comes_before_theirs(
    ours: Seq<EntryModel>,
    theirs: Seq<EntryModel>,
    source: Pool,
    pool: Pool,
    limit: nat,
    n: int,
)
    requires
        history::all_resolve(theirs, source),
        absorption::all_entries_finite(theirs),
        remapping::room(pool, source, limit),
        absorption::distinct_times(ours),
        absorption::distinct_times(theirs),
        0 <= n < history::history_merged(ours, theirs, source, pool).len() - 1,
        time_at(history::history_merged(ours, theirs, source, pool)[n]) == time_at(
            history::history_merged(ours, theirs, source, pool)[n + 1],
        ),
    ensures
        ({
            let merged = history::history_merged(ours, theirs, source, pool);
            let larger = history::all_carried(theirs, source, pool).1;
            &&& exists|i: int|
                0 <= i < ours.len() && merged[n] == (EntryModel {
                    times: Times {
                        last_modification: Some(time_at(ours[i])),
                        ..ours[i].times
                    },
                    ..#[trigger] ours[i]
                })
            &&& exists|k: int|
                0 <= k < theirs.len() && time_at(merged[n + 1]) == time_at(#[trigger] theirs[k])
                    && remap::equivalent(merged[n + 1], larger, theirs[k], source)
        }),
{
    let (carried, larger) = history::all_carried(theirs, source, pool);
    let merged = history::history_merged(ours, theirs, source, pool);
    lemma_dated_distinct(ours);
    absorption::lemma_sorted_strictly(history::all_dated(ours));
    assert(carried.len() == theirs.len()) by {
        if theirs.len() > 0 {
            absorption::lemma_their_version(theirs, source, pool, limit, 0);
        }
    }
    assert(absorption::distinct_times(carried)) by {
        assert forall|x: int, y: int| 0 <= x < y < carried.len() implies history::time_of(
            #[trigger] carried[x],
        ) != history::time_of(#[trigger] carried[y]) by {
            absorption::lemma_their_version(theirs, source, pool, limit, x);
            absorption::lemma_their_version(theirs, source, pool, limit, y);
            assert(history::time_of(theirs[x]) != history::time_of(theirs[y]));
        }
    }
    lemma_dated_distinct(carried);
    absorption::lemma_sorted_strictly(history::all_dated(carried));
    let a = history::our_side(ours);
    let b = history::their_side(theirs, source, pool);
    lemma_ours_first(a, b, larger, n);
    let all_ours = history::all_dated(ours);
    let all_theirs = history::all_dated(carried);
    history_laws::sorting_orders_and_keeps(all_ours);
    history_laws::sorting_orders_and_keeps(all_theirs);
    assert(all_ours.contains(merged[n]));
    assert(all_theirs.contains(merged[n + 1]));
    let i = choose|i: int| 0 <= i < all_ours.len() && all_ours[i] == merged[n];
    let k = choose|k: int| 0 <= k < all_theirs.len() && all_theirs[k] == merged[n + 1];
    assert(merged[n] == history::dated(ours[i]));
    absorption::lemma_their_version(theirs, source, pool, limit, k);
    assert(time_at(merged[n + 1]) == time_at(theirs[k]));
}

/// When the source's content replaces the destination's, the destination's version goes in front of
/// the merged history, without a history of its own, unless there is none or the version in front
/// has the same content: then the history stays as it is.
pub proof fn replaced_version_goes_first(
    merged: Seq<EntryModel>,
    ours: EntryModel,
    pool: Pool,
    n: int,
)
    ensures
        ({
            let after = entries::archived(merged, ours, pool);
            &&& merged.len() == 0 ==> after == merged
            &&& merged.len() > 0 && remap::equivalent(ours, pool, merged[0], pool) ==> after
                == merged
            &&& merged.len() > 0 && !remap::equivalent(ours, pool, merged[0], pool) ==> {
                &&& after.len() == merged.len() + 1
                &&& after[0] == (EntryModel { history: None, ..ours })
                &&& 0 <= n < merged.len() ==> after[n + 1] == merged[n]
            }
        }),
{
}

} // verus!
