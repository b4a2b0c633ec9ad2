//! What holds of merged histories.

use vstd::prelude::*;
use crate::attachment::Pool;
use crate::entry::EntryModel;
use crate::merge::history;
use crate::merge::history::time_of;
use crate::remap;

verus! {

/// Whether versions stand from the oldest to the newest.
pub open spec fn ascending(versions: Seq<EntryModel>) -> bool {
    forall|i: int, j: int|
        0 <= i < j < versions.len() ==> !time_of(#[trigger] versions[j]).before(
            time_of(#[trigger] versions[i]),
        )
}

/// Whether versions stand from the newest to the oldest.
pub open spec fn newest_first(versions: Seq<EntryModel>) -> bool {
    forall|i: int, j: int|
        0 <= i < j < versions.len() ==> !time_of(#[trigger] versions[i]).before(
            time_of(#[trigger] versions[j]),
        )
}

/// Putting a version in order keeps the order, and adds nothing but the version.
pub proof fn lemma_put_in_order(sorted: Seq<EntryModel>, version: EntryModel)
    requires
        ascending(sorted),
    ensures
        ascending(history::put_in_order(sorted, version)),
        history::put_in_order(sorted, version).len() == sorted.len() + 1,
        forall|v: EntryModel| #[trigger]
            history::put_in_order(sorted, version).contains(v) <==> sorted.contains(v) || v
                == version,
    decreases sorted.len(),
{
    let result = history::put_in_order(sorted, version);
    if sorted.len() == 0 || !time_of(sorted[0]).before(time_of(version)) {
        assert(result =~= seq![version] + sorted);
        assert forall|i: int, j: int| 0 <= i < j < result.len() implies !time_of(
            #[trigger] result[j],
        ).before(time_of(#[trigger] result[i])) by {
            assert(result[j] == sorted[j - 1]);
            if i > 0 {
                assert(result[i] == sorted[i - 1]);
            } else if j > 1 {
                assert(!time_of(sorted[j - 1]).before(time_of(sorted[0])));
            }
        }
        assert forall|v: EntryModel| #[trigger] result.contains(v) <==> sorted.contains(v) || v
            == version by {
            if sorted.contains(v) {
                let n = choose|n: int| 0 <= n < sorted.len() && sorted[n] == v;
                assert(result[n + 1] == v);
            }
            if v == version {
                assert(result[0] == v);
            }
            if result.contains(v) && v != version {
                let n = choose|n: int| 0 <= n < result.len() && result[n] == v;
                assert(sorted[n - 1] == v);
            }
        }
    } else {
        let rest = sorted.drop_first();
        let tail = history::put_in_order(rest, version);
        lemma_put_in_order(rest, version);
        assert(result =~= seq![sorted[0]] + tail);
        assert forall|i: int, j: int| 0 <= i < j < result.len() implies !time_of(
            #[trigger] result[j],
        ).before(time_of(#[trigger] result[i])) by {
            assert(result[j] == tail[j - 1]);
            if i > 0 {
                assert(result[i] == tail[i - 1]);
            } else {
                assert(tail.contains(tail[j - 1]));
                if tail[j - 1] != version {
                    assert(rest.contains(tail[j - 1]));
                    let n = choose|n: int| 0 <= n < rest.len() && rest[n] == tail[j - 1];
                    assert(sorted[n + 1] == tail[j - 1]);
                }
            }
        }
        assert forall|v: EntryModel| #[trigger] result.contains(v) <==> sorted.contains(v) || v
            == version by {
            if sorted.contains(v) {
                let n = choose|n: int| 0 <= n < sorted.len() && sorted[n] == v;
                if n == 0 {
                    assert(result[0] == v);
                } else {
                    assert(rest[n - 1] == v);
                    assert(tail.contains(v));
                    let m = choose|m: int| 0 <= m < tail.len() && tail[m] == v;
                    assert(result[m + 1] == v);
                }
            }
            if v == version {
                assert(tail.contains(v));
                let m = choose|m: int| 0 <= m < tail.len() && tail[m] == v;
                assert(result[m + 1] == v);
            }
            if result.contains(v) && v != version {
                let n = choose|n: int| 0 <= n < result.len() && result[n] == v;
                if n == 0 {
                    assert(sorted[0] == v);
                } else {
                    assert(tail[n - 1] == v);
                    assert(tail.contains(v));
                    assert(rest.contains(v));
                    let m = choose|m: int| 0 <= m < rest.len() && rest[m] == v;
                    assert(sorted[m + 1] == v);
                }
            }
        }
    }
}

/// Sorting versions by time puts them from the oldest to the newest, and neither adds nor loses
/// one.
pub proof fn sorting_orders_and_keeps(versions: Seq<EntryModel>)
    ensures
        ascending(history::oldest_first(versions)),
        history::oldest_first(versions).len() == versions.len(),
        forall|v: EntryModel| #[trigger]
            history::oldest_first(versions).contains(v) <==> versions.contains(v),
    decreases versions.len(),
{
    if versions.len() > 0 {
        let rest = versions.drop_first();
        sorting_orders_and_keeps(rest);
        lemma_put_in_order(history::oldest_first(rest), versions[0]);
        assert forall|v: EntryModel| #[trigger] history::oldest_first(versions).contains(v)
            <==> versions.contains(v) by {
            assert(history::oldest_first(rest).contains(v) <==> rest.contains(v));
            if versions.contains(v) && v != versions[0] {
                let n = choose|n: int| 0 <= n < versions.len() && versions[n] == v;
                assert(rest[n - 1] == v);
            }
            if rest.contains(v) {
                let n = choose|n: int| 0 <= n < rest.len() && rest[n] == v;
                assert(versions[n + 1] == v);
            }
        }
    }
}

/// Whether a version has a stand-in among others: one of the same time with the same content.
pub open spec fn represented(
    versions: Seq<EntryModel>,
    version: EntryModel,
    pool: Pool,
) -> bool {
    exists|i: int|
        0 <= i < versions.len() && time_of(#[trigger] versions[i]) == time_of(version)
            && remap::equivalent(versions[i], pool, version, pool)
}

/// A version is equivalent to itself.
proof fn lemma_represents_itself(versions: Seq<EntryModel>, version: EntryModel, pool: Pool)
    requires
        versions.contains(version),
    ensures
        represented(versions, version, pool),
{
    let i = choose|i: int| 0 <= i < versions.len() && versions[i] == version;
    assert(time_of(versions[i]) == time_of(version));
}

/// A version that was represented is represented when more versions are put in front.
proof fn lemma_represented_further(
    front: Seq<EntryModel>,
    versions: Seq<EntryModel>,
    version: EntryModel,
    pool: Pool,
)
    requires
        represented(versions, version, pool),
    ensures
        represented(front + versions, version, pool),
{
    let i = choose|i: int|
        0 <= i < versions.len() && time_of(#[trigger] versions[i]) == time_of(version)
            && remap::equivalent(versions[i], pool, version, pool);
    assert((front + versions)[front.len() + i] == versions[i]);
}

/// What holds of two interleaved histories.
pub proof fn lemma_interleaved(ours: Seq<EntryModel>, theirs: Seq<EntryModel>, pool: Pool)
    requires
        ascending(ours),
        ascending(theirs),
    ensures
        newest_first(history::interleaved(ours, theirs, pool)),
        forall|v: EntryModel| #[trigger]
            history::interleaved(ours, theirs, pool).contains(v) ==> ours.contains(v)
                || theirs.contains(v),
        forall|v: EntryModel| #[trigger]
            ours.contains(v) ==> history::interleaved(ours, theirs, pool).contains(v),
        forall|v: EntryModel| #[trigger]
            theirs.contains(v) ==> represented(history::interleaved(ours, theirs, pool), v, pool),
    decreases ours.len() + theirs.len(),
{
    let result = history::interleaved(ours, theirs, pool);
    if ours.len() == 0 && theirs.len() == 0 {
    } else {
        let a = ours.last();
        let b = theirs.last();
        let take_ours = ours.len() > 0 && (theirs.len() == 0 || !time_of(a).before(time_of(b)));
        let take_theirs = theirs.len() > 0 && (ours.len() == 0 || !time_of(b).before(time_of(a)));
        let both = take_ours && take_theirs;
        let same = both && remap::equivalent(a, pool, b, pool);
        let our_rest = if take_ours { ours.drop_last() } else { ours };
        let their_rest = if take_theirs { theirs.drop_last() } else { theirs };
        let rest = history::interleaved(our_rest, their_rest, pool);
        let front: Seq<EntryModel> = if both && !same {
            seq![a, b]
        } else if take_ours {
            seq![a]
        } else {
            seq![b]
        };
        assert(result == front + rest);
        assert(ascending(our_rest)) by {
            assert forall|i: int, j: int| 0 <= i < j < our_rest.len() implies !time_of(
                #[trigger] our_rest[j],
            ).before(time_of(#[trigger] our_rest[i])) by {
                assert(our_rest[i] == ours[i] && our_rest[j] == ours[j]);
            }
        }
        assert(ascending(their_rest)) by {
            assert forall|i: int, j: int| 0 <= i < j < their_rest.len() implies !time_of(
                #[trigger] their_rest[j],
            ).before(time_of(#[trigger] their_rest[i])) by {
                assert(their_rest[i] == theirs[i] && their_rest[j] == theirs[j]);
            }
        }
        lemma_interleaved(our_rest, their_rest, pool);
        assert forall|v: EntryModel| #[trigger] our_rest.contains(v) implies ours.contains(v)
            && !time_of(a).before(time_of(v)) by {
            let n = choose|n: int| 0 <= n < our_rest.len() && our_rest[n] == v;
            assert(ours[n] == v);
            if n < ours.len() - 1 {
                assert(!time_of(ours[ours.len() - 1]).before(time_of(ours[n])));
            }
        }
        assert forall|v: EntryModel| #[trigger] their_rest.contains(v) implies theirs.contains(v)
            && !time_of(b).before(time_of(v)) by {
            let n = choose|n: int| 0 <= n < their_rest.len() && their_rest[n] == v;
            assert(theirs[n] == v);
            if n < theirs.len() - 1 {
                assert(!time_of(theirs[theirs.len() - 1]).before(time_of(theirs[n])));
            }
        }
        assert forall|i: int, j: int| 0 <= i < j < result.len() implies !time_of(
            #[trigger] result[i],
        ).before(time_of(#[trigger] result[j])) by {
            if i >= front.len() {
                assert(result[i] == rest[i - front.len()]);
                assert(result[j] == rest[j - front.len()]);
            } else if j >= front.len() {
                assert(result[j] == rest[j - front.len()]);
                assert(rest.contains(result[j]));
                assert(our_rest.contains(result[j]) || their_rest.contains(result[j]));
                assert(result[i] == front[i]);
            } else {
                assert(result[i] == front[i] && result[j] == front[j]);
            }
        }
        assert forall|v: EntryModel| #[trigger] result.contains(v) implies ours.contains(v)
            || theirs.contains(v) by {
            let n = choose|n: int| 0 <= n < result.len() && result[n] == v;
            if n >= front.len() {
                assert(rest[n - front.len()] == v);
                assert(rest.contains(v));
            } else {
                assert(front[n] == v);
            }
        }
        assert forall|v: EntryModel| #[trigger] ours.contains(v) implies result.contains(v) by {
            let n = choose|n: int| 0 <= n < ours.len() && ours[n] == v;
            if take_ours && n == ours.len() - 1 {
                assert(result[0] == v);
            } else {
                assert(our_rest[n] == v);
                assert(our_rest.contains(v));
                assert(rest.contains(v));
                let m = choose|m: int| 0 <= m < rest.len() && rest[m] == v;
                assert(result[front.len() + m] == v);
            }
        }
        assert forall|v: EntryModel| #[trigger] theirs.contains(v) implies represented(
            result,
            v,
            pool,
        ) by {
            let n = choose|n: int| 0 <= n < theirs.len() && theirs[n] == v;
            if take_theirs && n == theirs.len() - 1 {
                if same {
                    assert(result[0] == a);
                    assert(time_of(result[0]) == time_of(v)) by {
                        broadcast use crate::times::Timestamp::numbers_decide;

                    }
                } else {
                    assert(result[front.len() - 1] == v);
                    assert(result.contains(v));
                    lemma_represents_itself(result, v, pool);
                }
            } else {
                assert(their_rest[n] == v);
                assert(their_rest.contains(v));
                lemma_represented_further(front, rest, v, pool);
            }
        }
    }
}

/// A merged history stands from the newest version to the oldest.
pub proof fn merged_history_is_ordered(
    ours: Seq<EntryModel>,
    theirs: Seq<EntryModel>,
    source: Pool,
    pool: Pool,
)
    ensures
        newest_first(history::history_merged(ours, theirs, source, pool)),
{
    sorting_orders_and_keeps(history::all_dated(ours));
    sorting_orders_and_keeps(history::all_dated(history::all_carried(theirs, source, pool).0));
    lemma_interleaved(
        history::our_side(ours),
        history::their_side(theirs, source, pool),
        history::all_carried(theirs, source, pool).1,
    );
}

/// Merging loses no version of the destination's history.
pub proof fn merged_history_keeps_ours(
    ours: Seq<EntryModel>,
    theirs: Seq<EntryModel>,
    source: Pool,
    pool: Pool,
    i: int,
)
    requires
        0 <= i < ours.len(),
    ensures
        history::history_merged(ours, theirs, source, pool).contains(history::dated(ours[i])),
{
    let dated = history::all_dated(ours);
    sorting_orders_and_keeps(dated);
    sorting_orders_and_keeps(history::all_dated(history::all_carried(theirs, source, pool).0));
    lemma_interleaved(
        history::our_side(ours),
        history::their_side(theirs, source, pool),
        history::all_carried(theirs, source, pool).1,
    );
    assert(dated[i] == history::dated(ours[i]));
    assert(dated.contains(dated[i]));
    assert(history::our_side(ours).contains(dated[i]));
}

/// Merging loses no version of the source's history: each, carried over into the destination's
/// pool, has a version of the same time with the same content in the merged history.
pub proof fn merged_history_keeps_theirs(
    ours: Seq<EntryModel>,
    theirs: Seq<EntryModel>,
    source: Pool,
    pool: Pool,
    i: int,
)
    requires
        0 <= i < theirs.len(),
    ensures
        history::all_carried(theirs, source, pool).0.len() == theirs.len(),
        represented(
            history::history_merged(ours, theirs, source, pool),
            history::dated(history::all_carried(theirs, source, pool).0[i]),
            history::all_carried(theirs, source, pool).1,
        ),
{
    let (carried, larger) = history::all_carried(theirs, source, pool);
    let dated = history::all_dated(carried);
    lemma_carried_length(theirs, source, pool);
    sorting_orders_and_keeps(history::all_dated(ours));
    sorting_orders_and_keeps(dated);
    lemma_interleaved(
        history::our_side(ours),
        history::their_side(theirs, source, pool),
        larger,
    );
    assert(dated[i] == history::dated(carried[i]));
    assert(dated.contains(dated[i]));
    assert(history::their_side(theirs, source, pool).contains(dated[i]));
}

/// Merging invents no version: each version of the merged history comes from one of the two.
pub proof fn merged_history_invents_nothing(
    ours: Seq<EntryModel>,
    theirs: Seq<EntryModel>,
    source: Pool,
    pool: Pool,
    version: EntryModel,
)
    requires
        history::history_merged(ours, theirs, source, pool).contains(version),
    ensures
        history::all_dated(ours).contains(version) || history::all_dated(
            history::all_carried(theirs, source, pool).0,
        ).contains(version),
{
    sorting_orders_and_keeps(history::all_dated(ours));
    sorting_orders_and_keeps(history::all_dated(history::all_carried(theirs, source, pool).0));
    lemma_interleaved(
        history::our_side(ours),
        history::their_side(theirs, source, pool),
        history::all_carried(theirs, source, pool).1,
    );
    assert(history::our_side(ours).contains(version) || history::their_side(
        theirs,
        source,
        pool,
    ).contains(version));
}

proof fn lemma_carried_length(versions: Seq<EntryModel>, source: Pool, pool: Pool)
    ensures
        history::all_carried(versions, source, pool).0.len() == versions.len(),
    decreases versions.len(),
{
    if versions.len() > 0 {
        lemma_carried_length(versions.drop_last(), source, pool);
    }
}

} // verus!
