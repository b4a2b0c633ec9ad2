//! Keys with a total order, and the one strictly increasing listing of a finite set of keys.

use vstd::prelude::*;
use crate::content::Content;

verus! {

/// A key of a [`SortedMap`](crate::sorted_map::SortedMap): a value with a strict total order on
/// its deep views.
pub trait Key: Content {
    /// The strict order of the keys' deep views.
    spec fn precedes(a: Self::V, b: Self::V) -> bool;

    /// Whether this key comes before the other.
    fn is_before(&self, other: &Self) -> (result: bool)
        ensures
            result == Self::precedes(self.deep_view(), other.deep_view()),
    ;

    /// No key comes before itself.
    proof fn order_is_irreflexive(a: Self::V)
        ensures
            !Self::precedes(a, a),
    ;

    /// The order is transitive.
    proof fn order_is_transitive(a: Self::V, b: Self::V, c: Self::V)
        requires
            Self::precedes(a, b),
            Self::precedes(b, c),
        ensures
            Self::precedes(a, c),
    ;

    /// Of two different keys one comes before the other.
    proof fn order_is_total(a: Self::V, b: Self::V)
        requires
            a != b,
        ensures
            Self::precedes(a, b) || Self::precedes(b, a),
    ;
}

/// Whether the keys stand in strictly increasing order.
pub open spec fn increasing<K: Key>(keys: Seq<K::V>) -> bool {
    forall|i: int, j: int|
        0 <= i < j < keys.len() ==> K::precedes(#[trigger] keys[i], #[trigger] keys[j])
}

/// Whether `keys` lists the members of `set`, each once, in increasing order.
pub open spec fn lists<K: Key>(keys: Seq<K::V>, set: Set<K::V>) -> bool {
    &&& increasing::<K>(keys)
    &&& forall|k: K::V| #[trigger] set.contains(k) <==> keys.contains(k)
}

/// The members of a finite set of keys in increasing order.
pub open spec fn ordered<K: Key>(set: Set<K::V>) -> Seq<K::V> {
    choose|keys: Seq<K::V>| lists::<K>(keys, set)
}

/// An increasing listing holds no key twice.
pub proof fn lemma_increasing_no_duplicates<K: Key>(keys: Seq<K::V>)
    requires
        increasing::<K>(keys),
    ensures
        keys.no_duplicates(),
{
    assert forall|i: int, j: int| 0 <= i < j < keys.len() implies keys[i] != keys[j] by {
        K::order_is_irreflexive(keys[i]);
    }
}

/// Two increasing listings of the same keys are the same listing.
pub proof fn lemma_listing_unique<K: Key>(a: Seq<K::V>, b: Seq<K::V>, set: Set<K::V>)
    requires
        lists::<K>(a, set),
        lists::<K>(b, set),
    ensures
        a == b,
    decreases a.len(),
{
    if a.len() == 0 {
        if b.len() > 0 {
            assert(b.contains(b[0]));
            assert(set.contains(b[0]));
            assert(a.contains(b[0]));
        }
        assert(a =~= b);
    } else {
        assert(a.contains(a.last()));
        assert(set.contains(a.last()));
        assert(b.contains(a.last()));
        assert(b.contains(b.last()));
        assert(set.contains(b.last()));
        assert(a.contains(b.last()));
        let i = choose|i: int| 0 <= i < b.len() && b[i] == a.last();
        let j = choose|j: int| 0 <= j < a.len() && a[j] == b.last();
        if a.last() != b.last() {
            assert(K::precedes(b[i], b[b.len() - 1]));
            assert(K::precedes(a[j], a[a.len() - 1]));
            K::order_is_transitive(a.last(), b.last(), a.last());
            K::order_is_irreflexive(a.last());
        }
        let rest = set.remove(a.last());
        let a2 = a.drop_last();
        let b2 = b.drop_last();
        lemma_increasing_no_duplicates::<K>(a);
        lemma_increasing_no_duplicates::<K>(b);
        assert forall|k: K::V| #[trigger] rest.contains(k) <==> a2.contains(k) by {
            if rest.contains(k) {
                assert(a.contains(k));
                let n = choose|n: int| 0 <= n < a.len() && a[n] == k;
                assert(a2[n] == k);
            }
            if a2.contains(k) {
                let n = choose|n: int| 0 <= n < a2.len() && a2[n] == k;
                assert(a[n] == k);
                assert(a.contains(k));
            }
        }
        assert forall|k: K::V| #[trigger] rest.contains(k) <==> b2.contains(k) by {
            if rest.contains(k) {
                assert(b.contains(k));
                let n = choose|n: int| 0 <= n < b.len() && b[n] == k;
                assert(b2[n] == k);
            }
            if b2.contains(k) {
                let n = choose|n: int| 0 <= n < b2.len() && b2[n] == k;
                assert(b[n] == k);
                assert(b.contains(k));
            }
        }
        lemma_listing_unique::<K>(a2, b2, rest);
        assert(a =~= a2.push(a.last()));
        assert(b =~= b2.push(b.last()));
    }
}

/// An increasing listing of a set is the set's listing in order.
pub proof fn lemma_ordered_is<K: Key>(keys: Seq<K::V>, set: Set<K::V>)
    requires
        lists::<K>(keys, set),
    ensures
        ordered::<K>(set) == keys,
{
    lemma_listing_unique::<K>(ordered::<K>(set), keys, set);
}

/// A key can be put into an increasing listing.
proof fn lemma_put_in<K: Key>(keys: Seq<K::V>, x: K::V) -> (longer: Seq<K::V>)
    requires
        increasing::<K>(keys),
        !keys.contains(x),
    ensures
        increasing::<K>(longer),
        forall|k: K::V| #[trigger] longer.contains(k) <==> keys.contains(k) || k == x,
    decreases keys.len(),
{
    let pushed = keys.push(x);
    assert(pushed[keys.len() as int] == x);
    if keys.len() == 0 {
        pushed
    } else {
        let last = keys.last();
        assert(keys.contains(last));
        K::order_is_total(last, x);
        if K::precedes(last, x) {
            assert forall|i: int, j: int| 0 <= i < j < pushed.len() implies K::precedes(
                #[trigger] pushed[i],
                #[trigger] pushed[j],
            ) by {
                if j == keys.len() && i < keys.len() - 1 {
                    assert(K::precedes(keys[i], keys[keys.len() - 1]));
                    K::order_is_transitive(keys[i], last, x);
                }
            }
            assert forall|k: K::V| #[trigger] pushed.contains(k) <==> keys.contains(k) || k
                == x by {
                if keys.contains(k) {
                    let n = choose|n: int| 0 <= n < keys.len() && keys[n] == k;
                    assert(pushed[n] == k);
                }
                if pushed.contains(k) && k != x {
                    let n = choose|n: int| 0 <= n < pushed.len() && pushed[n] == k;
                    assert(keys[n] == k);
                }
            }
            pushed
        } else {
            let rest = keys.drop_last();
            assert(!rest.contains(x)) by {
                if rest.contains(x) {
                    let n = choose|n: int| 0 <= n < rest.len() && rest[n] == x;
                    assert(keys[n] == x);
                }
            }
            let shorter = lemma_put_in::<K>(rest, x);
            let longer = shorter.push(last);
            assert forall|i: int, j: int| 0 <= i < j < longer.len() implies K::precedes(
                #[trigger] longer[i],
                #[trigger] longer[j],
            ) by {
                if j == shorter.len() {
                    assert(shorter.contains(shorter[i]));
                    if shorter[i] != x {
                        assert(rest.contains(shorter[i]));
                        let n = choose|n: int| 0 <= n < rest.len() && rest[n] == shorter[i];
                        assert(K::precedes(keys[n], keys[keys.len() - 1]));
                    }
                }
            }
            assert forall|k: K::V| #[trigger] longer.contains(k) <==> keys.contains(k) || k
                == x by {
                if keys.contains(k) {
                    let n = choose|n: int| 0 <= n < keys.len() && keys[n] == k;
                    if n == keys.len() - 1 {
                        assert(longer[shorter.len() as int] == k);
                    } else {
                        assert(rest[n] == k);
                        assert(shorter.contains(k));
                        let m = choose|m: int| 0 <= m < shorter.len() && shorter[m] == k;
                        assert(longer[m] == k);
                    }
                }
                if k == x {
                    assert(shorter.contains(k));
                    let m = choose|m: int| 0 <= m < shorter.len() && shorter[m] == k;
                    assert(longer[m] == k);
                }
                if longer.contains(k) {
                    let n = choose|n: int| 0 <= n < longer.len() && longer[n] == k;
                    if n < shorter.len() {
                        assert(shorter.contains(k));
                        if k != x {
                            assert(rest.contains(k));
                            let m = choose|m: int| 0 <= m < rest.len() && rest[m] == k;
                            assert(keys[m] == k);
                        }
                    }
                }
            }
            longer
        }
    }
}

/// Every finite set of keys can be listed in order.
pub proof fn lemma_ordered_lists<K: Key>(set: Set<K::V>)
    requires
        set.finite(),
    ensures
        lists::<K>(ordered::<K>(set), set),
        ordered::<K>(set).len() == set.len(),
    decreases set.len(),
{
    let keys = lemma_some_listing::<K>(set);
    lemma_ordered_is::<K>(keys, set);
    lemma_increasing_no_duplicates::<K>(keys);
    keys.unique_seq_to_set();
    assert(keys.to_set() =~= set);
}

proof fn lemma_some_listing<K: Key>(set: Set<K::V>) -> (keys: Seq<K::V>)
    requires
        set.finite(),
    ensures
        lists::<K>(keys, set),
    decreases set.len(),
{
    if set.len() == 0 {
        let keys = Seq::<K::V>::empty();
        assert(set =~= Set::empty());
        keys
    } else {
        let x = set.choose();
        let rest = lemma_some_listing::<K>(set.remove(x));
        assert(!set.remove(x).contains(x));
        let keys = lemma_put_in::<K>(rest, x);
        assert forall|k: K::V| #[trigger] set.contains(k) <==> keys.contains(k) by {
            assert(set.remove(x).contains(k) <==> rest.contains(k));
        }
        keys
    }
}

/// What the first `i + 1` members of a sequence hold, by what the first `i` hold.
pub proof fn lemma_take_next<T>(list: Seq<T>, i: int)
    requires
        0 <= i < list.len(),
    ensures
        forall|x: T| #[trigger]
            list.take(i + 1).contains(x) <==> list.take(i).contains(x) || x == list[i],
{
    let shorter = list.take(i);
    let longer = list.take(i + 1);
    assert forall|x: T| #[trigger] longer.contains(x) <==> shorter.contains(x) || x == list[i] by {
        if x == list[i] {
            assert(longer[i] == x);
        }
        if shorter.contains(x) {
            let j = choose|j: int| 0 <= j < shorter.len() && shorter[j] == x;
            assert(longer[j] == x);
        }
        if longer.contains(x) && x != list[i] {
            let j = choose|j: int| 0 <= j < longer.len() && longer[j] == x;
            assert(shorter[j] == x);
        }
    }
}

} // verus!
