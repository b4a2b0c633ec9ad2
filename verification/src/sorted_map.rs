//! Maps and sets that keep their keys in increasing order.

use vstd::prelude::*;
use crate::content::Content;
use crate::order;
use crate::order::Key;

verus! {

/// A map whose keys stand in increasing order, so that walking it is deterministic and two maps
/// with the same contents are represented in the same way.
#[derive(Debug, PartialEq, Eq)]
pub struct SortedMap<K: Key, V: Content> {
    keys: Vec<K>,
    values: Vec<V>,
}

impl<K: Key, V: Content> DeepView for SortedMap<K, V> {
    type V = Map<K::V, V::V>;

    closed spec fn deep_view(&self) -> Map<K::V, V::V> {
        Map::new(
            |k: K::V| self.keys.deep_view().contains(k),
            |k: K::V| self.values@[self.keys.deep_view().index_of(k)].deep_view(),
        )
    }
}

impl<K: Key, V: Content> SortedMap<K, V> {
    #[verifier::type_invariant]
    spec fn well_formed(&self) -> bool {
        &&& order::increasing::<K>(self.keys.deep_view())
        &&& self.keys@.len() == self.values@.len()
    }

    /// What the map holds under the key at position `i`.
    proof fn lemma_at(&self, i: int)
        requires
            self.well_formed(),
            0 <= i < self.keys@.len(),
        ensures
            self.deep_view().contains_key(self.keys@[i].deep_view()),
            self.deep_view()[self.keys@[i].deep_view()] == self.values@[i].deep_view(),
    {
        let list = self.keys.deep_view();
        order::lemma_increasing_no_duplicates::<K>(list);
        assert(list[i] == self.keys@[i].deep_view());
        assert(list.contains(list[i]));
        let n = list.index_of(list[i]);
        assert(0 <= n < list.len() && list[n] == list[i]);
    }

    /// A key that is in the map stands at some position.
    proof fn lemma_position(&self, k: K::V) -> (i: int)
        requires
            self.well_formed(),
            self.deep_view().contains_key(k),
        ensures
            0 <= i < self.keys@.len(),
            self.keys@[i].deep_view() == k,
            self.deep_view()[k] == self.values@[i].deep_view(),
    {
        let list = self.keys.deep_view();
        let n = list.index_of(k);
        assert(list.contains(k));
        n
    }

    /// The keys' listing is the ordered listing of the map's domain, which is finite.
    proof fn lemma_listing(&self)
        requires
            self.well_formed(),
        ensures
            order::ordered::<K>(self.deep_view().dom()) == self.keys.deep_view(),
            order::lists::<K>(self.keys.deep_view(), self.deep_view().dom()),
            self.deep_view().dom().finite(),
            self.deep_view().dom().len() == self.keys@.len(),
    {
        let list = self.keys.deep_view();
        order::lemma_increasing_no_duplicates::<K>(list);
        assert(order::lists::<K>(list, self.deep_view().dom()));
        order::lemma_ordered_is::<K>(list, self.deep_view().dom());
        list.unique_seq_to_set();
        assert(list.to_set() =~= self.deep_view().dom());
    }

    /// A map without keys.
    pub fn new() -> (result: Self)
        ensures
            result.deep_view() == Map::<K::V, V::V>::empty(),
    {
        let result = SortedMap { keys: Vec::new(), values: Vec::new() };
        assert(result.deep_view() =~= Map::<K::V, V::V>::empty());
        result
    }

    /// The number of keys.
    pub fn len(&self) -> (result: usize)
        ensures
            self.deep_view().dom().finite(),
            result == self.deep_view().dom().len(),
            result == order::ordered::<K>(self.deep_view().dom()).len(),
            order::lists::<K>(order::ordered::<K>(self.deep_view().dom()), self.deep_view().dom()),
    {
        proof {
            use_type_invariant(self);
            self.lemma_listing();
        }
        self.keys.len()
    }

    /// Searches for a key: whether it is there, and the position where it stands or would stand.
    fn find(&self, key: &K) -> (result: (bool, usize))
        requires
            self.well_formed(),
        ensures
            result.0 ==> result.1 < self.keys@.len() && self.keys@[result.1 as int].deep_view()
                == key.deep_view(),
            !result.0 ==> {
                &&& result.1 <= self.keys@.len()
                &&& forall|j: int|
                    0 <= j < result.1 ==> K::precedes(
                        (#[trigger] self.keys@[j]).deep_view(),
                        key.deep_view(),
                    )
                &&& forall|j: int|
                    result.1 <= j < self.keys@.len() ==> K::precedes(
                        key.deep_view(),
                        (#[trigger] self.keys@[j]).deep_view(),
                    )
            },
    {
        let mut low: usize = 0;
        let mut high: usize = self.keys.len();
        let ghost list = self.keys.deep_view();
        while low < high
            invariant
                self.well_formed(),
                list == self.keys.deep_view(),
                low <= high <= self.keys@.len(),
                forall|j: int|
                    0 <= j < low ==> K::precedes(
                        (#[trigger] self.keys@[j]).deep_view(),
                        key.deep_view(),
                    ),
                forall|j: int|
                    high <= j < self.keys@.len() ==> K::precedes(
                        key.deep_view(),
                        (#[trigger] self.keys@[j]).deep_view(),
                    ),
            decreases high - low,
        {
            let mid: usize = low + (high - low) / 2;
            let ghost at_mid = self.keys@[mid as int].deep_view();
            assert(list[mid as int] == at_mid);
            if self.keys[mid].is_before(key) {
                assert forall|j: int| 0 <= j < mid + 1 implies K::precedes(
                    (#[trigger] self.keys@[j]).deep_view(),
                    key.deep_view(),
                ) by {
                    if j < mid {
                        assert(list[j] == self.keys@[j].deep_view());
                        K::order_is_transitive(list[j], at_mid, key.deep_view());
                    }
                }
                low = mid + 1;
            } else if key.is_before(&self.keys[mid]) {
                assert forall|j: int| mid <= j < self.keys@.len() implies K::precedes(
                    key.deep_view(),
                    (#[trigger] self.keys@[j]).deep_view(),
                ) by {
                    if mid < j {
                        assert(list[j] == self.keys@[j].deep_view());
                        K::order_is_transitive(key.deep_view(), at_mid, list[j]);
                    }
                }
                high = mid;
            } else {
                proof {
                    if at_mid != key.deep_view() {
                        K::order_is_total(at_mid, key.deep_view());
                    }
                }
                return (true, mid);
            }
        }
        (false, low)
    }

    /// A key that the search did not find is not in the map.
    proof fn lemma_not_found(&self, key: K::V, at: int)
        requires
            self.well_formed(),
            0 <= at <= self.keys@.len(),
            forall|j: int|
                0 <= j < at ==> K::precedes((#[trigger] self.keys@[j]).deep_view(), key),
            forall|j: int|
                at <= j < self.keys@.len() ==> K::precedes(
                    key,
                    (#[trigger] self.keys@[j]).deep_view(),
                ),
        ensures
            !self.deep_view().contains_key(key),
    {
        if self.deep_view().contains_key(key) {
            let i = self.lemma_position(key);
            assert(self.keys@[i].deep_view() == key);
            K::order_is_irreflexive(key);
        }
    }

    /// Whether a key is in the map.
    pub fn contains_key(&self, key: &K) -> (result: bool)
        ensures
            result == self.deep_view().contains_key(key.deep_view()),
    {
        proof {
            use_type_invariant(self);
        }
        let (found, at) = self.find(key);
        proof {
            if found {
                self.lemma_at(at as int);
            } else {
                self.lemma_not_found(key.deep_view(), at as int);
            }
        }
        found
    }

    /// The value under a key.
    pub fn get(&self, key: &K) -> (result: Option<&V>)
        ensures
            match result {
                Some(value) => self.deep_view().contains_key(key.deep_view())
                    && self.deep_view()[key.deep_view()] == value.deep_view(),
                None => !self.deep_view().contains_key(key.deep_view()),
            },
    {
        proof {
            use_type_invariant(self);
        }
        let (found, at) = self.find(key);
        if found {
            proof {
                self.lemma_at(at as int);
            }
            Some(&self.values[at])
        } else {
            proof {
                self.lemma_not_found(key.deep_view(), at as int);
            }
            None
        }
    }

    /// The value under a key, to be changed in place.
    pub fn get_mut(&mut self, key: &K) -> (result: Option<&mut V>)
        ensures
            match result {
                Some(value) => {
                    &&& old(self).deep_view().contains_key(key.deep_view())
                    &&& old(self).deep_view()[key.deep_view()] == (*value).deep_view()
                    &&& final(self).deep_view() == old(self).deep_view().insert(
                        key.deep_view(),
                        (*final(value)).deep_view(),
                    )
                },
                None => !old(self).deep_view().contains_key(key.deep_view())
                    && final(self).deep_view() == old(self).deep_view(),
            },
    {
        proof {
            use_type_invariant(&*self);
        }
        let (found, at) = self.find(key);
        if found {
            proof {
                self.lemma_at(at as int);
            }
            let ghost before = *self;
            let result = &mut self.values[at];
            proof {
                assert forall|after: SortedMap<K, V>|
                    after.keys == before.keys && after.values@ == before.values@.update(
                        at as int,
                        after.values@[at as int],
                    ) implies #[trigger] after.deep_view() == before.deep_view().insert(
                    key.deep_view(),
                    after.values@[at as int].deep_view(),
                ) by {
                    Self::lemma_update(before, after, at as int);
                }
            }
            Some(result)
        } else {
            proof {
                self.lemma_not_found(key.deep_view(), at as int);
            }
            None
        }
    }

    /// Changing the value at one position changes what the map holds under its key.
    proof fn lemma_update(before: Self, after: Self, at: int)
        requires
            before.well_formed(),
            0 <= at < before.keys@.len(),
            after.keys == before.keys,
            after.values@ == before.values@.update(at, after.values@[at]),
        ensures
            after.deep_view() == before.deep_view().insert(
                before.keys@[at].deep_view(),
                after.values@[at].deep_view(),
            ),
    {
        let key = before.keys@[at].deep_view();
        after.lemma_at(at);
        before.lemma_at(at);
        assert forall|k: K::V| #[trigger]
            before.deep_view().contains_key(k) && k != key implies after.deep_view()[k]
            == before.deep_view()[k] by {
            let i = before.lemma_position(k);
            after.lemma_at(i);
        }
        assert(after.deep_view() =~= before.deep_view().insert(key, after.values@[at].deep_view()));
    }

    /// Puts a value under a key, and hands back the value that stood there.
    pub fn insert(&mut self, key: K, value: V) -> (result: Option<V>)
        ensures
            final(self).deep_view() == old(self).deep_view().insert(
                key.deep_view(),
                value.deep_view(),
            ),
            match result {
                Some(previous) => old(self).deep_view().contains_key(key.deep_view())
                    && previous.deep_view() == old(self).deep_view()[key.deep_view()],
                None => !old(self).deep_view().contains_key(key.deep_view()),
            },
    {
        proof {
            use_type_invariant(&*self);
        }
        let (found, at) = self.find(&key);
        let mut whole: SortedMap<K, V> = SortedMap { keys: Vec::new(), values: Vec::new() };
        let ghost before = *self;
        let ghost k = key.deep_view();
        let ghost v = value.deep_view();
        core::mem::swap(&mut whole, self);
        let SortedMap { keys: mut keys, values: mut values } = whole;
        if found {
            proof {
                before.lemma_at(at as int);
            }
            let mut previous = value;
            core::mem::swap(&mut values[at], &mut previous);
            let after = SortedMap { keys, values };
            proof {
                Self::lemma_update(before, after, at as int);
            }
            *self = after;
            Some(previous)
        } else {
            proof {
                before.lemma_not_found(k, at as int);
            }
            keys.insert(at, key);
            values.insert(at, value);
            proof {
                let list = keys.deep_view();
                let old_list = before.keys.deep_view();
                assert forall|i: int, j: int| 0 <= i < j < list.len() implies K::precedes(
                    #[trigger] list[i],
                    #[trigger] list[j],
                ) by {
                    let i0 = if i < at { i } else { i - 1 };
                    let j0 = if j < at { j } else { j - 1 };
                    if i != at {
                        assert(list[i] == old_list[i0]);
                        assert(old_list[i0] == before.keys@[i0].deep_view());
                    }
                    if j != at {
                        assert(list[j] == old_list[j0]);
                        assert(old_list[j0] == before.keys@[j0].deep_view());
                    }
                }
            }
            let after = SortedMap { keys, values };
            proof {
                after.lemma_at(at as int);
                assert forall|q: K::V| q != k implies {
                    &&& (#[trigger] after.deep_view().contains_key(q)
                        <==> before.deep_view().contains_key(q))
                    &&& before.deep_view().contains_key(q) ==> after.deep_view()[q]
                        == before.deep_view()[q]
                } by {
                    if before.deep_view().contains_key(q) {
                        let i = before.lemma_position(q);
                        after.lemma_at(if i < at { i } else { i + 1 });
                    }
                    if after.deep_view().contains_key(q) {
                        let i = after.lemma_position(q);
                        before.lemma_at(if i < at { i } else { i - 1 });
                    }
                }
                assert(after.deep_view() =~= before.deep_view().insert(k, v));
            }
            *self = after;
            None
        }
    }

    /// Takes a key out, and hands back the value that stood under it.
    pub fn remove(&mut self, key: &K) -> (result: Option<V>)
        ensures
            final(self).deep_view() == old(self).deep_view().remove(key.deep_view()),
            match result {
                Some(previous) => old(self).deep_view().contains_key(key.deep_view())
                    && previous.deep_view() == old(self).deep_view()[key.deep_view()],
                None => !old(self).deep_view().contains_key(key.deep_view()),
            },
    {
        proof {
            use_type_invariant(&*self);
        }
        let (found, at) = self.find(key);
        let ghost before = *self;
        let ghost k = key.deep_view();
        if !found {
            proof {
                self.lemma_not_found(k, at as int);
                assert(self.deep_view() =~= self.deep_view().remove(k));
            }
            return None;
        }
        proof {
            before.lemma_at(at as int);
        }
        let mut whole: SortedMap<K, V> = SortedMap { keys: Vec::new(), values: Vec::new() };
        core::mem::swap(&mut whole, self);
        let SortedMap { keys: mut keys, values: mut values } = whole;
        keys.remove(at);
        let previous = values.remove(at);
        proof {
            let list = keys.deep_view();
            let old_list = before.keys.deep_view();
            assert forall|i: int, j: int| 0 <= i < j < list.len() implies K::precedes(
                #[trigger] list[i],
                #[trigger] list[j],
            ) by {
                let i0 = if i < at { i } else { i + 1 };
                let j0 = if j < at { j } else { j + 1 };
                assert(list[i] == old_list[i0]);
                assert(list[j] == old_list[j0]);
            }
        }
        let after = SortedMap { keys, values };
        proof {
            order::lemma_increasing_no_duplicates::<K>(before.keys.deep_view());
            let old_list = before.keys.deep_view();
            assert forall|q: K::V| {
                &&& (#[trigger] after.deep_view().contains_key(q)
                    <==> before.deep_view().contains_key(q) && q != k)
                &&& before.deep_view().contains_key(q) && q != k ==> after.deep_view()[q]
                    == before.deep_view()[q]
            } by {
                if before.deep_view().contains_key(q) && q != k {
                    let i = before.lemma_position(q);
                    after.lemma_at(if i < at { i } else { i - 1 });
                }
                if after.deep_view().contains_key(q) {
                    let i = after.lemma_position(q);
                    let i0 = if i < at { i } else { i + 1 };
                    before.lemma_at(i0);
                    assert(old_list[i0] == q && old_list[at as int] == k);
                }
            }
            assert(after.deep_view() =~= before.deep_view().remove(k));
        }
        *self = after;
        Some(previous)
    }

    /// The key at a position of the walk.
    pub fn key_at(&self, i: usize) -> (result: &K)
        requires
            i < order::ordered::<K>(self.deep_view().dom()).len(),
        ensures
            result.deep_view() == order::ordered::<K>(self.deep_view().dom())[i as int],
            self.deep_view().contains_key(result.deep_view()),
    {
        proof {
            use_type_invariant(self);
            self.lemma_listing();
            self.lemma_at(i as int);
        }
        &self.keys[i]
    }

    /// The value at a position of the walk.
    pub fn value_at(&self, i: usize) -> (result: &V)
        requires
            i < order::ordered::<K>(self.deep_view().dom()).len(),
        ensures
            self.deep_view().contains_key(order::ordered::<K>(self.deep_view().dom())[i as int]),
            result.deep_view() == self.deep_view()[order::ordered::<K>(
                self.deep_view().dom(),
            )[i as int]],
    {
        proof {
            use_type_invariant(self);
            self.lemma_listing();
            self.lemma_at(i as int);
        }
        &self.values[i]
    }

    /// The keys in increasing order.
    pub fn keys(&self) -> (result: Vec<K>)
        ensures
            result.deep_view() == order::ordered::<K>(self.deep_view().dom()),
            order::lists::<K>(result.deep_view(), self.deep_view().dom()),
    {
        proof {
            use_type_invariant(self);
            self.lemma_listing();
        }
        self.keys.duplicate()
    }
}

/// The keys of a map for which another map has a key or has none, as wanted, in order.
fn keys_by_presence<K: Key, V: Content, W: Content>(
    map: &SortedMap<K, V>,
    other: &SortedMap<K, W>,
    wanted: bool,
) -> (result: Vec<K>)
    ensures
        order::lists::<K>(
            result.deep_view(),
            map.deep_view().dom().filter(
                |k: K::V| other.deep_view().dom().contains(k) == wanted,
            ),
        ),
{
    let all = map.keys();
    let ghost listing = all.deep_view();
    let mut kept: Vec<K> = Vec::new();
    let mut i: usize = 0;
    while i < all.len()
        invariant
            listing == all.deep_view(),
            order::increasing::<K>(listing),
            i <= all@.len(),
            order::increasing::<K>(kept.deep_view()),
            forall|k: K::V| #[trigger]
                kept.deep_view().contains(k) <==> listing.take(i as int).contains(k)
                    && other.deep_view().dom().contains(k) == wanted,
        decreases all@.len() - i,
    {
        let ghost before = kept.deep_view();
        let ghost key = listing[i as int];
        proof {
            order::lemma_take_next(listing, i as int);
            assert(all@[i as int].deep_view() == key);
        }
        if other.contains_key(&all[i]) == wanted {
            kept.push(all[i].duplicate());
            proof {
                let after = kept.deep_view();
                assert(after =~= before.push(key));
                assert forall|m: int, n: int| 0 <= m < n < after.len() implies K::precedes(
                    #[trigger] after[m],
                    #[trigger] after[n],
                ) by {
                    if n == before.len() {
                        assert(before.contains(before[m]));
                        let shorter = listing.take(i as int);
                        assert(shorter.contains(before[m]));
                        let j = choose|j: int| 0 <= j < shorter.len() && shorter[j] == before[m];
                        assert(listing[j] == before[m]);
                    } else {
                        assert(after[m] == before[m] && after[n] == before[n]);
                    }
                }
                assert forall|k: K::V| #[trigger] after.contains(k) <==> before.contains(k) || k
                    == key by {
                    if before.contains(k) {
                        let j = choose|j: int| 0 <= j < before.len() && before[j] == k;
                        assert(after[j] == k);
                    }
                    if k == key {
                        assert(after[before.len() as int] == k);
                    }
                    if after.contains(k) && k != key {
                        let j = choose|j: int| 0 <= j < after.len() && after[j] == k;
                        assert(before[j] == k);
                    }
                }
            }
        }
        i += 1;
    }
    proof {
        assert(listing.take(listing.len() as int) =~= listing);
        let wanted_keys = map.deep_view().dom().filter(
            |k: K::V| other.deep_view().dom().contains(k) == wanted,
        );
        assert forall|k: K::V| #[trigger] wanted_keys.contains(k) <==> kept.deep_view().contains(
            k,
        ) by {
            assert(map.deep_view().dom().contains(k) <==> listing.contains(k));
        }
    }
    kept
}

/// The keys of a map that another map lacks, in order.
pub fn keys_only_in<K: Key, V: Content, W: Content>(
    map: &SortedMap<K, V>,
    other: &SortedMap<K, W>,
) -> (result: Vec<K>)
    ensures
        result.deep_view() == order::ordered::<K>(
            map.deep_view().dom().difference(other.deep_view().dom()),
        ),
        order::lists::<K>(
            result.deep_view(),
            map.deep_view().dom().difference(other.deep_view().dom()),
        ),
{
    let result = keys_by_presence(map, other, false);
    proof {
        let set = map.deep_view().dom().difference(other.deep_view().dom());
        assert(set =~= map.deep_view().dom().filter(
            |k: K::V| other.deep_view().dom().contains(k) == false,
        ));
        order::lemma_ordered_is::<K>(result.deep_view(), set);
    }
    result
}

/// The keys that two maps have in common, in order.
pub fn keys_in_both<K: Key, V: Content, W: Content>(
    map: &SortedMap<K, V>,
    other: &SortedMap<K, W>,
) -> (result: Vec<K>)
    ensures
        result.deep_view() == order::ordered::<K>(
            map.deep_view().dom().intersect(other.deep_view().dom()),
        ),
        order::lists::<K>(
            result.deep_view(),
            map.deep_view().dom().intersect(other.deep_view().dom()),
        ),
{
    let result = keys_by_presence(map, other, true);
    proof {
        let set = map.deep_view().dom().intersect(other.deep_view().dom());
        assert(set =~= map.deep_view().dom().filter(
            |k: K::V| other.deep_view().dom().contains(k) == true,
        ));
        order::lemma_ordered_is::<K>(result.deep_view(), set);
    }
    result
}

impl<K: Key, V: Content> Content for SortedMap<K, V> {
    fn duplicate(&self) -> (result: Self) {
        proof {
            use_type_invariant(self);
        }
        let keys = self.keys.duplicate();
        let values = self.values.duplicate();
        proof {
            assert(values.deep_view().len() == self.values.deep_view().len());
            assert(keys.deep_view().len() == self.keys.deep_view().len());
        }
        let result = SortedMap { keys, values };
        proof {
            assert forall|k: K::V| self.deep_view().contains_key(k) implies result.deep_view()[k]
                == self.deep_view()[k] by {
                let i = self.lemma_position(k);
                assert(result.keys.deep_view()[i] == self.keys.deep_view()[i]);
                assert(result.values.deep_view()[i] == self.values.deep_view()[i]);
                result.lemma_at(i);
            }
            assert(result.deep_view() =~= self.deep_view());
        }
        result
    }

    fn same_as(&self, other: &Self) -> (result: bool) {
        proof {
            use_type_invariant(self);
            use_type_invariant(other);
            self.lemma_listing();
            other.lemma_listing();
        }
        if !self.keys.same_as(&other.keys) {
            return false;
        }
        let result = self.values.same_as(&other.values);
        proof {
            let n = self.keys@.len() as int;
            assert(self.keys.deep_view().len() == other.keys.deep_view().len());
            if result {
                assert forall|k: K::V| self.deep_view().contains_key(k) implies other.deep_view()[k]
                    == self.deep_view()[k] by {
                    let i = self.lemma_position(k);
                    assert(other.keys.deep_view()[i] == self.keys.deep_view()[i]);
                    assert(other.values.deep_view()[i] == self.values.deep_view()[i]);
                    other.lemma_at(i);
                }
                assert(self.deep_view() =~= other.deep_view());
            } else if self.deep_view() == other.deep_view() {
                assert forall|i: int| 0 <= i < n implies self.values.deep_view()[i]
                    == other.values.deep_view()[i] by {
                    assert(other.keys.deep_view()[i] == self.keys.deep_view()[i]);
                    self.lemma_at(i);
                    other.lemma_at(i);
                }
                assert(self.values.deep_view() =~= other.values.deep_view());
            }
        }
        result
    }
}

impl<K: Key, V: Content> Clone for SortedMap<K, V> {
    fn clone(&self) -> (result: Self)
        ensures
            result.deep_view() == self.deep_view(),
    {
        self.duplicate()
    }
}

} // verus!
