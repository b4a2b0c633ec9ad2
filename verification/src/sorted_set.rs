//! Sets that keep their members in increasing order.

use vstd::prelude::*;
use crate::content::Content;
use crate::order;
use crate::order::Key;
use crate::sorted_map::SortedMap;

verus! {

/// A set whose members stand in increasing order.
#[derive(Debug, PartialEq, Eq)]
pub struct SortedSet<K: Key> {
    members: SortedMap<K, ()>,
}

impl<K: Key> DeepView for SortedSet<K> {
    type V = Set<K::V>;

    closed spec fn deep_view(&self) -> Set<K::V> {
        self.members.deep_view().dom()
    }
}

impl<K: Key> SortedSet<K> {
    /// A set without members.
    pub fn new() -> (result: Self)
        ensures
            result.deep_view() == Set::<K::V>::empty(),
    {
        let result = SortedSet { members: SortedMap::new() };
        assert(result.deep_view() =~= Set::<K::V>::empty());
        result
    }

    /// The number of members.
    pub fn len(&self) -> (result: usize)
        ensures
            self.deep_view().finite(),
            result == self.deep_view().len(),
            result == order::ordered::<K>(self.deep_view()).len(),
            order::lists::<K>(order::ordered::<K>(self.deep_view()), self.deep_view()),
    {
        self.members.len()
    }

    /// Whether a key is a member.
    pub fn contains(&self, key: &K) -> (result: bool)
        ensures
            result == self.deep_view().contains(key.deep_view()),
    {
        self.members.contains_key(key)
    }

    /// Makes a key a member; says whether it was none before.
    pub fn insert(&mut self, key: K) -> (result: bool)
        ensures
            final(self).deep_view() == old(self).deep_view().insert(key.deep_view()),
            result == !old(self).deep_view().contains(key.deep_view()),
    {
        let previous = self.members.insert(key, ());
        proof {
            assert(self.deep_view() =~= old(self).deep_view().insert(key.deep_view()));
        }
        previous.is_none()
    }

    /// Takes a member out; says whether it was one.
    pub fn remove(&mut self, key: &K) -> (result: bool)
        ensures
            final(self).deep_view() == old(self).deep_view().remove(key.deep_view()),
            result == old(self).deep_view().contains(key.deep_view()),
    {
        let previous = self.members.remove(key);
        proof {
            assert(self.deep_view() =~= old(self).deep_view().remove(key.deep_view()));
        }
        previous.is_some()
    }

    /// The members in increasing order.
    pub fn members(&self) -> (result: Vec<K>)
        ensures
            result.deep_view() == order::ordered::<K>(self.deep_view()),
            order::lists::<K>(result.deep_view(), self.deep_view()),
    {
        self.members.keys()
    }
}

impl<K: Key> Content for SortedSet<K> {
    fn duplicate(&self) -> (result: Self) {
        SortedSet { members: self.members.duplicate() }
    }

    fn same_as(&self, other: &Self) -> (result: bool) {
        let result = self.members.same_as(&other.members);
        proof {
            if self.deep_view() == other.deep_view() {
                assert(self.members.deep_view() =~= other.members.deep_view());
            }
        }
        result
    }
}

impl<K: Key> Clone for SortedSet<K> {
    fn clone(&self) -> (result: Self)
        ensures
            result.deep_view() == self.deep_view(),
    {
        self.duplicate()
    }
}

} // verus!
