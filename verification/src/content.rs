//! Values that can be copied and compared by what they hold.

use vstd::prelude::*;

verus! {

/// A value that is described completely by its deep view: it can be duplicated, and two of its
/// kind can be told apart, by that view alone.
pub trait Content: DeepView + Sized {
    /// A second value with the same deep view.
    fn duplicate(&self) -> (result: Self)
        ensures
            result.deep_view() == self.deep_view(),
    ;

    /// Whether both values have the same deep view.
    fn same_as(&self, other: &Self) -> (result: bool)
        ensures
            result == (self.deep_view() == other.deep_view()),
    ;
}

impl Content for bool {
    fn duplicate(&self) -> (result: Self) {
        *self
    }

    fn same_as(&self, other: &Self) -> (result: bool) {
        *self == *other
    }
}

impl Content for u8 {
    fn duplicate(&self) -> (result: Self) {
        *self
    }

    fn same_as(&self, other: &Self) -> (result: bool) {
        *self == *other
    }
}

impl Content for () {
    fn duplicate(&self) -> (result: Self) {
    }

    fn same_as(&self, other: &Self) -> (result: bool) {
        true
    }
}

impl Content for String {
    fn duplicate(&self) -> (result: Self) {
        self.clone()
    }

    fn same_as(&self, other: &Self) -> (result: bool) {
        *self == *other
    }
}

impl<T: Content> Content for Option<T> {
    fn duplicate(&self) -> (result: Self) {
        match self {
            Some(value) => Some(value.duplicate()),
            None => None,
        }
    }

    fn same_as(&self, other: &Self) -> (result: bool) {
        match (self, other) {
            (Some(a), Some(b)) => a.same_as(b),
            (None, None) => true,
            _ => false,
        }
    }
}

impl<T: Content> Content for Vec<T> {
    fn duplicate(&self) -> (result: Self) {
        let mut result: Vec<T> = Vec::new();
        let mut i: usize = 0;
        while i < self.len()
            invariant
                i <= self@.len(),
                result@.len() == i,
                forall|j: int|
                    0 <= j < i ==> (#[trigger] result@[j]).deep_view() == self@[j].deep_view(),
            decreases self@.len() - i,
        {
            result.push(self[i].duplicate());
            i = i + 1;
        }
        assert(result.deep_view() =~= self.deep_view());
        result
    }

    fn same_as(&self, other: &Self) -> (result: bool) {
        if self.len() != other.len() {
            assert(self.deep_view().len() != other.deep_view().len());
            return false;
        }
        let mut i: usize = 0;
        while i < self.len()
            invariant
                i <= self@.len(),
                self@.len() == other@.len(),
                forall|j: int|
                    0 <= j < i ==> self@[j].deep_view() == (#[trigger] other@[j]).deep_view(),
            decreases self@.len() - i,
        {
            if !self[i].same_as(&other[i]) {
                assert(self.deep_view()[i as int] != other.deep_view()[i as int]);
                return false;
            }
            i = i + 1;
        }
        assert(self.deep_view() =~= other.deep_view());
        true
    }
}

} // verus!
