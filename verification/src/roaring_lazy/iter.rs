//! Ascending iteration over a 64-bit set.

use vstd::prelude::*;

verus! {

/// Immutable Lazy Roaring bitmap iterator.
///
/// This struct is created by the `iter` method on a Lazy Roaring
/// bitmap. It yields the set's values in ascending order, with an exact
/// remaining count, and is recreated rather than resumed after a mutation.
pub struct Iter {
    values: Vec<u64>,
    index: usize,
}

impl Iter {
    /// The full ascending sequence of values the iterator was created over.
    pub closed spec fn vals(&self) -> Seq<u64> {
        self.values@
    }

    /// How many values were yielded so far.
    pub closed spec fn at(&self) -> int {
        self.index as int
    }

    #[verifier::type_invariant]
    spec fn inv(&self) -> bool {
        self.index <= self.values@.len()
    }

    /// Wraps a vector of ascending values for iteration.
    pub(crate) fn new(values: Vec<u64>) -> (it: Self)
        ensures
            it.vals() == values@,
            it.at() == 0,
    {
        Iter { values, index: 0 }
    }

    /// Yields the next value in ascending order, or `None` once every value
    /// was returned.
    pub fn next(&mut self) -> (r: Option<u64>)
        ensures
            final(self).vals() == old(self).vals(),
            if old(self).at() < old(self).vals().len() {
                r == Some(old(self).vals()[old(self).at()]) && final(self).at() == old(self).at()
                    + 1
            } else {
                r is None && final(self).at() == old(self).at()
            },
    {
        proof {
            use_type_invariant(&*self);
        }
        if self.index < self.values.len() {
            let v = self.values[self.index];
            self.index = self.index + 1;
            Some(v)
        } else {
            None
        }
    }

    /// Exact number of values left to yield.
    pub fn size_hint(&self) -> (n: usize)
        ensures
            n == self.vals().len() - self.at(),
    {
        proof {
            use_type_invariant(&*self);
        }
        self.values.len() - self.index
    }
}

} // verus!
