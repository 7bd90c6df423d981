//! Ascending iteration over a 32-bit set.

use vstd::prelude::*;

verus! {

/// A sequence of 32-bit values in strictly increasing order.
pub open spec fn sorted_strict_u32(s: Seq<u32>) -> bool {
    forall|i: int, j: int| 0 <= i < j < s.len() ==> s[i] < s[j]
}

/// The set of integers held by a sequence of 32-bit values.
pub open spec fn elems_of_u32_seq(s: Seq<u32>) -> Set<int> {
    s.map_values(|v: u32| v as int).to_set()
}

/// Membership in `elems_of_u32_seq` is membership in the sequence.
pub proof fn lemma_u32_elems_contains(s: Seq<u32>, x: int)
    ensures
        elems_of_u32_seq(s).contains(x) <==> exists|i: int| 0 <= i < s.len() && s[i] == x,
{
    let m = s.map_values(|v: u32| v as int);
    assert(elems_of_u32_seq(s).contains(x) <==> m.contains(x));
    if exists|i: int| 0 <= i < s.len() && s[i] == x {
        let i = choose|i: int| 0 <= i < s.len() && s[i] == x;
        assert(m[i] == x);
        assert(m.contains(x));
    }
    if m.contains(x) {
        let i = choose|i: int| 0 <= i < m.len() && m[i] == x;
        assert(s[i] == x);
    }
}

/// Immutable Roaring bitmap iterator.
///
/// This struct is created by the `iter` method on a Roaring bitmap. It
/// yields the set's values in ascending order, with an exact remaining
/// count, and is recreated rather than resumed after a mutation.
pub struct Iter {
    values: Vec<u32>,
    index: usize,
}

impl Iter {
    /// The full ascending sequence of values the iterator was created over.
    pub closed spec fn vals(&self) -> Seq<u32> {
        self.values@
    }

    /// How many values were yielded so far.
    pub closed spec fn at(&self) -> int {
        self.index as int
    }

    #[verifier::type_invariant]
    spec fn inv(&self) -> bool {
        self.index <= self.values@.len()
    }

    /// Wraps a vector of ascending values for iteration.
    pub(crate) fn new(values: Vec<u32>) -> (it: Self)
        ensures
            it.vals() == values@,
            it.at() == 0,
    {
        Iter { values, index: 0 }
    }

    /// Yields the next value in ascending order, or `None` once every value
    /// was returned.
    pub fn next(&mut self) -> (r: Option<u32>)
        ensures
            final(self).vals() == old(self).vals(),
            if old(self).at() < old(self).vals().len() {
                r == Some(old(self).vals()[old(self).at()]) && final(self).at() == old(self).at()
                    + 1
            } else {
                r is None && final(self).at() == old(self).at()
            },
    {
        proof {
            use_type_invariant(&*self);
        }
        if self.index < self.values.len() {
            let v = self.values[self.index];
            self.index = self.index + 1;
            Some(v)
        } else {
            None
        }
    }

    /// Exact number of values left to yield.
    pub fn size_hint(&self) -> (n: usize)
        ensures
            n == self.vals().len() - self.at(),
    {
        proof {
            use_type_invariant(&*self);
        }
        self.values.len() - self.index
    }
}

} // verus!
