//! The sparse container: a sorted vector of unique 16-bit integers.

use vstd::prelude::*;

use crate::containers::bitmap::Bitmap;
use crate::containers::{elems_of_seq, lemma_elems_of_seq_contains, lemma_elems_of_seq_in_range,
    lemma_elems_of_seq_insert, lemma_elems_of_seq_remove, sorted_strict, value_span};

verus! {

/// Fixed overhead of a vector, in bytes: pointer, length and capacity.
pub const VEC_BASE_BYTES: usize = 24;

/// A sorted array of packed 16-bit integers.
pub struct Array {
    values: Vec<u16>,
}

/// A strictly sorted sequence has as many elements as its set, at most one
/// per 16-bit value.
pub proof fn lemma_sorted_len(s: Seq<u16>)
    requires
        sorted_strict(s),
    ensures
        elems_of_seq(s).finite(),
        elems_of_seq(s).len() == s.len(),
        s.len() <= value_span(),
{
    let m = s.map_values(|v: u16| v as int);
    assert forall|i: int, j: int| 0 <= i < m.len() && 0 <= j < m.len() && i != j implies m[i]
        != m[j] by {
        if i < j {
            assert(s[i] < s[j]);
        } else {
            assert(s[j] < s[i]);
        }
    }
    assert(m.no_duplicates());
    m.unique_seq_to_set();
    lemma_elems_of_seq_in_range(s);
    assert(elems_of_seq(s).subset_of(vstd::set_lib::set_int_range(0, value_span())));
    vstd::set_lib::lemma_int_range(0, value_span());
    vstd::set_lib::lemma_len_subset(elems_of_seq(s), vstd::set_lib::set_int_range(0, value_span()));
}

/// Adjacent order implies order between any two positions.
proof fn lemma_sorted_pair(s: Seq<u16>, i: int, j: int)
    requires
        forall|k: int| 0 <= k < s.len() - 1 ==> #[trigger] s[k] < s[k + 1],
        0 <= i < j < s.len(),
    ensures
        s[i] < s[j],
    decreases j - i,
{
    if i + 1 < j {
        lemma_sorted_pair(s, i, j - 1);
    }
}

/// Locates `value` in a strictly sorted vector: its index, or the index at
/// which it would be inserted.
fn search(values: &Vec<u16>, value: u16) -> (r: Result<usize, usize>)
    requires
        sorted_strict(values@),
    ensures
        match r {
            Ok(i) => i < values@.len() && values@[i as int] == value,
            Err(i) => i <= values@.len() && (forall|j: int| 0 <= j < i ==> values@[j] < value)
                && (forall|j: int| i <= j < values@.len() ==> value < values@[j]),
        },
{
    let mut lo: usize = 0;
    let mut hi: usize = values.len();
    while lo < hi
        invariant
            lo <= hi <= values@.len(),
            sorted_strict(values@),
            forall|j: int| 0 <= j < lo ==> values@[j] < value,
            forall|j: int| hi <= j < values@.len() ==> value < values@[j],
        decreases hi - lo,
    {
        let mid: usize = lo + (hi - lo) / 2;
        let v = values[mid];
        if v < value {
            lo = mid + 1;
        } else if value < v {
            hi = mid;
        } else {
            return Ok(mid);
        }
    }
    Err(lo)
}

impl Array {
    /// The held values, in order.
    pub closed spec fn vals(&self) -> Seq<u16> {
        self.values@
    }

    /// The set of integers held.
    pub open spec fn elems(&self) -> Set<int> {
        elems_of_seq(self.vals())
    }

    /// The values are strictly increasing: sorted and duplicate-free.
    pub open spec fn wf(&self) -> bool {
        sorted_strict(self.vals())
    }

    /// The element set is finite, within the 16-bit range, and as large as
    /// the vector.
    pub proof fn lemma_elems_in_range(&self)
        requires
            self.wf(),
        ensures
            self.elems().finite(),
            forall|x: int| self.elems().contains(x) ==> 0 <= x < value_span(),
            self.elems().len() == self.vals().len(),
    {
        lemma_sorted_len(self.vals());
        lemma_elems_of_seq_in_range(self.vals());
    }

    /// Initializes a new array with the given value.
    pub fn new(value: u16) -> (a: Self)
        ensures
            a.wf(),
            a.vals() == seq![value],
            a.elems() == Set::empty().insert(value as int),
    {
        let a = Array { values: vec![value] };
        proof {
            assert(a.vals() =~= seq![value]);
            assert forall|x: int| a.elems().contains(x) implies Set::empty().insert(
                value as int,
            ).contains(x) by {
                lemma_elems_of_seq_contains(a.vals(), x);
            }
            assert(Set::empty().insert(value as int).contains(value as int));
            lemma_elems_of_seq_contains(a.vals(), value as int);
            assert(a.elems() =~= Set::empty().insert(value as int));
        }
        a
    }

    /// Adds a value to the array.
    ///
    /// If the array did not have this value present, true is returned.
    /// If the array did have this value present, false is returned.
    pub fn insert(&mut self, value: u16) -> (added: bool)
        requires
            old(self).wf(),
        ensures
            final(self).wf(),
            final(self).elems() == old(self).elems().insert(value as int),
            added == !old(self).elems().contains(value as int),
            final(self).vals().len() == old(self).vals().len() + (if added {
                1int
            } else {
                0int
            }),
    {
        match search(&self.values, value) {
            Ok(_i) => {
                proof {
                    lemma_elems_of_seq_contains(self.vals(), value as int);
                    assert(self.elems().insert(value as int) =~= self.elems());
                }
                false
            },
            Err(i) => {
                let ghost s = self.values@;
                self.values.insert(i, value);
                proof {
                    lemma_elems_of_seq_contains(s, value as int);
                    lemma_elems_of_seq_insert(s, i as int, value);
                    let t = s.insert(i as int, value);
                    assert forall|a: int, b: int| 0 <= a < b < t.len() implies t[a] < t[b] by {}
                    assert(sorted_strict(t));
                }
                true
            },
        }
    }

    /// Removes a value from the array.
    ///
    /// Returns whether the value was present or not.
    pub fn remove(&mut self, value: u16) -> (removed: bool)
        requires
            old(self).wf(),
        ensures
            final(self).wf(),
            final(self).elems() == old(self).elems().remove(value as int),
            removed == old(self).elems().contains(value as int),
            final(self).vals().len() == old(self).vals().len() - (if removed {
                1int
            } else {
                0int
            }),
    {
        match search(&self.values, value) {
            Ok(i) => {
                let ghost s = self.values@;
                self.values.remove(i);
                proof {
                    lemma_elems_of_seq_contains(s, value as int);
                    lemma_elems_of_seq_remove(s, i as int);
                    let t = s.remove(i as int);
                    assert forall|a: int, b: int| 0 <= a < b < t.len() implies t[a] < t[b] by {}
                    assert(sorted_strict(t));
                }
                true
            },
            Err(_i) => {
                proof {
                    lemma_elems_of_seq_contains(self.vals(), value as int);
                    assert(self.elems().remove(value as int) =~= self.elems());
                }
                false
            },
        }
    }

    /// Returns true if the array contains the value.
    pub fn contains(&self, value: u16) -> (present: bool)
        requires
            self.wf(),
        ensures
            present == self.elems().contains(value as int),
    {
        proof {
            lemma_elems_of_seq_contains(self.vals(), value as int);
        }
        search(&self.values, value).is_ok()
    }

    /// Finds the smallest value in the array.
    pub fn min(&self) -> (r: Option<u16>)
        requires
            self.wf(),
        ensures
            match r {
                Some(m) => self.elems().contains(m as int) && forall|x: int|
                    self.elems().contains(x) ==> m as int <= x,
                None => self.elems().is_empty(),
            },
    {
        if self.values.len() == 0 {
            proof {
                assert forall|x: int| !self.elems().contains(x) by {
                    lemma_elems_of_seq_contains(self.vals(), x);
                }
                assert(self.elems() =~= Set::empty());
            }
            None
        } else {
            let m = self.values[0];
            proof {
                lemma_elems_of_seq_contains(self.vals(), m as int);
                assert forall|x: int| self.elems().contains(x) implies m as int <= x by {
                    lemma_elems_of_seq_contains(self.vals(), x);
                }
            }
            Some(m)
        }
    }

    /// Finds the largest value in the array.
    pub fn max(&self) -> (r: Option<u16>)
        requires
            self.wf(),
        ensures
            match r {
                Some(m) => self.elems().contains(m as int) && forall|x: int|
                    self.elems().contains(x) ==> x <= m as int,
                None => self.elems().is_empty(),
            },
    {
        if self.values.len() == 0 {
            proof {
                assert forall|x: int| !self.elems().contains(x) by {
                    lemma_elems_of_seq_contains(self.vals(), x);
                }
                assert(self.elems() =~= Set::empty());
            }
            None
        } else {
            let m = self.values[self.values.len() - 1];
            proof {
                lemma_elems_of_seq_contains(self.vals(), m as int);
                assert forall|x: int| self.elems().contains(x) implies x <= m as int by {
                    lemma_elems_of_seq_contains(self.vals(), x);
                }
            }
            Some(m)
        }
    }

    /// Collects the values of the array, in ascending order.
    pub fn to_vec(&self) -> (r: Vec<u16>)
        requires
            self.wf(),
        ensures
            r@ == self.vals(),
            sorted_strict(r@),
            elems_of_seq(r@) == self.elems(),
    {
        let mut r: Vec<u16> = Vec::new();
        let mut i: usize = 0;
        while i < self.values.len()
            invariant
                i <= self.values@.len(),
                r@ == self.values@.take(i as int),
            decreases self.values@.len() - i,
        {
            let v = self.values[i];
            r.push(v);
            proof {
                assert(self.values@.take(i as int).push(v) =~= self.values@.take(i + 1));
            }
            i = i + 1;
        }
        proof {
            assert(r@ =~= self.vals());
        }
        r
    }

    /// Returns true if the values are in strictly increasing order; always
    /// the case for an array built through its own operations.
    pub fn is_sorted(&self) -> (r: bool)
        ensures
            r == sorted_strict(self.vals()),
    {
        if self.values.len() <= 1 {
            return true;
        }
        let mut i: usize = 0;
        let mut ok = true;
        while i < self.values.len() - 1
            invariant
                self.values@.len() > 1,
                i <= self.values@.len() - 1,
                ok ==> forall|k: int| 0 <= k < i ==> #[trigger] self.values@[k] < self.values@[k
                    + 1],
                !ok ==> !sorted_strict(self.values@),
            decreases self.values@.len() - i,
        {
            if self.values[i] >= self.values[i + 1] {
                proof {
                    assert(!(self.values@[i as int] < self.values@[i + 1]));
                }
                ok = false;
            }
            i = i + 1;
        }
        proof {
            if ok {
                assert forall|a: int, b: int|
                    0 <= a < b < self.values@.len() implies self.values@[a] < self.values@[b] by {
                    lemma_sorted_pair(self.values@, a, b);
                }
            }
        }
        ok
    }

    /// Builds the sorted array holding exactly the bitmap's values.
    pub fn from_bitmap(bitmap: &Bitmap) -> (a: Self)
        requires
            bitmap.wf(),
        ensures
            a.wf(),
            a.elems() == bitmap.elems(),
    {
        Array { values: bitmap.to_vec() }
    }

    /// Returns the approximate in-memory size of the array, in bytes: the
    /// vector overhead plus two bytes per value.
    pub fn mem_size(&self) -> (r: usize)
        requires
            self.wf(),
        ensures
            r == VEC_BASE_BYTES + 2 * self.vals().len(),
    {
        proof {
            lemma_sorted_len(self.vals());
        }
        VEC_BASE_BYTES + 2 * self.values.len()
    }
}

} // verus!
