//! Containers: the sparse and the dense representation of up to 65536
//! 16-bit integers, and the sum type that holds one of the two.

mod array;
mod bitmap;

pub use array::Array;
pub use bitmap::Bitmap;

use vstd::prelude::*;

verus! {

/// How many distinct values a container can hold: one per 16-bit integer.
#[verifier::inline]
pub open spec fn value_span() -> int {
    65536
}

/// A sequence of 16-bit values in strictly increasing order.
pub open spec fn sorted_strict(s: Seq<u16>) -> bool {
    forall|i: int, j: int| 0 <= i < j < s.len() ==> s[i] < s[j]
}

/// The set of integers held by a sequence of 16-bit values.
pub open spec fn elems_of_seq(s: Seq<u16>) -> Set<int> {
    s.map_values(|v: u16| v as int).to_set()
}

/// Membership in `elems_of_seq` is membership in the sequence.
pub proof fn lemma_elems_of_seq_contains(s: Seq<u16>, x: int)
    ensures
        elems_of_seq(s).contains(x) <==> exists|i: int| 0 <= i < s.len() && s[i] == x,
{
    let m = s.map_values(|v: u16| v as int);
    assert(elems_of_seq(s).contains(x) <==> m.contains(x));
    if exists|i: int| 0 <= i < s.len() && s[i] == x {
        let i = choose|i: int| 0 <= i < s.len() && s[i] == x;
        assert(m[i] == x);
        assert(m.contains(x));
    }
    if m.contains(x) {
        let i = choose|i: int| 0 <= i < m.len() && m[i] == x;
        assert(s[i] == x);
    }
}

/// Every element of `elems_of_seq` lies in the 16-bit range, and the set is
/// finite.
pub proof fn lemma_elems_of_seq_in_range(s: Seq<u16>)
    ensures
        elems_of_seq(s).finite(),
        forall|x: int| elems_of_seq(s).contains(x) ==> 0 <= x < value_span(),
{
    broadcast use vstd::seq_lib::seq_to_set_is_finite;

    assert forall|x: int| elems_of_seq(s).contains(x) implies 0 <= x < value_span() by {
        lemma_elems_of_seq_contains(s, x);
    }
}

/// Inserting a value into a sequence inserts it into the element set.
pub proof fn lemma_elems_of_seq_insert(s: Seq<u16>, i: int, v: u16)
    requires
        0 <= i <= s.len(),
    ensures
        elems_of_seq(s.insert(i, v)) == elems_of_seq(s).insert(v as int),
{
    let t = s.insert(i, v);
    assert forall|x: int| elems_of_seq(t).contains(x) implies elems_of_seq(s).insert(
        v as int,
    ).contains(x) by {
        lemma_elems_of_seq_contains(t, x);
        let j = choose|j: int| 0 <= j < t.len() && t[j] == x;
        if j < i {
            assert(s[j] == x);
            lemma_elems_of_seq_contains(s, x);
        } else if j == i {
            assert(x == v as int);
        } else {
            assert(s[j - 1] == x);
            lemma_elems_of_seq_contains(s, x);
        }
    }
    assert forall|x: int| elems_of_seq(s).insert(v as int).contains(x) implies elems_of_seq(
        t,
    ).contains(x) by {
        if x == v as int {
            assert(t[i] == v);
            lemma_elems_of_seq_contains(t, x);
        } else {
            lemma_elems_of_seq_contains(s, x);
            let j = choose|j: int| 0 <= j < s.len() && s[j] == x;
            if j < i {
                assert(t[j] == x);
            } else {
                assert(t[j + 1] == x);
            }
            lemma_elems_of_seq_contains(t, x);
        }
    }
    assert(elems_of_seq(t) =~= elems_of_seq(s).insert(v as int));
}

/// Removing a value from a duplicate-free sequence removes it from the
/// element set.
pub proof fn lemma_elems_of_seq_remove(s: Seq<u16>, i: int)
    requires
        0 <= i < s.len(),
        sorted_strict(s),
    ensures
        elems_of_seq(s.remove(i)) == elems_of_seq(s).remove(s[i] as int),
{
    let t = s.remove(i);
    let v = s[i];
    assert forall|x: int| elems_of_seq(t).contains(x) implies elems_of_seq(s).remove(
        v as int,
    ).contains(x) by {
        lemma_elems_of_seq_contains(t, x);
        let j = choose|j: int| 0 <= j < t.len() && t[j] == x;
        if j < i {
            assert(s[j] == x);
        } else {
            assert(s[j + 1] == x);
        }
        lemma_elems_of_seq_contains(s, x);
    }
    assert forall|x: int| elems_of_seq(s).remove(v as int).contains(x) implies elems_of_seq(
        t,
    ).contains(x) by {
        lemma_elems_of_seq_contains(s, x);
        let j = choose|j: int| 0 <= j < s.len() && s[j] == x;
        if j < i {
            assert(t[j] == x);
        } else {
            assert(j != i);
            assert(t[j - 1] == x);
        }
        lemma_elems_of_seq_contains(t, x);
    }
    assert(elems_of_seq(t) =~= elems_of_seq(s).remove(v as int));
}

/// A container holds the 16-bit suffixes of one chunk, either as a sorted
/// array (sparse) or as a bit vector (dense). The representation never
/// changes on its own: the owning chunk converts it when the density crosses
/// the threshold.
pub enum Container {
    /// Array container for sparse chunks.
    Array(Array),
    /// Bitmap container for dense chunks.
    Bitmap(Bitmap),
}

impl Container {
    /// The set of integers held, each in `[0, 65536)`.
    pub closed spec fn elems(&self) -> Set<int> {
        match *self {
            Container::Array(a) => a.elems(),
            Container::Bitmap(b) => b.elems(),
        }
    }

    /// Whether the representation invariant of the held container holds.
    pub closed spec fn wf(&self) -> bool {
        match *self {
            Container::Array(a) => a.wf(),
            Container::Bitmap(b) => b.wf(),
        }
    }

    /// Whether the sparse representation is the one held.
    pub open spec fn is_array(&self) -> bool {
        match *self {
            Container::Array(_) => true,
            Container::Bitmap(_) => false,
        }
    }

    /// The element set is finite and within the 16-bit range.
    pub proof fn lemma_elems_in_range(&self)
        requires
            self.wf(),
        ensures
            self.elems().finite(),
            forall|x: int| self.elems().contains(x) ==> 0 <= x < value_span(),
    {
        match *self {
            Container::Array(a) => a.lemma_elems_in_range(),
            Container::Bitmap(b) => b.lemma_elems_in_range(),
        }
    }

    /// Initializes a new container with the given value.
    pub fn new(value: u16) -> (c: Self)
        ensures
            c.wf(),
            c.elems() == Set::empty().insert(value as int),
            c.is_array(),
    {
        Container::Array(Array::new(value))
    }

    /// Adds a value to the container.
    ///
    /// If the container did not have this value present, true is returned.
    /// If the container did have this value present, false is returned.
    pub fn insert(&mut self, value: u16) -> (added: bool)
        requires
            old(self).wf(),
        ensures
            final(self).wf(),
            final(self).elems() == old(self).elems().insert(value as int),
            added == !old(self).elems().contains(value as int),
            final(self).is_array() == old(self).is_array(),
    {
        match self {
            Container::Array(array) => array.insert(value),
            Container::Bitmap(bitmap) => bitmap.insert(value),
        }
    }

    /// Removes a value from the container.
    ///
    /// Returns whether the value was present or not.
    pub fn remove(&mut self, value: u16) -> (removed: bool)
        requires
            old(self).wf(),
        ensures
            final(self).wf(),
            final(self).elems() == old(self).elems().remove(value as int),
            removed == old(self).elems().contains(value as int),
            final(self).is_array() == old(self).is_array(),
    {
        match self {
            Container::Array(array) => array.remove(value),
            Container::Bitmap(bitmap) => bitmap.remove(value),
        }
    }

    /// Returns true if the container contains the value.
    pub fn contains(&self, value: u16) -> (present: bool)
        requires
            self.wf(),
        ensures
            present == self.elems().contains(value as int),
    {
        match self {
            Container::Array(array) => array.contains(value),
            Container::Bitmap(bitmap) => bitmap.contains(value),
        }
    }

    /// Finds the smallest value in the container.
    pub fn min(&self) -> (r: Option<u16>)
        requires
            self.wf(),
        ensures
            match r {
                Some(m) => self.elems().contains(m as int) && forall|x: int|
                    self.elems().contains(x) ==> m as int <= x,
                None => self.elems().is_empty(),
            },
    {
        match self {
            Container::Array(array) => array.min(),
            Container::Bitmap(bitmap) => bitmap.min(),
        }
    }

    /// Finds the largest value in the container.
    pub fn max(&self) -> (r: Option<u16>)
        requires
            self.wf(),
        ensures
            match r {
                Some(m) => self.elems().contains(m as int) && forall|x: int|
                    self.elems().contains(x) ==> x <= m as int,
                None => self.elems().is_empty(),
            },
    {
        match self {
            Container::Array(array) => array.max(),
            Container::Bitmap(bitmap) => bitmap.max(),
        }
    }

    /// Returns true if the sparse representation is the one held.
    pub fn holds_array(&self) -> (r: bool)
        ensures
            r == self.is_array(),
    {
        match self {
            Container::Array(_) => true,
            Container::Bitmap(_) => false,
        }
    }

    /// Builds the same values in the other representation; the source is
    /// discarded by the caller.
    pub fn converted(&self) -> (c: Container)
        requires
            self.wf(),
        ensures
            c.wf(),
            c.elems() == self.elems(),
            c.is_array() == !self.is_array(),
    {
        match self {
            Container::Array(array) => Container::Bitmap(Bitmap::from_array(array)),
            Container::Bitmap(bitmap) => Container::Array(Array::from_bitmap(bitmap)),
        }
    }

    /// Collects the values of the container, in ascending order.
    pub fn to_vec(&self) -> (r: Vec<u16>)
        requires
            self.wf(),
        ensures
            sorted_strict(r@),
            elems_of_seq(r@) == self.elems(),
    {
        match self {
            Container::Array(array) => array.to_vec(),
            Container::Bitmap(bitmap) => bitmap.to_vec(),
        }
    }

    /// The container's approximate in-memory size, in bytes: the vector
    /// overhead plus two bytes per value for an array, a constant for a
    /// bitmap.
    pub closed spec fn mem_size_spec(&self) -> int {
        match *self {
            Container::Array(a) => array::VEC_BASE_BYTES + 2 * a.vals().len(),
            Container::Bitmap(_) => bitmap::BITMAP_MEM_BYTES as int,
        }
    }

    /// The in-memory size is positive and small.
    pub proof fn lemma_mem_size_spec(&self)
        requires
            self.wf(),
        ensures
            1 <= self.mem_size_spec() <= 0x40000,
    {
        match *self {
            Container::Array(a) => {
                array::lemma_sorted_len(a.vals());
            },
            Container::Bitmap(_) => {},
        }
    }

    /// Returns the approximate in-memory size of the container, in bytes.
    pub fn mem_size(&self) -> (r: usize)
        requires
            self.wf(),
        ensures
            r == self.mem_size_spec(),
    {
        match self {
            Container::Array(array) => array.mem_size(),
            Container::Bitmap(bitmap) => bitmap.mem_size(),
        }
    }
}

} // verus!
