//! The 64-bit set with a flat chunk list: its bitmap, entries, packed
//! headers and iterator.

pub mod bitmap;
pub mod entry;
pub mod header;
pub mod iter;

pub use bitmap::Bitmap;
pub use iter::Iter;

use vstd::prelude::*;

verus! {

/// Compressed bitmap for 64-bit integers, using 48-bit prefix keys.
///
/// A thin wrapper over [`Bitmap`], the crate's historical entry point.
pub struct RoaringTwoLevels {
    /// The chunked bitmap holding the values.
    inner: Bitmap,
}

impl View for RoaringTwoLevels {
    type V = Set<int>;

    /// The set of integers held, as mathematical integers in `[0, 2⁶⁴)`.
    closed spec fn view(&self) -> Set<int> {
        self.inner@
    }
}

impl RoaringTwoLevels {
    /// The wrapper is as sound as the bitmap it holds. It holds of every
    /// reachable value.
    #[verifier::type_invariant]
    pub closed spec fn inv(&self) -> bool {
        self.inner.inv()
    }

    /// How many chunks the bitmap holds.
    pub closed spec fn chunk_len(&self) -> int {
        self.inner.chunk_len()
    }

    /// Whether a chunk exists for the given 48-bit prefix: exactly when
    /// some held value carries that prefix.
    pub open spec fn has_prefix(&self, key: int) -> bool {
        exists|y: int| self@.contains(y) && #[trigger] (y / crate::containers::value_span())
            == key
    }

    /// The held set is a finite set of 64-bit values, and it is empty
    /// exactly when no chunk is allocated.
    pub proof fn lemma_view_bounds(&self)
        requires
            self.inv(),
        ensures
            self@.finite(),
            forall|x: int| self@.contains(x) ==> 0 <= x < 0x10000000000000000,
            self.chunk_len() == 0 <==> self@ == Set::<int>::empty(),
    {
        self.inner.lemma_view_bounds();
    }

    /// Create an empty bitmap.
    pub fn new() -> (r: Self)
        ensures
            r@ == Set::<int>::empty(),
            r.chunk_len() == 0,
    {
        let inner = Bitmap::new();
        proof {
            use_type_invariant(&inner);
        }
        RoaringTwoLevels { inner }
    }

    /// Adds a value to the bitmap.
    ///
    /// If the bitmap did not have this value present, true is returned.
    /// If the bitmap did have this value present, false is returned.
    pub fn insert(&mut self, value: u64) -> (added: bool)
        ensures
            final(self)@ == old(self)@.insert(value as int),
            added == !old(self)@.contains(value as int),
            final(self).chunk_len() == old(self).chunk_len() + (if old(self).has_prefix(
                entry::hi_of(value) as int,
            ) {
                0int
            } else {
                1int
            }),
    {
        proof {
            use_type_invariant(&*self);
        }
        let mut inner = Bitmap::new();
        proof {
            use_type_invariant(&inner);
        }
        std::mem::swap(&mut inner, &mut self.inner);
        let added = inner.insert(value);
        proof {
            use_type_invariant(&inner);
        }
        self.inner = inner;
        added
    }

    /// Removes a value from the bitmap.
    ///
    /// Returns whether the value was present or not; the chunk covering the
    /// value's prefix is dropped when the value was its last element.
    pub fn remove(&mut self, value: u64) -> (removed: bool)
        ensures
            final(self)@ == old(self)@.remove(value as int),
            removed == old(self)@.contains(value as int),
            final(self).chunk_len() == old(self).chunk_len() - (if removed && (forall|y: int|
                old(self)@.contains(y) && y / crate::containers::value_span() == entry::hi_of(
                    value,
                ) ==> y == value as int) {
                1int
            } else {
                0int
            }),
    {
        proof {
            use_type_invariant(&*self);
        }
        let mut inner = Bitmap::new();
        proof {
            use_type_invariant(&inner);
        }
        std::mem::swap(&mut inner, &mut self.inner);
        let removed = inner.remove(value);
        proof {
            use_type_invariant(&inner);
        }
        self.inner = inner;
        removed
    }

    /// Returns true if the bitmap contains the value.
    pub fn contains(&self, value: u64) -> (present: bool)
        ensures
            present == self@.contains(value as int),
    {
        self.inner.contains(value)
    }

    /// Computes the bitmap cardinality: the exact number of values held.
    ///
    /// The count must fit the machine word that carries it.
    pub fn cardinality(&self) -> (n: usize)
        requires
            self@.len() <= usize::MAX,
        ensures
            n == self@.len(),
            n == 0 <==> self@ == Set::<int>::empty(),
    {
        self.inner.cardinality()
    }

    /// Finds the smallest value in the bitmap.
    pub fn min(&self) -> (r: Option<u64>)
        ensures
            match r {
                Some(m) => self@.contains(m as int) && forall|x: int|
                    self@.contains(x) ==> m as int <= x,
                None => self@ == Set::<int>::empty(),
            },
    {
        self.inner.min()
    }

    /// Finds the largest value in the bitmap.
    pub fn max(&self) -> (r: Option<u64>)
        ensures
            match r {
                Some(m) => self@.contains(m as int) && forall|x: int|
                    self@.contains(x) ==> x <= m as int,
                None => self@ == Set::<int>::empty(),
            },
    {
        self.inner.max()
    }

    /// Clears the bitmap, removing all values and their chunks.
    pub fn clear(&mut self)
        ensures
            final(self)@ == Set::<int>::empty(),
            final(self).chunk_len() == 0,
    {
        let inner = Bitmap::new();
        proof {
            use_type_invariant(&inner);
        }
        self.inner = inner;
    }

    /// Returns true if the bitmap contains no elements.
    pub fn is_empty(&self) -> (empty: bool)
        ensures
            empty == (self@ == Set::<int>::empty()),
            empty == (self.chunk_len() == 0),
    {
        self.inner.is_empty()
    }

    /// The bitmap's approximate in-memory size, in bytes.
    pub closed spec fn mem_spec(&self) -> int {
        self.inner.mem_spec()
    }

    /// Returns the approximate in-memory size of the bitmap, in bytes.
    ///
    /// The total must fit the machine word that carries it.
    pub fn mem_size(&self) -> (r: usize)
        requires
            self.mem_spec() <= usize::MAX,
        ensures
            r == self.mem_spec(),
    {
        self.inner.mem_size()
    }

    /// Returns how many chunks are allocated: one per distinct 48-bit
    /// prefix among the held values.
    pub fn chunk_count(&self) -> (n: usize)
        ensures
            n == self.chunk_len(),
    {
        self.inner.chunk_count()
    }
}

} // verus!
