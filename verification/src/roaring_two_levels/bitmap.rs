//! Compressed bitmap for 64-bit integers, using 48-bit prefix keys.

use vstd::prelude::*;

use crate::chunk::{Chunk, chunks_cardinality, chunks_contains, chunks_elems, chunks_insert, chunks_mem_size, chunks_mem_spec, chunks_min, chunks_max, chunks_remove,
    chunks_to_vec, chunks_wf, elems_of_u64_seq, lemma_chunks_elems_bound,
    lemma_chunks_elems_finite, lemma_chunks_has_key_view, sorted_strict_u64};
use crate::containers::value_span;
use crate::roaring_two_levels::entry::{Entry, hi_of, lemma_hi_bound, lemma_split_roundtrip};
use crate::roaring_two_levels::header::Header;
use crate::roaring_two_levels::iter::Iter;

verus! {

/// Compressed bitmap for 64-bit integers, using 48-bit prefix keys.
pub struct Bitmap {
    /// Bitmap chunks, indexed by the 48 most significant bits of the
    /// integer.
    chunks: Vec<Chunk<Header>>,
}

impl View for Bitmap {
    type V = Set<int>;

    /// The set of integers held, as mathematical integers in `[0, 2⁶⁴)`.
    closed spec fn view(&self) -> Set<int> {
        chunks_elems(self.chunks@)
    }
}

impl Bitmap {
    /// The bitmap's invariant: chunks well formed, in strictly increasing
    /// key order. It holds of every reachable value.
    #[verifier::type_invariant]
    pub closed spec fn inv(&self) -> bool {
        chunks_wf(self.chunks@)
    }

    /// How many chunks the bitmap holds.
    pub closed spec fn chunk_len(&self) -> int {
        self.chunks@.len() as int
    }

    /// Whether a chunk exists for the given 48-bit prefix: exactly when
    /// some held value carries that prefix.
    pub open spec fn has_prefix(&self, key: int) -> bool {
        exists|y: int| self@.contains(y) && #[trigger] (y / value_span()) == key
    }

    /// The held set is a finite set of 64-bit values, and it is empty
    /// exactly when no chunk is allocated.
    pub proof fn lemma_view_bounds(&self)
        requires
            self.inv(),
        ensures
            self@.finite(),
            forall|x: int| self@.contains(x) ==> 0 <= x < 0x10000000000000000,
            self.chunk_len() == 0 <==> self@ == Set::<int>::empty(),
    {
        lemma_chunks_elems_bound::<Header>(self.chunks@);
        self.lemma_chunk_len_view();
    }

    /// The bitmap holds no chunk exactly when it holds no value.
    proof fn lemma_chunk_len_view(&self)
        requires
            self.inv(),
        ensures
            self.chunk_len() == 0 <==> self@ == Set::<int>::empty(),
    {
        let parts = crate::chunk::chunks_parts(self.chunks@);
        if self.chunks@.len() > 0 {
            self.chunks@[0].lemma_part_wf();
            assert(!(parts[0].elems =~= Set::<int>::empty()));
            let y = parts[0].elems.choose();
            assert(parts[0].elems.contains(y));
            crate::keyspace::lemma_parts_union_contains(parts, y);
            assert(self@.contains(y));
        } else {
            assert(parts =~= Seq::<crate::keyspace::Part>::empty());
            assert(self@ =~= Set::<int>::empty());
        }
    }

    /// Create an empty bitmap.
    pub fn new() -> (bm: Self)
        ensures
            bm@ == Set::<int>::empty(),
            bm.chunk_len() == 0,
    {
        Bitmap { chunks: Vec::new() }
    }

    /// Adds a value to the bitmap.
    ///
    /// If the bitmap did not have this value present, true is returned.
    /// If the bitmap did have this value present, false is returned.
    pub fn insert(&mut self, value: u64) -> (added: bool)
        ensures
            final(self)@ == old(self)@.insert(value as int),
            added == !old(self)@.contains(value as int),
            final(self).chunk_len() == old(self).chunk_len() + (if old(self).has_prefix(
                hi_of(value) as int,
            ) {
                0int
            } else {
                1int
            }),
    {
        proof {
            use_type_invariant(&*self);
            lemma_hi_bound(value);
            lemma_split_roundtrip(value);
        }
        let entry = Entry::from(value);
        let mut chunks: Vec<Chunk<Header>> = Vec::new();
        std::mem::swap(&mut chunks, &mut self.chunks);
        let added = chunks_insert(&mut chunks, entry.hi, entry.lo);
        self.chunks = chunks;
        proof {
            assert(entry.hi * value_span() + entry.lo == value as int);
            lemma_chunks_has_key_view(old(self).chunks@, entry.hi as int);
        }
        added
    }

    /// Removes a value from the bitmap.
    ///
    /// Returns whether the value was present or not; the chunk covering the
    /// value's prefix is dropped when the value was its last element.
    pub fn remove(&mut self, value: u64) -> (removed: bool)
        ensures
            final(self)@ == old(self)@.remove(value as int),
            removed == old(self)@.contains(value as int),
            final(self).chunk_len() == old(self).chunk_len() - (if removed && (forall|y: int|
                old(self)@.contains(y) && y / value_span() == hi_of(value) ==> y == value as int) {
                1int
            } else {
                0int
            }),
    {
        proof {
            use_type_invariant(&*self);
            lemma_hi_bound(value);
            lemma_split_roundtrip(value);
        }
        let entry = Entry::from(value);
        let mut chunks: Vec<Chunk<Header>> = Vec::new();
        std::mem::swap(&mut chunks, &mut self.chunks);
        let removed = chunks_remove(&mut chunks, entry.hi, entry.lo);
        self.chunks = chunks;
        proof {
            assert(entry.hi * value_span() + entry.lo == value as int);
        }
        removed
    }

    /// Returns true if the bitmap contains the value.
    pub fn contains(&self, value: u64) -> (present: bool)
        ensures
            present == self@.contains(value as int),
    {
        proof {
            use_type_invariant(self);
            lemma_hi_bound(value);
            lemma_split_roundtrip(value);
        }
        let entry = Entry::from(value);
        proof {
            assert(entry.hi * value_span() + entry.lo == value as int);
        }
        chunks_contains(&self.chunks, entry.hi, entry.lo)
    }

    /// Computes the bitmap cardinality: the exact number of values held.
    ///
    /// The count must fit the machine word that carries it.
    pub fn cardinality(&self) -> (n: usize)
        requires
            self@.len() <= usize::MAX,
        ensures
            n == self@.len(),
            n == 0 <==> self@ == Set::<int>::empty(),
    {
        proof {
            use_type_invariant(self);
            self.lemma_view_bounds();
            if self@.len() == 0 {
                self@.lemma_len0_is_empty();
            }
        }
        chunks_cardinality(&self.chunks)
    }

    /// Finds the smallest value in the bitmap.
    pub fn min(&self) -> (r: Option<u64>)
        ensures
            match r {
                Some(m) => self@.contains(m as int) && forall|x: int|
                    self@.contains(x) ==> m as int <= x,
                None => self@ == Set::<int>::empty(),
            },
    {
        proof {
            use_type_invariant(self);
        }
        chunks_min(&self.chunks)
    }

    /// Finds the largest value in the bitmap.
    pub fn max(&self) -> (r: Option<u64>)
        ensures
            match r {
                Some(m) => self@.contains(m as int) && forall|x: int|
                    self@.contains(x) ==> x <= m as int,
                None => self@ == Set::<int>::empty(),
            },
    {
        proof {
            use_type_invariant(self);
        }
        chunks_max(&self.chunks)
    }

    /// Clears the bitmap, removing all values and their chunks.
    pub fn clear(&mut self)
        ensures
            final(self)@ == Set::<int>::empty(),
            final(self).chunk_len() == 0,
    {
        self.chunks = Vec::new();
    }

    /// Returns true if the bitmap contains no elements.
    pub fn is_empty(&self) -> (empty: bool)
        ensures
            empty == (self@ == Set::<int>::empty()),
            empty == (self.chunk_len() == 0),
    {
        proof {
            use_type_invariant(self);
            self.lemma_chunk_len_view();
        }
        self.chunks.len() == 0
    }

    /// Returns how many chunks are allocated: one per distinct 48-bit
    /// prefix among the held values.
    pub fn chunk_count(&self) -> (n: usize)
        ensures
            n == self.chunk_len(),
    {
        self.chunks.len()
    }

    /// The bitmap's approximate in-memory size, in bytes: a fixed overhead
    /// for the chunk vector, plus each chunk's header and container.
    pub closed spec fn mem_spec(&self) -> int {
        24 + chunks_mem_spec(self.chunks@)
    }

    /// Returns the approximate in-memory size of the bitmap, in bytes.
    ///
    /// The total must fit the machine word that carries it.
    pub fn mem_size(&self) -> (r: usize)
        requires
            self.mem_spec() <= usize::MAX,
        ensures
            r == self.mem_spec(),
    {
        proof {
            use_type_invariant(self);
            crate::chunk::lemma_chunks_mem_nonneg_all(self.chunks@);
        }
        24 + chunks_mem_size(&self.chunks)
    }

    /// Gets an iterator that visits the values in the bitmap in ascending
    /// order, with an exact remaining count.
    pub fn iter(&self) -> (it: Iter)
        ensures
            sorted_strict_u64(it.vals()),
            elems_of_u64_seq(it.vals()) == self@,
            it.vals().len() == self@.len(),
            it.at() == 0,
    {
        proof {
            use_type_invariant(self);
        }
        Iter::new(chunks_to_vec(&self.chunks))
    }
}

} // verus!
