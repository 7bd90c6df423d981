//! Compressed bitmap for 32-bit integers.

use vstd::prelude::*;

use crate::chunk::{Chunk, chunks_cardinality, chunks_contains, chunks_elems, chunks_insert,
    lemma_chunks_has_key_view, chunks_kind_count, chunks_kind_bytes, chunks_kind_stats,
    chunks_kind_vals,
    chunks_mem_size, chunks_mem_spec, chunks_min, chunks_max, chunks_remove, chunks_to_vec,
    chunks_wf, elems_of_u64_seq, lemma_chunks_elems_finite, lemma_chunks_parts_wf,
    lemma_u64_elems_contains, sorted_strict_u64};
use crate::stats::Stats;
use crate::containers::value_span;
use crate::keyspace::{lemma_parts_union_contains, parts_union};
use crate::roaring::entry::{Entry, hi_of, lemma_split_roundtrip};
use crate::roaring::header::Header;
use crate::roaring::iter::{Iter, elems_of_u32_seq, lemma_u32_elems_contains, sorted_strict_u32};

verus! {

/// Compressed bitmap for 32-bit integers.
pub struct Bitmap {
    /// Bitmap chunks, indexed by the 16 most significant bits of the
    /// integer.
    chunks: Vec<Chunk<Header>>,
}

impl View for Bitmap {
    type V = Set<int>;

    /// The set of integers held, as mathematical integers in `[0, 2³²)`.
    closed spec fn view(&self) -> Set<int> {
        chunks_elems(self.chunks@)
    }
}

impl Bitmap {
    /// The bitmap's invariant: chunks well formed, in strictly increasing
    /// key order. It holds of every reachable value.
    #[verifier::type_invariant]
    pub closed spec fn inv(&self) -> bool {
        chunks_wf(self.chunks@)
    }

    /// How many chunks the bitmap holds.
    pub closed spec fn chunk_len(&self) -> int {
        self.chunks@.len() as int
    }

    /// Whether a chunk exists for the given 16-bit prefix: exactly when
    /// some held value carries that prefix.
    pub open spec fn has_prefix(&self, key: int) -> bool {
        exists|y: int| self@.contains(y) && #[trigger] (y / value_span()) == key
    }

    /// The held set is a finite set of 32-bit values.
    pub proof fn lemma_view_bounds(&self)
        requires
            self.inv(),
        ensures
            self@.finite(),
            forall|x: int| self@.contains(x) ==> 0 <= x < 0x100000000,
            self@.len() <= 0x100000000,
            self.chunk_len() == 0 <==> self@ == Set::<int>::empty(),
    {
        self.lemma_chunk_len_view();
        lemma_chunks_elems_finite(self.chunks@);
        lemma_chunks_parts_wf(self.chunks@);
        let parts = crate::chunk::chunks_parts(self.chunks@);
        assert forall|x: int| self@.contains(x) implies 0 <= x < 0x100000000 by {
            lemma_parts_union_contains(parts, x);
            let i = choose|i: int| 0 <= i < parts.len() && #[trigger] parts[i].elems.contains(x);
            self.chunks@[i].lemma_part_wf();
            assert(parts[i].key < 65536);
            vstd::arithmetic::mul::lemma_mul_inequality(parts[i].key + 1, 65536, value_span());
            vstd::arithmetic::mul::lemma_mul_is_distributive_add_other_way(
                value_span(),
                parts[i].key,
                1,
            );
        }
        assert(self@.subset_of(vstd::set_lib::set_int_range(0, 0x100000000)));
        vstd::set_lib::lemma_int_range(0, 0x100000000);
        vstd::set_lib::lemma_len_subset(self@, vstd::set_lib::set_int_range(0, 0x100000000));
    }

    /// The bitmap holds no chunk exactly when it holds no value.
    proof fn lemma_chunk_len_view(&self)
        requires
            self.inv(),
        ensures
            self.chunk_len() == 0 <==> self@ == Set::<int>::empty(),
    {
        let parts = crate::chunk::chunks_parts(self.chunks@);
        if self.chunks@.len() > 0 {
            self.chunks@[0].lemma_part_wf();
            assert(!(parts[0].elems =~= Set::<int>::empty()));
            let y = parts[0].elems.choose();
            assert(parts[0].elems.contains(y));
            lemma_parts_union_contains(parts, y);
            assert(self@.contains(y));
        } else {
            assert(parts =~= Seq::<crate::keyspace::Part>::empty());
            assert(self@ =~= Set::<int>::empty());
        }
    }

    /// Create an empty bitmap.
    pub fn new() -> (bm: Self)
        ensures
            bm@ == Set::<int>::empty(),
            bm.chunk_len() == 0,
    {
        Bitmap { chunks: Vec::new() }
    }

    /// Adds a value to the bitmap.
    ///
    /// If the bitmap did not have this value present, true is returned.
    /// If the bitmap did have this value present, false is returned.
    pub fn insert(&mut self, value: u32) -> (added: bool)
        ensures
            final(self)@ == old(self)@.insert(value as int),
            added == !old(self)@.contains(value as int),
            final(self).chunk_len() == old(self).chunk_len() + (if old(self).has_prefix(
                hi_of(value) as int,
            ) {
                0int
            } else {
                1int
            }),
    {
        proof {
            use_type_invariant(&*self);
            lemma_split_roundtrip(value);
        }
        let entry = Entry::from(value);
        let mut chunks: Vec<Chunk<Header>> = Vec::new();
        std::mem::swap(&mut chunks, &mut self.chunks);
        let added = chunks_insert(&mut chunks, entry.hi as u64, entry.lo);
        self.chunks = chunks;
        proof {
            assert(entry.hi * value_span() + entry.lo == value as int);
            lemma_chunks_has_key_view(old(self).chunks@, entry.hi as int);
        }
        added
    }

    /// Removes a value from the bitmap.
    ///
    /// Returns whether the value was present or not; the chunk covering the
    /// value's prefix is dropped when the value was its last element.
    pub fn remove(&mut self, value: u32) -> (removed: bool)
        ensures
            final(self)@ == old(self)@.remove(value as int),
            removed == old(self)@.contains(value as int),
            final(self).chunk_len() == old(self).chunk_len() - (if removed && (forall|y: int|
                old(self)@.contains(y) && y / value_span() == hi_of(value) ==> y == value as int) {
                1int
            } else {
                0int
            }),
    {
        proof {
            use_type_invariant(&*self);
            lemma_split_roundtrip(value);
        }
        let entry = Entry::from(value);
        let mut chunks: Vec<Chunk<Header>> = Vec::new();
        std::mem::swap(&mut chunks, &mut self.chunks);
        let removed = chunks_remove(&mut chunks, entry.hi as u64, entry.lo);
        self.chunks = chunks;
        proof {
            assert(entry.hi * value_span() + entry.lo == value as int);
        }
        removed
    }

    /// Returns true if the bitmap contains the value.
    pub fn contains(&self, value: u32) -> (present: bool)
        ensures
            present == self@.contains(value as int),
    {
        proof {
            use_type_invariant(self);
            lemma_split_roundtrip(value);
        }
        let entry = Entry::from(value);
        proof {
            assert(entry.hi * value_span() + entry.lo == value as int);
        }
        chunks_contains(&self.chunks, entry.hi as u64, entry.lo)
    }

    /// Computes the bitmap cardinality: the exact number of values held.
    pub fn cardinality(&self) -> (n: usize)
        requires
            self@.len() <= usize::MAX,
        ensures
            n == self@.len(),
            n == 0 <==> self@ == Set::<int>::empty(),
    {
        proof {
            use_type_invariant(self);
            self.lemma_view_bounds();
            if self@.len() == 0 {
                self@.lemma_len0_is_empty();
            }
        }
        chunks_cardinality(&self.chunks)
    }

    /// Finds the smallest value in the bitmap.
    pub fn min(&self) -> (r: Option<u32>)
        ensures
            match r {
                Some(m) => self@.contains(m as int) && forall|x: int|
                    self@.contains(x) ==> m as int <= x,
                None => self@ == Set::<int>::empty(),
            },
    {
        proof {
            use_type_invariant(self);
            self.lemma_view_bounds();
        }
        match chunks_min(&self.chunks) {
            Some(m) => Some(m as u32),
            None => None,
        }
    }

    /// Finds the largest value in the bitmap.
    pub fn max(&self) -> (r: Option<u32>)
        ensures
            match r {
                Some(m) => self@.contains(m as int) && forall|x: int|
                    self@.contains(x) ==> x <= m as int,
                None => self@ == Set::<int>::empty(),
            },
    {
        proof {
            use_type_invariant(self);
            self.lemma_view_bounds();
        }
        match chunks_max(&self.chunks) {
            Some(m) => Some(m as u32),
            None => None,
        }
    }

    /// Clears the bitmap, removing all values and their chunks.
    pub fn clear(&mut self)
        ensures
            final(self)@ == Set::<int>::empty(),
            final(self).chunk_len() == 0,
    {
        self.chunks = Vec::new();
    }

    /// Returns true if the bitmap contains no elements.
    pub fn is_empty(&self) -> (empty: bool)
        ensures
            empty == (self@ == Set::<int>::empty()),
            empty == (self.chunk_len() == 0),
    {
        proof {
            use_type_invariant(self);
            self.lemma_chunk_len_view();
        }
        self.chunks.len() == 0
    }

    /// Returns how many chunks are allocated: one per distinct 16-bit
    /// prefix among the held values.
    pub fn chunk_count(&self) -> (n: usize)
        ensures
            n == self.chunk_len(),
    {
        self.chunks.len()
    }

    /// Collects the values of the bitmap, in ascending order.
    pub fn to_vec(&self) -> (r: Vec<u32>)
        ensures
            sorted_strict_u32(r@),
            elems_of_u32_seq(r@) == self@,
            r@.len() == self@.len(),
    {
        proof {
            use_type_invariant(self);
            self.lemma_view_bounds();
        }
        let wide = chunks_to_vec(&self.chunks);
        let mut narrow: Vec<u32> = Vec::new();
        let mut i: usize = 0;
        while i < wide.len()
            invariant
                sorted_strict_u64(wide@),
                elems_of_u64_seq(wide@) == self@,
                forall|x: int| self@.contains(x) ==> 0 <= x < 0x100000000,
                i <= wide@.len(),
                narrow@.len() == i,
                forall|k: int| 0 <= k < i ==> (narrow@[k] as int) == (wide@[k] as int),
            decreases wide@.len() - i,
        {
            let w = wide[i];
            proof {
                lemma_u64_elems_contains(wide@, w as int);
                assert(elems_of_u64_seq(wide@).contains(w as int));
            }
            narrow.push(w as u32);
            i = i + 1;
        }
        proof {
            assert forall|a: int, b: int|
                0 <= a < b < narrow@.len() implies narrow@[a] < narrow@[b] by {
                assert(wide@[a] < wide@[b]);
            }
            assert forall|x: int|
                elems_of_u32_seq(narrow@).contains(x) == self@.contains(x) by {
                lemma_u32_elems_contains(narrow@, x);
                lemma_u64_elems_contains(wide@, x);
            }
            assert(elems_of_u32_seq(narrow@) =~= self@);
        }
        narrow
    }

    /// Gets an iterator that visits the values in the bitmap in ascending
    /// order, with an exact remaining count.
    pub fn iter(&self) -> (it: Iter)
        ensures
            sorted_strict_u32(it.vals()),
            elems_of_u32_seq(it.vals()) == self@,
            it.vals().len() == self@.len(),
            it.at() == 0,
    {
        Iter::new(self.to_vec())
    }

    /// The bitmap's approximate in-memory size, in bytes: a fixed overhead
    /// for the chunk vector, plus each chunk's header and container.
    pub closed spec fn mem_spec(&self) -> int {
        24 + chunks_mem_spec(self.chunks@)
    }

    /// How many chunks hold the sparse representation.
    pub closed spec fn arrays_count(&self) -> int {
        chunks_kind_count(self.chunks@, true)
    }

    /// How many chunks hold the dense representation.
    pub closed spec fn bitmaps_count(&self) -> int {
        chunks_kind_count(self.chunks@, false)
    }

    /// How many values the sparse chunks hold together.
    pub closed spec fn arrays_vals(&self) -> int {
        chunks_kind_vals(self.chunks@, true)
    }

    /// How many values the dense chunks hold together.
    pub closed spec fn bitmaps_vals(&self) -> int {
        chunks_kind_vals(self.chunks@, false)
    }

    /// How many bytes the sparse chunks occupy together.
    pub closed spec fn arrays_bytes(&self) -> int {
        chunks_kind_bytes(self.chunks@, true)
    }

    /// How many bytes the dense chunks occupy together.
    pub closed spec fn bitmaps_bytes(&self) -> int {
        chunks_kind_bytes(self.chunks@, false)
    }

    /// The bitmap occupies at least its own fixed overhead.
    pub proof fn lemma_mem_nonneg(&self)
        requires
            self.inv(),
        ensures
            self.mem_spec() >= 24,
    {
        crate::chunk::lemma_chunks_mem_nonneg_all(self.chunks@);
    }

    /// Returns the approximate in-memory size of the bitmap, in bytes.
    ///
    /// The total must fit the machine word that carries it.
    pub fn mem_size(&self) -> (r: usize)
        requires
            self.mem_spec() <= usize::MAX,
        ensures
            r == self.mem_spec(),
    {
        proof {
            use_type_invariant(self);
            crate::chunk::lemma_chunks_mem_nonneg_all(self.chunks@);
        }
        24 + chunks_mem_size(&self.chunks)
    }

    /// Returns detailed statistics about the composition of the bitmap:
    /// container counts, value counts and byte totals split by container
    /// kind, beside the extremes.
    ///
    /// The counts must fit the machine word that carries them.
    pub fn stats(&self) -> (r: Stats<u32>)
        requires
            self@.len() <= usize::MAX,
            self.mem_spec() <= usize::MAX,
        ensures
            r.nb_containers == self.chunk_len(),
            r.nb_array_containers == self.arrays_count(),
            r.nb_bitmap_containers == self.bitmaps_count(),
            r.nb_values == self@.len(),
            r.nb_values_array_containers == self.arrays_vals(),
            r.nb_values_bitmap_containers == self.bitmaps_vals(),
            r.nb_bytes == self.mem_spec(),
            r.nb_bytes_array_containers == self.arrays_bytes(),
            r.nb_bytes_bitmap_containers == self.bitmaps_bytes(),
            r.nb_array_containers + r.nb_bitmap_containers == self.chunk_len(),
            r.nb_values_array_containers + r.nb_values_bitmap_containers == self@.len(),
            r.nb_bytes_array_containers + r.nb_bytes_bitmap_containers + 24 == self.mem_spec(),
            match r.min_value {
                Some(m) => self@.contains(m as int) && forall|x: int|
                    self@.contains(x) ==> m as int <= x,
                None => self@ == Set::<int>::empty(),
            },
            match r.max_value {
                Some(m) => self@.contains(m as int) && forall|x: int|
                    self@.contains(x) ==> x <= m as int,
                None => self@ == Set::<int>::empty(),
            },
    {
        proof {
            use_type_invariant(self);
            self.lemma_view_bounds();
            crate::chunk::lemma_chunks_mem_nonneg_all(self.chunks@);
        }
        let kinds = chunks_kind_stats(&self.chunks);
        let nb_values = self.cardinality();
        let nb_bytes = self.mem_size();
        let min_value = self.min();
        let max_value = self.max();
        Stats {
            nb_containers: self.chunks.len(),
            nb_array_containers: kinds.0,
            nb_bitmap_containers: kinds.1,
            nb_values,
            nb_values_array_containers: kinds.2,
            nb_values_bitmap_containers: kinds.3,
            nb_bytes,
            nb_bytes_array_containers: kinds.4,
            nb_bytes_bitmap_containers: kinds.5,
            min_value,
            max_value,
        }
    }
}

} // verus!
