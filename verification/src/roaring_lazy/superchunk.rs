//! Super-chunks: the middle level of the lazy two-level 64-bit set.

use vstd::prelude::*;

use crate::chunk::{Chunk, chunks_cardinality, chunks_contains, chunks_elems, chunks_has_key,
    chunks_insert, chunks_min, chunks_max, chunks_remove, chunks_wf, lemma_chunks_elems_bound,
    lemma_chunks_has_key_view};
use crate::chunk::Header as ChunkHeader;
use crate::containers::value_span;
use crate::keyspace::{Part, part_wf, parts_union};
use crate::roaring::entry::{Entry as ChunkEntry, lemma_split_roundtrip as lemma_chunk_split};
use crate::roaring::header::Header;
use crate::roaring_tree_map::entry::{Entry, half_span};

verus! {

/// One 32-bit-keyed slice of the 64-bit key space: an ordered sequence of
/// chunks over the lower 32 bits, leaner than a full nested set.
pub struct SuperChunk {
    key: u32,
    chunks: Vec<Chunk<Header>>,
}

impl SuperChunk {
    /// The super-chunk's key: the 32 most significant bits of its values.
    pub closed spec fn key_spec(&self) -> int {
        self.key as int
    }

    /// The first value of the super-chunk's slice of the key space.
    pub open spec fn base(&self) -> int {
        self.key_spec() * half_span()
    }

    /// The values held, relative to the slice: integers in `[0, 2³²)`.
    pub closed spec fn local_elems(&self) -> Set<int> {
        chunks_elems(self.chunks@)
    }

    /// The set of integers held, as absolute 64-bit values.
    pub closed spec fn elems(&self) -> Set<int> {
        Set::new(
            |x: int|
                self.base() <= x < self.base() + half_span() && self.local_elems().contains(
                    x - self.base(),
                ),
        )
    }

    /// The super-chunk's ghost view as one keyed part.
    pub open spec fn part(&self) -> Part {
        Part { key: self.key_spec(), elems: self.elems() }
    }

    /// Whether an inner chunk exists for the given 16-bit prefix of the
    /// lower 32 bits: exactly when some held value carries that prefix.
    pub open spec fn has_prefix(&self, key: int) -> bool {
        exists|y: int| self.elems().contains(y) && #[trigger] ((y - self.base())
            / value_span()) == key
    }

    /// The inner chunk sequence is well formed.
    pub closed spec fn inner_wf(&self) -> bool {
        chunks_wf(self.chunks@)
    }

    /// The super-chunk's invariant: well-formed inner chunks, and at least
    /// one of them; an emptied super-chunk is dropped by its owner.
    pub open spec fn wf(&self) -> bool {
        &&& self.inner_wf()
        &&& !self.local_elems().is_empty()
    }

    /// The element set is the local set, shifted to the slice.
    proof fn lemma_elems(&self)
        requires
            self.inner_wf(),
        ensures
            self.elems().finite(),
            self.elems().len() == self.local_elems().len(),
            forall|v: int|
                0 <= v < half_span() ==> (self.elems().contains(self.base() + v)
                    == self.local_elems().contains(v)),
    {
        lemma_chunks_elems_bound(self.chunks@);
        assert(Header::key_limit() * value_span() == half_span());
        let f = |e: int| e + self.base();
        assert(self.local_elems().map(f) =~= self.elems());
        vstd::set_lib::lemma_map_size(self.local_elems(), self.elems(), f);
    }

    /// An inner chunk for a prefix exists exactly when some held value
    /// carries that prefix.
    proof fn lemma_has_prefix_view(&self, key: int)
        requires
            self.inner_wf(),
        ensures
            self.has_prefix(key) <==> chunks_has_key(self.chunks@, key),
    {
        self.lemma_elems();
        lemma_chunks_elems_bound(self.chunks@);
        lemma_chunks_has_key_view(self.chunks@, key);
        if self.has_prefix(key) {
            let y = choose|y: int|
                self.elems().contains(y) && #[trigger] ((y - self.base()) / value_span()) == key;
            assert(self.local_elems().contains(y - self.base()));
        }
        if chunks_has_key(self.chunks@, key) {
            let l = choose|l: int|
                self.local_elems().contains(l) && #[trigger] (l / value_span()) == key;
            assert(self.elems().contains(self.base() + l));
            assert((self.base() + l - self.base()) / value_span() == key);
        }
    }

    /// A well-formed super-chunk is a well-formed, populated part.
    pub proof fn lemma_part_wf(&self)
        requires
            self.wf(),
        ensures
            part_wf(self.part(), half_span()),
            self.part().elems.len() == self.local_elems().len(),
            self.part().elems.len() >= 1,
            0 <= self.key_spec() < 0x100000000,
    {
        self.lemma_elems();
        lemma_chunks_elems_bound(self.chunks@);
        let y = self.local_elems().choose();
        assert(self.local_elems().contains(y));
        assert(self.elems().contains(self.base() + y));
    }

    /// Initializes a new super-chunk with the given entry's value.
    pub fn new(entry: &Entry) -> (sc: Self)
        ensures
            sc.wf(),
            sc.key_spec() == entry.hi,
            sc.elems() == Set::empty().insert(entry.hi * half_span() + entry.lo),
            sc.chunk_len() == 1,
    {
        let chunk_entry = ChunkEntry::from(entry.lo);
        proof {
            lemma_chunk_split(entry.lo);
        }
        let header = crate::roaring::header::Header::new(chunk_entry.hi);
        let chunk = Chunk::new(header, chunk_entry.lo);
        let mut chunks: Vec<Chunk<Header>> = Vec::new();
        chunks.push(chunk);
        let sc = SuperChunk { key: entry.hi, chunks };
        proof {
            let parts = crate::chunk::chunks_parts(sc.chunks@);
            assert(parts =~= Seq::empty().push(chunk.part()));
            assert(parts.drop_last() =~= Seq::<Part>::empty());
            assert(parts_union(parts.drop_last()) == Set::<int>::empty());
            assert(parts_union(parts) == parts_union(parts.drop_last()).union(parts.last().elems));
            assert(sc.local_elems() =~= Set::empty().insert(entry.lo as int));
            sc.lemma_elems();
            assert(sc.elems() =~= Set::empty().insert(entry.hi * half_span() + entry.lo));
        }
        sc
    }

    /// Adds a value to the super-chunk.
    ///
    /// If the super-chunk did not have this value present, true is
    /// returned.
    pub fn insert(&mut self, value: u32) -> (added: bool)
        requires
            old(self).wf(),
        ensures
            final(self).wf(),
            final(self).key_spec() == old(self).key_spec(),
            final(self).elems() == old(self).elems().insert(old(self).base() + value),
            added == !old(self).elems().contains(old(self).base() + value),
            final(self).chunk_len() == old(self).chunk_len() + (if old(self).has_prefix(
                crate::roaring::entry::hi_of(value) as int,
            ) {
                0int
            } else {
                1int
            }),
    {
        proof {
            old(self).lemma_elems();
            lemma_chunk_split(value);
        }
        let entry = ChunkEntry::from(value);
        proof {
            old(self).lemma_has_prefix_view(entry.hi as int);
        }
        let added = chunks_insert(&mut self.chunks, entry.hi as u64, entry.lo);
        proof {
            assert(entry.hi * value_span() + entry.lo == value as int);
            assert(self.local_elems() == old(self).local_elems().insert(value as int));
            self.lemma_elems();
            assert(self.elems() =~= old(self).elems().insert(old(self).base() + value));
            assert(self.local_elems().contains(value as int));
            assert(!self.local_elems().is_empty());
        }
        added
    }

    /// Removes a value from the super-chunk.
    ///
    /// Returns whether the value was present or not. Removing the last
    /// element leaves the super-chunk empty; the owner deletes it at once.
    pub fn remove(&mut self, value: u32) -> (removed: bool)
        requires
            old(self).wf(),
        ensures
            final(self).inner_wf(),
            final(self).key_spec() == old(self).key_spec(),
            final(self).elems() == old(self).elems().remove(old(self).base() + value),
            removed == old(self).elems().contains(old(self).base() + value),
            final(self).wf() <==> !final(self).elems().is_empty(),
            final(self).chunk_len() == old(self).chunk_len() - (if removed && (forall|y: int|
                old(self).elems().contains(y) && (y - old(self).base()) / value_span()
                    == crate::roaring::entry::hi_of(value) ==> y == old(self).base() + value) {
                1int
            } else {
                0int
            }),
    {
        proof {
            old(self).lemma_elems();
            lemma_chunk_split(value);
        }
        let entry = ChunkEntry::from(value);
        proof {
            lemma_chunks_elems_bound(old(self).chunks@);
        }
        let removed = chunks_remove(&mut self.chunks, entry.hi as u64, entry.lo);
        proof {
            let base = old(self).base();
            let hi = entry.hi as int;
            let cond_local = forall|l: int|
                chunks_elems(old(self).chunks@).contains(l) && l / value_span() == hi ==> l == hi
                    * value_span() + entry.lo;
            let cond_abs = forall|y: int|
                old(self).elems().contains(y) && (y - base) / value_span()
                    == crate::roaring::entry::hi_of(value) ==> y == base + value;
            if cond_local {
                assert forall|y: int|
                    old(self).elems().contains(y) && (y - base) / value_span()
                        == crate::roaring::entry::hi_of(value) implies y == base + value by {
                    assert(chunks_elems(old(self).chunks@).contains(y - base));
                }
                assert(cond_abs);
            }
            if cond_abs {
                assert forall|l: int|
                    chunks_elems(old(self).chunks@).contains(l) && l / value_span()
                        == hi implies l == hi * value_span() + entry.lo by {
                    assert(old(self).elems().contains(base + l));
                    assert((base + l - base) / value_span() == l / value_span());
                }
                assert(cond_local);
            }
        }
        proof {
            assert(entry.hi * value_span() + entry.lo == value as int);
            assert(self.local_elems() == old(self).local_elems().remove(value as int));
            self.lemma_elems();
            assert(self.elems() =~= old(self).elems().remove(old(self).base() + value));
            if self.local_elems().is_empty() {
                assert forall|x: int| !self.elems().contains(x) by {
                    if self.elems().contains(x) {
                        assert(self.local_elems().contains(x - self.base()));
                    }
                }
                assert(self.elems() =~= Set::<int>::empty());
            } else {
                let y = self.local_elems().choose();
                assert(self.local_elems().contains(y));
                lemma_chunks_elems_bound(self.chunks@);
                assert(self.elems().contains(self.base() + y));
                assert(!self.elems().is_empty());
            }
        }
        removed
    }

    /// Returns true if the super-chunk contains the value.
    pub fn contains(&self, value: u32) -> (present: bool)
        requires
            self.wf(),
        ensures
            present == self.elems().contains(self.base() + value),
    {
        proof {
            self.lemma_elems();
            lemma_chunk_split(value);
        }
        let entry = ChunkEntry::from(value);
        proof {
            assert(entry.hi * value_span() + entry.lo == value as int);
        }
        chunks_contains(&self.chunks, entry.hi as u64, entry.lo)
    }

    /// Returns the super-chunk key.
    pub fn key(&self) -> (k: u32)
        ensures
            k == self.key_spec(),
    {
        self.key
    }

    /// Returns true if the super-chunk holds no value.
    pub fn is_empty(&self) -> (empty: bool)
        requires
            self.inner_wf(),
        ensures
            empty == (self.elems() == Set::<int>::empty()),
    {
        proof {
            self.lemma_elems();
            if self.chunks@.len() > 0 {
                self.chunks@[0].lemma_part_wf();
                let parts = crate::chunk::chunks_parts(self.chunks@);
                let y = self.chunks@[0].elems().choose();
                assert(self.chunks@[0].elems().contains(y));
                assert(parts[0].elems.contains(y));
                crate::keyspace::lemma_parts_union_contains(parts, y);
                lemma_chunks_elems_bound(self.chunks@);
                assert(self.elems().contains(self.base() + y));
            } else {
                let parts = crate::chunk::chunks_parts(self.chunks@);
                assert(parts =~= Seq::<Part>::empty());
                assert forall|x: int| !self.elems().contains(x) by {
                    if self.elems().contains(x) {
                        assert(self.local_elems().contains(x - self.base()));
                    }
                }
                assert(self.elems() =~= Set::<int>::empty());
            }
        }
        self.chunks.len() == 0
    }

    /// Computes the super-chunk cardinality.
    ///
    /// The count must fit the machine word that carries it.
    pub fn cardinality(&self) -> (n: usize)
        requires
            self.inner_wf(),
            self.elems().len() <= usize::MAX,
        ensures
            n == self.elems().len(),
    {
        proof {
            self.lemma_elems();
        }
        chunks_cardinality(&self.chunks)
    }

    /// Finds the smallest value in the super-chunk, relative to its slice.
    pub fn min(&self) -> (r: Option<u32>)
        requires
            self.wf(),
        ensures
            match r {
                Some(m) => self.elems().contains(self.base() + m) && forall|x: int|
                    self.elems().contains(x) ==> self.base() + m <= x,
                None => false,
            },
    {
        proof {
            self.lemma_elems();
            lemma_chunks_elems_bound(self.chunks@);
            assert(Header::key_limit() * value_span() == half_span());
        }
        match chunks_min(&self.chunks) {
            Some(m) => {
                proof {
                    assert(self.local_elems().contains(m as int));
                    assert forall|x: int|
                        self.elems().contains(x) implies self.base() + m <= x by {
                        assert(self.local_elems().contains(x - self.base()));
                    }
                }
                Some(m as u32)
            },
            None => {
                proof {
                    let y = self.local_elems().choose();
                    assert(self.local_elems().contains(y));
                    assert(false);
                }
                None
            },
        }
    }

    /// Finds the largest value in the super-chunk, relative to its slice.
    pub fn max(&self) -> (r: Option<u32>)
        requires
            self.wf(),
        ensures
            match r {
                Some(m) => self.elems().contains(self.base() + m) && forall|x: int|
                    self.elems().contains(x) ==> x <= self.base() + m,
                None => false,
            },
    {
        proof {
            self.lemma_elems();
            lemma_chunks_elems_bound(self.chunks@);
            assert(Header::key_limit() * value_span() == half_span());
        }
        match chunks_max(&self.chunks) {
            Some(m) => {
                proof {
                    assert(self.local_elems().contains(m as int));
                    assert forall|x: int|
                        self.elems().contains(x) implies x <= self.base() + m by {
                        assert(self.local_elems().contains(x - self.base()));
                    }
                }
                Some(m as u32)
            },
            None => {
                proof {
                    let y = self.local_elems().choose();
                    assert(self.local_elems().contains(y));
                    assert(false);
                }
                None
            },
        }
    }

    /// Returns how many inner chunks are allocated.
    pub fn chunk_count(&self) -> (n: usize)
        ensures
            n == self.chunk_len(),
    {
        self.chunks.len()
    }

    /// How many inner chunks the super-chunk holds.
    pub closed spec fn chunk_len(&self) -> int {
        self.chunks@.len() as int
    }
}

impl SuperChunk {
    /// Collects the values of the super-chunk, relative to its slice, in
    /// ascending order.
    pub fn to_vec(&self) -> (r: Vec<u64>)
        requires
            self.wf(),
        ensures
            crate::chunk::sorted_strict_u64(r@),
            crate::chunk::elems_of_u64_seq(r@) == self.local_elems(),
            forall|v: int|
                0 <= v < half_span() ==> (self.elems().contains(self.base() + v)
                    == crate::chunk::elems_of_u64_seq(r@).contains(v)),
            forall|k2: int| 0 <= k2 < r@.len() ==> (r@[k2] as int) < half_span(),
            r@.len() == self.elems().len(),
    {
        proof {
            self.lemma_elems();
        }
        let r = crate::chunk::chunks_to_vec(&self.chunks);
        proof {
            lemma_chunks_elems_bound(self.chunks@);
            assert forall|k2: int| 0 <= k2 < r@.len() implies (r@[k2] as int) < half_span() by {
                crate::chunk::lemma_u64_elems_contains(r@, r@[k2] as int);
                assert(crate::chunk::elems_of_u64_seq(r@).contains(r@[k2] as int));
            }
        }
        r
    }
}

} // verus!
