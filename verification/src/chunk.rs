//! Chunks of 2¹⁶ integers, using containers adapted to the density, and the
//! operations shared by every ordered chunk sequence.

use vstd::prelude::*;

use crate::containers::{Container, value_span};
use crate::keyspace::{Part, lemma_parts_insert, lemma_parts_key_contains, lemma_parts_key_unique,
    lemma_parts_prefix_disjoint, lemma_parts_prefix_subset, lemma_parts_remove,
    lemma_parts_take_all, lemma_parts_take_step, lemma_parts_union_contains,
    lemma_parts_union_finite, lemma_parts_update, part_wf, parts_union, parts_wf};

verus! {

/// Number of elements that defines the limit between a sparse and dense
/// chunk.
pub const SPARSE_CHUNK_THRESHOLD: usize = 4096;

/// A chunk header, providing key and cardinality handling.
///
/// The key identifies the chunk's slice of the key space; the cardinality
/// counts the elements of its container, and is stored by each implementor
/// as the count minus one so that a 16-bit field reaches 65536.
pub trait Header: Sized {
    /// The key carried by this header.
    spec fn key_spec(&self) -> int;

    /// The cardinality carried by this header: the true count, at least 1.
    spec fn card_spec(&self) -> int;

    /// Exclusive upper bound on the keys this header kind can carry.
    spec fn key_limit() -> int;

    /// In-memory size of this header kind, in bytes.
    spec fn byte_spec() -> int;

    /// The key bound is positive and small enough that every combined value
    /// fits in 64 bits, and the byte size is a small positive number.
    proof fn lemma_limits()
        ensures
            1 <= Self::key_limit() <= 0x1000000000000,
            1 <= Self::byte_spec() <= 64,
    ;

    /// The carried key and cardinality stay within their fields' ranges.
    proof fn lemma_ranges(&self)
        ensures
            0 <= self.key_spec() < Self::key_limit(),
            1 <= self.card_spec() <= 65536,
    ;

    /// Initializes a header for a new chunk, with a cardinality of one.
    fn from_key(key: u64) -> (h: Self)
        requires
            key < Self::key_limit(),
        ensures
            h.key_spec() == key,
            h.card_spec() == 1,
    ;

    /// Returns the chunk's key, widened to 64 bits.
    fn key_u64(&self) -> (k: u64)
        ensures
            k == self.key_spec(),
    ;

    /// Returns the chunk's cardinality.
    fn cardinality(&self) -> (c: usize)
        ensures
            c == self.card_spec(),
    ;

    /// Returns the header's in-memory size, in bytes.
    fn byte_size(&self) -> (n: usize)
        ensures
            n == Self::byte_spec(),
    ;

    /// Increases by 1 the chunk's cardinality.
    fn increase_cardinality(&mut self)
        requires
            old(self).card_spec() < 65536,
        ensures
            final(self).key_spec() == old(self).key_spec(),
            final(self).card_spec() == old(self).card_spec() + 1,
    ;

    /// Decreases by 1 the chunk's cardinality; it saturates at its floor of
    /// one, which the owner resolves by dropping the emptied chunk.
    fn decrease_cardinality(&mut self)
        ensures
            final(self).key_spec() == old(self).key_spec(),
            final(self).card_spec() == if old(self).card_spec() > 1 {
                old(self).card_spec() - 1
            } else {
                1
            },
    ;
}

/// Chunks of 2¹⁶ integers, using containers adapted to the density.
pub struct Chunk<H> {
    /// Chunk header, holding the chunk's key and cardinality.
    header: H,
    /// The 16 least significant bits.
    container: Container,
}

impl<H: Header> Chunk<H> {
    /// The chunk's key.
    pub closed spec fn key_spec(&self) -> int {
        self.header.key_spec()
    }

    /// The chunk's cardinality.
    pub closed spec fn card_spec(&self) -> int {
        self.header.card_spec()
    }

    /// The first value of the chunk's slice of the key space.
    pub open spec fn base(&self) -> int {
        self.key_spec() * value_span()
    }

    /// The set of integers held, as absolute values.
    pub closed spec fn elems(&self) -> Set<int> {
        Set::new(
            |x: int|
                self.base() <= x < self.base() + value_span() && self.container.elems().contains(
                    x - self.base(),
                ),
        )
    }

    /// The container as held.
    pub closed spec fn container_spec(&self) -> Container {
        self.container
    }

    /// The chunk's ghost view as one keyed part.
    pub open spec fn part(&self) -> Part {
        Part { key: self.key_spec(), elems: self.elems() }
    }

    /// The chunk's invariant: the container is well formed and never empty,
    /// the header's cardinality counts its elements, and the representation
    /// matches the density policy: sparse exactly up to the threshold.
    pub closed spec fn wf(&self) -> bool {
        &&& self.container.wf()
        &&& self.card_spec() == self.container.elems().len()
        &&& self.container.elems().len() >= 1
        &&& (self.container.is_array() <==> self.card_spec() <= SPARSE_CHUNK_THRESHOLD as int)
    }

    /// The element set is the container's, shifted to the chunk's slice.
    proof fn lemma_elems(&self)
        requires
            self.container.wf(),
    ensures
            self.elems().finite(),
            self.elems().len() == self.container.elems().len(),
            forall|v: int|
                0 <= v < value_span() ==> (self.elems().contains(self.base() + v)
                    == self.container.elems().contains(v)),
    {
        self.container.lemma_elems_in_range();
        let f = |e: int| e + self.base();
        assert(self.container.elems().map(f) =~= self.elems());
        vstd::set_lib::lemma_map_size(self.container.elems(), self.elems(), f);
    }

    /// A well-formed chunk is a well-formed part, as populous as its header
    /// says.
    pub proof fn lemma_part_wf(&self)
        requires
            self.wf(),
        ensures
            part_wf(self.part(), value_span()),
            self.part().elems.len() == self.card_spec(),
            self.part().elems.len() >= 1,
            0 <= self.key_spec() < H::key_limit(),
    {
        self.header.lemma_ranges();
        self.lemma_elems();
    }

    /// Initializes a new chunk with the given value.
    pub fn new(header: H, value: u16) -> (c: Self)
        requires
            header.card_spec() == 1,
        ensures
            c.wf(),
            c.key_spec() == header.key_spec(),
            c.card_spec() == 1,
            c.elems() == Set::empty().insert(header.key_spec() * value_span() + value),
    {
        let c = Chunk { header, container: Container::new(value) };
        proof {
            c.lemma_elems();
            assert(c.elems() =~= Set::empty().insert(
                c.header.key_spec() * value_span() + value,
            ));
        }
        c
    }

    /// Adds a value to the chunk.
    ///
    /// If the chunk did not have this value present, true is returned.
    /// If the chunk did have this value present, false is returned.
    pub fn insert(&mut self, value: u16) -> (added: bool)
        requires
            old(self).wf(),
        ensures
            final(self).wf(),
            final(self).key_spec() == old(self).key_spec(),
            final(self).elems() == old(self).elems().insert(old(self).base() + value),
            added == !old(self).elems().contains(old(self).base() + value),
            final(self).card_spec() == old(self).card_spec() + (if added {
                1int
            } else {
                0int
            }),
    {
        proof {
            old(self).lemma_elems();
            old(self).container.lemma_elems_in_range();
        }
        let added = self.container.insert(value);
        if added {
            proof {
                self.container.lemma_elems_in_range();
                vstd::set_lib::lemma_int_range(0, value_span());
                vstd::set_lib::lemma_len_subset(
                    self.container.elems(),
                    vstd::set_lib::set_int_range(0, value_span()),
                );
                assert(self.container.elems().len() == old(self).container.elems().len() + 1);
            }
            self.header.increase_cardinality();
            self.optimize_container();
        }
        proof {
            self.lemma_elems();
            assert(self.elems() =~= old(self).elems().insert(old(self).base() + value));
        }
        added
    }

    /// Removes a value from the chunk.
    ///
    /// Returns whether the value was present or not. Removing the last
    /// element leaves the chunk empty with its counter at its floor; the
    /// owner deletes such a chunk at once.
    pub fn remove(&mut self, value: u16) -> (removed: bool)
        requires
            old(self).wf(),
        ensures
            final(self).key_spec() == old(self).key_spec(),
            final(self).elems() == old(self).elems().remove(old(self).base() + value),
            removed == old(self).elems().contains(old(self).base() + value),
            !removed || old(self).card_spec() > 1 ==> final(self).wf() && final(self).card_spec()
                == old(self).card_spec() - (if removed {
                1int
            } else {
                0int
            }),
    {
        proof {
            old(self).lemma_elems();
            old(self).container.lemma_elems_in_range();
        }
        let removed = self.container.remove(value);
        if removed {
            proof {
                assert(self.container.elems().len() == old(self).container.elems().len() - 1);
            }
            self.header.decrease_cardinality();
            self.optimize_container();
        }
        proof {
            self.lemma_elems();
            assert(self.elems() =~= old(self).elems().remove(old(self).base() + value));
        }
        removed
    }

    /// Returns true if the chunk contains the value.
    pub fn contains(&self, value: u16) -> (present: bool)
        requires
            self.wf(),
        ensures
            present == self.elems().contains(self.base() + value),
    {
        proof {
            self.lemma_elems();
        }
        self.container.contains(value)
    }

    /// Returns the chunk key, widened to 64 bits.
    pub fn key(&self) -> (k: u64)
        ensures
            k == self.key_spec(),
    {
        self.header.key_u64()
    }

    /// Returns the chunk container.
    pub fn container(&self) -> (c: &Container)
        ensures
            *c == self.container_spec(),
            self.wf() ==> c.wf() && (c.is_array() <==> self.card_spec()
                <= SPARSE_CHUNK_THRESHOLD as int),
    {
        &self.container
    }

    /// Returns the chunk cardinality.
    pub fn cardinality(&self) -> (c: usize)
        ensures
            c == self.card_spec(),
    {
        self.header.cardinality()
    }

    /// Finds the smallest value in the chunk, relative to its slice.
    pub fn min(&self) -> (r: Option<u16>)
        requires
            self.wf(),
        ensures
            match r {
                Some(m) => self.elems().contains(self.base() + m) && forall|x: int|
                    self.elems().contains(x) ==> self.base() + m <= x,
                None => false,
            },
    {
        proof {
            self.lemma_elems();
        }
        let r = self.container.min();
        match r {
            Some(m) => {
                proof {
                    assert forall|x: int| self.elems().contains(x) implies self.base() + m
                        <= x by {
                        assert(self.container.elems().contains(x - self.base()));
                    }
                }
                Some(m)
            },
            None => {
                proof {
                    assert(self.container.elems() == Set::<int>::empty());
                    assert(false);
                }
                None
            },
        }
    }

    /// Finds the largest value in the chunk, relative to its slice.
    pub fn max(&self) -> (r: Option<u16>)
        requires
            self.wf(),
        ensures
            match r {
                Some(m) => self.elems().contains(self.base() + m) && forall|x: int|
                    self.elems().contains(x) ==> x <= self.base() + m,
                None => false,
            },
    {
        proof {
            self.lemma_elems();
        }
        let r = self.container.max();
        match r {
            Some(m) => {
                proof {
                    assert forall|x: int| self.elems().contains(x) implies x <= self.base()
                        + m by {
                        assert(self.container.elems().contains(x - self.base()));
                    }
                }
                Some(m)
            },
            None => {
                proof {
                    assert(self.container.elems() == Set::<int>::empty());
                    assert(false);
                }
                None
            },
        }
    }

    /// Collects the values of the chunk, relative to its slice, in ascending
    /// order.
    pub fn to_vec(&self) -> (r: Vec<u16>)
        requires
            self.wf(),
        ensures
            crate::containers::sorted_strict(r@),
            crate::containers::elems_of_seq(r@) == self.container_spec().elems(),
            forall|v: int|
                0 <= v < value_span() ==> (self.elems().contains(self.base() + v)
                    == crate::containers::elems_of_seq(r@).contains(v)),
    {
        proof {
            self.lemma_elems();
        }
        self.container.to_vec()
    }

    /// Returns the approximate in-memory size of the chunk, in bytes.
    pub fn mem_size(&self) -> (r: usize)
        requires
            self.wf(),
        ensures
            r == self.mem_spec(),
    {
        proof {
            H::lemma_limits();
            self.container.lemma_mem_size_spec();
        }
        self.header.byte_size() + self.container.mem_size()
    }

    /// The chunk's in-memory size: its header's plus its container's.
    pub closed spec fn mem_spec(&self) -> int {
        H::byte_spec() + self.container.mem_size_spec()
    }

    /// Ensures that the container is adapted to the chunk's cardinality.
    fn optimize_container(&mut self)
        requires
            old(self).container.wf(),
            old(self).card_spec() == old(self).container.elems().len() || (old(
                self,
            ).container.elems().len() == 0 && old(self).card_spec() == 1),
        ensures
            final(self).header == old(self).header,
            final(self).container.wf(),
            final(self).container.elems() == old(self).container.elems(),
            final(self).container.is_array() <==> final(self).card_spec()
                <= SPARSE_CHUNK_THRESHOLD as int,
    {
        let card = self.header.cardinality();
        let want_array = card <= SPARSE_CHUNK_THRESHOLD;
        if self.container.holds_array() != want_array {
            self.container = self.container.converted();
        }
    }
}

/// The density policy, as an invariant: after any complete operation a
/// chunk is array-backed exactly when its cardinality is at or below the
/// threshold. Both transition points coincide at the threshold, so there is
/// no hysteresis band: a workload oscillating at the boundary rebuilds its
/// container each time.
pub proof fn lemma_density_policy<H: Header>(c: Chunk<H>)
    requires
        c.wf(),
    ensures
        c.container_spec().is_array() <==> c.card_spec() <= SPARSE_CHUNK_THRESHOLD as int,
{
}

/// The ghost views of the chunks of a sequence, as keyed parts.
pub open spec fn chunks_parts<H: Header>(s: Seq<Chunk<H>>) -> Seq<Part> {
    s.map_values(|c: Chunk<H>| c.part())
}

/// The set of integers held by a chunk sequence.
pub open spec fn chunks_elems<H: Header>(s: Seq<Chunk<H>>) -> Set<int> {
    parts_union(chunks_parts(s))
}

/// Every chunk is well formed and the keys strictly increase.
pub open spec fn chunks_wf<H: Header>(s: Seq<Chunk<H>>) -> bool {
    &&& forall|i: int| 0 <= i < s.len() ==> (#[trigger] s[i]).wf()
    &&& forall|i: int, j: int| 0 <= i < j < s.len() ==> s[i].key_spec() < s[j].key_spec()
}

/// Whether some chunk of the sequence carries the key.
pub open spec fn chunks_has_key<H: Header>(s: Seq<Chunk<H>>, key: int) -> bool {
    exists|i: int| 0 <= i < s.len() && (#[trigger] s[i]).key_spec() == key
}

/// Well-formed chunks are well-formed parts.
pub proof fn lemma_chunks_parts_wf<H: Header>(s: Seq<Chunk<H>>)
    requires
        chunks_wf(s),
    ensures
        parts_wf(chunks_parts(s), value_span()),
{
    assert forall|i: int| 0 <= i < s.len() implies part_wf(
        #[trigger] chunks_parts(s)[i],
        value_span(),
    ) by {
        s[i].lemma_part_wf();
    }
}

/// The element set of a well-formed chunk sequence is finite.
pub proof fn lemma_chunks_elems_finite<H: Header>(s: Seq<Chunk<H>>)
    requires
        chunks_wf(s),
    ensures
        chunks_elems(s).finite(),
{
    lemma_chunks_parts_wf(s);
    lemma_parts_union_finite(chunks_parts(s), value_span());
}

/// The prefix and suffix of a combined value, under the container span.
pub proof fn lemma_combined_parts(key: int, value: int)
    requires
        0 <= key,
        0 <= value < value_span(),
    ensures
        (key * value_span() + value) / value_span() == key,
        (key * value_span() + value) % value_span() == value,
        key * value_span() + value >= 0,
{
    vstd::arithmetic::div_mod::lemma_fundamental_div_mod_converse(
        key * value_span() + value,
        value_span(),
        key,
        value,
    );
    vstd::arithmetic::mul::lemma_mul_nonnegative(key, value_span());
}

/// Membership of a combined value goes through the chunk carrying its key.
pub proof fn lemma_chunks_elems_at_key<H: Header>(s: Seq<Chunk<H>>, key: int, value: int, i: int)
    requires
        chunks_wf(s),
        0 <= key,
        0 <= value < value_span(),
        0 <= i < s.len(),
        s[i].key_spec() == key,
    ensures
        chunks_elems(s).contains(key * value_span() + value) == s[i].elems().contains(
            key * value_span() + value,
        ),
{
    let x = key * value_span() + value;
    let parts = chunks_parts(s);
    lemma_chunks_parts_wf(s);
    lemma_combined_parts(key, value);
    lemma_parts_key_contains(parts, value_span(), x);
    if chunks_elems(s).contains(x) {
        let j = choose|j: int|
            0 <= j < parts.len() && #[trigger] parts[j].key == x / value_span()
                && parts[j].elems.contains(x);
        lemma_parts_key_unique(parts, value_span(), i, j);
    }
    if s[i].elems().contains(x) {
        assert(parts[i].key == x / value_span() && parts[i].elems.contains(x));
    }
}

/// A combined value whose key no chunk carries is absent.
pub proof fn lemma_chunks_elems_no_key<H: Header>(s: Seq<Chunk<H>>, key: int, value: int)
    requires
        chunks_wf(s),
        0 <= key,
        0 <= value < value_span(),
        !chunks_has_key(s, key),
    ensures
        !chunks_elems(s).contains(key * value_span() + value),
{
    let x = key * value_span() + value;
    let parts = chunks_parts(s);
    lemma_chunks_parts_wf(s);
    lemma_combined_parts(key, value);
    lemma_parts_key_contains(parts, value_span(), x);
    if chunks_elems(s).contains(x) {
        let j = choose|j: int|
            0 <= j < parts.len() && #[trigger] parts[j].key == x / value_span()
                && parts[j].elems.contains(x);
        assert(s[j].key_spec() == key);
    }
}

/// Locates the chunk carrying `key` in a sequence ordered by key: its index,
/// or the index at which it would be inserted.
pub fn find_chunk<H: Header>(chunks: &Vec<Chunk<H>>, key: u64) -> (r: Result<usize, usize>)
    requires
        chunks_wf(chunks@),
    ensures
        match r {
            Ok(i) => i < chunks@.len() && chunks@[i as int].key_spec() == key,
            Err(i) => i <= chunks@.len() && (forall|j: int|
                0 <= j < i ==> chunks@[j].key_spec() < key) && (forall|j: int|
                i <= j < chunks@.len() ==> key < chunks@[j].key_spec()),
        },
{
    let mut lo: usize = 0;
    let mut hi: usize = chunks.len();
    while lo < hi
        invariant
            lo <= hi <= chunks@.len(),
            chunks_wf(chunks@),
            forall|j: int| 0 <= j < lo ==> chunks@[j].key_spec() < key,
            forall|j: int| hi <= j < chunks@.len() ==> key < chunks@[j].key_spec(),
        decreases hi - lo,
    {
        let mid: usize = lo + (hi - lo) / 2;
        let k = chunks[mid].key();
        if k < key {
            lo = mid + 1;
        } else if key < k {
            hi = mid;
        } else {
            return Ok(mid);
        }
    }
    Err(lo)
}

/// Adds a combined value to the chunk sequence, creating the chunk for its
/// key if there is none.
///
/// If the sequence did not have this value present, true is returned.
pub fn chunks_insert<H: Header>(chunks: &mut Vec<Chunk<H>>, key: u64, value: u16) -> (added: bool)
    requires
        chunks_wf(old(chunks)@),
        key < H::key_limit(),
    ensures
        chunks_wf(final(chunks)@),
        chunks_elems(final(chunks)@) == chunks_elems(old(chunks)@).insert(
            key * value_span() + value,
        ),
        added == !chunks_elems(old(chunks)@).contains(key * value_span() + value),
        final(chunks)@.len() == old(chunks)@.len() + (if chunks_has_key(
            old(chunks)@,
            key as int,
        ) {
            0int
        } else {
            1int
        }),
{
    let ghost s0 = chunks@;
    let ghost parts0 = chunks_parts(s0);
    let ghost x: int = key * value_span() + value;
    proof {
        lemma_chunks_parts_wf(s0);
        lemma_combined_parts(key as int, value as int);
    }
    match find_chunk(chunks, key) {
        Ok(i) => {
            proof {
                lemma_chunks_elems_at_key(s0, key as int, value as int, i as int);
            }
            let c = &mut chunks[i];
            let ghost c0 = *c;
            let added = c.insert(value);
            proof {
                let c1 = chunks@[i as int];
                assert(chunks@ =~= s0.update(i as int, c1));
                assert(chunks_parts(chunks@) =~= parts0.update(i as int, c1.part()));
                c1.lemma_part_wf();
                lemma_parts_update(parts0, value_span(), i as int, c1.part());
                assert(c1.elems() == c0.elems().insert(x));
                assert forall|y: int|
                    chunks_elems(chunks@).contains(y) == chunks_elems(s0).insert(x).contains(
                        y,
                    ) by {
                    lemma_parts_union_contains(parts0, y);
                    if c0.elems().contains(y) {
                        assert(parts0[i as int].elems.contains(y));
                    }
                }
                assert(chunks_elems(chunks@) =~= chunks_elems(s0).insert(x));
                assert forall|a: int, b: int|
                    0 <= a < b < chunks@.len() implies chunks@[a].key_spec()
                    < chunks@[b].key_spec() by {
                    assert(s0[a].key_spec() < s0[b].key_spec());
                }
                assert(chunks_has_key(s0, key as int));
            }
            added
        },
        Err(i) => {
            proof {
                if chunks_has_key(s0, key as int) {
                    let j = choose|j: int|
                        0 <= j < s0.len() && (#[trigger] s0[j]).key_spec() == key;
                    assert(false);
                }
                lemma_chunks_elems_no_key(s0, key as int, value as int);
            }
            let header = H::from_key(key);
            let chunk = Chunk::new(header, value);
            chunks.insert(i, chunk);
            proof {
                let p = Part { key: key as int, elems: Set::empty().insert(x) };
                assert(chunk.part() == p);
                chunk.lemma_part_wf();
                assert(chunks@ =~= s0.insert(i as int, chunk));
                assert(chunks_parts(chunks@) =~= parts0.insert(i as int, p));
                lemma_parts_insert(parts0, value_span(), i as int, p);
                assert(chunks_elems(chunks@) =~= chunks_elems(s0).insert(x));
                let t = chunks@;
                assert forall|a: int, b: int|
                    0 <= a < b < t.len() implies t[a].key_spec() < t[b].key_spec() by {
                    let pt = chunks_parts(t);
                    assert(parts_wf(pt, value_span()));
                    assert(pt[a].key < pt[b].key);
                }
                assert forall|a: int| 0 <= a < t.len() implies (#[trigger] t[a]).wf() by {
                    if a < i {
                        assert(t[a] == s0[a]);
                    } else if a > i {
                        assert(t[a] == s0[a - 1]);
                    }
                }
            }
            true
        },
    }
}

/// Removes a combined value from the chunk sequence, dropping the chunk for
/// its key if this empties it.
///
/// Returns whether the value was present or not.
#[verifier::rlimit(30)]
pub fn chunks_remove<H: Header>(chunks: &mut Vec<Chunk<H>>, key: u64, value: u16) -> (removed:
    bool)
    requires
        chunks_wf(old(chunks)@),
    ensures
        chunks_wf(final(chunks)@),
        chunks_elems(final(chunks)@) == chunks_elems(old(chunks)@).remove(
            key * value_span() + value,
        ),
        removed == chunks_elems(old(chunks)@).contains(key * value_span() + value),
        final(chunks)@.len() == old(chunks)@.len() - (if removed && (forall|y: int|
            chunks_elems(old(chunks)@).contains(y) && y / value_span() == key ==> y == key
                * value_span() + value) {
            1int
        } else {
            0int
        }),
{
    let ghost s0 = chunks@;
    let ghost parts0 = chunks_parts(s0);
    let ghost x: int = key * value_span() + value;
    proof {
        lemma_chunks_parts_wf(s0);
        lemma_combined_parts(key as int, value as int);
    }
    match find_chunk(chunks, key) {
        Err(_i) => {
            proof {
                if chunks_has_key(s0, key as int) {
                    let j = choose|j: int|
                        0 <= j < s0.len() && (#[trigger] s0[j]).key_spec() == key;
                    assert(false);
                }
                lemma_chunks_elems_no_key(s0, key as int, value as int);
                assert(chunks_elems(s0).remove(x) =~= chunks_elems(s0));
            }
            false
        },
        Ok(i) => {
            proof {
                lemma_chunks_elems_at_key(s0, key as int, value as int, i as int);
                s0[i as int].lemma_part_wf();
            }
            let old_card = chunks[i].cardinality();
            let c = &mut chunks[i];
            let ghost c0 = *c;
            let removed = c.remove(value);
            let ghost c1 = *c;
            let ghost s1 = s0.update(i as int, c1);
            let ghost parts1 = parts0.update(i as int, c1.part());
            proof {
                assert(chunks@ =~= s1);
                assert(chunks_parts(s1) =~= parts1);
                assert(c1.elems() == c0.elems().remove(x));
                assert(c1.elems().finite());
                assert(part_wf(c1.part(), value_span()));
                lemma_parts_update(parts0, value_span(), i as int, c1.part());
                // the slice of `key` within the whole set is this chunk
                assert forall|y: int|
                    chunks_elems(s0).contains(y) && y / value_span() == key implies c0
                        .elems().contains(y) by {
                    lemma_parts_key_contains(parts0, value_span(), y);
                    let j = choose|j: int|
                        0 <= j < parts0.len() && #[trigger] parts0[j].key == y / value_span()
                            && parts0[j].elems.contains(y);
                    lemma_parts_key_unique(parts0, value_span(), i as int, j);
                }
                assert forall|y: int|
                    c0.elems().contains(y) implies chunks_elems(s0).contains(y) && y
                        / value_span() == key by {
                    lemma_parts_union_contains(parts0, y);
                    assert(parts0[i as int].elems.contains(y));
                    vstd::arithmetic::div_mod::lemma_fundamental_div_mod_converse(
                        y,
                        value_span(),
                        key as int,
                        y - key * value_span(),
                    );
                }
            }
            if removed && old_card == 1 {
                proof {
                    // the chunk held only `x`: its element set is a singleton
                    assert(c0.elems().len() == 1);
                    assert forall|y: int| c0.elems().contains(y) implies y == x by {
                        if y != x {
                            assert(c0.elems().remove(y).contains(x));
                            assert(c0.elems().remove(y).len() == 0);
                        }
                    }
                }
                let _dropped = chunks.remove(i);
                proof {
                    assert(chunks@ =~= s1.remove(i as int));
                    assert(chunks_parts(chunks@) =~= parts1.remove(i as int));
                    lemma_parts_remove(parts1, value_span(), i as int);
                    assert(c1.elems() =~= Set::<int>::empty());
                    assert forall|y: int|
                        chunks_elems(chunks@).contains(y) == chunks_elems(s0).remove(x).contains(
                            y,
                        ) by {
                        lemma_parts_union_contains(parts0, y);
                        if c0.elems().contains(y) {
                            assert(parts0[i as int].elems.contains(y));
                        }
                    }
                    assert(chunks_elems(chunks@) =~= chunks_elems(s0).remove(x));
                    let t = chunks@;
                    assert forall|a: int| 0 <= a < t.len() implies (#[trigger] t[a]).wf() by {
                        if a < i {
                            assert(t[a] == s0[a]);
                        } else {
                            assert(t[a] == s0[a + 1]);
                        }
                    }
                    assert forall|a: int, b: int|
                        0 <= a < b < t.len() implies t[a].key_spec() < t[b].key_spec() by {
                        let pt = chunks_parts(t);
                        assert(parts_wf(pt, value_span()));
                        assert(pt[a].key < pt[b].key);
                    }
                }
            } else {
                proof {
                    assert(c1.wf());
                    assert forall|y: int|
                        chunks_elems(chunks@).contains(y) == chunks_elems(s0).remove(x).contains(
                            y,
                        ) by {
                        lemma_parts_union_contains(parts0, y);
                        if c0.elems().contains(y) {
                            assert(parts0[i as int].elems.contains(y));
                        }
                    }
                    assert(chunks_elems(chunks@) =~= chunks_elems(s0).remove(x));
                    let t = chunks@;
                    assert forall|a: int| 0 <= a < t.len() implies (#[trigger] t[a]).wf() by {
                        if a != i {
                            assert(t[a] == s0[a]);
                        }
                    }
                    assert forall|a: int, b: int|
                        0 <= a < b < t.len() implies t[a].key_spec() < t[b].key_spec() by {
                        assert(s0[a].key_spec() < s0[b].key_spec());
                    }
                    if removed {
                        // more than one element in the slice: the count stays
                        assert(c0.elems().len() >= 2);
                        assert(c0.elems().remove(x).len() >= 1);
                        assert(!(c0.elems().remove(x) =~= Set::<int>::empty()));
                        let y = c0.elems().remove(x).choose();
                        assert(c0.elems().remove(x).contains(y));
                        assert(chunks_elems(s0).contains(y) && y / value_span() == key && y != x);
                    }
                }
            }
            removed
        },
    }
}

/// Returns true if the chunk sequence contains the combined value.
pub fn chunks_contains<H: Header>(chunks: &Vec<Chunk<H>>, key: u64, value: u16) -> (present: bool)
    requires
        chunks_wf(chunks@),
    ensures
        present == chunks_elems(chunks@).contains(key * value_span() + value),
{
    proof {
        lemma_combined_parts(key as int, value as int);
    }
    match find_chunk(chunks, key) {
        Ok(i) => {
            proof {
                lemma_chunks_elems_at_key(chunks@, key as int, value as int, i as int);
            }
            chunks[i].contains(value)
        },
        Err(_i) => {
            proof {
                if chunks_has_key(chunks@, key as int) {
                    let j = choose|j: int|
                        0 <= j < chunks@.len() && (#[trigger] chunks@[j]).key_spec() == key;
                    assert(false);
                }
                lemma_chunks_elems_no_key(chunks@, key as int, value as int);
            }
            false
        },
    }
}

/// Computes the number of elements held by the chunk sequence.
pub fn chunks_cardinality<H: Header>(chunks: &Vec<Chunk<H>>) -> (r: usize)
    requires
        chunks_wf(chunks@),
        chunks_elems(chunks@).len() <= usize::MAX,
    ensures
        r == chunks_elems(chunks@).len(),
{
    let ghost parts = chunks_parts(chunks@);
    proof {
        lemma_chunks_parts_wf(chunks@);
        lemma_parts_union_finite(parts, value_span());
    }
    let mut acc: usize = 0;
    let mut i: usize = 0;
    while i < chunks.len()
        invariant
            chunks_wf(chunks@),
            chunks_elems(chunks@).len() <= usize::MAX,
            parts == chunks_parts(chunks@),
            i <= chunks@.len(),
            acc == parts_union(parts.take(i as int)).len(),
        decreases chunks@.len() - i,
    {
        let card = chunks[i].cardinality();
        proof {
            lemma_chunks_parts_wf(chunks@);
            lemma_parts_union_finite(parts, value_span());
            crate::keyspace::lemma_parts_take_wf(parts, value_span(), i as int);
            lemma_parts_union_finite(parts.take(i as int), value_span());
            lemma_parts_prefix_disjoint(parts, value_span(), i as int);
            lemma_parts_take_step(parts, i as int);
            chunks@[i as int].lemma_part_wf();
            vstd::set_lib::lemma_set_disjoint_lens(
                parts_union(parts.take(i as int)),
                parts[i as int].elems,
            );
            assert(parts_union(parts.take(i as int)) + parts[i as int].elems == parts_union(
                parts.take(i as int),
            ).union(parts[i as int].elems));
            lemma_parts_prefix_subset(parts, i + 1);
            vstd::set_lib::lemma_len_subset(
                parts_union(parts.take(i + 1)),
                parts_union(parts),
            );
            lemma_parts_take_all(parts);
        }
        acc = acc + card;
        i = i + 1;
    }
    proof {
        lemma_parts_take_all(parts);
    }
    acc
}

/// Finds the smallest element of the chunk sequence.
pub fn chunks_min<H: Header>(chunks: &Vec<Chunk<H>>) -> (r: Option<u64>)
    requires
        chunks_wf(chunks@),
    ensures
        match r {
            Some(m) => chunks_elems(chunks@).contains(m as int) && forall|x: int|
                chunks_elems(chunks@).contains(x) ==> m as int <= x,
            None => chunks@.len() == 0 && chunks_elems(chunks@) == Set::<int>::empty(),
        },
{
    let ghost parts = chunks_parts(chunks@);
    let mut best: Option<u64> = None;
    let mut i: usize = 0;
    while i < chunks.len()
        invariant
            chunks_wf(chunks@),
            parts == chunks_parts(chunks@),
            i <= chunks@.len(),
            best is None ==> i == 0,
            match best {
                Some(b) => parts_union(parts.take(i as int)).contains(b as int) && forall|x: int|
                    parts_union(parts.take(i as int)).contains(x) ==> b as int <= x,
                None => parts_union(parts.take(i as int)) == Set::<int>::empty(),
            },
        decreases chunks@.len() - i,
    {
        let c = &chunks[i];
        proof {
            c.lemma_part_wf();
            H::lemma_limits();
        }
        match c.min() {
            Some(m) => {
                let k = c.key();
                proof {
                    vstd::arithmetic::mul::lemma_mul_inequality(
                        k as int,
                        0xFFFFFFFFFFFF,
                        value_span(),
                    );
                }
                let candidate: u64 = k * 65536 + (m as u64);
                let new_best = match best {
                    None => candidate,
                    Some(b) => if candidate < b {
                        candidate
                    } else {
                        b
                    },
                };
                proof {
                    lemma_parts_take_step(parts, i as int);
                    assert(candidate as int == c.base() + m);
                    assert(c.elems().contains(candidate as int));
                    assert(parts[i as int].elems.contains(candidate as int));
                    let u = parts_union(parts.take(i as int + 1));
                    assert forall|x: int| u.contains(x) implies new_best as int <= x by {
                        if parts_union(parts.take(i as int)).contains(x) {
                        } else {
                            assert(parts[i as int].elems.contains(x));
                            assert(c.elems().contains(x));
                        }
                    }
                }
                best = Some(new_best);
            },
            None => {
                proof {
                    assert(false);
                }
            },
        }
        i = i + 1;
    }
    proof {
        lemma_parts_take_all(parts);
        if best is None {
            assert(parts_union(parts.take(chunks@.len() as int)) == Set::<int>::empty());
        }
    }
    best
}

/// Finds the largest element of the chunk sequence.
pub fn chunks_max<H: Header>(chunks: &Vec<Chunk<H>>) -> (r: Option<u64>)
    requires
        chunks_wf(chunks@),
    ensures
        match r {
            Some(m) => chunks_elems(chunks@).contains(m as int) && forall|x: int|
                chunks_elems(chunks@).contains(x) ==> x <= m as int,
            None => chunks@.len() == 0 && chunks_elems(chunks@) == Set::<int>::empty(),
        },
{
    let ghost parts = chunks_parts(chunks@);
    let mut best: Option<u64> = None;
    let mut i: usize = 0;
    while i < chunks.len()
        invariant
            chunks_wf(chunks@),
            parts == chunks_parts(chunks@),
            i <= chunks@.len(),
            best is None ==> i == 0,
            match best {
                Some(b) => parts_union(parts.take(i as int)).contains(b as int) && forall|x: int|
                    parts_union(parts.take(i as int)).contains(x) ==> x <= b as int,
                None => parts_union(parts.take(i as int)) == Set::<int>::empty(),
            },
        decreases chunks@.len() - i,
    {
        let c = &chunks[i];
        proof {
            c.lemma_part_wf();
            H::lemma_limits();
        }
        match c.max() {
            Some(m) => {
                let k = c.key();
                proof {
                    vstd::arithmetic::mul::lemma_mul_inequality(
                        k as int,
                        0xFFFFFFFFFFFF,
                        value_span(),
                    );
                }
                let candidate: u64 = k * 65536 + (m as u64);
                let new_best = match best {
                    None => candidate,
                    Some(b) => if candidate > b {
                        candidate
                    } else {
                        b
                    },
                };
                proof {
                    lemma_parts_take_step(parts, i as int);
                    assert(candidate as int == c.base() + m);
                    assert(c.elems().contains(candidate as int));
                    assert(parts[i as int].elems.contains(candidate as int));
                    let u = parts_union(parts.take(i as int + 1));
                    assert forall|x: int| u.contains(x) implies x <= new_best as int by {
                        if parts_union(parts.take(i as int)).contains(x) {
                        } else {
                            assert(parts[i as int].elems.contains(x));
                            assert(c.elems().contains(x));
                        }
                    }
                }
                best = Some(new_best);
            },
            None => {
                proof {
                    assert(false);
                }
            },
        }
        i = i + 1;
    }
    proof {
        lemma_parts_take_all(parts);
        if best is None {
            assert(parts_union(parts.take(chunks@.len() as int)) == Set::<int>::empty());
        }
    }
    best
}

/// A sequence of 64-bit values in strictly increasing order.
pub open spec fn sorted_strict_u64(s: Seq<u64>) -> bool {
    forall|i: int, j: int| 0 <= i < j < s.len() ==> s[i] < s[j]
}

/// The set of integers held by a sequence of 64-bit values.
pub open spec fn elems_of_u64_seq(s: Seq<u64>) -> Set<int> {
    s.map_values(|v: u64| v as int).to_set()
}

/// Membership in `elems_of_u64_seq` is membership in the sequence.
pub proof fn lemma_u64_elems_contains(s: Seq<u64>, x: int)
    ensures
        elems_of_u64_seq(s).contains(x) <==> exists|i: int| 0 <= i < s.len() && s[i] == x,
{
    let m = s.map_values(|v: u64| v as int);
    assert(elems_of_u64_seq(s).contains(x) <==> m.contains(x));
    if exists|i: int| 0 <= i < s.len() && s[i] == x {
        let i = choose|i: int| 0 <= i < s.len() && s[i] == x;
        assert(m[i] == x);
        assert(m.contains(x));
    }
    if m.contains(x) {
        let i = choose|i: int| 0 <= i < m.len() && m[i] == x;
        assert(s[i] == x);
    }
}

/// A strictly sorted sequence of 64-bit values has as many entries as its
/// set holds elements.
pub proof fn lemma_u64_sorted_len(s: Seq<u64>)
    requires
        sorted_strict_u64(s),
    ensures
        elems_of_u64_seq(s).finite(),
        elems_of_u64_seq(s).len() == s.len(),
{
    broadcast use vstd::seq_lib::seq_to_set_is_finite;

    let m = s.map_values(|v: u64| v as int);
    assert forall|i: int, j: int| 0 <= i < m.len() && 0 <= j < m.len() && i != j implies m[i]
        != m[j] by {
        if i < j {
            assert(s[i] < s[j]);
        } else {
            assert(s[j] < s[i]);
        }
    }
    assert(m.no_duplicates());
    m.unique_seq_to_set();
}

/// Collects the elements of the chunk sequence, in ascending order.
pub fn chunks_to_vec<H: Header>(chunks: &Vec<Chunk<H>>) -> (r: Vec<u64>)
    requires
        chunks_wf(chunks@),
    ensures
        sorted_strict_u64(r@),
        elems_of_u64_seq(r@) == chunks_elems(chunks@),
        r@.len() == chunks_elems(chunks@).len(),
{
    let ghost parts = chunks_parts(chunks@);
    let mut r: Vec<u64> = Vec::new();
    let mut i: usize = 0;
    while i < chunks.len()
        invariant
            chunks_wf(chunks@),
            parts == chunks_parts(chunks@),
            i <= chunks@.len(),
            sorted_strict_u64(r@),
            elems_of_u64_seq(r@) == parts_union(parts.take(i as int)),
            forall|k2: int|
                0 <= k2 < r@.len() && i < chunks@.len() ==> (r@[k2] as int) < chunks@[
                    i as int
                ].base(),
        decreases chunks@.len() - i,
    {
        let c = &chunks[i];
        let k = c.key();
        proof {
            c.lemma_part_wf();
            H::lemma_limits();
            vstd::arithmetic::mul::lemma_mul_inequality(k as int, 0xFFFFFFFFFFFF, value_span());
        }
        let locals = c.to_vec();
        let ghost base = c.base();
        let ghost r0 = r@;
        let ghost ci = chunks@[i as int];
        let mut j: usize = 0;
        while j < locals.len()
            invariant
                chunks_wf(chunks@),
                parts == chunks_parts(chunks@),
                i < chunks@.len(),
                ci == chunks@[i as int],
                k == ci.key_spec(),
                base == ci.base(),
                0 <= base,
                k * value_span() + value_span() <= 0x10000000000000000,
                crate::containers::sorted_strict(locals@),
                forall|v: int|
                    0 <= v < value_span() ==> (ci.elems().contains(base + v)
                        == crate::containers::elems_of_seq(locals@).contains(v)),
                j <= locals@.len(),
                r@.len() == r0.len() + j,
                forall|k2: int| 0 <= k2 < r0.len() ==> r@[k2] == r0[k2],
                forall|l: int| 0 <= l < j ==> (r@[r0.len() + l] as int) == base + locals@[l],
                forall|k2: int| 0 <= k2 < r0.len() ==> (r0[k2] as int) < base,
                sorted_strict_u64(r@),
            decreases locals@.len() - j,
        {
            let v = locals[j];
            let value: u64 = k * 65536 + (v as u64);
            let ghost rp = r@;
            r.push(value);
            proof {
                assert forall|a: int, b: int| 0 <= a < b < r@.len() implies r@[a] < r@[b] by {
                    if b < r@.len() - 1 {
                        assert(rp[a] < rp[b]);
                    } else {
                        if a < r0.len() {
                            assert(r@[a] == rp[a] && rp[a] == r0[a]);
                            assert((r@[a] as int) < base);
                        } else {
                            assert((r@[a] as int) == base + locals@[a - r0.len()]);
                            assert(locals@[a - r0.len()] < locals@[j as int]);
                        }
                    }
                }
            }
            j = j + 1;
        }
        proof {
            lemma_parts_take_step(parts, i as int);
            // the pushed values are exactly this chunk's elements
            assert forall|y: int|
                elems_of_u64_seq(r@).contains(y) == parts_union(parts.take(i as int + 1)).contains(
                    y,
                ) by {
                lemma_u64_elems_contains(r@, y);
                lemma_u64_elems_contains(r0, y);
                crate::containers::lemma_elems_of_seq_contains(locals@, y - base);
                if exists|idx: int| 0 <= idx < r@.len() && r@[idx] == y {
                    let idx = choose|idx: int| 0 <= idx < r@.len() && r@[idx] == y;
                    if idx < r0.len() {
                        assert(r0[idx] == y);
                        assert(elems_of_u64_seq(r0).contains(y));
                    } else {
                        let l = idx - r0.len();
                        assert(y == base + locals@[l]);
                        assert(crate::containers::elems_of_seq(locals@).contains(y - base));
                        assert(ci.elems().contains(y));
                        assert(parts[i as int].elems.contains(y));
                    }
                }
                if parts_union(parts.take(i as int)).contains(y) {
                    let idx = choose|idx: int| 0 <= idx < r0.len() && r0[idx] == y;
                    assert(r@[idx] == y);
                }
                if parts[i as int].elems.contains(y) {
                    assert(ci.elems().contains(y));
                    assert(part_wf(parts[i as int], value_span()));
                    assert(0 <= y - base < value_span());
                    assert(crate::containers::elems_of_seq(locals@).contains(y - base));
                    let l = choose|l: int| 0 <= l < locals@.len() && locals@[l] == y - base;
                    assert((r@[r0.len() + l] as int) == y);
                }
            }
            assert(elems_of_u64_seq(r@) =~= parts_union(parts.take(i as int + 1)));
            // every element so far stays below the next chunk's slice
            if i + 1 < chunks@.len() {
                let nb = chunks@[i as int + 1].base();
                assert((k + 1) * value_span() <= chunks@[i as int + 1].key_spec()
                    * value_span()) by {
                    chunks@[i as int + 1].lemma_part_wf();
                    vstd::arithmetic::mul::lemma_mul_inequality(
                        k as int + 1,
                        chunks@[i as int + 1].key_spec(),
                        value_span(),
                    );
                }
                assert((k + 1) * value_span() == k * value_span() + value_span()) by {
                    vstd::arithmetic::mul::lemma_mul_is_distributive_add_other_way(
                        value_span(),
                        k as int,
                        1,
                    );
                }
                assert forall|k2: int| 0 <= k2 < r@.len() implies (r@[k2] as int) < nb by {
                    if k2 < r0.len() {
                        assert(r@[k2] == r0[k2]);
                        assert((r@[k2] as int) < base);
                    } else {
                        assert((r@[k2] as int) == base + locals@[k2 - r0.len()]);
                    }
                }
            }
        }
        i = i + 1;
    }
    proof {
        lemma_parts_take_all(parts);
        lemma_u64_sorted_len(r@);
    }
    r
}

/// Every element of a well-formed chunk sequence lies below the key bound's
/// slice, and there are at most as many elements as that space holds.
pub proof fn lemma_chunks_elems_bound<H: Header>(s: Seq<Chunk<H>>)
    requires
        chunks_wf(s),
    ensures
        chunks_elems(s).finite(),
        forall|x: int| chunks_elems(s).contains(x) ==> 0 <= x < H::key_limit() * value_span(),
        chunks_elems(s).len() <= H::key_limit() * value_span(),
{
    lemma_chunks_parts_wf(s);
    lemma_parts_union_finite(chunks_parts(s), value_span());
    let parts = chunks_parts(s);
    let bound = H::key_limit() * value_span();
    assert forall|x: int| chunks_elems(s).contains(x) implies 0 <= x < bound by {
        lemma_parts_union_contains(parts, x);
        let i = choose|i: int| 0 <= i < parts.len() && #[trigger] parts[i].elems.contains(x);
        s[i].lemma_part_wf();
        vstd::arithmetic::mul::lemma_mul_inequality(parts[i].key + 1, H::key_limit(), value_span());
        vstd::arithmetic::mul::lemma_mul_is_distributive_add_other_way(
            value_span(),
            parts[i].key,
            1,
        );
    }
    H::lemma_limits();
    vstd::arithmetic::mul::lemma_mul_nonnegative(H::key_limit(), value_span());
    assert(chunks_elems(s).subset_of(vstd::set_lib::set_int_range(0, bound)));
    vstd::set_lib::lemma_int_range(0, bound);
    vstd::set_lib::lemma_len_subset(chunks_elems(s), vstd::set_lib::set_int_range(0, bound));
}

/// The in-memory size of the chunk sequence: each chunk's header and
/// container.
pub open spec fn chunks_mem_spec<H: Header>(s: Seq<Chunk<H>>) -> int
    decreases s.len(),
{
    if s.len() == 0 {
        0
    } else {
        chunks_mem_spec(s.drop_last()) + s.last().mem_spec()
    }
}

/// Taking one more chunk adds exactly its size.
proof fn lemma_chunks_mem_take_step<H: Header>(s: Seq<Chunk<H>>, i: int)
    requires
        0 <= i < s.len(),
    ensures
        chunks_mem_spec(s.take(i + 1)) == chunks_mem_spec(s.take(i)) + s[i].mem_spec(),
{
    assert(s.take(i + 1).drop_last() =~= s.take(i));
    assert(s.take(i + 1).last() == s[i]);
}

/// A well-formed chunk occupies at least one byte.
proof fn lemma_chunk_mem_pos<H: Header>(c: Chunk<H>)
    requires
        c.wf(),
    ensures
        1 <= c.mem_spec() <= 0x50000,
{
    H::lemma_limits();
    c.container.lemma_mem_size_spec();
}

/// Prefix sums of chunk sizes stay between zero and the whole.
proof fn lemma_chunks_mem_bounds<H: Header>(s: Seq<Chunk<H>>, i: int)
    requires
        chunks_wf(s),
        0 <= i <= s.len(),
    ensures
        0 <= chunks_mem_spec(s.take(i)) <= chunks_mem_spec(s),
    decreases s.len() - i,
{
    if i == s.len() {
        assert(s.take(i) =~= s);
        lemma_chunks_mem_nonneg(s, i);
    } else {
        lemma_chunks_mem_take_step(s, i);
        lemma_chunk_mem_pos(s[i]);
        lemma_chunks_mem_bounds(s, i + 1);
        lemma_chunks_mem_nonneg(s, i);
    }
}

/// Prefix sums of chunk sizes are never negative.
proof fn lemma_chunks_mem_nonneg<H: Header>(s: Seq<Chunk<H>>, i: int)
    requires
        chunks_wf(s),
        0 <= i <= s.len(),
    ensures
        0 <= chunks_mem_spec(s.take(i)),
    decreases i,
{
    if i == 0 {
        assert(s.take(0) =~= Seq::<Chunk<H>>::empty());
    } else {
        lemma_chunks_mem_take_step(s, i - 1);
        lemma_chunk_mem_pos(s[i - 1]);
        lemma_chunks_mem_nonneg(s, i - 1);
    }
}

/// Computes the in-memory size of the chunk sequence, in bytes.
pub fn chunks_mem_size<H: Header>(chunks: &Vec<Chunk<H>>) -> (r: usize)
    requires
        chunks_wf(chunks@),
        chunks_mem_spec(chunks@) <= usize::MAX,
    ensures
        r == chunks_mem_spec(chunks@),
{
    let mut acc: usize = 0;
    let mut i: usize = 0;
    proof {
        lemma_chunks_mem_nonneg(chunks@, 0);
    }
    while i < chunks.len()
        invariant
            chunks_wf(chunks@),
            chunks_mem_spec(chunks@) <= usize::MAX,
            i <= chunks@.len(),
            acc == chunks_mem_spec(chunks@.take(i as int)),
        decreases chunks@.len() - i,
    {
        proof {
            lemma_chunks_mem_take_step(chunks@, i as int);
            lemma_chunks_mem_bounds(chunks@, i as int + 1);
        }
        let m = chunks[i].mem_size();
        acc = acc + m;
        i = i + 1;
    }
    proof {
        assert(chunks@.take(chunks@.len() as int) =~= chunks@);
    }
    acc
}

/// How many chunks of the sequence hold the given representation: sparse
/// when `arrays`, dense otherwise.
pub open spec fn chunks_kind_count<H: Header>(s: Seq<Chunk<H>>, arrays: bool) -> int
    decreases s.len(),
{
    if s.len() == 0 {
        0
    } else {
        chunks_kind_count(s.drop_last(), arrays) + if s.last().container_spec().is_array()
            == arrays {
            1int
        } else {
            0int
        }
    }
}

/// How many values the chunks of the given representation hold together.
pub open spec fn chunks_kind_vals<H: Header>(s: Seq<Chunk<H>>, arrays: bool) -> int
    decreases s.len(),
{
    if s.len() == 0 {
        0
    } else {
        chunks_kind_vals(s.drop_last(), arrays) + if s.last().container_spec().is_array()
            == arrays {
            s.last().card_spec()
        } else {
            0int
        }
    }
}

/// How many bytes the chunks of the given representation occupy together.
pub open spec fn chunks_kind_bytes<H: Header>(s: Seq<Chunk<H>>, arrays: bool) -> int
    decreases s.len(),
{
    if s.len() == 0 {
        0
    } else {
        chunks_kind_bytes(s.drop_last(), arrays) + if s.last().container_spec().is_array()
            == arrays {
            s.last().mem_spec()
        } else {
            0int
        }
    }
}

/// Taking one more chunk adds its contribution to each per-kind total.
proof fn lemma_chunks_kind_take_step<H: Header>(s: Seq<Chunk<H>>, i: int, arrays: bool)
    requires
        0 <= i < s.len(),
    ensures
        chunks_kind_count(s.take(i + 1), arrays) == chunks_kind_count(s.take(i), arrays) + if s[
            i
        ].container_spec().is_array() == arrays {
            1int
        } else {
            0int
        },
        chunks_kind_vals(s.take(i + 1), arrays) == chunks_kind_vals(s.take(i), arrays) + if s[
            i
        ].container_spec().is_array() == arrays {
            s[i].card_spec()
        } else {
            0int
        },
        chunks_kind_bytes(s.take(i + 1), arrays) == chunks_kind_bytes(s.take(i), arrays) + if s[
            i
        ].container_spec().is_array() == arrays {
            s[i].mem_spec()
        } else {
            0int
        },
{
    assert(s.take(i + 1).drop_last() =~= s.take(i));
    assert(s.take(i + 1).last() == s[i]);
}

/// Gathers the per-representation statistics of the chunk sequence: counts,
/// values and bytes for the sparse and the dense chunks.
pub fn chunks_kind_stats<H: Header>(chunks: &Vec<Chunk<H>>) -> (r: (
    usize,
    usize,
    usize,
    usize,
    usize,
    usize,
))
    requires
        chunks_wf(chunks@),
        chunks_elems(chunks@).len() <= usize::MAX,
        chunks_mem_spec(chunks@) <= usize::MAX,
    ensures
        r.0 == chunks_kind_count(chunks@, true),
        r.1 == chunks_kind_count(chunks@, false),
        r.2 == chunks_kind_vals(chunks@, true),
        r.3 == chunks_kind_vals(chunks@, false),
        r.4 == chunks_kind_bytes(chunks@, true),
        r.5 == chunks_kind_bytes(chunks@, false),
        r.0 + r.1 == chunks@.len(),
        r.2 + r.3 == chunks_elems(chunks@).len(),
        r.4 + r.5 == chunks_mem_spec(chunks@),
{
    let ghost parts = chunks_parts(chunks@);
    proof {
        lemma_chunks_parts_wf(chunks@);
        lemma_parts_union_finite(parts, value_span());
        lemma_chunks_mem_nonneg(chunks@, 0);
    }
    let mut n_arr: usize = 0;
    let mut n_bmp: usize = 0;
    let mut v_arr: usize = 0;
    let mut v_bmp: usize = 0;
    let mut b_arr: usize = 0;
    let mut b_bmp: usize = 0;
    let mut i: usize = 0;
    while i < chunks.len()
        invariant
            chunks_wf(chunks@),
            chunks_elems(chunks@).len() <= usize::MAX,
            chunks_mem_spec(chunks@) <= usize::MAX,
            parts == chunks_parts(chunks@),
            i <= chunks@.len(),
            n_arr == chunks_kind_count(chunks@.take(i as int), true),
            n_bmp == chunks_kind_count(chunks@.take(i as int), false),
            n_arr + n_bmp == i,
            v_arr == chunks_kind_vals(chunks@.take(i as int), true),
            v_bmp == chunks_kind_vals(chunks@.take(i as int), false),
            v_arr + v_bmp == parts_union(parts.take(i as int)).len(),
            b_arr == chunks_kind_bytes(chunks@.take(i as int), true),
            b_bmp == chunks_kind_bytes(chunks@.take(i as int), false),
            b_arr + b_bmp == chunks_mem_spec(chunks@.take(i as int)),
        decreases chunks@.len() - i,
    {
        proof {
            lemma_chunks_parts_wf(chunks@);
            lemma_parts_union_finite(parts, value_span());
            lemma_chunks_kind_take_step(chunks@, i as int, true);
            lemma_chunks_kind_take_step(chunks@, i as int, false);
            lemma_chunks_mem_take_step(chunks@, i as int);
            lemma_chunks_mem_bounds(chunks@, i as int + 1);
            lemma_chunk_mem_pos(chunks@[i as int]);
            crate::keyspace::lemma_parts_take_wf(parts, value_span(), i as int);
            lemma_parts_union_finite(parts.take(i as int), value_span());
            lemma_parts_prefix_disjoint(parts, value_span(), i as int);
            lemma_parts_take_step(parts, i as int);
            chunks@[i as int].lemma_part_wf();
            vstd::set_lib::lemma_set_disjoint_lens(
                parts_union(parts.take(i as int)),
                parts[i as int].elems,
            );
            assert(parts_union(parts.take(i as int)) + parts[i as int].elems == parts_union(
                parts.take(i as int),
            ).union(parts[i as int].elems));
            lemma_parts_prefix_subset(parts, i + 1);
            vstd::set_lib::lemma_len_subset(parts_union(parts.take(i + 1)), parts_union(parts));
            lemma_parts_take_all(parts);
        }
        let card = chunks[i].cardinality();
        let m = chunks[i].mem_size();
        if chunks[i].container().holds_array() {
            n_arr = n_arr + 1;
            v_arr = v_arr + card;
            b_arr = b_arr + m;
        } else {
            n_bmp = n_bmp + 1;
            v_bmp = v_bmp + card;
            b_bmp = b_bmp + m;
        }
        i = i + 1;
    }
    proof {
        assert(chunks@.take(chunks@.len() as int) =~= chunks@);
        lemma_parts_take_all(parts);
    }
    (n_arr, n_bmp, v_arr, v_bmp, b_arr, b_bmp)
}

/// The whole chunk sequence occupies a non-negative number of bytes.
pub proof fn lemma_chunks_mem_nonneg_all<H: Header>(s: Seq<Chunk<H>>)
    requires
        chunks_wf(s),
    ensures
        0 <= chunks_mem_spec(s),
{
    lemma_chunks_mem_bounds(s, s.len() as int);
}

/// A chunk for a key exists exactly when some held value has that key as
/// its prefix: chunks are created with their first value and dropped with
/// their last.
pub proof fn lemma_chunks_has_key_view<H: Header>(s: Seq<Chunk<H>>, key: int)
    requires
        chunks_wf(s),
    ensures
        chunks_has_key(s, key) <==> exists|y: int|
            chunks_elems(s).contains(y) && #[trigger] (y / value_span()) == key,
{
    let parts = chunks_parts(s);
    lemma_chunks_parts_wf(s);
    if chunks_has_key(s, key) {
        let i = choose|i: int| 0 <= i < s.len() && (#[trigger] s[i]).key_spec() == key;
        s[i].lemma_part_wf();
        assert(!(parts[i].elems =~= Set::<int>::empty()));
        let y = parts[i].elems.choose();
        assert(parts[i].elems.contains(y));
        lemma_parts_union_contains(parts, y);
        vstd::arithmetic::div_mod::lemma_fundamental_div_mod_converse(
            y,
            value_span(),
            key,
            y - key * value_span(),
        );
        assert(chunks_elems(s).contains(y) && y / value_span() == key);
    }
    if exists|y: int| chunks_elems(s).contains(y) && #[trigger] (y / value_span()) == key {
        let y = choose|y: int|
            chunks_elems(s).contains(y) && #[trigger] (y / value_span()) == key;
        lemma_parts_union_contains(parts, y);
        let j = choose|j: int| 0 <= j < parts.len() && #[trigger] parts[j].elems.contains(y);
        s[j].lemma_part_wf();
        vstd::arithmetic::div_mod::lemma_fundamental_div_mod_converse(
            y,
            value_span(),
            parts[j].key,
            y - parts[j].key * value_span(),
        );
        assert(s[j].key_spec() == key);
    }
}

} // verus!
