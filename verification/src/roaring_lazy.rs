//! The 64-bit set with two-level lazy nesting: super-chunks of chunks.

pub mod iter;
pub mod superchunk;

pub use superchunk::SuperChunk;

use vstd::prelude::*;

use crate::keyspace::{Part, lemma_parts_insert, lemma_parts_key_contains, lemma_parts_key_unique,
    lemma_parts_prefix_disjoint, lemma_parts_prefix_subset, lemma_parts_remove,
    lemma_parts_take_all, lemma_parts_take_step, lemma_parts_take_wf, lemma_parts_union_contains,
    lemma_parts_union_finite, lemma_parts_update, parts_union, parts_wf};
use crate::roaring_tree_map::entry::{Entry, half_span, hi_of, lemma_split_roundtrip};

verus! {

/// The ghost views of the super-chunks of a sequence, as keyed parts.
pub open spec fn super_parts(s: Seq<SuperChunk>) -> Seq<Part> {
    s.map_values(|sc: SuperChunk| sc.part())
}

/// The set of integers held by a super-chunk sequence.
pub open spec fn super_elems(s: Seq<SuperChunk>) -> Set<int> {
    parts_union(super_parts(s))
}

/// Every super-chunk is well formed and the keys strictly increase.
pub open spec fn super_wf(s: Seq<SuperChunk>) -> bool {
    &&& forall|i: int| 0 <= i < s.len() ==> (#[trigger] s[i]).wf()
    &&& forall|i: int, j: int| 0 <= i < j < s.len() ==> s[i].key_spec() < s[j].key_spec()
}

/// Well-formed super-chunks are well-formed parts.
proof fn lemma_super_parts_wf(s: Seq<SuperChunk>)
    requires
        super_wf(s),
    ensures
        parts_wf(super_parts(s), half_span()),
{
    assert forall|i: int| 0 <= i < s.len() implies crate::keyspace::part_wf(
        #[trigger] super_parts(s)[i],
        half_span(),
    ) by {
        s[i].lemma_part_wf();
    }
}

/// Whether some super-chunk of the sequence carries the key.
pub open spec fn super_has_key(s: Seq<SuperChunk>, key: int) -> bool {
    exists|i: int| 0 <= i < s.len() && (#[trigger] s[i]).key_spec() == key
}

/// Membership of a value goes through the super-chunk carrying its prefix.
proof fn lemma_super_elems_at_key(s: Seq<SuperChunk>, key: int, lo: int, i: int)
    requires
        super_wf(s),
        0 <= key,
        0 <= lo < half_span(),
        0 <= i < s.len(),
        s[i].key_spec() == key,
    ensures
        super_elems(s).contains(key * half_span() + lo) == s[i].elems().contains(
            key * half_span() + lo,
        ),
{
    let x = key * half_span() + lo;
    let parts = super_parts(s);
    lemma_super_parts_wf(s);
    vstd::arithmetic::div_mod::lemma_fundamental_div_mod_converse(x, half_span(), key, lo);
    vstd::arithmetic::mul::lemma_mul_nonnegative(key, half_span());
    lemma_parts_key_contains(parts, half_span(), x);
    if super_elems(s).contains(x) {
        let j = choose|j: int|
            0 <= j < parts.len() && #[trigger] parts[j].key == x / half_span()
                && parts[j].elems.contains(x);
        lemma_parts_key_unique(parts, half_span(), i, j);
    }
    if s[i].elems().contains(x) {
        assert(parts[i].key == x / half_span() && parts[i].elems.contains(x));
    }
}

/// A value whose prefix no super-chunk carries is absent.
proof fn lemma_super_elems_no_key(s: Seq<SuperChunk>, key: int, lo: int)
    requires
        super_wf(s),
        0 <= key,
        0 <= lo < half_span(),
        !super_has_key(s, key),
    ensures
        !super_elems(s).contains(key * half_span() + lo),
{
    let x = key * half_span() + lo;
    let parts = super_parts(s);
    lemma_super_parts_wf(s);
    vstd::arithmetic::div_mod::lemma_fundamental_div_mod_converse(x, half_span(), key, lo);
    vstd::arithmetic::mul::lemma_mul_nonnegative(key, half_span());
    lemma_parts_key_contains(parts, half_span(), x);
    if super_elems(s).contains(x) {
        let j = choose|j: int|
            0 <= j < parts.len() && #[trigger] parts[j].key == x / half_span()
                && parts[j].elems.contains(x);
        assert(s[j].key_spec() == key);
    }
}

/// A super-chunk for a key exists exactly when some held value has that key
/// as its 32-bit prefix: super-chunks are created with their first value and
/// dropped with their last.
proof fn lemma_super_has_key_view(s: Seq<SuperChunk>, key: int)
    requires
        super_wf(s),
    ensures
        super_has_key(s, key) <==> exists|y: int|
            super_elems(s).contains(y) && #[trigger] (y / half_span()) == key,
{
    let parts = super_parts(s);
    lemma_super_parts_wf(s);
    if super_has_key(s, key) {
        let i = choose|i: int| 0 <= i < s.len() && (#[trigger] s[i]).key_spec() == key;
        s[i].lemma_part_wf();
        assert(!(parts[i].elems =~= Set::<int>::empty()));
        let y = parts[i].elems.choose();
        assert(parts[i].elems.contains(y));
        lemma_parts_union_contains(parts, y);
        vstd::arithmetic::div_mod::lemma_fundamental_div_mod_converse(
            y,
            half_span(),
            key,
            y - key * half_span(),
        );
        assert(super_elems(s).contains(y) && y / half_span() == key);
    }
    if exists|y: int| super_elems(s).contains(y) && #[trigger] (y / half_span()) == key {
        let y = choose|y: int| super_elems(s).contains(y) && #[trigger] (y / half_span()) == key;
        lemma_parts_union_contains(parts, y);
        let j = choose|j: int| 0 <= j < parts.len() && #[trigger] parts[j].elems.contains(y);
        s[j].lemma_part_wf();
        vstd::arithmetic::div_mod::lemma_fundamental_div_mod_converse(
            y,
            half_span(),
            parts[j].key,
            y - parts[j].key * half_span(),
        );
        assert(s[j].key_spec() == key);
    }
}

/// Locates the super-chunk carrying `key`: its index, or the index at which
/// it would be inserted.
fn find_super(chunks: &Vec<SuperChunk>, key: u32) -> (r: Result<usize, usize>)
    requires
        super_wf(chunks@),
    ensures
        match r {
            Ok(i) => i < chunks@.len() && chunks@[i as int].key_spec() == key,
            Err(i) => i <= chunks@.len() && (forall|j: int|
                0 <= j < i ==> chunks@[j].key_spec() < key) && (forall|j: int|
                i <= j < chunks@.len() ==> key < chunks@[j].key_spec()),
        },
{
    let mut lo: usize = 0;
    let mut hi: usize = chunks.len();
    while lo < hi
        invariant
            lo <= hi <= chunks@.len(),
            super_wf(chunks@),
            forall|j: int| 0 <= j < lo ==> chunks@[j].key_spec() < key,
            forall|j: int| hi <= j < chunks@.len() ==> key < chunks@[j].key_spec(),
        decreases hi - lo,
    {
        let mid: usize = lo + (hi - lo) / 2;
        let k = chunks[mid].key();
        if k < key {
            lo = mid + 1;
        } else if key < k {
            hi = mid;
        } else {
            return Ok(mid);
        }
    }
    Err(lo)
}

/// Compressed bitmap for 64-bit integers, using a 2-level indexing.
///
/// The first level indexes super-chunks using the 32 most significant bits,
/// then each super-chunk indexes a container using the 16 most significant
/// bits of the lower half of the value.
pub struct RoaringLazy {
    /// Bitmap super chunks, indexed by the 32 most significant bits of the
    /// integer.
    chunks: Vec<SuperChunk>,
}

impl View for RoaringLazy {
    type V = Set<int>;

    /// The set of integers held, as mathematical integers in `[0, 2⁶⁴)`.
    closed spec fn view(&self) -> Set<int> {
        super_elems(self.chunks@)
    }
}

impl RoaringLazy {
    /// The set's invariant: super-chunks well formed and never empty, in
    /// strictly increasing key order. It holds of every reachable value.
    #[verifier::type_invariant]
    pub closed spec fn inv(&self) -> bool {
        super_wf(self.chunks@)
    }

    /// How many super-chunks the set holds.
    pub closed spec fn chunk_len(&self) -> int {
        self.chunks@.len() as int
    }

    /// Whether a super-chunk exists for the given 32-bit prefix: exactly
    /// when some held value carries that prefix.
    pub open spec fn has_prefix(&self, key: int) -> bool {
        exists|y: int| self@.contains(y) && #[trigger] (y / half_span()) == key
    }

    /// The held set is a finite set of 64-bit values, and it is empty
    /// exactly when no super-chunk is allocated.
    pub proof fn lemma_view_bounds(&self)
        requires
            self.inv(),
        ensures
            self@.finite(),
            forall|x: int| self@.contains(x) ==> 0 <= x < 0x10000000000000000,
            self.chunk_len() == 0 <==> self@ == Set::<int>::empty(),
    {
        lemma_super_parts_wf(self.chunks@);
        lemma_parts_union_finite(super_parts(self.chunks@), half_span());
        let parts = super_parts(self.chunks@);
        assert forall|x: int| self@.contains(x) implies 0 <= x < 0x10000000000000000 by {
            lemma_parts_union_contains(parts, x);
            let i = choose|i: int| 0 <= i < parts.len() && #[trigger] parts[i].elems.contains(x);
            self.chunks@[i].lemma_part_wf();
            vstd::arithmetic::mul::lemma_mul_inequality(parts[i].key + 1, 0x100000000, half_span());
            vstd::arithmetic::mul::lemma_mul_is_distributive_add_other_way(
                half_span(),
                parts[i].key,
                1,
            );
        }
        self.lemma_chunk_len_view();
    }

    /// The set holds no super-chunk exactly when it holds no value.
    proof fn lemma_chunk_len_view(&self)
        requires
            self.inv(),
        ensures
            self.chunk_len() == 0 <==> self@ == Set::<int>::empty(),
    {
        let parts = super_parts(self.chunks@);
        if self.chunks@.len() > 0 {
            self.chunks@[0].lemma_part_wf();
            assert(!(parts[0].elems =~= Set::<int>::empty()));
            let y = parts[0].elems.choose();
            assert(parts[0].elems.contains(y));
            lemma_parts_union_contains(parts, y);
            assert(self@.contains(y));
        } else {
            assert(parts =~= Seq::<Part>::empty());
            assert(self@ =~= Set::<int>::empty());
        }
    }

    /// Create an empty bitmap.
    pub fn new() -> (r: Self)
        ensures
            r@ == Set::<int>::empty(),
            r.chunk_len() == 0,
    {
        RoaringLazy { chunks: Vec::new() }
    }

    /// Adds a value to the bitmap.
    ///
    /// If the bitmap did not have this value present, true is returned.
    /// If the bitmap did have this value present, false is returned.
    pub fn insert(&mut self, value: u64) -> (added: bool)
        ensures
            final(self)@ == old(self)@.insert(value as int),
            added == !old(self)@.contains(value as int),
            final(self).chunk_len() == old(self).chunk_len() + (if old(self).has_prefix(
                hi_of(value) as int,
            ) {
                0int
            } else {
                1int
            }),
    {
        proof {
            use_type_invariant(&*self);
            lemma_split_roundtrip(value);
        }
        let entry = Entry::from(value);
        let mut chunks: Vec<SuperChunk> = Vec::new();
        std::mem::swap(&mut chunks, &mut self.chunks);
        let ghost s0 = chunks@;
        let ghost parts0 = super_parts(s0);
        let ghost x: int = value as int;
        proof {
            lemma_super_parts_wf(s0);
        }
        let added = match find_super(&chunks, entry.hi) {
            Ok(i) => {
                proof {
                    lemma_super_elems_at_key(s0, entry.hi as int, entry.lo as int, i as int);
                }
                let sc = &mut chunks[i];
                let ghost c0 = *sc;
                let added = sc.insert(entry.lo);
                proof {
                    let c1 = chunks@[i as int];
                    assert(chunks@ =~= s0.update(i as int, c1));
                    assert(super_parts(chunks@) =~= parts0.update(i as int, c1.part()));
                    c1.lemma_part_wf();
                    lemma_parts_update(parts0, half_span(), i as int, c1.part());
                    assert(c1.elems() == c0.elems().insert(x));
                    assert forall|y: int|
                        super_elems(chunks@).contains(y) == super_elems(s0).insert(x).contains(
                            y,
                        ) by {
                        lemma_parts_union_contains(parts0, y);
                        if c0.elems().contains(y) {
                            assert(parts0[i as int].elems.contains(y));
                        }
                    }
                    assert(super_elems(chunks@) =~= super_elems(s0).insert(x));
                    assert forall|a: int, b: int|
                        0 <= a < b < chunks@.len() implies chunks@[a].key_spec() < chunks@[
                            b
                        ].key_spec() by {
                        assert(s0[a].key_spec() < s0[b].key_spec());
                    }
                }
                added
            },
            Err(i) => {
                proof {
                    if super_has_key(s0, entry.hi as int) {
                        let j = choose|j: int|
                            0 <= j < s0.len() && (#[trigger] s0[j]).key_spec() == entry.hi;
                        assert(false);
                    }
                    lemma_super_elems_no_key(s0, entry.hi as int, entry.lo as int);
                }
                let sc = SuperChunk::new(&entry);
                chunks.insert(i, sc);
                proof {
                    let p = Part { key: entry.hi as int, elems: Set::empty().insert(x) };
                    assert(sc.part() == p);
                    sc.lemma_part_wf();
                    assert(chunks@ =~= s0.insert(i as int, sc));
                    assert(super_parts(chunks@) =~= parts0.insert(i as int, p));
                    lemma_parts_insert(parts0, half_span(), i as int, p);
                    assert(super_elems(chunks@) =~= super_elems(s0).insert(x));
                    let t = chunks@;
                    assert forall|a: int, b: int|
                        0 <= a < b < t.len() implies t[a].key_spec() < t[b].key_spec() by {
                        let pt = super_parts(t);
                        assert(parts_wf(pt, half_span()));
                        assert(pt[a].key < pt[b].key);
                    }
                    assert forall|a: int| 0 <= a < t.len() implies (#[trigger] t[a]).wf() by {
                        if a < i {
                            assert(t[a] == s0[a]);
                        } else if a > i {
                            assert(t[a] == s0[a - 1]);
                        }
                    }
                }
                true
            },
        };
        self.chunks = chunks;
        proof {
            lemma_super_has_key_view(s0, entry.hi as int);
        }
        added
    }

    /// Removes a value from the bitmap.
    ///
    /// Returns whether the value was present or not; the super-chunk
    /// covering the value's prefix is dropped when the value was its last
    /// element.
    #[verifier::rlimit(30)]
    pub fn remove(&mut self, value: u64) -> (removed: bool)
        ensures
            final(self)@ == old(self)@.remove(value as int),
            removed == old(self)@.contains(value as int),
            final(self).chunk_len() == old(self).chunk_len() - (if removed && (forall|y: int|
                old(self)@.contains(y) && y / half_span() == hi_of(value) ==> y == value as int) {
                1int
            } else {
                0int
            }),
    {
        proof {
            use_type_invariant(&*self);
            lemma_split_roundtrip(value);
        }
        let entry = Entry::from(value);
        let mut chunks: Vec<SuperChunk> = Vec::new();
        std::mem::swap(&mut chunks, &mut self.chunks);
        let ghost s0 = chunks@;
        let ghost parts0 = super_parts(s0);
        let ghost x: int = value as int;
        proof {
            lemma_super_parts_wf(s0);
        }
        let removed = match find_super(&chunks, entry.hi) {
            Err(_i) => {
                proof {
                    if super_has_key(s0, entry.hi as int) {
                        let j = choose|j: int|
                            0 <= j < s0.len() && (#[trigger] s0[j]).key_spec() == entry.hi;
                        assert(false);
                    }
                    lemma_super_elems_no_key(s0, entry.hi as int, entry.lo as int);
                    assert(super_elems(s0).remove(x) =~= super_elems(s0));
                }
                false
            },
            Ok(i) => {
                proof {
                    lemma_super_elems_at_key(s0, entry.hi as int, entry.lo as int, i as int);
                    s0[i as int].lemma_part_wf();
                }
                let sc = &mut chunks[i];
                let ghost c0 = *sc;
                let removed = sc.remove(entry.lo);
                let became_empty = sc.is_empty();
                let ghost c1 = chunks@[i as int];
                let ghost s1 = s0.update(i as int, c1);
                let ghost parts1 = parts0.update(i as int, c1.part());
                proof {
                    assert(chunks@ =~= s1);
                    assert(super_parts(s1) =~= parts1);
                    assert(c1.elems() == c0.elems().remove(x));
                    c0.lemma_part_wf();
                    assert(crate::keyspace::part_wf(c1.part(), half_span()));
                    lemma_parts_update(parts0, half_span(), i as int, c1.part());
                    assert forall|y: int|
                        super_elems(s0).contains(y) && y / half_span() == entry.hi implies c0
                            .elems().contains(y) by {
                        lemma_parts_key_contains(parts0, half_span(), y);
                        let j = choose|j: int|
                            0 <= j < parts0.len() && #[trigger] parts0[j].key == y / half_span()
                                && parts0[j].elems.contains(y);
                        lemma_parts_key_unique(parts0, half_span(), i as int, j);
                    }
                    assert forall|y: int|
                        c0.elems().contains(y) implies super_elems(s0).contains(y) && y
                            / half_span() == entry.hi by {
                        lemma_parts_union_contains(parts0, y);
                        assert(parts0[i as int].elems.contains(y));
                        vstd::arithmetic::div_mod::lemma_fundamental_div_mod_converse(
                            y,
                            half_span(),
                            entry.hi as int,
                            y - entry.hi * half_span(),
                        );
                    }
                    assert forall|y: int|
                        super_elems(s1).contains(y) == super_elems(s0).remove(x).contains(y) by {
                        lemma_parts_union_contains(parts0, y);
                        if c0.elems().contains(y) {
                            assert(parts0[i as int].elems.contains(y));
                        }
                    }
                    assert(super_elems(s1) =~= super_elems(s0).remove(x));
                }
                if became_empty {
                    proof {
                        assert(c1.elems() =~= Set::<int>::empty());
                        assert(c0.elems().len() >= 1);
                        assert forall|y: int| c0.elems().contains(y) implies y == x by {
                            if y != x {
                                assert(c1.elems().contains(y));
                            }
                        }
                    }
                    let _dropped = chunks.remove(i);
                    proof {
                        assert(chunks@ =~= s1.remove(i as int));
                        assert(super_parts(chunks@) =~= parts1.remove(i as int));
                        lemma_parts_remove(parts1, half_span(), i as int);
                        assert(super_elems(chunks@) =~= super_elems(s0).remove(x));
                        let t = chunks@;
                        assert forall|a: int| 0 <= a < t.len() implies (#[trigger] t[a]).wf() by {
                            if a < i {
                                assert(t[a] == s0[a]);
                            } else {
                                assert(t[a] == s0[a + 1]);
                            }
                        }
                        assert forall|a: int, b: int|
                            0 <= a < b < t.len() implies t[a].key_spec() < t[b].key_spec() by {
                            let pt = super_parts(t);
                            assert(parts_wf(pt, half_span()));
                            assert(pt[a].key < pt[b].key);
                        }
                        assert(removed);
                        assert forall|y: int|
                            old(self)@.contains(y) && y / half_span() == hi_of(
                                value,
                            ) implies y == value as int by {
                            assert(super_elems(s0).contains(y));
                        }
                        assert(chunks@.len() == s0.len() - 1);
                    }
                } else {
                    proof {
                        assert(c1.wf());
                        let t = chunks@;
                        assert forall|a: int| 0 <= a < t.len() implies (#[trigger] t[a]).wf() by {
                            if a != i {
                                assert(t[a] == s0[a]);
                            }
                        }
                        assert forall|a: int, b: int|
                            0 <= a < b < t.len() implies t[a].key_spec() < t[b].key_spec() by {
                            assert(s0[a].key_spec() < s0[b].key_spec());
                        }
                        if removed {
                            let y = c1.elems().choose();
                            assert(c1.elems().contains(y));
                            assert(c0.elems().contains(y) && y != x);
                            assert(super_elems(s0).contains(y) && y / half_span() == entry.hi);
                            assert(old(self)@.contains(y));
                            assert(!(forall|z: int|
                                old(self)@.contains(z) && z / half_span() == hi_of(value) ==> z
                                    == value as int));
                        }
                        assert(chunks@.len() == s0.len());
                    }
                }
                removed
            },
        };
        self.chunks = chunks;
        removed
    }

    /// Returns true if the bitmap contains the value.
    pub fn contains(&self, value: u64) -> (present: bool)
        ensures
            present == self@.contains(value as int),
    {
        proof {
            use_type_invariant(self);
            lemma_split_roundtrip(value);
        }
        let entry = Entry::from(value);
        match find_super(&self.chunks, entry.hi) {
            Ok(i) => {
                proof {
                    lemma_super_elems_at_key(self.chunks@, entry.hi as int, entry.lo as int, i as int);
                }
                self.chunks[i].contains(entry.lo)
            },
            Err(_i) => {
                proof {
                    if super_has_key(self.chunks@, entry.hi as int) {
                        let j = choose|j: int|
                            0 <= j < self.chunks@.len() && (#[trigger] self.chunks@[
                                j
                            ]).key_spec() == entry.hi;
                        assert(false);
                    }
                    lemma_super_elems_no_key(self.chunks@, entry.hi as int, entry.lo as int);
                }
                false
            },
        }
    }

    /// Computes the bitmap cardinality: the exact number of values held.
    ///
    /// The count must fit the machine word that carries it.
    pub fn cardinality(&self) -> (n: usize)
        requires
            self@.len() <= usize::MAX,
        ensures
            n == self@.len(),
            n == 0 <==> self@ == Set::<int>::empty(),
    {
        proof {
            use_type_invariant(self);
            lemma_super_parts_wf(self.chunks@);
            lemma_parts_union_finite(super_parts(self.chunks@), half_span());
            if self@.len() == 0 {
                self@.lemma_len0_is_empty();
            }
        }
        let ghost parts = super_parts(self.chunks@);
        let mut acc: usize = 0;
        let mut i: usize = 0;
        while i < self.chunks.len()
            invariant
                super_wf(self.chunks@),
                super_elems(self.chunks@).len() <= usize::MAX,
                parts == super_parts(self.chunks@),
                i <= self.chunks@.len(),
                acc == parts_union(parts.take(i as int)).len(),
            decreases self.chunks@.len() - i,
        {
            proof {
                lemma_super_parts_wf(self.chunks@);
                lemma_parts_union_finite(parts, half_span());
                lemma_parts_take_wf(parts, half_span(), i as int);
                lemma_parts_union_finite(parts.take(i as int), half_span());
                lemma_parts_prefix_disjoint(parts, half_span(), i as int);
                lemma_parts_take_step(parts, i as int);
                self.chunks@[i as int].lemma_part_wf();
                vstd::set_lib::lemma_set_disjoint_lens(
                    parts_union(parts.take(i as int)),
                    parts[i as int].elems,
                );
                assert(parts_union(parts.take(i as int)) + parts[i as int].elems == parts_union(
                    parts.take(i as int),
                ).union(parts[i as int].elems));
                lemma_parts_prefix_subset(parts, i + 1);
                vstd::set_lib::lemma_len_subset(
                    parts_union(parts.take(i + 1)),
                    parts_union(parts),
                );
                lemma_parts_take_all(parts);
                lemma_parts_prefix_subset(parts, i as int);
                vstd::set_lib::lemma_len_subset(
                    parts_union(parts.take(i as int)),
                    parts_union(parts),
                );
                assert forall|y: int|
                    parts[i as int].elems.contains(y) implies parts_union(parts).contains(y) by {
                    lemma_parts_union_contains(parts, y);
                }
                vstd::set_lib::lemma_len_subset(parts[i as int].elems, parts_union(parts));
            }
            let card = self.chunks[i].cardinality();
            acc = acc + card;
            i = i + 1;
        }
        proof {
            lemma_parts_take_all(parts);
        }
        acc
    }

    /// Finds the smallest value in the bitmap.
    pub fn min(&self) -> (r: Option<u64>)
        ensures
            match r {
                Some(m) => self@.contains(m as int) && forall|x: int|
                    self@.contains(x) ==> m as int <= x,
                None => self@ == Set::<int>::empty(),
            },
    {
        proof {
            use_type_invariant(self);
        }
        let ghost parts = super_parts(self.chunks@);
        let mut best: Option<u64> = None;
        let mut i: usize = 0;
        while i < self.chunks.len()
            invariant
                super_wf(self.chunks@),
                parts == super_parts(self.chunks@),
                i <= self.chunks@.len(),
                best is None ==> i == 0,
                match best {
                    Some(b) => parts_union(parts.take(i as int)).contains(b as int) && forall|
                        x: int,
                    |
                        parts_union(parts.take(i as int)).contains(x) ==> b as int <= x,
                    None => parts_union(parts.take(i as int)) == Set::<int>::empty(),
                },
            decreases self.chunks@.len() - i,
        {
            let sc = &self.chunks[i];
            proof {
                sc.lemma_part_wf();
            }
            match sc.min() {
                Some(m) => {
                    let k = sc.key();
                    proof {
                        vstd::arithmetic::mul::lemma_mul_inequality(
                            k as int,
                            0xFFFFFFFF,
                            half_span(),
                        );
                    }
                    let candidate: u64 = (k as u64) * 0x100000000 + (m as u64);
                    let new_best = match best {
                        None => candidate,
                        Some(b) => if candidate < b {
                            candidate
                        } else {
                            b
                        },
                    };
                    proof {
                        lemma_parts_take_step(parts, i as int);
                        assert(candidate as int == sc.base() + m);
                        assert(sc.elems().contains(candidate as int));
                        assert(parts[i as int].elems.contains(candidate as int));
                        let u = parts_union(parts.take(i as int + 1));
                        assert forall|x: int| u.contains(x) implies new_best as int <= x by {
                            if parts_union(parts.take(i as int)).contains(x) {
                            } else {
                                assert(parts[i as int].elems.contains(x));
                                assert(sc.elems().contains(x));
                            }
                        }
                    }
                    best = Some(new_best);
                },
                None => {
                    proof {
                        assert(false);
                    }
                },
            }
            i = i + 1;
        }
        proof {
            lemma_parts_take_all(parts);
            if best is None {
                assert(parts_union(parts.take(self.chunks@.len() as int)) == Set::<
                    int,
                >::empty());
            }
        }
        best
    }

    /// Finds the largest value in the bitmap.
    pub fn max(&self) -> (r: Option<u64>)
        ensures
            match r {
                Some(m) => self@.contains(m as int) && forall|x: int|
                    self@.contains(x) ==> x <= m as int,
                None => self@ == Set::<int>::empty(),
            },
    {
        proof {
            use_type_invariant(self);
        }
        let ghost parts = super_parts(self.chunks@);
        let mut best: Option<u64> = None;
        let mut i: usize = 0;
        while i < self.chunks.len()
            invariant
                super_wf(self.chunks@),
                parts == super_parts(self.chunks@),
                i <= self.chunks@.len(),
                best is None ==> i == 0,
                match best {
                    Some(b) => parts_union(parts.take(i as int)).contains(b as int) && forall|
                        x: int,
                    |
                        parts_union(parts.take(i as int)).contains(x) ==> x <= b as int,
                    None => parts_union(parts.take(i as int)) == Set::<int>::empty(),
                },
            decreases self.chunks@.len() - i,
        {
            let sc = &self.chunks[i];
            proof {
                sc.lemma_part_wf();
            }
            match sc.max() {
                Some(m) => {
                    let k = sc.key();
                    proof {
                        vstd::arithmetic::mul::lemma_mul_inequality(
                            k as int,
                            0xFFFFFFFF,
                            half_span(),
                        );
                    }
                    let candidate: u64 = (k as u64) * 0x100000000 + (m as u64);
                    let new_best = match best {
                        None => candidate,
                        Some(b) => if candidate > b {
                            candidate
                        } else {
                            b
                        },
                    };
                    proof {
                        lemma_parts_take_step(parts, i as int);
                        assert(candidate as int == sc.base() + m);
                        assert(sc.elems().contains(candidate as int));
                        assert(parts[i as int].elems.contains(candidate as int));
                        let u = parts_union(parts.take(i as int + 1));
                        assert forall|x: int| u.contains(x) implies x <= new_best as int by {
                            if parts_union(parts.take(i as int)).contains(x) {
                            } else {
                                assert(parts[i as int].elems.contains(x));
                                assert(sc.elems().contains(x));
                            }
                        }
                    }
                    best = Some(new_best);
                },
                None => {
                    proof {
                        assert(false);
                    }
                },
            }
            i = i + 1;
        }
        proof {
            lemma_parts_take_all(parts);
            if best is None {
                assert(parts_union(parts.take(self.chunks@.len() as int)) == Set::<
                    int,
                >::empty());
            }
        }
        best
    }

    /// Clears the bitmap, removing all values and their super-chunks.
    pub fn clear(&mut self)
        ensures
            final(self)@ == Set::<int>::empty(),
            final(self).chunk_len() == 0,
    {
        self.chunks = Vec::new();
    }

    /// Returns true if the bitmap contains no elements.
    pub fn is_empty(&self) -> (empty: bool)
        ensures
            empty == (self@ == Set::<int>::empty()),
            empty == (self.chunk_len() == 0),
    {
        proof {
            use_type_invariant(self);
            self.lemma_chunk_len_view();
        }
        self.chunks.len() == 0
    }

    /// Returns how many super-chunks are allocated: one per distinct 32-bit
    /// prefix among the held values.
    pub fn chunk_count(&self) -> (n: usize)
        ensures
            n == self.chunk_len(),
    {
        self.chunks.len()
    }
}

impl RoaringLazy {
    /// Collects the values of the bitmap, in ascending order.
    pub fn to_vec(&self) -> (r: Vec<u64>)
        ensures
            crate::chunk::sorted_strict_u64(r@),
            crate::chunk::elems_of_u64_seq(r@) == self@,
            r@.len() == self@.len(),
    {
        proof {
            use_type_invariant(self);
            lemma_super_parts_wf(self.chunks@);
        }
        let ghost parts = super_parts(self.chunks@);
        let mut r: Vec<u64> = Vec::new();
        let mut i: usize = 0;
        while i < self.chunks.len()
            invariant
                super_wf(self.chunks@),
                parts == super_parts(self.chunks@),
                i <= self.chunks@.len(),
                crate::chunk::sorted_strict_u64(r@),
                crate::chunk::elems_of_u64_seq(r@) == parts_union(parts.take(i as int)),
                forall|k2: int|
                    0 <= k2 < r@.len() && i < self.chunks@.len() ==> (r@[k2] as int)
                        < self.chunks@[i as int].base(),
            decreases self.chunks@.len() - i,
        {
            let sc = &self.chunks[i];
            let k = sc.key();
            proof {
                sc.lemma_part_wf();
                vstd::arithmetic::mul::lemma_mul_inequality(k as int, 0xFFFFFFFF, half_span());
            }
            let locals = sc.to_vec();
            let ghost base = sc.base();
            let ghost r0 = r@;
            let ghost ci = self.chunks@[i as int];
            let mut j: usize = 0;
            while j < locals.len()
                invariant
                    super_wf(self.chunks@),
                    parts == super_parts(self.chunks@),
                    i < self.chunks@.len(),
                    ci == self.chunks@[i as int],
                    k == ci.key_spec(),
                    base == ci.base(),
                    0 <= base,
                    k * half_span() + half_span() <= 0x10000000000000000,
                    forall|v: int|
                        0 <= v < half_span() ==> (ci.elems().contains(base + v)
                            == crate::chunk::elems_of_u64_seq(locals@).contains(v)),
                    forall|k2: int| 0 <= k2 < locals@.len() ==> (locals@[k2] as int) < half_span(),
                    crate::chunk::sorted_strict_u64(locals@),
                    j <= locals@.len(),
                    r@.len() == r0.len() + j,
                    forall|k2: int| 0 <= k2 < r0.len() ==> r@[k2] == r0[k2],
                    forall|l: int| 0 <= l < j ==> (r@[r0.len() + l] as int) == base + locals@[l],
                    forall|k2: int| 0 <= k2 < r0.len() ==> (r0[k2] as int) < base,
                    crate::chunk::sorted_strict_u64(r@),
                decreases locals@.len() - j,
            {
                let v = locals[j];
                let value: u64 = (k as u64) * 0x100000000 + v;
                let ghost rp = r@;
                r.push(value);
                proof {
                    assert forall|a: int, b: int| 0 <= a < b < r@.len() implies r@[a] < r@[b] by {
                        if b < r@.len() - 1 {
                            assert(rp[a] < rp[b]);
                        } else {
                            if a < r0.len() {
                                assert(r@[a] == rp[a] && rp[a] == r0[a]);
                                assert((r@[a] as int) < base);
                            } else {
                                assert((r@[a] as int) == base + locals@[a - r0.len()]);
                                assert(locals@[a - r0.len()] < locals@[j as int]);
                            }
                        }
                    }
                }
                j = j + 1;
            }
            proof {
                lemma_parts_take_step(parts, i as int);
                assert forall|y: int|
                    crate::chunk::elems_of_u64_seq(r@).contains(y) == parts_union(
                        parts.take(i as int + 1),
                    ).contains(y) by {
                    crate::chunk::lemma_u64_elems_contains(r@, y);
                    crate::chunk::lemma_u64_elems_contains(r0, y);
                    crate::chunk::lemma_u64_elems_contains(locals@, y - base);
                    if exists|idx: int| 0 <= idx < r@.len() && r@[idx] == y {
                        let idx = choose|idx: int| 0 <= idx < r@.len() && r@[idx] == y;
                        if idx < r0.len() {
                            assert(r0[idx] == y);
                            assert(crate::chunk::elems_of_u64_seq(r0).contains(y));
                        } else {
                            let l = idx - r0.len();
                            assert(y == base + locals@[l]);
                            assert(crate::chunk::elems_of_u64_seq(locals@).contains(y - base));
                            assert(ci.elems().contains(y));
                            assert(parts[i as int].elems.contains(y));
                        }
                    }
                    if parts_union(parts.take(i as int)).contains(y) {
                        let idx = choose|idx: int| 0 <= idx < r0.len() && r0[idx] == y;
                        assert(r@[idx] == y);
                    }
                    if parts[i as int].elems.contains(y) {
                        assert(crate::keyspace::part_wf(parts[i as int], half_span()));
                        assert(0 <= y - base < half_span());
                        assert(crate::chunk::elems_of_u64_seq(locals@).contains(y - base));
                        let l = choose|l: int| 0 <= l < locals@.len() && locals@[l] == y - base;
                        assert((r@[r0.len() + l] as int) == y);
                    }
                }
                assert(crate::chunk::elems_of_u64_seq(r@) =~= parts_union(
                    parts.take(i as int + 1),
                ));
                if i + 1 < self.chunks@.len() {
                    let nb = self.chunks@[i as int + 1].base();
                    assert((k + 1) * half_span() <= self.chunks@[i as int + 1].key_spec()
                        * half_span()) by {
                        self.chunks@[i as int + 1].lemma_part_wf();
                        vstd::arithmetic::mul::lemma_mul_inequality(
                            k as int + 1,
                            self.chunks@[i as int + 1].key_spec(),
                            half_span(),
                        );
                    }
                    assert((k + 1) * half_span() == k * half_span() + half_span()) by {
                        vstd::arithmetic::mul::lemma_mul_is_distributive_add_other_way(
                            half_span(),
                            k as int,
                            1,
                        );
                    }
                    assert forall|k2: int| 0 <= k2 < r@.len() implies (r@[k2] as int) < nb by {
                        if k2 < r0.len() {
                            assert(r@[k2] == r0[k2]);
                            assert((r@[k2] as int) < base);
                        } else {
                            assert((r@[k2] as int) == base + locals@[k2 - r0.len()]);
                        }
                    }
                }
            }
            i = i + 1;
        }
        proof {
            lemma_parts_take_all(parts);
            crate::chunk::lemma_u64_sorted_len(r@);
        }
        r
    }

    /// Gets an iterator that visits the values in the bitmap in ascending
    /// order, with an exact remaining count.
    pub fn iter(&self) -> (it: crate::roaring_lazy::iter::Iter)
        ensures
            crate::chunk::sorted_strict_u64(it.vals()),
            crate::chunk::elems_of_u64_seq(it.vals()) == self@,
            it.vals().len() == self@.len(),
            it.at() == 0,
    {
        crate::roaring_lazy::iter::Iter::new(self.to_vec())
    }
}

} // verus!
