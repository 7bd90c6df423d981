//! Compressed bitmap for 64-bit integers, nesting 32-bit bitmaps in an
//! ordered map.

use vstd::prelude::*;
use vstd::std_specs::cmp::OrdSpec;
use vstd::std_specs::iter::IteratorSpec;

use std::collections::BTreeMap;

use crate::keyspace::{Part, lemma_parts_prefix_disjoint, lemma_parts_prefix_subset,
    lemma_parts_take_all, lemma_parts_take_step, lemma_parts_take_wf, lemma_parts_union_contains,
    lemma_parts_union_finite, parts_union, parts_wf, part_wf};
use crate::roaring::Bitmap as RoaringBitmap;
use crate::roaring::iter::{elems_of_u32_seq, lemma_u32_elems_contains, sorted_strict_u32};
use crate::roaring_tree_map::entry::{Entry, half_span, hi_of, lemma_split_roundtrip, lo_of};

verus! {

broadcast use {vstd::std_specs::btree::group_btree_axioms, vstd::laws_cmp::group_laws_cmp};

/// A nested bitmap as the map may hold it: finite, within the 32-bit range,
/// and never empty.
pub open spec fn nested_ok(b: RoaringBitmap) -> bool {
    &&& b.inv()
    &&& b@.finite()
    &&& !b@.is_empty()
    &&& forall|x: int| b@.contains(x) ==> 0 <= x < 0x100000000
}

/// The set of integers a prefix map holds: each key contributes its nested
/// bitmap's values, shifted to the key's slice.
pub open spec fn map_view(m: Map<u32, RoaringBitmap>) -> Set<int> {
    Set::new(
        |x: int|
            0 <= x < 0x10000000000000000 && m.contains_key(((x / half_span()) as u32))
                && m[(x / half_span()) as u32]@.contains(x % half_span()),
    )
}

/// Every nested bitmap of the map is acceptable.
pub open spec fn map_ok(m: Map<u32, RoaringBitmap>) -> bool {
    forall|k: u32| #[trigger] m.contains_key(k) ==> nested_ok(m[k])
}

/// One map entry's ghost view as a keyed part.
pub open spec fn entry_part(m: Map<u32, RoaringBitmap>, k: u32) -> Part {
    Part {
        key: k as int,
        elems: Set::new(
            |x: int|
                k * half_span() <= x < k * half_span() + half_span() && m[k]@.contains(
                    x - k * half_span(),
                ),
        ),
    }
}

/// The ghost views of the entries named by a key sequence.
pub open spec fn map_parts(keys: Seq<u32>, m: Map<u32, RoaringBitmap>) -> Seq<Part> {
    keys.map_values(|k: u32| entry_part(m, k))
}

/// One entry's part is well formed and as populous as its nested bitmap.
proof fn lemma_entry_part(m: Map<u32, RoaringBitmap>, k: u32)
    requires
        m.contains_key(k),
        nested_ok(m[k]),
    ensures
        part_wf(entry_part(m, k), half_span()),
        entry_part(m, k).elems.len() == m[k]@.len(),
        entry_part(m, k).elems.len() >= 1,
        forall|v: int|
            0 <= v < half_span() ==> (entry_part(m, k).elems.contains(k * half_span() + v) == m[
                k
            ]@.contains(v)),
{
    let p = entry_part(m, k);
    let f = |e: int| e + k * half_span();
    assert(m[k]@.map(f) =~= p.elems);
    vstd::set_lib::lemma_map_size(m[k]@, p.elems, f);
    let y = m[k]@.choose();
    assert(m[k]@.contains(y));
    assert(p.elems.contains(y + k * half_span()));
}

/// Sorted keys of the map make a well-formed part sequence whose union is
/// the map's view.
proof fn lemma_map_parts(keys: Seq<u32>, m: Map<u32, RoaringBitmap>)
    requires
        map_ok(m),
        sorted_strict_u32(keys),
        forall|j: int| 0 <= j < keys.len() ==> m.contains_key(#[trigger] keys[j]),
        forall|k: u32| #[trigger] m.contains_key(k) ==> keys.contains(k),
    ensures
        parts_wf(map_parts(keys, m), half_span()),
        parts_union(map_parts(keys, m)) == map_view(m),
{
    let parts = map_parts(keys, m);
    assert forall|i: int| 0 <= i < parts.len() implies part_wf(
        #[trigger] parts[i],
        half_span(),
    ) by {
        lemma_entry_part(m, keys[i]);
    }
    assert forall|y: int|
        parts_union(parts).contains(y) == map_view(m).contains(y) by {
        lemma_parts_union_contains(parts, y);
        if parts_union(parts).contains(y) {
            let i = choose|i: int| 0 <= i < parts.len() && #[trigger] parts[i].elems.contains(y);
            let k = keys[i];
            lemma_entry_part(m, k);
            vstd::arithmetic::div_mod::lemma_fundamental_div_mod_converse(
                y,
                half_span(),
                k as int,
                y - k * half_span(),
            );
            assert(y / half_span() == k as int && y % half_span() == y - k * half_span());
            vstd::arithmetic::mul::lemma_mul_inequality(k as int, 0xFFFFFFFF, half_span());
            assert(map_view(m).contains(y));
        }
        if map_view(m).contains(y) {
            let k = (y / half_span()) as u32;
            assert(0 <= y / half_span() < 0x100000000) by {
                vstd::arithmetic::div_mod::lemma_div_is_ordered(y, 0xFFFF_FFFF_FFFF_FFFF, half_span());
                vstd::arithmetic::div_mod::lemma_div_pos_is_pos(y, half_span());
            }
            assert(m.contains_key(k));
            assert(keys.contains(k));
            let i = choose|i: int| 0 <= i < keys.len() && keys[i] == k;
            lemma_entry_part(m, k);
            vstd::arithmetic::div_mod::lemma_fundamental_div_mod(y, half_span());
            assert(parts[i].elems.contains(y));
        }
    }
    assert(parts_union(parts) =~= map_view(m));
}

/// A map entry for a prefix exists exactly when some held value carries
/// that prefix: entries are created with their first value and dropped with
/// their last.
proof fn lemma_map_has_key_view(m: Map<u32, RoaringBitmap>, key: int)
    requires
        map_ok(m),
    ensures
        (exists|k: u32| #[trigger] m.contains_key(k) && k == key) <==> exists|y: int|
            map_view(m).contains(y) && #[trigger] (y / half_span()) == key,
{
    if exists|k: u32| #[trigger] m.contains_key(k) && k == key {
        let k = choose|k: u32| #[trigger] m.contains_key(k) && k == key;
        assert(!(m[k]@ =~= Set::<int>::empty()));
        let v = m[k]@.choose();
        assert(m[k]@.contains(v));
        let y = k * half_span() + v;
        vstd::arithmetic::div_mod::lemma_fundamental_div_mod_converse(y, half_span(), k as int, v);
        vstd::arithmetic::mul::lemma_mul_inequality(k as int, 0xFFFFFFFF, half_span());
        assert(map_view(m).contains(y) && y / half_span() == key);
    }
    if exists|y: int| map_view(m).contains(y) && #[trigger] (y / half_span()) == key {
        let y = choose|y: int| map_view(m).contains(y) && #[trigger] (y / half_span()) == key;
        let k = (y / half_span()) as u32;
        assert(0 <= y / half_span() < 0x100000000) by {
            vstd::arithmetic::div_mod::lemma_div_is_ordered(y, 0xFFFF_FFFF_FFFF_FFFF, half_span());
            vstd::arithmetic::div_mod::lemma_div_pos_is_pos(y, half_span());
        }
        assert(m.contains_key(k) && k == key);
    }
}

/// Collects the map's keys, in ascending order.
fn prefixes(maps: &BTreeMap<u32, RoaringBitmap>) -> (r: Vec<u32>)
    ensures
        sorted_strict_u32(r@),
        r@.len() == maps@.dom().len(),
        forall|j: int| 0 <= j < r@.len() ==> maps@.contains_key(#[trigger] r@[j]),
        forall|k: u32| #[trigger] maps@.contains_key(k) ==> r@.contains(k),
{
    let ghost whole = IteratorSpec::remaining(&vstd::std_specs::btree::spec_keys_iter(maps));
    let mut r: Vec<u32> = Vec::new();
    for k in it: maps.keys()
        invariant
            it.seq() == whole,
            r@ =~= whole.take(it.index() as int).unref(),
    {
        let ghost pre = r@;
        let ghost at = it.index() as int;
        r.push(*k);
        proof {
            assert(whole.take(at + 1).unref() =~= pre.push(*whole[at]));
        }
    }
    proof {
        assert(whole.take(whole.len() as int) =~= whole);
        assert(r@ =~= whole.unref());
        let ghost m = maps@;
        assert(whole.unref().to_set() == m.dom());
        assert forall|j: int| 0 <= j < r@.len() implies m.contains_key(#[trigger] r@[j]) by {
            assert(whole.unref().to_set().contains(whole.unref()[j]));
        }
        assert forall|k: u32| #[trigger] m.contains_key(k) implies r@.contains(k) by {
            assert(whole.unref().to_set().contains(k));
        }
        assert(vstd::laws_cmp::obeys_cmp::<u32>());
        assert(vstd::laws_cmp::obeys_cmp::<&u32>());
        vstd::std_specs::btree::axiom_increasing_seq_meaning::<&u32>(whole);
        assert(vstd::std_specs::btree::increasing_seq(whole));
        assert forall|a: int, b: int| 0 <= a < b < r@.len() implies r@[a] < r@[b] by {
            assert(0 <= a < b < whole.len());
            let sa = whole[a];
            let sb = whole[b];
            assert(<&u32 as vstd::std_specs::cmp::OrdSpec>::cmp_spec(&sa, &sb) is Less);
            assert(*sa < *sb);
        }
    }
    r
}

/// Compressed bitmap for 64-bit integers.
///
/// Uses a set of 32-bit Roaring bitmaps, indexed by a 32-bit key through a
/// tree-based map (hence the name).
pub struct Bitmap {
    /// Underlying Roaring bitmaps, indexed by the 32 most significant bits
    /// of the integer.
    bitmaps: BTreeMap<u32, RoaringBitmap>,
}

impl View for Bitmap {
    type V = Set<int>;

    /// The set of integers held, as mathematical integers in `[0, 2⁶⁴)`.
    closed spec fn view(&self) -> Set<int> {
        map_view(self.bitmaps@)
    }
}

impl Bitmap {
    /// The bitmap's invariant: every nested bitmap is finite, within the
    /// 32-bit range, and never empty. It holds of every reachable value.
    #[verifier::type_invariant]
    pub closed spec fn inv(&self) -> bool {
        map_ok(self.bitmaps@)
    }

    /// How many nested bitmaps the map holds.
    pub closed spec fn bitmap_len(&self) -> int {
        self.bitmaps@.dom().len() as int
    }

    /// Whether a nested bitmap exists for the given 32-bit prefix: exactly
    /// when some held value carries that prefix.
    pub open spec fn has_prefix(&self, key: int) -> bool {
        exists|y: int| self@.contains(y) && #[trigger] (y / half_span()) == key
    }

    /// The held set is a finite set of 64-bit values, and it is empty
    /// exactly when no nested bitmap is allocated.
    pub proof fn lemma_view_bounds(&self)
        requires
            self.inv(),
        ensures
            self@.finite(),
            forall|x: int| self@.contains(x) ==> 0 <= x < 0x10000000000000000,
            self.bitmap_len() == 0 <==> self@ == Set::<int>::empty(),
    {
        assert(self@.subset_of(vstd::set_lib::set_int_range(0, 0x10000000000000000)));
        vstd::set_lib::lemma_int_range(0, 0x10000000000000000);
        vstd::set_lib::lemma_len_subset(
            self@,
            vstd::set_lib::set_int_range(0, 0x10000000000000000),
        );
        self.lemma_bitmap_len_view();
    }

    /// The map holds no entry exactly when it holds no value.
    proof fn lemma_bitmap_len_view(&self)
        requires
            self.inv(),
        ensures
            self.bitmap_len() == 0 <==> self@ == Set::<int>::empty(),
    {
        vstd::std_specs::btree::axiom_btree_map_view_finite_dom(self.bitmaps);
        if self.bitmaps@.dom().len() != 0 {
            assert(!(self.bitmaps@.dom() =~= Set::<u32>::empty()));
            let k = self.bitmaps@.dom().choose();
            assert(self.bitmaps@.dom().contains(k));
            assert(!(self.bitmaps@[k]@ =~= Set::<int>::empty()));
            let y = self.bitmaps@[k]@.choose();
            assert(self.bitmaps@[k]@.contains(y));
            assert(self@.contains(k * half_span() + y)) by {
                vstd::arithmetic::div_mod::lemma_fundamental_div_mod_converse(
                    k * half_span() + y,
                    half_span(),
                    k as int,
                    y,
                );
                vstd::arithmetic::mul::lemma_mul_inequality(k as int, 0xFFFFFFFF, half_span());
            }
        } else {
            self.bitmaps@.dom().lemma_len0_is_empty();
            assert forall|y: int| !self@.contains(y) by {
                if self@.contains(y) {
                    assert(self.bitmaps@.dom().contains((y / half_span()) as u32));
                }
            }
            assert(self@ =~= Set::<int>::empty());
        }
    }

    /// Create an empty bitmap.
    pub fn new() -> (bm: Self)
        ensures
            bm@ == Set::<int>::empty(),
            bm.bitmap_len() == 0,
    {
        let bm = Bitmap { bitmaps: BTreeMap::new() };
        proof {
            assert(bm@ =~= Set::<int>::empty());
            assert(bm.bitmaps@.dom() =~= Set::<u32>::empty());
        }
        bm
    }

    /// Adds a value to the bitmap.
    ///
    /// If the bitmap did not have this value present, true is returned.
    /// If the bitmap did have this value present, false is returned.
    pub fn insert(&mut self, value: u64) -> (added: bool)
        ensures
            final(self)@ == old(self)@.insert(value as int),
            added == !old(self)@.contains(value as int),
            final(self).bitmap_len() == old(self).bitmap_len() + (if old(self).has_prefix(
                hi_of(value) as int,
            ) {
                0int
            } else {
                1int
            }),
    {
        proof {
            use_type_invariant(&*self);
            lemma_split_roundtrip(value);
        }
        let entry = Entry::from(value);
        let mut maps: BTreeMap<u32, RoaringBitmap> = BTreeMap::new();
        std::mem::swap(&mut maps, &mut self.bitmaps);
        let ghost m0 = maps@;
        let added = match maps.remove(&entry.hi) {
            Some(mut nested) => {
                proof {
                    use_type_invariant(&nested);
                }
                let added = nested.insert(entry.lo);
                proof {
                    use_type_invariant(&nested);
                    nested.lemma_view_bounds();
                }
                maps.insert(entry.hi, nested);
                proof {
                    assert(maps@ =~= m0.insert(entry.hi, nested));
                }
                added
            },
            None => {
                let mut nested = RoaringBitmap::new();
                nested.insert(entry.lo);
                proof {
                    use_type_invariant(&nested);
                    nested.lemma_view_bounds();
                }
                maps.insert(entry.hi, nested);
                proof {
                    assert(maps@ =~= m0.insert(entry.hi, nested));
                }
                true
            },
        };
        self.bitmaps = maps;
        proof {
            self.lemma_insert_view(m0, entry.hi, entry.lo, value);
            lemma_map_has_key_view(m0, entry.hi as int);
            if old(self).has_prefix(entry.hi as int) {
                assert(m0.dom().contains(entry.hi));
                assert(self.bitmaps@.dom() =~= m0.dom());
            } else {
                assert(!m0.dom().contains(entry.hi));
                assert(self.bitmaps@.dom() =~= m0.dom().insert(entry.hi));
            }
        }
        added
    }

    /// Replacing one prefix's nested bitmap with one more suffix inserts
    /// the combined value into the view.
    proof fn lemma_insert_view(&self, m0: Map<u32, RoaringBitmap>, hi: u32, lo: u32, value: u64)
        requires
            value == hi * half_span() + lo,
            self.bitmaps@.contains_key(hi),
            self.bitmaps@[hi]@ == (if m0.contains_key(hi) {
                m0[hi]@
            } else {
                Set::<int>::empty()
            }).insert(lo as int),
            forall|k: u32| k != hi ==> (#[trigger] self.bitmaps@.contains_key(k)
                == m0.contains_key(k) && (m0.contains_key(k) ==> self.bitmaps@[k] == m0[k])),
        ensures
            self@ == map_view(m0).insert(value as int),
    {
        lemma_split_roundtrip(value);
        assert forall|y: int|
            self@.contains(y) == map_view(m0).insert(value as int).contains(y) by {
            if 0 <= y < 0x10000000000000000 {
                vstd::arithmetic::div_mod::lemma_fundamental_div_mod(y, half_span());
                if (y / half_span()) as u32 == hi && 0 <= y / half_span() < 0x100000000 {
                    assert(y == hi * half_span() + y % half_span());
                    vstd::arithmetic::div_mod::lemma_fundamental_div_mod_converse(
                        y,
                        half_span(),
                        hi as int,
                        y % half_span(),
                    );
                }
            }
        }
        assert(self@ =~= map_view(m0).insert(value as int));
    }

    /// Removes a value from the bitmap.
    ///
    /// Returns whether the value was present or not; the nested bitmap
    /// covering the value's prefix is dropped when the value was its last
    /// element.
    #[verifier::rlimit(100)]
    pub fn remove(&mut self, value: u64) -> (removed: bool)
        ensures
            final(self)@ == old(self)@.remove(value as int),
            removed == old(self)@.contains(value as int),
            final(self).bitmap_len() == old(self).bitmap_len() - (if removed && (forall|y: int|
                old(self)@.contains(y) && y / half_span() == hi_of(value) ==> y == value as int) {
                1int
            } else {
                0int
            }),
    {
        proof {
            use_type_invariant(&*self);
            lemma_split_roundtrip(value);
        }
        let entry = Entry::from(value);
        let mut maps: BTreeMap<u32, RoaringBitmap> = BTreeMap::new();
        std::mem::swap(&mut maps, &mut self.bitmaps);
        let ghost m0 = maps@;
        let ghost x: int = value as int;
        let removed = match maps.remove(&entry.hi) {
            Some(mut nested) => {
                let ghost n0 = nested;
                proof {
                    use_type_invariant(&nested);
                }
                let removed = nested.remove(entry.lo);
                proof {
                    use_type_invariant(&nested);
                    nested.lemma_view_bounds();
                }
                let keep = !nested.is_empty();
                if keep {
                    let ghost n1 = nested;
                    maps.insert(entry.hi, nested);
                    proof {
                        assert(maps@ =~= m0.insert(entry.hi, n1));
                        self.lemma_nested_facts(m0, entry.hi, entry.lo, value);
                        assert forall|y: int|
                            map_view(maps@).contains(y) == map_view(m0).remove(x).contains(y) by {
                            if 0 <= y < 0x10000000000000000 {
                                vstd::arithmetic::div_mod::lemma_fundamental_div_mod(
                                    y,
                                    half_span(),
                                );
                                if (y / half_span()) as u32 == entry.hi && 0 <= y / half_span()
                                    < 0x100000000 {
                                    vstd::arithmetic::div_mod::lemma_fundamental_div_mod_converse(
                                        y,
                                        half_span(),
                                        entry.hi as int,
                                        y % half_span(),
                                    );
                                }
                            }
                        }
                        assert(map_view(maps@) =~= map_view(m0).remove(x));
                        assert(maps@.dom() =~= m0.dom());
                        assert(maps@.dom().len() == m0.dom().len());
                        if removed {
                            assert(!(n1@ =~= Set::<int>::empty()));
                            let w = n1@.choose();
                            assert(n1@.contains(w));
                            assert(n0@.contains(w) && w != entry.lo as int);
                            assert(map_view(m0).contains(entry.hi * half_span() + w)) by {
                                vstd::arithmetic::div_mod::lemma_fundamental_div_mod_converse(
                                    entry.hi * half_span() + w,
                                    half_span(),
                                    entry.hi as int,
                                    w,
                                );
                                vstd::arithmetic::mul::lemma_mul_inequality(
                                    entry.hi as int,
                                    0xFFFFFFFF,
                                    half_span(),
                                );
                            }
                            assert((entry.hi * half_span() + w) != x);
                            assert((entry.hi * half_span() + w) / half_span() == hi_of(value)) by {
                                vstd::arithmetic::div_mod::lemma_fundamental_div_mod_converse(
                                    entry.hi * half_span() + w,
                                    half_span(),
                                    entry.hi as int,
                                    w,
                                );
                            }
                            assert(old(self)@.contains(entry.hi * half_span() + w));
                            assert(!(forall|z: int|
                                old(self)@.contains(z) && z / half_span() == hi_of(value) ==> z
                                    == value as int));
                        }
                    }
                } else {
                    proof {
                        assert(nested@ =~= Set::<int>::empty());
                        assert(maps@ =~= m0.remove(entry.hi));
                        self.lemma_nested_facts(m0, entry.hi, entry.lo, value);
                        if !removed {
                            assert(n0@.remove(entry.lo as int) =~= n0@);
                            assert(n0@.is_empty());
                            assert(false);
                        }
                        assert forall|y: int|
                            map_view(maps@).contains(y) == map_view(m0).remove(x).contains(y) by {
                            if 0 <= y < 0x10000000000000000 {
                                vstd::arithmetic::div_mod::lemma_fundamental_div_mod(
                                    y,
                                    half_span(),
                                );
                                if (y / half_span()) as u32 == entry.hi && 0 <= y / half_span()
                                    < 0x100000000 {
                                    vstd::arithmetic::div_mod::lemma_fundamental_div_mod_converse(
                                        y,
                                        half_span(),
                                        entry.hi as int,
                                        y % half_span(),
                                    );
                                    assert(!(n0@.remove(entry.lo as int).contains(y % half_span(),
                                    )));
                                }
                            }
                        }
                        assert(map_view(maps@) =~= map_view(m0).remove(x));
                        assert(maps@.dom() =~= m0.dom().remove(entry.hi));
                        assert(m0.dom().finite());
                        assert(maps@.dom().len() == m0.dom().len() - 1);
                        assert forall|y: int|
                            old(self)@.contains(y) && y / half_span() == hi_of(
                                value,
                            ) implies y == value as int by {
                            assert(map_view(m0).contains(y));
                            vstd::arithmetic::div_mod::lemma_fundamental_div_mod(y, half_span());
                            assert(n0@.contains(y % half_span()));
                        }
                    }
                }
                removed
            },
            None => {
                proof {
                    assert(!m0.contains_key(entry.hi));
                    assert forall|y: int| !(map_view(m0).contains(y) && y / half_span()
                        == entry.hi) by {
                        if 0 <= y < 0x10000000000000000 && y / half_span() == entry.hi {
                            assert(!m0.contains_key((y / half_span()) as u32));
                        }
                    }
                    assert(!map_view(m0).contains(x)) by {
                        vstd::arithmetic::div_mod::lemma_fundamental_div_mod_converse(
                            x,
                            half_span(),
                            entry.hi as int,
                            entry.lo as int,
                        );
                        vstd::arithmetic::mul::lemma_mul_nonnegative(entry.hi as int, half_span());
                    }
                    assert(map_view(m0).remove(x) =~= map_view(m0));
                    assert(maps@ =~= m0);
                    assert(maps@.dom().len() == m0.dom().len());
                }
                false
            },
        };
        self.bitmaps = maps;
        removed
    }

    /// The values of one prefix within the whole view are the nested
    /// bitmap's, shifted.
    proof fn lemma_nested_facts(&self, m0: Map<u32, RoaringBitmap>, hi: u32, lo: u32, value: u64)
        requires
            value == hi * half_span() + lo,
            m0.contains_key(hi),
            nested_ok(m0[hi]),
        ensures
            map_view(m0).contains(value as int) == m0[hi]@.contains(lo as int),
            forall|v: int|
                0 <= v < half_span() ==> (map_view(m0).contains(hi * half_span() + v) == m0[
                    hi
                ]@.contains(v)),
    {
        vstd::arithmetic::mul::lemma_mul_inequality(hi as int, 0xFFFFFFFF, half_span());
        assert forall|v: int|
            0 <= v < half_span() implies (map_view(m0).contains(hi * half_span() + v) == m0[
            hi
        ]@.contains(v)) by {
            vstd::arithmetic::div_mod::lemma_fundamental_div_mod_converse(
                hi * half_span() + v,
                half_span(),
                hi as int,
                v,
            );
        }
    }

    /// Returns true if the bitmap contains the value.
    pub fn contains(&self, value: u64) -> (present: bool)
        ensures
            present == self@.contains(value as int),
    {
        proof {
            use_type_invariant(self);
            lemma_split_roundtrip(value);
        }
        let entry = Entry::from(value);
        match self.bitmaps.get(&entry.hi) {
            Some(nested) => {
                proof {
                    self.lemma_nested_facts(self.bitmaps@, entry.hi, entry.lo, value);
                }
                nested.contains(entry.lo)
            },
            None => {
                proof {
                    assert(!self@.contains(value as int)) by {
                        vstd::arithmetic::div_mod::lemma_fundamental_div_mod_converse(
                            value as int,
                            half_span(),
                            entry.hi as int,
                            entry.lo as int,
                        );
                        vstd::arithmetic::mul::lemma_mul_nonnegative(
                            entry.hi as int,
                            half_span(),
                        );
                    }
                }
                false
            },
        }
    }

    /// Computes the bitmap cardinality: the exact number of values held.
    ///
    /// The count must fit the machine word that carries it.
    pub fn cardinality(&self) -> (n: usize)
        requires
            self@.len() <= usize::MAX,
        ensures
            n == self@.len(),
            n == 0 <==> self@ == Set::<int>::empty(),
    {
        proof {
            use_type_invariant(self);
            self.lemma_view_bounds();
            if self@.len() == 0 {
                self@.lemma_len0_is_empty();
            }
        }
        let keys = prefixes(&self.bitmaps);
        let ghost m = self.bitmaps@;
        let ghost parts = map_parts(keys@, m);
        proof {
            lemma_map_parts(keys@, m);
            lemma_parts_union_finite(parts, half_span());
        }
        let mut acc: usize = 0;
        let mut i: usize = 0;
        while i < keys.len()
            invariant
                map_ok(m),
                m == self.bitmaps@,
                parts == map_parts(keys@, m),
                parts_wf(parts, half_span()),
                parts.len() == keys@.len(),
                forall|j: int| 0 <= j < keys@.len() ==> m.contains_key(#[trigger] keys@[j]),
                forall|j: int| 0 <= j < keys@.len() ==> parts[j] == entry_part(m, keys@[j]),
                parts_union(parts) == self@,
                self@.len() <= usize::MAX,
                i <= keys@.len(),
                acc == parts_union(parts.take(i as int)).len(),
            decreases keys@.len() - i,
        {
            proof {
                lemma_parts_union_finite(parts, half_span());
                lemma_parts_take_wf(parts, half_span(), i as int);
                lemma_parts_union_finite(parts.take(i as int), half_span());
                lemma_parts_prefix_disjoint(parts, half_span(), i as int);
                lemma_parts_take_step(parts, i as int);
                lemma_entry_part(m, keys@[i as int]);
                vstd::set_lib::lemma_set_disjoint_lens(
                    parts_union(parts.take(i as int)),
                    parts[i as int].elems,
                );
                assert(parts_union(parts.take(i as int)) + parts[i as int].elems == parts_union(
                    parts.take(i as int),
                ).union(parts[i as int].elems));
                lemma_parts_prefix_subset(parts, i + 1);
                vstd::set_lib::lemma_len_subset(
                    parts_union(parts.take(i + 1)),
                    parts_union(parts),
                );
                lemma_parts_prefix_subset(parts, i as int);
                vstd::set_lib::lemma_len_subset(
                    parts_union(parts.take(i as int)),
                    parts_union(parts),
                );
            }
            let k = keys[i];
            let card = match self.bitmaps.get(&k) {
                Some(nested) => {
                    proof {
                        use_type_invariant(nested);
                        nested.lemma_view_bounds();
                        assert(*nested == m[k]);
                    }
                    nested.cardinality()
                },
                None => {
                    proof {
                        assert(false);
                    }
                    0
                },
            };
            acc = acc + card;
            i = i + 1;
        }
        proof {
            lemma_parts_take_all(parts);
        }
        acc
    }

    /// Finds the smallest value in the bitmap.
    pub fn min(&self) -> (r: Option<u64>)
        ensures
            match r {
                Some(m) => self@.contains(m as int) && forall|x: int|
                    self@.contains(x) ==> m as int <= x,
                None => self@ == Set::<int>::empty(),
            },
    {
        proof {
            use_type_invariant(self);
        }
        let keys = prefixes(&self.bitmaps);
        let ghost m = self.bitmaps@;
        let ghost parts = map_parts(keys@, m);
        proof {
            lemma_map_parts(keys@, m);
        }
        if keys.len() == 0 {
            proof {
                assert(parts =~= Seq::<Part>::empty());
                assert(self@ =~= Set::<int>::empty());
            }
            return None;
        }
        let k = keys[0];
        let nested = match self.bitmaps.get(&k) {
            Some(nested) => nested,
            None => {
                proof {
                    assert(false);
                }
                return None;
            },
        };
        proof {
            use_type_invariant(nested);
            assert(*nested == m[k]);
        }
        match nested.min() {
            Some(local) => {
                proof {
                    vstd::arithmetic::mul::lemma_mul_inequality(k as int, 0xFFFFFFFF, half_span());
                }
                let value: u64 = (k as u64) * 0x100000000 + (local as u64);
                proof {
                    lemma_entry_part(m, k);
                    nested.lemma_view_bounds();
                    assert(parts[0].elems.contains(value as int));
                    lemma_parts_union_contains(parts, value as int);
                    assert forall|x: int| self@.contains(x) implies value as int <= x by {
                        lemma_parts_union_contains(parts, x);
                        let j = choose|j: int|
                            0 <= j < parts.len() && #[trigger] parts[j].elems.contains(x);
                        if j > 0 {
                            crate::keyspace::lemma_parts_below(parts, half_span(), j, 0, value as int);
                        } else {
                            assert(m[k]@.contains(x - k * half_span()));
                        }
                    }
                }
                Some(value)
            },
            None => {
                proof {
                    let y = m[k]@.choose();
                    assert(m[k]@.contains(y));
                    assert(false);
                }
                None
            },
        }
    }

    /// Finds the largest value in the bitmap.
    pub fn max(&self) -> (r: Option<u64>)
        ensures
            match r {
                Some(m) => self@.contains(m as int) && forall|x: int|
                    self@.contains(x) ==> x <= m as int,
                None => self@ == Set::<int>::empty(),
            },
    {
        proof {
            use_type_invariant(self);
        }
        let keys = prefixes(&self.bitmaps);
        let ghost m = self.bitmaps@;
        let ghost parts = map_parts(keys@, m);
        proof {
            lemma_map_parts(keys@, m);
        }
        if keys.len() == 0 {
            proof {
                assert(parts =~= Seq::<Part>::empty());
                assert(self@ =~= Set::<int>::empty());
            }
            return None;
        }
        let last = keys.len() - 1;
        let k = keys[last];
        let nested = match self.bitmaps.get(&k) {
            Some(nested) => nested,
            None => {
                proof {
                    assert(false);
                }
                return None;
            },
        };
        proof {
            use_type_invariant(nested);
            assert(*nested == m[k]);
        }
        match nested.max() {
            Some(local) => {
                proof {
                    vstd::arithmetic::mul::lemma_mul_inequality(k as int, 0xFFFFFFFF, half_span());
                }
                let value: u64 = (k as u64) * 0x100000000 + (local as u64);
                proof {
                    lemma_entry_part(m, k);
                    nested.lemma_view_bounds();
                    assert(parts[last as int].elems.contains(value as int));
                    lemma_parts_union_contains(parts, value as int);
                    assert forall|x: int| self@.contains(x) implies x <= value as int by {
                        lemma_parts_union_contains(parts, x);
                        let j = choose|j: int|
                            0 <= j < parts.len() && #[trigger] parts[j].elems.contains(x);
                        if j < last {
                            crate::keyspace::lemma_parts_below(parts, half_span(), last as int, j, x);
                            assert(parts[last as int].key * half_span() <= value as int + 0);
                        } else {
                            assert(m[k]@.contains(x - k * half_span()));
                        }
                    }
                }
                Some(value)
            },
            None => {
                proof {
                    let y = m[k]@.choose();
                    assert(m[k]@.contains(y));
                    assert(false);
                }
                None
            },
        }
    }

    /// Clears the bitmap, removing all values and their nested bitmaps.
    pub fn clear(&mut self)
        ensures
            final(self)@ == Set::<int>::empty(),
            final(self).bitmap_len() == 0,
    {
        self.bitmaps = BTreeMap::new();
        proof {
            assert(self@ =~= Set::<int>::empty());
            assert(self.bitmaps@.dom() =~= Set::<u32>::empty());
        }
    }

    /// Returns true if the bitmap contains no elements.
    pub fn is_empty(&self) -> (empty: bool)
        ensures
            empty == (self@ == Set::<int>::empty()),
            empty == (self.bitmap_len() == 0),
    {
        proof {
            use_type_invariant(self);
            self.lemma_bitmap_len_view();
            vstd::std_specs::btree::axiom_btree_map_view_finite_dom(self.bitmaps);
            if self.bitmaps@.dom().len() == 0 {
                self.bitmaps@.dom().lemma_len0_is_empty();
            } else {
                assert(!self.bitmaps@.is_empty()) by {
                    if self.bitmaps@.is_empty() {
                        assert(self.bitmaps@.dom() =~= Set::<u32>::empty());
                    }
                }
            }
        }
        self.bitmaps.is_empty()
    }

    /// Returns how many nested bitmaps are allocated: one per distinct
    /// 32-bit prefix among the held values.
    pub fn bitmap_count(&self) -> (n: usize)
        ensures
            n == self.bitmap_len(),
    {
        self.bitmaps.len()
    }
}

/// The in-memory size of a prefix map: a fixed key overhead beside each
/// nested bitmap's own size.
pub open spec fn map_mem(m: Map<u32, RoaringBitmap>) -> int
    decreases m.dom().len(),
{
    if !m.dom().finite() || m.dom().len() == 0 {
        0
    } else {
        let k = m.dom().choose();
        4 + m[k].mem_spec() + map_mem(m.remove(k))
    }
}

/// Removing any one entry takes away exactly its contribution.
proof fn lemma_map_mem_remove(m: Map<u32, RoaringBitmap>, k: u32)
    requires
        m.dom().finite(),
        m.dom().contains(k),
    ensures
        map_mem(m) == 4 + m[k].mem_spec() + map_mem(m.remove(k)),
    decreases m.dom().len(),
{
    let c = m.dom().choose();
    assert(m.dom().contains(c));
    if c == k {
    } else {
        let m1 = m.remove(c);
        assert(m1.dom().contains(k));
        lemma_map_mem_remove(m1, k);
        let m2 = m.remove(k);
        assert(m2.dom().contains(c));
        lemma_map_mem_remove(m2, c);
        assert(m2.remove(c) =~= m1.remove(k));
        assert(m2[c] == m[c] && m1[k] == m[k]);
    }
}

/// The in-memory size of an acceptable map is never negative.
proof fn lemma_map_mem_nonneg(m: Map<u32, RoaringBitmap>)
    requires
        map_ok(m),
        m.dom().finite(),
    ensures
        map_mem(m) >= 0,
    decreases m.dom().len(),
{
    if m.dom().len() != 0 {
        let k = m.dom().choose();
        assert(m.dom().contains(k));
        m[k].lemma_mem_nonneg();
        assert(map_ok(m.remove(k)));
        lemma_map_mem_nonneg(m.remove(k));
    }
}

impl Bitmap {
    /// The bitmap's approximate in-memory size, in bytes: a fixed overhead
    /// for the map, plus each entry's key and nested bitmap.
    pub closed spec fn mem_spec(&self) -> int {
        24 + map_mem(self.bitmaps@)
    }

    /// Returns the approximate in-memory size of the bitmap, in bytes.
    ///
    /// The total must fit the machine word that carries it.
    pub fn mem_size(&self) -> (r: usize)
        requires
            self.mem_spec() <= usize::MAX,
        ensures
            r == self.mem_spec(),
    {
        proof {
            use_type_invariant(self);
            assert(self.bitmaps@.dom().finite());
        }
        let keys = prefixes(&self.bitmaps);
        let ghost m = self.bitmaps@;
        let ghost total = map_mem(m);
        let mut acc: usize = 0;
        let mut i: usize = 0;
        let ghost mut rem = m;
        proof {
            lemma_map_mem_nonneg(rem);
        }
        while i < keys.len()
            invariant
                map_ok(m),
                m == self.bitmaps@,
                m.dom().finite(),
                total == map_mem(m),
                total + 24 <= usize::MAX,
                sorted_strict_u32(keys@),
                forall|j: int| 0 <= j < keys@.len() ==> m.contains_key(#[trigger] keys@[j]),
                forall|k: u32| #[trigger] m.contains_key(k) ==> keys@.contains(k),
                i <= keys@.len(),
                rem.dom().finite(),
                map_ok(rem),
                forall|j: int| 0 <= j < i ==> !rem.contains_key(#[trigger] keys@[j]),
                forall|j: int|
                    i <= j < keys@.len() ==> rem.contains_key(#[trigger] keys@[j]) && rem[keys@[
                        j
                    ]] == m[keys@[j]],
                forall|k: u32| #[trigger] rem.contains_key(k) ==> m.contains_key(k),
                acc == total - map_mem(rem),
                map_mem(rem) >= 0,
                acc <= total,
            decreases keys@.len() - i,
        {
            let k = keys[i];
            proof {
                assert(rem.contains_key(k));
                lemma_map_mem_remove(rem, k);
                assert(map_ok(rem.remove(k)));
                lemma_map_mem_nonneg(rem.remove(k));
            }
            let nested_mem = match self.bitmaps.get(&k) {
                Some(nested) => {
                    proof {
                        use_type_invariant(nested);
                        assert(*nested == m[k]);
                        nested.lemma_mem_nonneg();
                    }
                    nested.mem_size()
                },
                None => {
                    proof {
                        assert(false);
                    }
                    0
                },
            };
            acc = acc + 4 + nested_mem;
            i = i + 1;
            proof {
                rem = rem.remove(k);
                assert forall|j: int| 0 <= j < i implies !rem.contains_key(
                    #[trigger] keys@[j],
                ) by {
                    if j < i - 1 {
                        assert(!(rem.insert(k, m[k]).contains_key(keys@[j])) || keys@[j] == k);
                    }
                }
            }
        }
        proof {
            assert forall|k: u32| !(#[trigger] rem.contains_key(k)) by {
                if rem.contains_key(k) {
                    assert(m.contains_key(k));
                    assert(keys@.contains(k));
                    let j = choose|j: int| 0 <= j < keys@.len() && keys@[j] == k;
                    assert(!rem.contains_key(keys@[j]));
                }
            }
            assert(rem.dom() =~= Set::<u32>::empty());
            assert(map_mem(rem) == 0);
        }
        24 + acc
    }
}

impl Bitmap {
    /// Collects the values of the bitmap, in ascending order.
    pub fn to_vec(&self) -> (r: Vec<u64>)
        ensures
            crate::chunk::sorted_strict_u64(r@),
            crate::chunk::elems_of_u64_seq(r@) == self@,
            r@.len() == self@.len(),
    {
        proof {
            use_type_invariant(self);
        }
        let keys = prefixes(&self.bitmaps);
        let ghost m = self.bitmaps@;
        let ghost parts = map_parts(keys@, m);
        proof {
            lemma_map_parts(keys@, m);
        }
        let mut r: Vec<u64> = Vec::new();
        let mut i: usize = 0;
        while i < keys.len()
            invariant
                map_ok(m),
                m == self.bitmaps@,
                parts == map_parts(keys@, m),
                parts_wf(parts, half_span()),
                parts.len() == keys@.len(),
                forall|j: int| 0 <= j < keys@.len() ==> m.contains_key(#[trigger] keys@[j]),
                forall|j: int| 0 <= j < keys@.len() ==> parts[j] == entry_part(m, keys@[j]),
                parts_union(parts) == self@,
                sorted_strict_u32(keys@),
                i <= keys@.len(),
                crate::chunk::sorted_strict_u64(r@),
                crate::chunk::elems_of_u64_seq(r@) == parts_union(parts.take(i as int)),
                forall|k2: int|
                    0 <= k2 < r@.len() && i < keys@.len() ==> (r@[k2] as int) < keys@[i as int]
                        * half_span(),
            decreases keys@.len() - i,
        {
            let k = keys[i];
            let ghost base = k * half_span();
            let nested = match self.bitmaps.get(&k) {
                Some(nested) => nested,
                None => {
                    proof {
                        assert(false);
                    }
                    return r;
                },
            };
            proof {
                use_type_invariant(nested);
                assert(*nested == m[k]);
                vstd::arithmetic::mul::lemma_mul_inequality(k as int, 0xFFFFFFFF, half_span());
                lemma_entry_part(m, k);
            }
            let locals = nested.to_vec();
            let ghost r0 = r@;
            let mut j: usize = 0;
            while j < locals.len()
                invariant
                    map_ok(m),
                    i < keys@.len(),
                    m.contains_key(keys@[i as int]),
                    k == keys@[i as int],
                    base == k * half_span(),
                    0 <= base,
                    k * half_span() + half_span() <= 0x10000000000000000,
                    sorted_strict_u32(locals@),
                    elems_of_u32_seq(locals@) == m[k]@,
                    forall|v: int|
                        0 <= v < half_span() ==> (entry_part(m, k).elems.contains(base + v) == m[
                            k
                        ]@.contains(v)),
                    j <= locals@.len(),
                    r@.len() == r0.len() + j,
                    forall|k2: int| 0 <= k2 < r0.len() ==> r@[k2] == r0[k2],
                    forall|l: int| 0 <= l < j ==> (r@[r0.len() + l] as int) == base + locals@[l],
                    forall|k2: int| 0 <= k2 < r0.len() ==> (r0[k2] as int) < base,
                    crate::chunk::sorted_strict_u64(r@),
                decreases locals@.len() - j,
            {
                let v = locals[j];
                let value: u64 = (k as u64) * 0x100000000 + (v as u64);
                let ghost rp = r@;
                r.push(value);
                proof {
                    assert forall|a: int, b: int| 0 <= a < b < r@.len() implies r@[a] < r@[b] by {
                        if b < r@.len() - 1 {
                            assert(rp[a] < rp[b]);
                        } else {
                            if a < r0.len() {
                                assert(r@[a] == rp[a] && rp[a] == r0[a]);
                                assert((r@[a] as int) < base);
                            } else {
                                assert((r@[a] as int) == base + locals@[a - r0.len()]);
                                assert(locals@[a - r0.len()] < locals@[j as int]);
                            }
                        }
                    }
                }
                j = j + 1;
            }
            proof {
                lemma_parts_take_step(parts, i as int);
                assert forall|y: int|
                    crate::chunk::elems_of_u64_seq(r@).contains(y) == parts_union(
                        parts.take(i as int + 1),
                    ).contains(y) by {
                    crate::chunk::lemma_u64_elems_contains(r@, y);
                    crate::chunk::lemma_u64_elems_contains(r0, y);
                    lemma_u32_elems_contains(locals@, y - base);
                    if exists|idx: int| 0 <= idx < r@.len() && r@[idx] == y {
                        let idx = choose|idx: int| 0 <= idx < r@.len() && r@[idx] == y;
                        if idx < r0.len() {
                            assert(r0[idx] == y);
                            assert(crate::chunk::elems_of_u64_seq(r0).contains(y));
                        } else {
                            let l = idx - r0.len();
                            assert(y == base + locals@[l]);
                            assert(elems_of_u32_seq(locals@).contains(y - base));
                            assert(m[k]@.contains(y - base));
                            assert(parts[i as int].elems.contains(y));
                        }
                    }
                    if parts_union(parts.take(i as int)).contains(y) {
                        let idx = choose|idx: int| 0 <= idx < r0.len() && r0[idx] == y;
                        assert(r@[idx] == y);
                    }
                    if parts[i as int].elems.contains(y) {
                        assert(part_wf(parts[i as int], half_span()));
                        assert(0 <= y - base < half_span());
                        assert(m[k]@.contains(y - base));
                        assert(elems_of_u32_seq(locals@).contains(y - base));
                        let l = choose|l: int| 0 <= l < locals@.len() && locals@[l] == y - base;
                        assert((r@[r0.len() + l] as int) == y);
                    }
                }
                assert(crate::chunk::elems_of_u64_seq(r@) =~= parts_union(
                    parts.take(i as int + 1),
                ));
                if i + 1 < keys@.len() {
                    let nb = keys@[i as int + 1] * half_span();
                    assert((k + 1) * half_span() <= keys@[i as int + 1] * half_span()) by {
                        vstd::arithmetic::mul::lemma_mul_inequality(
                            k as int + 1,
                            keys@[i as int + 1] as int,
                            half_span(),
                        );
                    }
                    assert((k + 1) * half_span() == k * half_span() + half_span()) by {
                        vstd::arithmetic::mul::lemma_mul_is_distributive_add_other_way(
                            half_span(),
                            k as int,
                            1,
                        );
                    }
                    assert forall|k2: int| 0 <= k2 < r@.len() implies (r@[k2] as int) < nb by {
                        if k2 < r0.len() {
                            assert(r@[k2] == r0[k2]);
                            assert((r@[k2] as int) < base);
                        } else {
                            assert((r@[k2] as int) == base + locals@[k2 - r0.len()]);
                        }
                    }
                }
            }
            i = i + 1;
        }
        proof {
            lemma_parts_take_all(parts);
            crate::chunk::lemma_u64_sorted_len(r@);
        }
        r
    }

    /// Gets an iterator that visits the values in the bitmap in ascending
    /// order, with an exact remaining count.
    pub fn iter(&self) -> (it: crate::roaring_tree_map::iter::Iter)
        ensures
            crate::chunk::sorted_strict_u64(it.vals()),
            crate::chunk::elems_of_u64_seq(it.vals()) == self@,
            it.vals().len() == self@.len(),
            it.at() == 0,
    {
        crate::roaring_tree_map::iter::Iter::new(self.to_vec())
    }
}

} // verus!
