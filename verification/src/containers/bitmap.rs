//! The dense container: a fixed vector of 65536 bits.

use vstd::prelude::*;

use crate::containers::array::Array;
use crate::containers::{elems_of_seq, lemma_elems_of_seq_contains, lemma_elems_of_seq_insert,
    sorted_strict, value_span};

verus! {

/// Bitmap size, in 64-bit words.
pub const BITMAP_WORD_COUNT: usize = 1024;

/// Fixed in-memory size of a bitmap, in bytes: the vector overhead plus
/// eight bytes per word.
pub const BITMAP_MEM_BYTES: usize = 24 + 8 * 1024;

/// Whether bit `b` of word `w` is set.
pub open spec fn word_bit(w: u64, b: int) -> bool {
    (w >> (b as u64)) & 1u64 == 1u64
}

/// Setting one bit leaves every other bit as it was.
proof fn lemma_word_bit_set(w: u64, b: u64, c: u64)
    requires
        b < 64,
        c < 64,
    ensures
        b == c ==> word_bit(w | (1u64 << b), c as int),
        b != c ==> word_bit(w | (1u64 << b), c as int) == word_bit(w, c as int),
{
    assert(((w | (1u64 << b)) >> b) & 1u64 == 1u64) by (bit_vector)
        requires
            b < 64,
    ;
    assert(b != c ==> ((w | (1u64 << b)) >> c) & 1u64 == (w >> c) & 1u64) by (bit_vector)
        requires
            b < 64,
            c < 64,
    ;
}

/// Clearing one bit leaves every other bit as it was.
proof fn lemma_word_bit_clear(w: u64, b: u64, c: u64)
    requires
        b < 64,
        c < 64,
    ensures
        b == c ==> !word_bit(w & !(1u64 << b), c as int),
        b != c ==> word_bit(w & !(1u64 << b), c as int) == word_bit(w, c as int),
{
    assert(((w & !(1u64 << b)) >> b) & 1u64 == 0u64) by (bit_vector)
        requires
            b < 64,
    ;
    assert(b != c ==> ((w & !(1u64 << b)) >> c) & 1u64 == (w >> c) & 1u64) by (bit_vector)
        requires
            b < 64,
            c < 64,
    ;
}

/// A masked-out bit is either zero or one.
proof fn lemma_bit_01(w: u64, c: u64)
    requires
        c < 64,
    ensures
        (w >> c) & 1u64 == 0u64 || (w >> c) & 1u64 == 1u64,
{
    assert((w >> c) & 1u64 == 0u64 || (w >> c) & 1u64 == 1u64) by (bit_vector);
}

/// The zero word has no bit set.
proof fn lemma_word_bit_zero(c: u64)
    requires
        c < 64,
    ensures
        !word_bit(0u64, c as int),
{
    assert((0u64 >> c) & 1u64 == 0u64) by (bit_vector);
}

/// The quotient and remainder by 64 determine the value.
proof fn lemma_split_64(x: int)
    requires
        0 <= x,
    ensures
        x == (x / 64) * 64 + x % 64,
        0 <= x % 64 < 64,
        x / 64 >= 0,
{
    vstd::arithmetic::div_mod::lemma_fundamental_div_mod(x, 64);
}

/// 2¹⁶-bit bitmap.
pub struct Bitmap {
    words: Vec<u64>,
}

impl Bitmap {
    /// The backing words.
    pub closed spec fn wds(&self) -> Seq<u64> {
        self.words@
    }

    /// The bitmap holds exactly its fixed number of words.
    pub open spec fn wf(&self) -> bool {
        self.wds().len() == BITMAP_WORD_COUNT
    }

    /// The set of integers held: the positions of the set bits.
    pub closed spec fn elems(&self) -> Set<int> {
        Set::new(|x: int| 0 <= x < value_span() && word_bit(self.wds()[x / 64], x % 64))
    }

    /// Membership unfolded to word and bit position.
    pub proof fn lemma_elems_at(&self, x: int)
        requires
            0 <= x < value_span(),
        ensures
            self.elems().contains(x) == word_bit(self.wds()[x / 64], x % 64),
    {
    }

    /// The element set is finite and within the 16-bit range.
    pub proof fn lemma_elems_in_range(&self)
        requires
            self.wf(),
        ensures
            self.elems().finite(),
            forall|x: int| self.elems().contains(x) ==> 0 <= x < value_span(),
    {
        assert(self.elems().subset_of(vstd::set_lib::set_int_range(0, value_span())));
        vstd::set_lib::lemma_int_range(0, value_span());
        vstd::set_lib::lemma_len_subset(
            self.elems(),
            vstd::set_lib::set_int_range(0, value_span()),
        );
    }

    /// Initializes a new empty bitmap.
    pub fn new() -> (bm: Self)
        ensures
            bm.wf(),
            bm.elems() == Set::<int>::empty(),
    {
        let mut words: Vec<u64> = Vec::new();
        let mut i: usize = 0;
        while i < BITMAP_WORD_COUNT
            invariant
                i <= BITMAP_WORD_COUNT,
                words@.len() == i,
                forall|j: int| 0 <= j < i ==> words@[j] == 0u64,
            decreases BITMAP_WORD_COUNT - i,
        {
            words.push(0u64);
            i = i + 1;
        }
        let bm = Bitmap { words };
        proof {
            assert forall|x: int| !bm.elems().contains(x) by {
                if 0 <= x < value_span() {
                    lemma_split_64(x);
                    assert(x / 64 < 1024) by {
                        vstd::arithmetic::div_mod::lemma_div_is_ordered(x, value_span() - 1, 64);
                    }
                    lemma_word_bit_zero((x % 64) as u64);
                }
            }
            assert(bm.elems() =~= Set::<int>::empty());
        }
        bm
    }

    /// Adds a value to the bitmap.
    ///
    /// If the bitmap did not have this value present, true is returned.
    /// If the bitmap did have this value present, false is returned.
    pub fn insert(&mut self, value: u16) -> (added: bool)
        requires
            old(self).wf(),
        ensures
            final(self).wf(),
            final(self).elems() == old(self).elems().insert(value as int),
            added == !old(self).elems().contains(value as int),
    {
        let w: usize = (value / 64) as usize;
        let b: u16 = value % 64;
        let word = self.words[w];
        let exists_bit = (word >> (b as u64)) & 1u64 == 1;
        proof {
            lemma_split_64(value as int);
            self.lemma_elems_at(value as int);
        }
        if exists_bit {
            proof {
                assert(self.elems().insert(value as int) =~= self.elems());
            }
            false
        } else {
            let ghost olds = *self;
            self.words[w] = word | (1u64 << (b as u64));
            proof {
                assert forall|x: int| #[trigger] self.elems().contains(x) <==> olds.elems().insert(
                    value as int,
                ).contains(x) by {
                    if 0 <= x < value_span() {
                        lemma_split_64(x);
                        if x / 64 == w {
                            lemma_word_bit_set(word, b as u64, (x % 64) as u64);
                        }
                    }
                }
                assert(self.elems() =~= olds.elems().insert(value as int));
            }
            true
        }
    }

    /// Removes a value from the bitmap.
    ///
    /// Returns whether the value was present or not.
    pub fn remove(&mut self, value: u16) -> (removed: bool)
        requires
            old(self).wf(),
        ensures
            final(self).wf(),
            final(self).elems() == old(self).elems().remove(value as int),
            removed == old(self).elems().contains(value as int),
    {
        let w: usize = (value / 64) as usize;
        let b: u16 = value % 64;
        let word = self.words[w];
        let exists_bit = (word >> (b as u64)) & 1u64 == 1;
        proof {
            lemma_split_64(value as int);
            self.lemma_elems_at(value as int);
        }
        if exists_bit {
            let ghost olds = *self;
            self.words[w] = word & !(1u64 << (b as u64));
            proof {
                assert forall|x: int| #[trigger] self.elems().contains(x) <==> olds.elems().remove(
                    value as int,
                ).contains(x) by {
                    if 0 <= x < value_span() {
                        lemma_split_64(x);
                        if x / 64 == w {
                            lemma_word_bit_clear(word, b as u64, (x % 64) as u64);
                        }
                    }
                }
                assert(self.elems() =~= olds.elems().remove(value as int));
            }
            true
        } else {
            proof {
                assert(self.elems().remove(value as int) =~= self.elems());
            }
            false
        }
    }

    /// Returns true if the bitmap contains the value.
    pub fn contains(&self, value: u16) -> (present: bool)
        requires
            self.wf(),
        ensures
            present == self.elems().contains(value as int),
    {
        let w: usize = (value / 64) as usize;
        let b: u16 = value % 64;
        proof {
            lemma_split_64(value as int);
            self.lemma_elems_at(value as int);
        }
        (self.words[w] >> (b as u64)) & 1u64 == 1
    }

    /// Finds the smallest value in the bitmap.
    pub fn min(&self) -> (r: Option<u16>)
        requires
            self.wf(),
        ensures
            match r {
                Some(m) => self.elems().contains(m as int) && forall|x: int|
                    self.elems().contains(x) ==> m as int <= x,
                None => self.elems().is_empty(),
            },
    {
        let mut i: usize = 0;
        while i < BITMAP_WORD_COUNT
            invariant
                self.wf(),
                i <= BITMAP_WORD_COUNT,
                forall|j: int| 0 <= j < i ==> self.wds()[j] == 0u64,
            decreases BITMAP_WORD_COUNT - i,
        {
            let word = self.words[i];
            if word != 0 {
                let tz: u16 = word.trailing_zeros() as u16;
                proof {
                    vstd::std_specs::bits::axiom_u64_trailing_zeros(word);
                }
                let value: u16 = (i as u16) * 64 + tz;
                proof {
                    self.lemma_min_at(i as int, tz as int, value as int);
                }
                return Some(value);
            }
            i = i + 1;
        }
        proof {
            assert forall|x: int| !self.elems().contains(x) by {
                if 0 <= x < value_span() {
                    lemma_split_64(x);
                    assert(x / 64 < 1024) by {
                        vstd::arithmetic::div_mod::lemma_div_is_ordered(x, value_span() - 1, 64);
                    }
                    lemma_word_bit_zero((x % 64) as u64);
                }
            }
            assert(self.elems() =~= Set::<int>::empty());
        }
        None
    }

    /// The first set bit of the first nonzero word is the smallest element.
    proof fn lemma_min_at(&self, i: int, tz: int, value: int)
        requires
            self.wf(),
            0 <= i < 1024,
            forall|j: int| 0 <= j < i ==> self.wds()[j] == 0u64,
            self.wds()[i] != 0,
            0 <= tz < 64,
            word_bit(self.wds()[i], tz),
            forall|c: u64| c < tz ==> #[trigger] ((self.wds()[i] >> c) & 1u64) == 0u64,
            value == i * 64 + tz,
        ensures
            self.elems().contains(value),
            forall|x: int| self.elems().contains(x) ==> value <= x,
    {
        lemma_split_64(value);
        assert(value / 64 == i && value % 64 == tz) by {
            vstd::arithmetic::div_mod::lemma_fundamental_div_mod_converse(value, 64, i, tz);
        }
        assert(value < value_span());
        assert(self.elems().contains(value));
        assert forall|x: int| self.elems().contains(x) implies value <= x by {
            lemma_split_64(x);
            let wx = x / 64;
            let bx = x % 64;
            if wx < i {
                lemma_word_bit_zero(bx as u64);
            } else if wx == i {
                if bx < tz {
                    assert(((self.wds()[i] >> (bx as u64)) & 1u64) == 0u64);
                }
            } else {
                assert(x >= (i + 1) * 64) by (nonlinear_arith)
                    requires
                        wx >= i + 1,
                        x == wx * 64 + bx,
                        bx >= 0,
                ;
            }
        }
    }

    /// Finds the largest value in the bitmap.
    pub fn max(&self) -> (r: Option<u16>)
        requires
            self.wf(),
        ensures
            match r {
                Some(m) => self.elems().contains(m as int) && forall|x: int|
                    self.elems().contains(x) ==> x <= m as int,
                None => self.elems().is_empty(),
            },
    {
        let mut i: usize = BITMAP_WORD_COUNT;
        while i > 0
            invariant
                self.wf(),
                i <= BITMAP_WORD_COUNT,
                forall|j: int| i <= j < 1024 ==> self.wds()[j] == 0u64,
            decreases i,
        {
            i = i - 1;
            let word = self.words[i];
            if word != 0 {
                let lz: u16 = word.leading_zeros() as u16;
                proof {
                    vstd::std_specs::bits::axiom_u64_leading_zeros(word);
                }
                let head: u16 = 64 - 1 - lz;
                let value: u16 = (i as u16) * 64 + head;
                proof {
                    lemma_bit_01(word, head as u64);
                    self.lemma_max_at(i as int, head as int, value as int);
                }
                return Some(value);
            }
        }
        proof {
            assert forall|x: int| !self.elems().contains(x) by {
                if 0 <= x < value_span() {
                    lemma_split_64(x);
                    assert(x / 64 < 1024) by {
                        vstd::arithmetic::div_mod::lemma_div_is_ordered(x, value_span() - 1, 64);
                    }
                    lemma_word_bit_zero((x % 64) as u64);
                }
            }
            assert(self.elems() =~= Set::<int>::empty());
        }
        None
    }

    /// The last set bit of the last nonzero word is the largest element.
    proof fn lemma_max_at(&self, i: int, head: int, value: int)
        requires
            self.wf(),
            0 <= i < 1024,
            forall|j: int| i < j < 1024 ==> self.wds()[j] == 0u64,
            self.wds()[i] != 0,
            0 <= head < 64,
            word_bit(self.wds()[i], head),
            forall|c: u64| head < c < 64 ==> #[trigger] ((self.wds()[i] >> c) & 1u64) == 0u64,
            value == i * 64 + head,
        ensures
            self.elems().contains(value),
            forall|x: int| self.elems().contains(x) ==> x <= value,
    {
        lemma_split_64(value);
        assert(value / 64 == i && value % 64 == head) by {
            vstd::arithmetic::div_mod::lemma_fundamental_div_mod_converse(value, 64, i, head);
        }
        assert(value < value_span());
        assert(self.elems().contains(value));
        assert forall|x: int| self.elems().contains(x) implies x <= value by {
            lemma_split_64(x);
            let wx = x / 64;
            let bx = x % 64;
            if wx > i {
                lemma_word_bit_zero(bx as u64);
            } else if wx == i {
                if bx > head {
                    assert(((self.wds()[i] >> (bx as u64)) & 1u64) == 0u64);
                }
            } else {
                assert(x < i * 64) by (nonlinear_arith)
                    requires
                        wx <= i - 1,
                        x == wx * 64 + bx,
                        bx < 64,
                ;
            }
        }
    }

    /// The elements below a bound.
    spec fn elems_below(&self, bound: int) -> Set<int> {
        Set::new(|x: int| self.elems().contains(x) && x < bound)
    }

    /// Collects the values of the bitmap, in ascending order.
    pub fn to_vec(&self) -> (r: Vec<u16>)
        requires
            self.wf(),
        ensures
            sorted_strict(r@),
            elems_of_seq(r@) == self.elems(),
    {
        let mut r: Vec<u16> = Vec::new();
        let mut i: usize = 0;
        while i < BITMAP_WORD_COUNT
            invariant
                self.wf(),
                i <= BITMAP_WORD_COUNT,
                sorted_strict(r@),
                forall|k: int| 0 <= k < r@.len() ==> (r@[k] as int) < i * 64,
                elems_of_seq(r@) == self.elems_below(i * 64),
            decreases BITMAP_WORD_COUNT - i,
        {
            let word = self.words[i];
            let mut b: usize = 0;
            while b < 64
                invariant
                    self.wf(),
                    i < BITMAP_WORD_COUNT,
                    b <= 64,
                    word == self.wds()[i as int],
                    sorted_strict(r@),
                    forall|k: int| 0 <= k < r@.len() ==> (r@[k] as int) < i * 64 + b,
                    elems_of_seq(r@) == self.elems_below(i * 64 + b),
                decreases 64 - b,
            {
                let ghost m = i * 64 + b;
                proof {
                    assert(m < value_span());
                    assert(m / 64 == i && m % 64 == b) by {
                        vstd::arithmetic::div_mod::lemma_fundamental_div_mod_converse(
                            m as int,
                            64,
                            i as int,
                            b as int,
                        );
                    }
                    self.lemma_elems_at(m as int);
                }
                if (word >> (b as u64)) & 1u64 == 1 {
                    let value: u16 = ((i * 64 + b) as u16);
                    let ghost olds = r@;
                    r.push(value);
                    proof {
                        assert(olds.insert(olds.len() as int, value) =~= olds.push(value));
                        lemma_elems_of_seq_insert(olds, olds.len() as int, value);
                        assert(elems_of_seq(r@) =~= self.elems_below(m + 1));
                    }
                } else {
                    proof {
                        assert(elems_of_seq(r@) =~= self.elems_below(m + 1));
                    }
                }
                b = b + 1;
            }
            i = i + 1;
        }
        proof {
            assert(elems_of_seq(r@) =~= self.elems());
        }
        r
    }

    /// Builds the bitmap holding exactly the array's values.
    pub fn from_array(array: &Array) -> (bm: Self)
        requires
            array.wf(),
        ensures
            bm.wf(),
            bm.elems() == array.elems(),
    {
        let vals = array.to_vec();
        let mut bm = Bitmap::new();
        let mut i: usize = 0;
        while i < vals.len()
            invariant
                bm.wf(),
                i <= vals@.len(),
                bm.elems() == elems_of_seq(vals@.take(i as int)),
            decreases vals@.len() - i,
        {
            let v = vals[i];
            bm.insert(v);
            proof {
                assert(vals@.take(i as int).insert(i as int, v) =~= vals@.take(i + 1));
                lemma_elems_of_seq_insert(vals@.take(i as int), i as int, v);
            }
            i = i + 1;
        }
        proof {
            assert(vals@.take(vals@.len() as int) =~= vals@);
        }
        bm
    }

    /// Returns the approximate in-memory size of the bitmap, in bytes; it
    /// does not depend on the population.
    pub fn mem_size(&self) -> (r: usize)
        ensures
            r == BITMAP_MEM_BYTES,
    {
        BITMAP_MEM_BYTES
    }
}

} // verus!
