//! Splitting a 64-bit value into a 48-bit prefix and a 16-bit suffix, and
//! back.

use vstd::prelude::*;

verus! {

/// The 48 most significant bits of a 64-bit value.
pub open spec fn hi_of(value: u64) -> u64 {
    (value / 65536) as u64
}

/// The 16 least significant bits of a 64-bit value.
pub open spec fn lo_of(value: u64) -> u16 {
    (value % 65536) as u16
}

/// The value assembled from a 48-bit prefix and a 16-bit suffix.
pub open spec fn combined(hi: u64, lo: u16) -> int {
    hi * 65536 + lo
}

/// The prefix fits in 48 bits.
pub proof fn lemma_hi_bound(value: u64)
    ensures
        hi_of(value) < 0x1000000000000,
{
    assert(value / 65536 < 0x1000000000000) by (nonlinear_arith)
        requires
            0 <= value < 0x10000000000000000,
    ;
}

/// Splitting a value and combining the halves gives the value back.
pub proof fn lemma_split_roundtrip(value: u64)
    ensures
        combined(hi_of(value), lo_of(value)) == value,
{
    vstd::arithmetic::div_mod::lemma_fundamental_div_mod(value as int, 65536);
}

/// Combining a genuine 48-bit prefix with a suffix and splitting the result
/// returns the halves: the split is a bijection.
pub proof fn lemma_combine_roundtrip(hi: u64, lo: u16)
    requires
        hi < 0x1000000000000,
    ensures
        hi_of(combined(hi, lo) as u64) == hi,
        lo_of(combined(hi, lo) as u64) == lo,
        0 <= combined(hi, lo) < 0x10000000000000000,
{
    vstd::arithmetic::div_mod::lemma_fundamental_div_mod_converse(
        combined(hi, lo),
        65536,
        hi as int,
        lo as int,
    );
    vstd::arithmetic::mul::lemma_mul_nonnegative(hi as int, 65536);
    vstd::arithmetic::mul::lemma_mul_inequality(hi as int, 0xFFFFFFFFFFFF, 65536);
}

/// `RoaringTwoLevels` bitmap entry.
pub struct Entry {
    /// Most significant bits (48).
    pub hi: u64,
    /// Least significant bits (16).
    pub lo: u16,
}

impl Entry {
    /// Initialize a new entry from its lower and higher parts.
    pub fn from_parts(hi: u64, lo: u16) -> (e: Self)
        ensures
            e.hi == hi,
            e.lo == lo,
    {
        Entry { hi, lo }
    }
}

impl From<u64> for Entry {
    /// Splits a value into its prefix and suffix.
    fn from(value: u64) -> (e: Self) {
        proof {
            assert(value >> 16u64 == value / 65536) by (bit_vector);
            assert(value & 0xFFFF == value % 65536) by (bit_vector);
        }
        Entry::from_parts(value >> 16, (value & 0xFFFF) as u16)
    }
}

impl vstd::std_specs::convert::FromSpecImpl<u64> for Entry {
    open spec fn obeys_from_spec() -> bool {
        true
    }

    open spec fn from_spec(value: u64) -> Entry {
        Entry { hi: hi_of(value), lo: lo_of(value) }
    }
}

/// With a genuine 48-bit prefix, the assembled shift-or equals the
/// arithmetic combination.
pub proof fn lemma_combine_shift(hi: u64, lo: u16)
    requires
        hi < 0x1000000000000,
    ensures
        ((hi << 16) | (lo as u64)) == combined(hi, lo),
{
    let lo64 = lo as u64;
    assert((hi << 16u64) | lo64 == hi * 65536 + lo64) by (bit_vector)
        requires
            hi < 0x1000000000000,
            lo64 < 0x10000,
    ;
}

impl From<Entry> for u64 {
    /// Assembles the value back from its prefix and suffix.
    fn from(entry: Entry) -> (value: Self) {
        entry.hi << 16 | (entry.lo as u64)
    }
}

impl vstd::std_specs::convert::FromSpecImpl<Entry> for u64 {
    open spec fn obeys_from_spec() -> bool {
        true
    }

    open spec fn from_spec(entry: Entry) -> u64 {
        (entry.hi << 16) | (entry.lo as u64)
    }
}

} // verus!
