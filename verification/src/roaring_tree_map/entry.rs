//! Splitting a 64-bit value into two 32-bit halves, and back.

use vstd::prelude::*;

verus! {

/// The span of one 32-bit half: the number of values it can take.
#[verifier::inline]
pub open spec fn half_span() -> int {
    0x100000000
}

/// The 32 most significant bits of a 64-bit value.
pub open spec fn hi_of(value: u64) -> u32 {
    (value / 0x100000000) as u32
}

/// The 32 least significant bits of a 64-bit value.
pub open spec fn lo_of(value: u64) -> u32 {
    (value % 0x100000000) as u32
}

/// The value assembled from two 32-bit halves.
pub open spec fn combined(hi: u32, lo: u32) -> int {
    hi * 0x100000000 + lo
}

/// Splitting a value and combining the halves gives the value back.
pub proof fn lemma_split_roundtrip(value: u64)
    ensures
        combined(hi_of(value), lo_of(value)) == value,
{
    vstd::arithmetic::div_mod::lemma_fundamental_div_mod(value as int, 0x100000000);
}

/// Combining two halves and splitting the result returns the halves: the
/// split is a bijection.
pub proof fn lemma_combine_roundtrip(hi: u32, lo: u32)
    ensures
        hi_of(combined(hi, lo) as u64) == hi,
        lo_of(combined(hi, lo) as u64) == lo,
        0 <= combined(hi, lo) < 0x10000000000000000,
{
    vstd::arithmetic::div_mod::lemma_fundamental_div_mod_converse(
        combined(hi, lo),
        0x100000000,
        hi as int,
        lo as int,
    );
    vstd::arithmetic::mul::lemma_mul_nonnegative(hi as int, 0x100000000);
    vstd::arithmetic::mul::lemma_mul_inequality(hi as int, 0xFFFFFFFF, 0x100000000);
}

/// `RoaringTreeMap` entry.
pub struct Entry {
    /// Most significant bits.
    pub hi: u32,
    /// Least significant bits.
    pub lo: u32,
}

impl Entry {
    /// Initialize a new entry from its lower and higher parts.
    pub fn from_parts(hi: u32, lo: u32) -> (e: Self)
        ensures
            e.hi == hi,
            e.lo == lo,
    {
        Entry { hi, lo }
    }
}

impl From<u64> for Entry {
    /// Splits a value into its two halves.
    fn from(value: u64) -> (e: Self) {
        proof {
            assert(value >> 32u64 == value / 0x100000000 && value / 0x100000000 < 0x100000000)
                by (bit_vector);
            assert(value & 0xFFFF_FFFF == value % 0x100000000) by (bit_vector);
        }
        Entry::from_parts((value >> 32) as u32, (value & 0xFFFF_FFFF) as u32)
    }
}

impl vstd::std_specs::convert::FromSpecImpl<u64> for Entry {
    open spec fn obeys_from_spec() -> bool {
        true
    }

    open spec fn from_spec(value: u64) -> Entry {
        Entry { hi: hi_of(value), lo: lo_of(value) }
    }
}

/// The assembled shift-or equals the arithmetic combination.
pub proof fn lemma_combine_shift(hi: u32, lo: u32)
    ensures
        (((hi as u64) << 32) | (lo as u64)) == combined(hi, lo),
{
    let hi64 = hi as u64;
    let lo64 = lo as u64;
    assert((hi64 << 32u64) | lo64 == hi64 * 0x100000000 + lo64) by (bit_vector)
        requires
            hi64 < 0x100000000,
            lo64 < 0x100000000,
    ;
}

impl From<Entry> for u64 {
    /// Assembles the value back from its two halves.
    fn from(entry: Entry) -> (value: Self) {
        (entry.hi as u64) << 32 | (entry.lo as u64)
    }
}

impl vstd::std_specs::convert::FromSpecImpl<Entry> for u64 {
    open spec fn obeys_from_spec() -> bool {
        true
    }

    open spec fn from_spec(entry: Entry) -> u64 {
        ((entry.hi as u64) << 32) | (entry.lo as u64)
    }
}

} // verus!
