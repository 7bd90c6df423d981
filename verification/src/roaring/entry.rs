//! Splitting a 32-bit value into its 16-bit prefix and suffix, and back.

use vstd::prelude::*;

verus! {

/// The 16 most significant bits of a 32-bit value.
pub open spec fn hi_of(value: u32) -> u16 {
    (value / 65536) as u16
}

/// The 16 least significant bits of a 32-bit value.
pub open spec fn lo_of(value: u32) -> u16 {
    (value % 65536) as u16
}

/// The value assembled from a 16-bit prefix and suffix.
pub open spec fn combined(hi: u16, lo: u16) -> int {
    hi * 65536 + lo
}

/// Splitting a value and combining the halves gives the value back.
pub proof fn lemma_split_roundtrip(value: u32)
    ensures
        combined(hi_of(value), lo_of(value)) == value,
{
    vstd::arithmetic::div_mod::lemma_fundamental_div_mod(value as int, 65536);
}

/// Combining two halves and splitting the result returns the halves: the
/// split is a bijection.
pub proof fn lemma_combine_roundtrip(hi: u16, lo: u16)
    ensures
        hi_of(combined(hi, lo) as u32) == hi,
        lo_of(combined(hi, lo) as u32) == lo,
        0 <= combined(hi, lo) < 0x100000000,
{
    vstd::arithmetic::div_mod::lemma_fundamental_div_mod_converse(
        combined(hi, lo),
        65536,
        hi as int,
        lo as int,
    );
    vstd::arithmetic::mul::lemma_mul_nonnegative(hi as int, 65536);
    vstd::arithmetic::mul::lemma_mul_inequality(hi as int, 65535, 65536);
}

/// `Roaring` bitmap entry.
pub struct Entry {
    /// Most significant bits.
    pub hi: u16,
    /// Least significant bits.
    pub lo: u16,
}

impl Entry {
    /// Initialize a new entry from its lower and higher parts.
    pub fn from_parts(hi: u16, lo: u16) -> (e: Self)
        ensures
            e.hi == hi,
            e.lo == lo,
    {
        Entry { hi, lo }
    }
}

impl From<u32> for Entry {
    /// Splits a value into its two halves.
    fn from(value: u32) -> (e: Self) {
        proof {
            assert(value >> 16u32 == value / 65536) by (bit_vector);
            assert(value & 0xFFFF == value % 65536) by (bit_vector);
        }
        Entry::from_parts((value >> 16) as u16, (value & 0xFFFF) as u16)
    }
}

impl vstd::std_specs::convert::FromSpecImpl<u32> for Entry {
    open spec fn obeys_from_spec() -> bool {
        true
    }

    open spec fn from_spec(value: u32) -> Entry {
        Entry { hi: hi_of(value), lo: lo_of(value) }
    }
}

impl From<Entry> for u32 {
    /// Assembles the value back from its two halves.
    fn from(entry: Entry) -> (value: Self) {
        let hi32: u32 = entry.hi as u32;
        let lo32: u32 = entry.lo as u32;
        proof {
            assert(hi32 << 16u32 | lo32 == hi32 * 65536 + lo32) by (bit_vector)
                requires
                    hi32 < 0x10000,
                    lo32 < 0x10000,
            ;
        }
        hi32 << 16 | lo32
    }
}

impl vstd::std_specs::convert::FromSpecImpl<Entry> for u32 {
    open spec fn obeys_from_spec() -> bool {
        true
    }

    open spec fn from_spec(entry: Entry) -> u32 {
        combined(entry.hi, entry.lo) as u32
    }
}

} // verus!
