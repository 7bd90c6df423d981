//! The chunk header of the 48-bit-prefix set: key and counter packed into
//! one 64-bit word.

use vstd::prelude::*;

use crate::chunk;
use crate::chunk::Header as ChunkHeader;

verus! {

/// The cardinality field's mask, leaving the key's bits.
pub const CARDINALITY_MASK: u64 = 0xFFFF_FFFF_FFFF_0000;

/// Chunk header.
pub struct Header {
    /// Header's data.
    ///
    /// Contains both the chunk's key (in the upper 48 bits) and the chunk's
    /// cardinality minus one (in the lower 16 bits) packed into a single
    /// 64-bit integer.
    ///
    /// Storing the cardinality offset by one allows counting up to 65536
    /// while staying on 16 bits (that way it fits alongside the key), and
    /// it is safe because the minimum size is 1: empty chunks are
    /// deallocated.
    data: u64,
}

impl Header {
    /// Initializes a new chunk's header.
    pub fn new(key: u64) -> (h: Self)
        requires
            key < 0x1000000000000,
        ensures
            h.key_spec() == key,
            h.card_spec() == 1,
            h.data_spec() == key * 65536,
    {
        proof {
            assert((key << 16u64) / 65536 == key && (key << 16u64) % 65536 == 0) by (bit_vector)
                requires
                    key < 0x1000000000000,
            ;
        }
        Header { data: key << 16 }
    }

    /// The packed word, as carried.
    pub closed spec fn data_spec(&self) -> u64 {
        self.data
    }

    /// Returns the packed word holding key and cardinality.
    pub fn data(&self) -> (d: u64)
        ensures
            d == self.data_spec(),
    {
        self.data
    }

    /// Extracts the cardinality from the packed data field.
    fn unpack_cardinality(&self) -> (c: u16)
        ensures
            c == self.card_spec() - 1,
    {
        proof {
            let d = self.data;
            assert(d & 0xFFFF == d % 65536 && d % 65536 < 65536) by (bit_vector);
        }
        (self.data & 0xFFFF) as u16
    }

    /// Packs a new cardinality value into the packed data field.
    fn pack_cardinality(&mut self, cardinality: u16)
        ensures
            final(self).key_spec() == old(self).key_spec(),
            final(self).card_spec() == cardinality + 1,
    {
        proof {
            let d = self.data;
            let c = cardinality as u64;
            assert(((d & 0xFFFF_FFFF_FFFF_0000) | c) / 65536 == d / 65536 && ((d
                & 0xFFFF_FFFF_FFFF_0000) | c) % 65536 == c) by (bit_vector)
                requires
                    c < 0x10000,
            ;
        }
        self.data = (self.data & CARDINALITY_MASK) | (cardinality as u64);
    }
}

impl chunk::Header for Header {
    closed spec fn key_spec(&self) -> int {
        self.data as int / 65536
    }

    closed spec fn card_spec(&self) -> int {
        self.data as int % 65536 + 1
    }

    open spec fn key_limit() -> int {
        0x1000000000000
    }

    open spec fn byte_spec() -> int {
        8
    }

    proof fn lemma_limits() {
    }

    proof fn lemma_ranges(&self) {
        assert(self.data / 65536 < 0x1000000000000) by (nonlinear_arith)
            requires
                0 <= self.data < 0x10000000000000000,
        ;
    }

    fn from_key(key: u64) -> (h: Self) {
        Header::new(key)
    }

    fn key_u64(&self) -> (k: u64) {
        proof {
            let d = self.data;
            assert(d >> 16u64 == d / 65536) by (bit_vector);
        }
        self.data >> 16
    }

    fn cardinality(&self) -> (c: usize) {
        (self.unpack_cardinality() as usize) + 1
    }

    fn byte_size(&self) -> (n: usize) {
        8
    }

    fn increase_cardinality(&mut self) {
        let cardinality = self.unpack_cardinality() + 1;
        self.pack_cardinality(cardinality);
    }

    fn decrease_cardinality(&mut self) {
        let current = self.unpack_cardinality();
        let cardinality = if current > 0 {
            current - 1
        } else {
            0
        };
        self.pack_cardinality(cardinality);
    }
}

} // verus!
