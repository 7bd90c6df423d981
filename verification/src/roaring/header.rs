//! The chunk header of the 32-bit set: a 16-bit key beside a 16-bit counter.

use vstd::prelude::*;

use crate::chunk;
use crate::chunk::Header as ChunkHeader;

verus! {

/// Chunk header.
pub struct Header {
    /// The 16 most significant bits.
    key: u16,
    /// Chunk's cardinality minus one.
    ///
    /// The offset allows counting up to 65536 while staying on 16 bits, and
    /// it is safe because the minimum size is 1: empty chunks are
    /// deallocated.
    cardinality: u16,
}

impl Header {
    /// Initializes a new chunk's header.
    pub fn new(key: u16) -> (h: Self)
        ensures
            h.key_spec() == key,
            h.card_spec() == 1,
    {
        Header { key, cardinality: 0 }
    }
}

impl chunk::Header for Header {
    closed spec fn key_spec(&self) -> int {
        self.key as int
    }

    closed spec fn card_spec(&self) -> int {
        self.cardinality + 1
    }

    open spec fn key_limit() -> int {
        65536
    }

    open spec fn byte_spec() -> int {
        4
    }

    proof fn lemma_limits() {
    }

    proof fn lemma_ranges(&self) {
    }

    fn from_key(key: u64) -> (h: Self) {
        Header { key: key as u16, cardinality: 0 }
    }

    fn key_u64(&self) -> (k: u64) {
        self.key as u64
    }

    fn cardinality(&self) -> (c: usize) {
        (self.cardinality as usize) + 1
    }

    fn byte_size(&self) -> (n: usize) {
        4
    }

    fn increase_cardinality(&mut self) {
        self.cardinality = self.cardinality + 1;
    }

    fn decrease_cardinality(&mut self) {
        if self.cardinality > 0 {
            self.cardinality = self.cardinality - 1;
        }
    }
}

} // verus!
