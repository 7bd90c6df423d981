//! A compressed bitmap (set-of-integers) library.
//!
//! Sets of 32-bit or 64-bit unsigned integers are stored as ordered chunks,
//! each chunk covering a 65536-wide slice of the key space with either a
//! sorted array (sparse) or a fixed bit vector (dense), switching between the
//! two representations as the chunk's density changes.

pub mod chunk;
pub mod containers;
pub mod keyspace;
pub mod laws;
pub mod roaring;
pub mod roaring_lazy;
pub mod roaring_tree_map;
pub mod roaring_two_levels;
pub mod stats;

pub use crate::roaring::Roaring;
pub use crate::roaring_lazy::RoaringLazy;
pub use crate::roaring_tree_map::RoaringTreeMap;
pub use crate::roaring_two_levels::RoaringTwoLevels;
pub use crate::stats::Stats;
