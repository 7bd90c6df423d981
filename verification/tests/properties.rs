//! Cross-cutting behaviours: insertion order, density switching, iteration
//! order, exact sizes and the empty-set baseline.

use baziot::Roaring;
use baziot::RoaringLazy;
use baziot::RoaringTreeMap;
use baziot::RoaringTwoLevels;
use baziot::containers::{Array, Bitmap, Container};
use baziot::roaring::Bitmap as FlatBitmap;

#[test]
fn cardinality_ignores_insertion_order() {
    let forward = [7u32, 65536, 131072, 9, 65537];
    let backward = [65537u32, 9, 131072, 65536, 7];

    let mut a = Roaring::new();
    let mut b = Roaring::new();
    for value in &forward {
        a.insert(*value);
    }
    for value in &backward {
        b.insert(*value);
    }

    assert_eq!(a.cardinality(), 5);
    assert_eq!(b.cardinality(), 5);
    assert_eq!(a.min(), b.min());
    assert_eq!(a.max(), b.max());
}

#[test]
fn insert_contains_remove_round() {
    let mut set = RoaringTwoLevels::new();
    let value = 0xFEED_FACE_CAFE_BEEF;

    assert!(set.insert(value));
    assert!(set.contains(value));
    assert!(set.remove(value));
    assert!(!set.contains(value));
}

#[test]
fn idempotent_insert_and_absent_remove() {
    let mut set = RoaringLazy::new();

    assert_eq!(set.insert(99), true);
    assert_eq!(set.insert(99), false);
    assert_eq!(set.cardinality(), 1);

    assert_eq!(set.remove(1234), false);
    assert_eq!(set.cardinality(), 1);
}

#[test]
fn density_switch_at_threshold() {
    // 4096 distinct values within one 16-bit prefix stay array-backed.
    let mut bitmap = FlatBitmap::new();
    for value in 0..4096u32 {
        bitmap.insert(value);
    }
    let stats = bitmap.stats();
    assert_eq!(stats.nb_array_containers, 1);
    assert_eq!(stats.nb_bitmap_containers, 0);

    // The 4097th converts the chunk to a bitmap container.
    bitmap.insert(4096);
    let stats = bitmap.stats();
    assert_eq!(stats.nb_array_containers, 0);
    assert_eq!(stats.nb_bitmap_containers, 1);

    // Removing back down to 4096 converts it back to an array.
    bitmap.remove(4096);
    let stats = bitmap.stats();
    assert_eq!(stats.nb_array_containers, 1);
    assert_eq!(stats.nb_bitmap_containers, 0);
}

#[test]
fn min_max_across_prefixes() {
    // Values whose high-order prefixes differ, inserted high first.
    let mut set = RoaringTreeMap::new();
    set.insert(0xFFFF_0000_0000_0001);
    set.insert(0x0000_0000_0000_0002);
    set.insert(0x1234_5678_9ABC_DEF0);

    assert_eq!(set.min(), Some(0x0000_0000_0000_0002));
    assert_eq!(set.max(), Some(0xFFFF_0000_0000_0001));
}

#[test]
fn iteration_is_ascending_and_complete() {
    let input = [900_000u32, 3, 70_000, 65_536, 12, 4_000_000];
    let mut bitmap = Roaring::new();
    for value in &input {
        bitmap.insert(*value);
    }

    let mut values = Vec::new();
    let mut it = bitmap.iter();
    assert_eq!(it.size_hint(), 6);
    while let Some(value) = it.next() {
        values.push(value);
    }

    assert_eq!(values, vec![3, 12, 65_536, 70_000, 900_000, 4_000_000]);
    assert_eq!(values.len(), bitmap.cardinality());
    assert_eq!(it.size_hint(), 0);
}

#[test]
fn empty_set_baseline() {
    let set32 = Roaring::new();
    assert_eq!(set32.cardinality(), 0);
    assert_eq!(set32.min(), None);
    assert_eq!(set32.max(), None);
    assert!(set32.is_empty());
    assert_eq!(set32.chunk_count(), 0);

    let wide = RoaringTwoLevels::new();
    assert_eq!(wide.cardinality(), 0);
    assert_eq!(wide.min(), None);
    assert_eq!(wide.max(), None);
    assert!(wide.is_empty());
    assert_eq!(wide.chunk_count(), 0);

    let nested = RoaringTreeMap::new();
    assert_eq!(nested.cardinality(), 0);
    assert_eq!(nested.min(), None);
    assert_eq!(nested.max(), None);
    assert_eq!(nested.bitmap_count(), 0);

    let lazy = RoaringLazy::new();
    assert_eq!(lazy.cardinality(), 0);
    assert_eq!(lazy.min(), None);
    assert_eq!(lazy.max(), None);
    assert!(lazy.is_empty());
    assert_eq!(lazy.chunk_count(), 0);
}

#[test]
fn split_combine_round_trips() {
    for value in [0u32, 1, 0x0001_0000, 0xDEAD_BEEF, u32::MAX] {
        let entry = baziot::roaring::entry::Entry::from(value);
        assert_eq!(u32::from(entry), value);
    }
    for value in [0u64, 1, 0x0001_0000_0000, 0xFEED_FACE_CAFE_BEEF, u64::MAX] {
        let wide = baziot::roaring_two_levels::entry::Entry::from(value);
        assert_eq!(u64::from(wide), value);
        let halves = baziot::roaring_tree_map::entry::Entry::from(value);
        assert_eq!(u64::from(halves), value);
    }
}

#[test]
fn exact_memory_sizes() {
    // An array container: the vector overhead plus two bytes per value.
    let mut array = Array::new(5);
    array.insert(9);
    assert_eq!(array.mem_size(), 24 + 2 * 2);

    // A bitmap container has a constant size.
    let bitmap = Bitmap::new();
    assert_eq!(bitmap.mem_size(), 24 + 8 * 1024);

    // A flat set: its own overhead, plus header and container per chunk.
    let mut flat = FlatBitmap::new();
    flat.insert(1);
    flat.insert(2);
    flat.insert(0x0002_0000);
    assert_eq!(flat.mem_size(), 24 + (4 + 24 + 2 * 2) + (4 + 24 + 2 * 1));
}

#[test]
fn exact_stats_breakdown() {
    let mut flat = FlatBitmap::new();
    flat.insert(1);
    flat.insert(2);
    flat.insert(0x0002_0000);

    let stats = flat.stats();
    assert_eq!(stats.nb_containers, 2);
    assert_eq!(stats.nb_array_containers, 2);
    assert_eq!(stats.nb_bitmap_containers, 0);
    assert_eq!(stats.nb_values, 3);
    assert_eq!(stats.nb_values_array_containers, 3);
    assert_eq!(stats.nb_values_bitmap_containers, 0);
    assert_eq!(stats.nb_bytes, 24 + (4 + 24 + 2 * 2) + (4 + 24 + 2 * 1));
    assert_eq!(stats.nb_bytes_array_containers, (4 + 24 + 2 * 2) + (4 + 24 + 2 * 1));
    assert_eq!(stats.nb_bytes_bitmap_containers, 0);
    assert_eq!(stats.min_value, Some(1));
    assert_eq!(stats.max_value, Some(0x0002_0000));
}

#[test]
fn container_starts_sparse() {
    let container = Container::new(7);
    assert!(matches!(container, Container::Array(_)));
    assert!(container.contains(7));
    assert_eq!(container.min(), Some(7));
    assert_eq!(container.max(), Some(7));
}

#[test]
fn boundary_values_round_trip() {
    let mut set32 = Roaring::new();
    set32.insert(0);
    set32.insert(u32::MAX);
    assert_eq!(set32.min(), Some(0));
    assert_eq!(set32.max(), Some(u32::MAX));
    assert_eq!(set32.cardinality(), 2);

    let mut wide = RoaringTwoLevels::new();
    wide.insert(0);
    wide.insert(u64::MAX);
    assert_eq!(wide.min(), Some(0));
    assert_eq!(wide.max(), Some(u64::MAX));
    assert_eq!(wide.cardinality(), 2);

    let mut lazy = RoaringLazy::new();
    lazy.insert(0);
    lazy.insert(u64::MAX);
    assert_eq!(lazy.min(), Some(0));
    assert_eq!(lazy.max(), Some(u64::MAX));
    assert_eq!(lazy.cardinality(), 2);

    let mut nested = RoaringTreeMap::new();
    nested.insert(0);
    nested.insert(u64::MAX);
    assert_eq!(nested.min(), Some(0));
    assert_eq!(nested.max(), Some(u64::MAX));
    assert_eq!(nested.cardinality(), 2);
}
