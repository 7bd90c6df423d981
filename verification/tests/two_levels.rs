//! Tests for the 64-bit set with a flat chunk list and 48-bit prefix keys.

use baziot::RoaringTwoLevels;
use baziot::chunk::Header as HeaderOps;
use baziot::roaring_two_levels::Bitmap;
use baziot::roaring_two_levels::entry::Entry;
use baziot::roaring_two_levels::header::Header;

#[test]
fn roaring_two_levels_entry() {
    let value = 0x0000_0000_0000_0000;
    let entry = Entry::from(value);
    assert_eq!(entry.hi, 0x0000);
    assert_eq!(entry.lo, 0x0000);
    assert_eq!(u64::from(entry), value);

    let value = 0x0000_0000_0000_0001;
    let entry = Entry::from(value);
    assert_eq!(entry.hi, 0x0000);
    assert_eq!(entry.lo, 0x0001);
    assert_eq!(u64::from(entry), value);

    let value = 0x0000_0000_1000_0000;
    let entry = Entry::from(value);
    assert_eq!(entry.hi, 0x0000_0000_1000);
    assert_eq!(entry.lo, 0x0000);
    assert_eq!(u64::from(entry), value);

    let value = 0x0000_0001_0000_0000;
    let entry = Entry::from(value);
    assert_eq!(entry.hi, 0x0000_0001_0000);
    assert_eq!(entry.lo, 0x0000);
    assert_eq!(u64::from(entry), value);

    let value = 0x1000_0000_0000_0000;
    let entry = Entry::from(value);
    assert_eq!(entry.hi, 0x1000_0000_0000);
    assert_eq!(entry.lo, 0x0000);
    assert_eq!(u64::from(entry), value);

    let value = 0xFEED_FACE_CAFE_BEEF;
    let entry = Entry::from(value);
    assert_eq!(entry.hi, 0xFEED_FACE_CAFE);
    assert_eq!(entry.lo, 0xBEEF);
    assert_eq!(u64::from(entry), value);
}

#[test]
fn roaring_two_levels_header() {
    let mut header = Header::new(0xFEED_DEAD_BEEF);
    assert_eq!(header.data(), 0xFEED_DEAD_BEEF_0000);
    assert_eq!(header.key_u64(), 0xFEED_DEAD_BEEF);
    assert_eq!(header.cardinality(), 1);

    header.increase_cardinality();
    assert_eq!(header.key_u64(), 0xFEED_DEAD_BEEF);
    assert_eq!(header.cardinality(), 2);

    header.decrease_cardinality();
    assert_eq!(header.key_u64(), 0xFEED_DEAD_BEEF);
    assert_eq!(header.cardinality(), 1);
}

#[test]
fn header_header() {
    let mut header = Header::new(0xFEED_DEAD_BEEF);
    assert_eq!(header.data(), 0xFEED_DEAD_BEEF_0000);
    assert_eq!(header.key_u64(), 0xFEED_DEAD_BEEF);
    assert_eq!(header.cardinality(), 1);

    header.increase_cardinality();
    assert_eq!(header.key_u64(), 0xFEED_DEAD_BEEF);
    assert_eq!(header.cardinality(), 2);

    header.decrease_cardinality();
    assert_eq!(header.key_u64(), 0xFEED_DEAD_BEEF);
    assert_eq!(header.cardinality(), 1);
}

#[test]
fn roaring_two_levels_insertion_deletion() {
    let mut bitmap = RoaringTwoLevels::new();
    assert_eq!(bitmap.cardinality(), 0);
    assert_eq!(bitmap.min(), None);
    assert_eq!(bitmap.max(), None);
    // No allocation for empty bitmap.
    assert_eq!(bitmap.chunk_count(), 0);

    // Chunks are created as needed.
    bitmap.insert(250070690272783730);
    bitmap.insert(250070690272783732);
    assert_eq!(bitmap.cardinality(), 2);
    assert_eq!(bitmap.chunk_count(), 1);
    bitmap.insert(188740018811086);
    assert_eq!(bitmap.cardinality(), 3);
    assert_eq!(bitmap.chunk_count(), 2);

    // Operation works accross chunks.
    assert_eq!(bitmap.min(), Some(188740018811086));
    assert_eq!(bitmap.max(), Some(250070690272783732));

    // Chunks are deleted when empty.
    bitmap.remove(188740018811086);
    assert_eq!(bitmap.cardinality(), 2);
    assert_eq!(bitmap.chunk_count(), 1);
}

#[test]
fn roaring_two_levels_contains() {
    let mut bitmap = RoaringTwoLevels::new();
    assert_eq!(bitmap.contains(42), false);

    bitmap.insert(42);
    assert_eq!(bitmap.contains(42), true);

    bitmap.remove(42);
    assert_eq!(bitmap.contains(42), false);
}

#[test]
fn roaring_two_levels_already_exists() {
    let mut bitmap = RoaringTwoLevels::new();

    assert_eq!(bitmap.insert(42), true, "new entry");
    assert_eq!(bitmap.insert(42), false, "already exists");
}

#[test]
fn roaring_two_levels_missing() {
    let mut bitmap = RoaringTwoLevels::new();

    bitmap.insert(11);

    assert_eq!(bitmap.remove(11), true, "found");
    assert_eq!(bitmap.remove(11), false, "missing entry");
}

#[test]
fn roaring_two_levels_is_empty() {
    let mut bitmap = RoaringTwoLevels::new();
    assert_eq!(bitmap.is_empty(), true);

    bitmap.insert(250070690292783730);
    bitmap.insert(250070690272783732);
    bitmap.insert(188740018811086);
    assert_eq!(bitmap.is_empty(), false);

    bitmap.clear();
    assert_eq!(bitmap.is_empty(), true);
}

#[test]
fn two_levels_bitmap_insertion_deletion() {
    let mut bitmap = Bitmap::new();
    assert_eq!(bitmap.cardinality(), 0);
    assert_eq!(bitmap.min(), None);
    assert_eq!(bitmap.max(), None);
    assert_eq!(bitmap.chunk_count(), 0);

    bitmap.insert(250070690272783730);
    bitmap.insert(250070690272783732);
    assert_eq!(bitmap.cardinality(), 2);
    assert_eq!(bitmap.chunk_count(), 1);
    bitmap.insert(188740018811086);
    assert_eq!(bitmap.cardinality(), 3);
    assert_eq!(bitmap.chunk_count(), 2);

    assert_eq!(bitmap.min(), Some(188740018811086));
    assert_eq!(bitmap.max(), Some(250070690272783732));

    bitmap.remove(188740018811086);
    assert_eq!(bitmap.cardinality(), 2);
    assert_eq!(bitmap.chunk_count(), 1);
}

#[test]
fn two_levels_bitmap_iterator_sparse() {
    let input = (0..10_000).step_by(10).collect::<Vec<u64>>();
    let mut bitmap = Bitmap::new();
    for value in &input {
        bitmap.insert(*value);
    }
    let mut values = Vec::new();
    let mut it = bitmap.iter();
    while let Some(value) = it.next() {
        values.push(value);
    }

    assert_eq!(values, input);
}

#[test]
fn two_levels_bitmap_iterator_dense() {
    let input = (0..10_000).step_by(2).collect::<Vec<u64>>();
    let mut bitmap = Bitmap::new();
    for value in &input {
        bitmap.insert(*value);
    }
    let mut values = Vec::new();
    let mut it = bitmap.iter();
    while let Some(value) = it.next() {
        values.push(value);
    }

    assert_eq!(values, input);
}

#[test]
fn two_levels_bitmap_contains() {
    let mut bitmap = Bitmap::new();
    assert_eq!(bitmap.contains(42), false);

    bitmap.insert(42);
    assert_eq!(bitmap.contains(42), true);

    bitmap.remove(42);
    assert_eq!(bitmap.contains(42), false);
}

#[test]
fn two_levels_bitmap_already_exists() {
    let mut bitmap = Bitmap::new();

    assert_eq!(bitmap.insert(42), true, "new entry");
    assert_eq!(bitmap.insert(42), false, "already exists");
}

#[test]
fn two_levels_bitmap_missing() {
    let mut bitmap = Bitmap::new();

    bitmap.insert(11);

    assert_eq!(bitmap.remove(11), true, "found");
    assert_eq!(bitmap.remove(11), false, "missing entry");
}

#[test]
fn two_levels_bitmap_is_empty() {
    let mut bitmap = Bitmap::new();
    assert_eq!(bitmap.is_empty(), true);

    bitmap.insert(250070690292783730);
    bitmap.insert(250070690272783732);
    bitmap.insert(188740018811086);
    assert_eq!(bitmap.is_empty(), false);

    bitmap.clear();
    assert_eq!(bitmap.is_empty(), true);
}

#[test]
fn two_levels_exact_mem_size() {
    let mut bitmap = Bitmap::new();
    bitmap.insert(0xFEED_FACE_CAFE_BEEF);

    // The chunk vector overhead, one packed header, and a two-byte array.
    assert_eq!(bitmap.mem_size(), 24 + (8 + 24 + 2));
}
