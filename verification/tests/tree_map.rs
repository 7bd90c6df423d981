//! Tests for the 64-bit set backed by an ordered map of nested 32-bit sets.

use baziot::RoaringTreeMap;
use baziot::roaring_tree_map::Bitmap;
use baziot::roaring_tree_map::entry::Entry;

#[test]
fn roaring_tree_map_entry() {
    let value = 0x0000_0000_0000_0000;
    let entry = Entry::from(value);
    assert_eq!(entry.hi, 0x0000);
    assert_eq!(entry.lo, 0x0000);
    assert_eq!(u64::from(entry), value);

    let value = 0x0000_0000_0000_0001;
    let entry = Entry::from(value);
    assert_eq!(entry.hi, 0x0000_0000);
    assert_eq!(entry.lo, 0x0000_0001);
    assert_eq!(u64::from(entry), value);

    let value = 0x0000_0000_1000_0000;
    let entry = Entry::from(value);
    assert_eq!(entry.hi, 0x0000_0000);
    assert_eq!(entry.lo, 0x1000_0000);
    assert_eq!(u64::from(entry), value);

    let value = 0x0000_0001_0000_0000;
    let entry = Entry::from(value);
    assert_eq!(entry.hi, 0x0000_0001);
    assert_eq!(entry.lo, 0x0000_0000);
    assert_eq!(u64::from(entry), value);

    let value = 0x1000_0000_0000_0000;
    let entry = Entry::from(value);
    assert_eq!(entry.hi, 0x1000_0000);
    assert_eq!(entry.lo, 0x0000_0000);
    assert_eq!(u64::from(entry), value);

    let value = 0xFEED_FACE_CAFE_BEEF;
    let entry = Entry::from(value);
    assert_eq!(entry.hi, 0xFEED_FACE);
    assert_eq!(entry.lo, 0xCAFE_BEEF);
    assert_eq!(u64::from(entry), value);
}

#[test]
fn entry() {
    let value = 0x0000_0000_0000_0000;
    let entry = Entry::from(value);
    assert_eq!(entry.hi, 0x0000);
    assert_eq!(entry.lo, 0x0000);
    assert_eq!(u64::from(entry), value);

    let value = 0xFEED_FACE_CAFE_BEEF;
    let entry = Entry::from(value);
    assert_eq!(entry.hi, 0xFEED_FACE);
    assert_eq!(entry.lo, 0xCAFE_BEEF);
    assert_eq!(u64::from(entry), value);
}

#[test]
fn roaring_tree_map_insertion_deletion() {
    let mut bitmap = RoaringTreeMap::new();
    assert_eq!(bitmap.cardinality(), 0);
    assert_eq!(bitmap.min(), None);
    assert_eq!(bitmap.max(), None);
    // No allocation for empty bitmap.
    assert_eq!(bitmap.bitmap_count(), 0);

    // Bitmaps are created as needed.
    bitmap.insert(250070690272783730);
    bitmap.insert(250070690272783732);
    assert_eq!(bitmap.cardinality(), 2);
    assert_eq!(bitmap.bitmap_count(), 1);
    bitmap.insert(188740018811086);
    assert_eq!(bitmap.cardinality(), 3);
    assert_eq!(bitmap.bitmap_count(), 2);

    // Operation works accross bitmaps.
    assert_eq!(bitmap.min(), Some(188740018811086));
    assert_eq!(bitmap.max(), Some(250070690272783732));

    // Bitmaps are deleted when empty.
    bitmap.remove(188740018811086);
    assert_eq!(bitmap.cardinality(), 2);
    assert_eq!(bitmap.bitmap_count(), 1);
}

#[test]
fn roaring_tree_map_contains() {
    let mut bitmap = RoaringTreeMap::new();
    assert_eq!(bitmap.contains(42), false);

    bitmap.insert(42);
    assert_eq!(bitmap.contains(42), true);
}

#[test]
fn roaring_tree_map_already_exists() {
    let mut bitmap = RoaringTreeMap::new();

    assert_eq!(bitmap.insert(42), true, "new entry");
    assert_eq!(bitmap.insert(42), false, "already exists");
}

#[test]
fn roaring_tree_map_missing() {
    let mut bitmap = RoaringTreeMap::new();

    bitmap.insert(11);

    assert_eq!(bitmap.remove(11), true, "found");
    assert_eq!(bitmap.remove(11), false, "missing entry");
}

#[test]
fn insertion_deletion() {
    let mut bitmap = Bitmap::new();
    assert_eq!(bitmap.cardinality(), 0);
    assert_eq!(bitmap.min(), None);
    assert_eq!(bitmap.max(), None);
    // No allocation for empty bitmap.
    assert_eq!(bitmap.bitmap_count(), 0);

    // Bitmaps are created as needed.
    bitmap.insert(250070690272783730);
    bitmap.insert(250070690272783732);
    assert_eq!(bitmap.cardinality(), 2);
    assert_eq!(bitmap.bitmap_count(), 1);
    bitmap.insert(188740018811086);
    assert_eq!(bitmap.cardinality(), 3);
    assert_eq!(bitmap.bitmap_count(), 2);

    // Operation works accross bitmaps.
    assert_eq!(bitmap.min(), Some(188740018811086));
    assert_eq!(bitmap.max(), Some(250070690272783732));

    // Bitmaps are deleted when empty.
    bitmap.remove(188740018811086);
    assert_eq!(bitmap.cardinality(), 2);
    assert_eq!(bitmap.bitmap_count(), 1);
}

#[test]
fn tree_map_bitmap_contains() {
    let mut bitmap = Bitmap::new();
    assert_eq!(bitmap.contains(42), false);

    bitmap.insert(42);
    assert_eq!(bitmap.contains(42), true);

    bitmap.remove(42);
    assert_eq!(bitmap.contains(42), false);
}

#[test]
fn tree_map_bitmap_already_exists() {
    let mut bitmap = Bitmap::new();

    assert_eq!(bitmap.insert(42), true, "new entry");
    assert_eq!(bitmap.insert(42), false, "already exists");
}

#[test]
fn tree_map_bitmap_missing() {
    let mut bitmap = Bitmap::new();

    bitmap.insert(11);

    assert_eq!(bitmap.remove(11), true, "found");
    assert_eq!(bitmap.remove(11), false, "missing entry");
}

#[test]
fn is_empty() {
    let mut bitmap = Bitmap::new();
    assert_eq!(bitmap.is_empty(), true);

    bitmap.insert(250070690292783730);
    bitmap.insert(250070690272783732);
    bitmap.insert(188740018811086);
    assert_eq!(bitmap.is_empty(), false);

    bitmap.clear();
    assert_eq!(bitmap.is_empty(), true);
}

#[test]
fn iterator_sparse() {
    let input = (0..10_000).step_by(10).collect::<Vec<u64>>();
    let mut bitmap = Bitmap::new();
    for value in &input {
        bitmap.insert(*value);
    }
    let mut values = Vec::new();
    let mut it = bitmap.iter();
    while let Some(value) = it.next() {
        values.push(value);
    }

    assert_eq!(values, input);
}

#[test]
fn iterator_dense() {
    let input = (0..10_000).step_by(2).collect::<Vec<u64>>();
    let mut bitmap = Bitmap::new();
    for value in &input {
        bitmap.insert(*value);
    }
    let mut values = Vec::new();
    let mut it = bitmap.iter();
    while let Some(value) = it.next() {
        values.push(value);
    }

    assert_eq!(values, input);
}

#[test]
fn mem_size() {
    let mut bitmap = Bitmap::new();
    let mut nested = baziot::roaring::Bitmap::new();
    for value in (0..10_000).step_by(2) {
        bitmap.insert(value);
        nested.insert(value as u32);
    }

    // Ensure we don't forget to account for the BTreeMap overhead: the one
    // nested bitmap alone is strictly smaller than the whole.
    assert!(bitmap.mem_size() > nested.mem_size());
}

#[test]
fn tree_map_clear_and_iterate() {
    let mut set = RoaringTreeMap::new();
    set.insert(250070690272783730);
    set.insert(188740018811086);
    assert_eq!(set.is_empty(), false);

    let mut values = Vec::new();
    let mut it = set.iter();
    while let Some(value) = it.next() {
        values.push(value);
    }
    assert_eq!(values, vec![188740018811086, 250070690272783730]);

    set.clear();
    assert_eq!(set.is_empty(), true);
    assert_eq!(set.bitmap_count(), 0);
}
