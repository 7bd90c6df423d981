//! Tests for the 32-bit set: the `Roaring` wrapper and the flat `Bitmap`.

use baziot::Roaring;
use baziot::roaring::Bitmap;
use baziot::roaring::entry::Entry;

#[test]
fn roaring_entry() {
    let value = 0x0000_0000;
    let entry = Entry::from(value);
    assert_eq!(entry.hi, 0x0000);
    assert_eq!(entry.lo, 0x0000);
    assert_eq!(u32::from(entry), value);

    let value = 0x0000_0001;
    let entry = Entry::from(value);
    assert_eq!(entry.hi, 0x0000);
    assert_eq!(entry.lo, 0x0001);
    assert_eq!(u32::from(entry), value);

    let value = 0x0000_1000;
    let entry = Entry::from(value);
    assert_eq!(entry.hi, 0x0000);
    assert_eq!(entry.lo, 0x1000);
    assert_eq!(u32::from(entry), value);

    let value = 0x0001_0000;
    let entry = Entry::from(value);
    assert_eq!(entry.hi, 0x0001);
    assert_eq!(entry.lo, 0x0000);
    assert_eq!(u32::from(entry), value);

    let value = 0x1000_0000;
    let entry = Entry::from(value);
    assert_eq!(entry.hi, 0x1000);
    assert_eq!(entry.lo, 0x0000);
    assert_eq!(u32::from(entry), value);

    let value = 0xDEAD_BEEF;
    let entry = Entry::from(value);
    assert_eq!(entry.hi, 0xDEAD);
    assert_eq!(entry.lo, 0xBEEF);
    assert_eq!(u32::from(entry), value);
}

#[test]
fn entry_entry() {
    let value = 0x0000_0000;
    let entry = Entry::from(value);
    assert_eq!(entry.hi, 0x0000);
    assert_eq!(entry.lo, 0x0000);
    assert_eq!(u32::from(entry), value);

    let value = 0x0000_0001;
    let entry = Entry::from(value);
    assert_eq!(entry.hi, 0x0000);
    assert_eq!(entry.lo, 0x0001);
    assert_eq!(u32::from(entry), value);

    let value = 0x0000_1000;
    let entry = Entry::from(value);
    assert_eq!(entry.hi, 0x0000);
    assert_eq!(entry.lo, 0x1000);
    assert_eq!(u32::from(entry), value);

    let value = 0x0001_0000;
    let entry = Entry::from(value);
    assert_eq!(entry.hi, 0x0001);
    assert_eq!(entry.lo, 0x0000);
    assert_eq!(u32::from(entry), value);

    let value = 0x1000_0000;
    let entry = Entry::from(value);
    assert_eq!(entry.hi, 0x1000);
    assert_eq!(entry.lo, 0x0000);
    assert_eq!(u32::from(entry), value);

    let value = 0xDEAD_BEEF;
    let entry = Entry::from(value);
    assert_eq!(entry.hi, 0xDEAD);
    assert_eq!(entry.lo, 0xBEEF);
    assert_eq!(u32::from(entry), value);
}

#[test]
fn roaring_insertion_deletion() {
    let mut bitmap = Roaring::new();
    assert_eq!(bitmap.cardinality(), 0);
    assert_eq!(bitmap.min(), None);
    assert_eq!(bitmap.max(), None);
    // No allocation for empty bitmap.
    assert_eq!(bitmap.chunk_count(), 0);

    // Chunks are created as needed.
    bitmap.insert(1538809352);
    bitmap.insert(1538809350);
    assert_eq!(bitmap.cardinality(), 2);
    assert_eq!(bitmap.chunk_count(), 1);
    bitmap.insert(370099062);
    assert_eq!(bitmap.cardinality(), 3);
    assert_eq!(bitmap.chunk_count(), 2);

    // Operation works accross chunks.
    assert_eq!(bitmap.min(), Some(370099062));
    assert_eq!(bitmap.max(), Some(1538809352));

    // Chunks are deleted when empty.
    bitmap.remove(370099062);
    assert_eq!(bitmap.cardinality(), 2);
    assert_eq!(bitmap.chunk_count(), 1);
}

#[test]
fn roaring_contains() {
    let mut bitmap = Roaring::new();
    assert_eq!(bitmap.contains(42), false);

    bitmap.insert(42);
    assert_eq!(bitmap.contains(42), true);

    bitmap.remove(42);
    assert_eq!(bitmap.contains(42), false);
}

#[test]
fn roaring_already_exists() {
    let mut bitmap = Roaring::new();

    assert_eq!(bitmap.insert(42), true, "new entry");
    assert_eq!(bitmap.insert(42), false, "already exists");
}

#[test]
fn roaring_missing() {
    let mut bitmap = Roaring::new();

    bitmap.insert(11);

    assert_eq!(bitmap.remove(11), true, "found");
    assert_eq!(bitmap.remove(11), false, "missing entry");
}

#[test]
fn roaring_is_empty() {
    let mut bitmap = Roaring::new();
    assert_eq!(bitmap.is_empty(), true);

    bitmap.insert(1538809352);
    bitmap.insert(1538809350);
    bitmap.insert(370099062);
    assert_eq!(bitmap.is_empty(), false);

    bitmap.clear();
    assert_eq!(bitmap.is_empty(), true);
}

#[test]
fn roaring_iterator_sparse() {
    let input = (0..10_000).step_by(10).collect::<Vec<u32>>();
    let mut bitmap = Roaring::new();
    for value in &input {
        bitmap.insert(*value);
    }
    let mut values = Vec::new();
    let mut it = bitmap.iter();
    while let Some(value) = it.next() {
        values.push(value);
    }

    assert_eq!(values, input);
}

#[test]
fn roaring_iterator_dense() {
    let input = (0..10_000).step_by(2).collect::<Vec<u32>>();
    let mut bitmap = Roaring::new();
    for value in &input {
        bitmap.insert(*value);
    }
    let mut values = Vec::new();
    let mut it = bitmap.iter();
    while let Some(value) = it.next() {
        values.push(value);
    }

    assert_eq!(values, input);
}

#[test]
fn bitmap_insertion_deletion() {
    let mut bitmap = Bitmap::new();
    assert_eq!(bitmap.cardinality(), 0);
    assert_eq!(bitmap.min(), None);
    assert_eq!(bitmap.max(), None);
    // No allocation for empty bitmap.
    assert_eq!(bitmap.chunk_count(), 0);

    // Chunks are created as needed.
    bitmap.insert(1538809352);
    bitmap.insert(1538809350);
    assert_eq!(bitmap.cardinality(), 2);
    assert_eq!(bitmap.chunk_count(), 1);
    bitmap.insert(370099062);
    assert_eq!(bitmap.cardinality(), 3);
    assert_eq!(bitmap.chunk_count(), 2);

    // Operation works accross chunks.
    assert_eq!(bitmap.min(), Some(370099062));
    assert_eq!(bitmap.max(), Some(1538809352));

    // Chunks are deleted when empty.
    bitmap.remove(370099062);
    assert_eq!(bitmap.cardinality(), 2);
    assert_eq!(bitmap.chunk_count(), 1);
}

#[test]
fn contains() {
    let mut bitmap = Bitmap::new();
    assert_eq!(bitmap.contains(42), false);

    bitmap.insert(42);
    assert_eq!(bitmap.contains(42), true);

    bitmap.remove(42);
    assert_eq!(bitmap.contains(42), false);
}

#[test]
fn already_exists() {
    let mut bitmap = Bitmap::new();

    assert_eq!(bitmap.insert(42), true, "new entry");
    assert_eq!(bitmap.insert(42), false, "already exists");
}

#[test]
fn missing() {
    let mut bitmap = Bitmap::new();

    bitmap.insert(11);

    assert_eq!(bitmap.remove(11), true, "found");
    assert_eq!(bitmap.remove(11), false, "missing entry");
}

#[test]
fn bitmap_is_empty() {
    let mut bitmap = Bitmap::new();
    assert_eq!(bitmap.is_empty(), true);

    bitmap.insert(1538809352);
    bitmap.insert(1538809350);
    bitmap.insert(370099062);
    assert_eq!(bitmap.is_empty(), false);

    bitmap.clear();
    assert_eq!(bitmap.is_empty(), true);
}

#[test]
fn bitmap_iterator_sparse() {
    let input = (0..10_000).step_by(10).collect::<Vec<u32>>();
    let mut bitmap = Bitmap::new();
    for value in &input {
        bitmap.insert(*value);
    }

    let stats = bitmap.stats();
    assert_eq!(stats.nb_bitmap_containers, 0, "sparse bitmap");

    let mut values = Vec::new();
    let mut it = bitmap.iter();
    while let Some(value) = it.next() {
        values.push(value);
    }
    assert_eq!(values, input);
}

#[test]
fn bitmap_iterator_dense() {
    let input = (0..10_000).step_by(2).collect::<Vec<u32>>();
    let mut bitmap = Bitmap::new();
    for value in &input {
        bitmap.insert(*value);
    }

    let stats = bitmap.stats();
    assert_eq!(stats.nb_array_containers, 0, "dense bitmap");

    let mut values = Vec::new();
    let mut it = bitmap.iter();
    while let Some(value) = it.next() {
        values.push(value);
    }
    assert_eq!(values, input);
}

#[test]
fn bitmap_mem_size() {
    let mut bitmap = Bitmap::new();
    for value in (0..10_000).step_by(2) {
        bitmap.insert(value);
    }
    let stats = bitmap.stats();
    let chunks_size = stats.nb_bytes_array_containers + stats.nb_bytes_bitmap_containers;

    // Ensure we don't forget to account for the Vec overhead.
    assert!(bitmap.mem_size() > chunks_size);
}
