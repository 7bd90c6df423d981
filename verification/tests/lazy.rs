//! Tests for the 64-bit set with two-level lazy nesting.

use baziot::RoaringLazy;
use baziot::roaring_lazy::SuperChunk;
use baziot::roaring_tree_map::entry::Entry;

#[test]
fn roaring_lazy_insertion_deletion() {
    let mut bitmap = RoaringLazy::new();
    assert_eq!(bitmap.cardinality(), 0);
    assert_eq!(bitmap.min(), None);
    assert_eq!(bitmap.max(), None);
    // No allocation for empty bitmap.
    assert_eq!(bitmap.chunk_count(), 0);

    // Chunks are created as needed.
    bitmap.insert(250070690292783730);
    bitmap.insert(250070690272783732);
    assert_eq!(bitmap.cardinality(), 2);
    assert_eq!(bitmap.chunk_count(), 1);
    bitmap.insert(188740018811086);
    assert_eq!(bitmap.cardinality(), 3);
    assert_eq!(bitmap.chunk_count(), 2);

    // Operation works accross chunks.
    assert_eq!(bitmap.min(), Some(188740018811086));
    assert_eq!(bitmap.max(), Some(250070690292783730));

    // Chunks are deleted when empty.
    bitmap.remove(188740018811086);
    assert_eq!(bitmap.cardinality(), 2);
    assert_eq!(bitmap.chunk_count(), 1);
}

#[test]
fn roaring_lazy_contains() {
    let mut bitmap = RoaringLazy::new();
    assert_eq!(bitmap.contains(42), false);

    bitmap.insert(42);
    assert_eq!(bitmap.contains(42), true);

    bitmap.remove(42);
    assert_eq!(bitmap.contains(42), false);
}

#[test]
fn roaring_lazy_already_exists() {
    let mut bitmap = RoaringLazy::new();

    assert_eq!(bitmap.insert(42), true, "new entry");
    assert_eq!(bitmap.insert(42), false, "already exists");
}

#[test]
fn roaring_lazy_missing() {
    let mut bitmap = RoaringLazy::new();

    bitmap.insert(11);

    assert_eq!(bitmap.remove(11), true, "found");
    assert_eq!(bitmap.remove(11), false, "missing entry");
}

#[test]
fn roaring_lazy_is_empty() {
    let mut bitmap = RoaringLazy::new();
    assert_eq!(bitmap.is_empty(), true);

    bitmap.insert(250070690292783730);
    bitmap.insert(250070690272783732);
    bitmap.insert(188740018811086);
    assert_eq!(bitmap.is_empty(), false);

    bitmap.clear();
    assert_eq!(bitmap.is_empty(), true);
}

#[test]
fn superchunk_insertion_deletion() {
    let entry = Entry::from(1538809352);
    let mut chunk = SuperChunk::new(&entry);
    assert_eq!(chunk.cardinality(), 1);
    assert_eq!(chunk.chunk_count(), 1);
    assert_eq!(chunk.min(), Some(1538809352));
    assert_eq!(chunk.max(), Some(1538809352));

    // Chunks are created as needed.
    chunk.insert(370099062);
    assert_eq!(chunk.cardinality(), 2);
    assert_eq!(chunk.chunk_count(), 2);

    // Operation works accross chunks.
    assert_eq!(chunk.min(), Some(370099062));
    assert_eq!(chunk.max(), Some(1538809352));

    // Chunks are deleted when empty.
    chunk.remove(370099062);
    assert_eq!(chunk.cardinality(), 1);
    assert_eq!(chunk.chunk_count(), 1);
}

#[test]
fn superchunk_contains() {
    let entry = Entry::from(0);
    let mut chunk = SuperChunk::new(&entry);
    assert_eq!(chunk.contains(42), false);

    chunk.insert(42);
    assert_eq!(chunk.contains(42), true);

    chunk.remove(42);
    assert_eq!(chunk.contains(42), false);
}

#[test]
fn superchunk_already_exists() {
    let entry = Entry::from(0);
    let mut chunk = SuperChunk::new(&entry);

    assert_eq!(chunk.insert(42), true, "new entry");
    assert_eq!(chunk.insert(42), false, "already exists");
}

#[test]
fn superchunk_missing() {
    let entry = Entry::from(0);
    let mut chunk = SuperChunk::new(&entry);

    chunk.insert(11);

    assert_eq!(chunk.remove(11), true, "found");
    assert_eq!(chunk.remove(11), false, "missing entry");
}

#[test]
fn lazy_iteration_is_ascending() {
    let mut bitmap = RoaringLazy::new();
    bitmap.insert(250070690292783730);
    bitmap.insert(188740018811086);
    bitmap.insert(250070690272783732);

    let mut values = Vec::new();
    let mut it = bitmap.iter();
    assert_eq!(it.size_hint(), 3);
    while let Some(value) = it.next() {
        values.push(value);
    }

    assert_eq!(
        values,
        vec![188740018811086, 250070690272783732, 250070690292783730]
    );
}
