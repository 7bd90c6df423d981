//! Tests for the containers and the chunk around them.

use baziot::chunk::{Chunk, SPARSE_CHUNK_THRESHOLD};
use baziot::containers::{Array, Bitmap, Container};
use baziot::roaring::header::Header;

#[test]
fn preserve_ordering() {
    let mut array = Array::new(42);
    assert!(array.is_sorted());

    array.insert(11);
    array.insert(77);
    array.insert(100);
    array.insert(3);
    assert!(array.is_sorted(), "insert preserve ordering");

    array.remove(100);
    array.remove(42);
    assert!(array.is_sorted(), "remove preserve ordering");
}

#[test]
fn array_contains() {
    let mut array = Array::new(42);
    assert_eq!(array.contains(11), false);

    array.insert(11);
    assert_eq!(array.contains(11), true);

    array.remove(11);
    assert_eq!(array.contains(11), false);
}

#[test]
fn array_already_exists() {
    let mut array = Array::new(42);

    assert_eq!(array.insert(42), false, "already exists");
    assert_eq!(array.insert(11), true, "new entry");
}

#[test]
fn array_missing() {
    let mut array = Array::new(42);

    assert_eq!(array.remove(42), true, "found");
    assert_eq!(array.remove(11), false, "missing entry");
}

#[test]
fn array_min_max() {
    let mut array = Array::new(42);
    assert_eq!(array.min(), Some(42));
    assert_eq!(array.max(), Some(42));

    array.insert(11);
    array.insert(100);
    array.insert(77);
    array.insert(3);
    assert_eq!(array.min(), Some(3));
    assert_eq!(array.max(), Some(100));
}

#[test]
fn from_bitmap() {
    let mut bitmap = Bitmap::new();
    bitmap.insert(11);
    bitmap.insert(100);
    bitmap.insert(77);
    bitmap.insert(3);

    let array = Array::from_bitmap(&bitmap);
    assert_eq!(array.to_vec(), vec![3u16, 11, 77, 100]);
}

#[test]
fn indexing() {
    // Min index.
    assert_eq!(0u16 / 64, 0);
    assert_eq!(0u16 % 64, 0);
    // Last bit of a word.
    assert_eq!(63u16 / 64, 0);
    assert_eq!(63u16 % 64, 63);
    // First bit of a word.
    assert_eq!(64u16 / 64, 1);
    assert_eq!(64u16 % 64, 0);
    // In the middle of a word.
    assert_eq!(72u16 / 64, 1);
    assert_eq!(72u16 % 64, 8);
    // Max index.
    assert_eq!(u16::MAX / 64, 1023);
    assert_eq!(u16::MAX % 64, 63);
}

#[test]
fn bit_twiddling() {
    let mut bitmap = Bitmap::new();

    for value in &[35470, 18777, 7, 12189, 45566] {
        assert!(!bitmap.contains(*value), "default to unset");

        bitmap.insert(*value);
        assert!(bitmap.contains(*value), "set a bit");

        bitmap.remove(*value);
        assert!(!bitmap.contains(*value), "unset a bit");
    }
}

#[test]
fn bitmap_min_max() {
    let mut bitmap = Bitmap::new();
    assert_eq!(bitmap.min(), None);
    assert_eq!(bitmap.max(), None);

    bitmap.insert(11);
    assert_eq!(bitmap.min(), Some(11));
    assert_eq!(bitmap.max(), Some(11));

    bitmap.insert(100);
    bitmap.insert(77);
    bitmap.insert(3);
    assert_eq!(bitmap.min(), Some(3));
    assert_eq!(bitmap.max(), Some(100));
}

#[test]
fn bitmap_contains() {
    let mut bitmap = Bitmap::new();
    assert_eq!(bitmap.contains(42), false);

    bitmap.insert(42);
    assert_eq!(bitmap.contains(42), true);

    bitmap.remove(42);
    assert_eq!(bitmap.contains(42), false);
}

#[test]
fn bitmap_already_exists() {
    let mut bitmap = Bitmap::new();

    assert_eq!(bitmap.insert(42), true, "new entry");
    assert_eq!(bitmap.insert(42), false, "already exists");
}

#[test]
fn bitmap_missing() {
    let mut bitmap = Bitmap::new();

    bitmap.insert(11);

    assert_eq!(bitmap.remove(11), true, "found");
    assert_eq!(bitmap.remove(11), false, "missing entry");
}

#[test]
fn from_array() {
    let mut array = Array::new(11);
    array.insert(100);
    array.insert(77);
    array.insert(3);

    let bitmap = Bitmap::from_array(&array);
    assert_eq!(bitmap.to_vec(), vec![3u16, 11, 77, 100]);
}

#[test]
fn chunk_insertion_deletion() {
    let header = Header::new(0);
    let mut chunk = Chunk::new(header, 0);

    // Chunks start with an array container.
    assert!(matches!(chunk.container(), Container::Array(_)));
    assert_eq!(chunk.cardinality(), 1);

    // They keep using an array until they hit the density threshold.
    for value in 1..SPARSE_CHUNK_THRESHOLD {
        chunk.insert(value as u16);
        assert!(chunk.cardinality() <= SPARSE_CHUNK_THRESHOLD);
        assert!(matches!(chunk.container(), Container::Array(_)));
    }

    // From there, they migrate the values into a bitmap container.
    chunk.insert(4242);
    chunk.insert(8888);
    assert!(chunk.cardinality() > SPARSE_CHUNK_THRESHOLD);
    assert!(matches!(chunk.container(), Container::Bitmap(_)));

    // Original data (min) and new ones (max) are both here.
    assert_eq!(chunk.min(), Some(0));
    assert_eq!(chunk.max(), Some(8888));
    assert!(chunk.contains(4242));

    // Move values back into an array when the density is below the
    // threshold.
    chunk.remove(42);
    chunk.remove(1000);
    assert!(chunk.cardinality() <= SPARSE_CHUNK_THRESHOLD);
    assert!(matches!(chunk.container(), Container::Array(_)));
}

#[test]
fn chunk_contains() {
    let header = Header::new(0);
    let mut chunk = Chunk::new(header, 42);
    assert_eq!(chunk.contains(11), false);

    chunk.insert(11);
    assert_eq!(chunk.contains(11), true);

    chunk.remove(11);
    assert_eq!(chunk.contains(11), false);
}

#[test]
fn chunk_already_exists() {
    let header = Header::new(0);
    let mut chunk = Chunk::new(header, 42);

    assert_eq!(chunk.insert(42), false, "already exists");
    assert_eq!(chunk.cardinality(), 1);

    assert_eq!(chunk.insert(11), true, "new entry");
    assert_eq!(chunk.cardinality(), 2);
}

#[test]
fn chunk_missing() {
    let header = Header::new(0);
    let mut chunk = Chunk::new(header, 42);

    assert_eq!(chunk.remove(42), true, "found");
    assert_eq!(chunk.remove(11), false, "missing entry");
}

#[test]
fn chunk_min_max() {
    let header = Header::new(0);
    let mut chunk = Chunk::new(header, 42);
    assert_eq!(chunk.min(), Some(42));
    assert_eq!(chunk.max(), Some(42));

    chunk.insert(11);
    chunk.insert(100);
    chunk.insert(77);
    chunk.insert(3);
    assert_eq!(chunk.min(), Some(3));
    assert_eq!(chunk.max(), Some(100));
}

#[test]
fn chunk_mem_size() {
    let header = Header::new(0);
    let chunk = Chunk::new(header, 42);
    let container_size = chunk.container().mem_size();

    // Ensure we don't forget to account for the header overhead.
    assert!(chunk.mem_size() > container_size);
}
