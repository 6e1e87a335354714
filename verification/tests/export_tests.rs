//! Tests for export cursors and the drain of one ring.

use rondo::export::{drain_series, ExportCursor, ExportEntry};
use rondo::ring::RingBuffer;
use rondo::slab::Slab;

const SEC: u64 = 1_000_000_000;

fn create_test_ring(slot_count: u32, interval_ns: u64) -> RingBuffer {
    let slab = Slab::new(0x1234567890abcdef, slot_count, 10, interval_ns);
    RingBuffer::new(slab)
}

#[test]
fn test_export_cursor_new() {
    let cursor = ExportCursor::new();
    assert!(cursor.entries().is_empty());
}

#[test]
fn test_export_cursor_get_set() {
    let mut cursor = ExportCursor::new();

    assert!(cursor.get(0, 0, 0).is_none());

    cursor.update(0, 0, 0, 1000);
    assert_eq!(cursor.get(0, 0, 0), Some(1000));

    cursor.update(0, 0, 0, 2000);
    assert_eq!(cursor.get(0, 0, 0), Some(2000));

    assert!(cursor.get(0, 0, 1).is_none());
}

#[test]
fn test_export_cursor_persistence() {
    // the entries round-trip through their stored record form
    let mut cursor = ExportCursor::new();
    cursor.update(0, 0, 0, 1000);
    cursor.update(0, 1, 0, 2000);

    let records: Vec<ExportEntry> = cursor.entries().clone();
    let loaded = ExportCursor::from_records(records).unwrap();
    assert_eq!(loaded.get(0, 0, 0), Some(1000));
    assert_eq!(loaded.get(0, 1, 0), Some(2000));

    // a duplicated record is rejected
    let mut bad = cursor.entries().clone();
    bad.push(bad[0]);
    assert!(ExportCursor::from_records(bad).is_none());
}

#[test]
fn test_drain_empty_ring() {
    let ring = create_test_ring(60, SEC);
    let mut cursor = ExportCursor::new();

    let points = drain_series(&ring, 0, 0, 0, &mut cursor).unwrap();
    assert!(points.is_empty());
}

#[test]
fn test_drain_all_data() {
    let mut ring = create_test_ring(60, SEC);
    let mut cursor = ExportCursor::new();

    let base_time = 1_000_000_000_000_000_000u64;
    for i in 0u32..5 {
        ring.write(0, f64::from(i * 10).to_bits(), base_time + u64::from(i) * SEC).unwrap();
    }

    let points = drain_series(&ring, 0, 0, 0, &mut cursor).unwrap();
    assert_eq!(points.len(), 5);
    assert_eq!(f64::from_bits(points[0].1), 0.0);
    assert_eq!(f64::from_bits(points[4].1), 40.0);

    assert_eq!(cursor.get(0, 0, 0), Some(base_time + 4 * SEC));
}

#[test]
fn test_drain_incremental() {
    let mut ring = create_test_ring(60, SEC);
    let mut cursor = ExportCursor::new();

    let base_time = 1_000_000_000_000_000_000u64;
    for i in 0u32..5 {
        ring.write(0, f64::from(i * 10).to_bits(), base_time + u64::from(i) * SEC).unwrap();
    }
    let points1 = drain_series(&ring, 0, 0, 0, &mut cursor).unwrap();
    assert_eq!(points1.len(), 5);

    for i in 5u32..10 {
        ring.write(0, f64::from(i * 10).to_bits(), base_time + u64::from(i) * SEC).unwrap();
    }
    let points2 = drain_series(&ring, 0, 0, 0, &mut cursor).unwrap();
    assert_eq!(points2.len(), 5);
    assert_eq!(f64::from_bits(points2[0].1), 50.0);
    assert_eq!(f64::from_bits(points2[4].1), 90.0);
}

#[test]
fn test_drain_no_new_data() {
    let mut ring = create_test_ring(60, SEC);
    let mut cursor = ExportCursor::new();

    let base_time = 1_000_000_000_000_000_000u64;
    for i in 0u32..5 {
        ring.write(0, f64::from(i * 10).to_bits(), base_time + u64::from(i) * SEC).unwrap();
    }
    let _ = drain_series(&ring, 0, 0, 0, &mut cursor).unwrap();

    let points = drain_series(&ring, 0, 0, 0, &mut cursor).unwrap();
    assert!(points.is_empty());
}

#[test]
fn test_drain_union_equals_single_drain() {
    // two consecutive drains with writes between cover exactly what one
    // drain over the whole range returns, with no point twice
    let mut ring = create_test_ring(60, SEC);
    let mut cursor = ExportCursor::new();
    let mut untouched = ExportCursor::new();

    let base_time = 1_000_000_000_000_000_000u64;
    for i in 0u32..4 {
        ring.write(0, f64::from(i).to_bits(), base_time + u64::from(i) * SEC).unwrap();
    }
    let first = drain_series(&ring, 0, 0, 0, &mut cursor).unwrap();
    for i in 4u32..9 {
        ring.write(0, f64::from(i).to_bits(), base_time + u64::from(i) * SEC).unwrap();
    }
    let second = drain_series(&ring, 0, 0, 0, &mut cursor).unwrap();

    let whole = drain_series(&ring, 0, 0, 0, &mut untouched).unwrap();
    let mut union = first.clone();
    union.extend(second.iter().cloned());
    assert_eq!(union, whole);
    for w in union.windows(2) {
        assert!(w[0].0 < w[1].0);
    }
}
