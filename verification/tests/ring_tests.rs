//! Tests for the ring buffer over an in-memory slab.

use rondo::ring::RingBuffer;
use rondo::slab::Slab;
use rondo::slab_image::{slab_from_bytes, slab_to_bytes};

const SEC: u64 = 1_000_000_000;

fn ring_with(slot_count: u32, interval_ns: u64) -> RingBuffer {
    let slab = Slab::new(0x1234567890abcdef, slot_count, 10, interval_ns);
    RingBuffer::new(slab)
}

fn bits(v: f64) -> u64 {
    v.to_bits()
}

fn floats(points: Vec<(u64, u64)>) -> Vec<(u64, f64)> {
    points.into_iter().map(|(t, b)| (t, f64::from_bits(b))).collect()
}

#[test]
fn test_empty_buffer() {
    let ring = ring_with(10, SEC);

    assert!(ring.is_empty());
    assert!(!ring.has_wrapped());
    assert_eq!(ring.slots_used(), 0);
    assert_eq!(ring.oldest_timestamp(), None);
    assert_eq!(ring.newest_timestamp(), None);
}

#[test]
fn test_single_write() {
    let mut ring = ring_with(10, SEC);

    ring.write(0, bits(42.5), SEC).unwrap();

    assert!(!ring.is_empty());
    assert!(!ring.has_wrapped());
    assert_eq!(ring.slots_used(), 1);
    assert_eq!(ring.oldest_timestamp(), Some(SEC));
    assert_eq!(ring.newest_timestamp(), Some(SEC));
    assert_eq!(ring.slab().write_cursor(), 1);
}

#[test]
fn test_multiple_writes() {
    let mut ring = ring_with(10, SEC);

    ring.write(0, bits(10.0), SEC).unwrap();
    ring.write(0, bits(20.0), 2 * SEC).unwrap();
    ring.write(0, bits(30.0), 3 * SEC).unwrap();

    assert!(!ring.is_empty());
    assert!(!ring.has_wrapped());
    assert_eq!(ring.slots_used(), 3);
    assert_eq!(ring.oldest_timestamp(), Some(SEC));
    assert_eq!(ring.newest_timestamp(), Some(3 * SEC));
}

#[test]
fn test_batch_write() {
    let mut ring = ring_with(10, SEC);

    let entries = [(0u32, bits(10.0)), (1u32, bits(20.0)), (2u32, bits(30.0))];
    ring.write_batch(&entries, SEC).unwrap();

    assert_eq!(ring.slab().read_timestamp(1), SEC);
    assert_eq!(f64::from_bits(ring.slab().read_value(1, 0)), 10.0);
    assert_eq!(f64::from_bits(ring.slab().read_value(1, 1)), 20.0);
    assert_eq!(f64::from_bits(ring.slab().read_value(1, 2)), 30.0);
}

#[test]
fn test_wraparound() {
    let mut ring = ring_with(3, SEC);

    ring.write(0, bits(10.0), SEC).unwrap();
    ring.write(0, bits(20.0), 2 * SEC).unwrap();
    ring.write(0, bits(30.0), 3 * SEC).unwrap();

    assert!(ring.has_wrapped());
    assert_eq!(ring.slots_used(), 3);

    ring.write(0, bits(40.0), 4 * SEC).unwrap();

    assert_eq!(ring.oldest_timestamp(), Some(2 * SEC));
    assert_eq!(ring.newest_timestamp(), Some(4 * SEC));
}

#[test]
fn test_read_empty() {
    let ring = ring_with(10, SEC);
    let points = ring.read(0, 0, 10 * SEC).unwrap();
    assert!(points.is_empty());
}

#[test]
fn test_read_basic() {
    let mut ring = ring_with(10, SEC);

    ring.write(0, bits(10.0), SEC).unwrap();
    ring.write(0, bits(20.0), 3 * SEC).unwrap();
    ring.write(0, bits(30.0), 5 * SEC).unwrap();

    let data = floats(ring.read(0, 0, 10 * SEC).unwrap());
    assert_eq!(data, vec![(SEC, 10.0), (3 * SEC, 20.0), (5 * SEC, 30.0)]);
}

#[test]
fn test_read_time_range() {
    let mut ring = ring_with(10, SEC);

    ring.write(0, bits(10.0), SEC).unwrap();
    ring.write(0, bits(20.0), 3 * SEC).unwrap();
    ring.write(0, bits(30.0), 5 * SEC).unwrap();
    ring.write(0, bits(40.0), 7 * SEC).unwrap();

    let data = floats(ring.read(0, 2 * SEC, 6 * SEC).unwrap());
    assert_eq!(data, vec![(3 * SEC, 20.0), (5 * SEC, 30.0)]);
}

#[test]
fn test_read_with_wraparound() {
    let mut ring = ring_with(3, SEC);

    ring.write(0, bits(10.0), SEC).unwrap();
    ring.write(0, bits(20.0), 2 * SEC).unwrap();
    ring.write(0, bits(30.0), 3 * SEC).unwrap();
    ring.write(0, bits(40.0), 4 * SEC).unwrap();

    let data = floats(ring.read(0, 0, 10 * SEC).unwrap());
    assert_eq!(data, vec![(2 * SEC, 20.0), (3 * SEC, 30.0), (4 * SEC, 40.0)]);
}

#[test]
fn test_read_skips_nan() {
    let mut ring = ring_with(10, SEC);

    ring.write(0, bits(10.0), SEC).unwrap();
    ring.write(1, bits(20.0), 3 * SEC).unwrap();
    ring.write(0, bits(30.0), 5 * SEC).unwrap();

    let data = floats(ring.read(0, 0, 10 * SEC).unwrap());
    assert_eq!(data, vec![(SEC, 10.0), (5 * SEC, 30.0)]);
}

#[test]
fn test_invalid_value_errors() {
    let mut ring = ring_with(10, SEC);

    assert!(ring.write(0, bits(f64::INFINITY), SEC).is_err());
    assert!(ring.write(0, bits(f64::NEG_INFINITY), SEC).is_err());
    // the NaN pattern is the empty-slot sentinel and may be written
    assert!(ring.write(0, bits(f64::NAN), SEC).is_ok());
}

#[test]
fn test_invalid_timestamp_errors() {
    let mut ring = ring_with(10, SEC);
    assert!(ring.write(0, bits(10.0), 0).is_err());
}

#[test]
fn test_invalid_time_range_error() {
    let ring = ring_with(10, SEC);
    assert!(ring.read(0, 5 * SEC, 5 * SEC).is_err());
    assert!(ring.read(0, 10 * SEC, 5 * SEC).is_err());
}

#[test]
fn test_multiple_series() {
    let mut ring = ring_with(10, SEC);

    ring.write(0, bits(10.0), SEC).unwrap();
    ring.write(1, bits(20.0), SEC).unwrap();
    ring.write(2, bits(30.0), SEC).unwrap();

    assert_eq!(floats(ring.read(0, 0, 10 * SEC).unwrap()), vec![(SEC, 10.0)]);
    assert_eq!(floats(ring.read(1, 0, 10 * SEC).unwrap()), vec![(SEC, 20.0)]);
    assert_eq!(floats(ring.read(2, 0, 10 * SEC).unwrap()), vec![(SEC, 30.0)]);
}

#[test]
fn test_batch_error_on_invalid_values() {
    let mut ring = ring_with(10, SEC);

    let entries = [(0u32, bits(10.0)), (1u32, bits(f64::INFINITY)), (2u32, bits(30.0))];
    assert!(ring.write_batch(&entries, SEC).is_err());
    assert!(ring.is_empty());
}

#[test]
fn test_batch_error_on_invalid_timestamp() {
    let mut ring = ring_with(10, SEC);

    let entries = [(0u32, bits(10.0)), (1u32, bits(20.0))];
    assert!(ring.write_batch(&entries, 0).is_err());
    assert!(ring.is_empty());
}

#[test]
fn test_state_persistence() {
    // write, encode the slab to its byte image, decode, and read back
    let mut ring = ring_with(10, SEC);
    ring.write(0, bits(10.0), SEC).unwrap();
    ring.write(0, bits(20.0), 3 * SEC).unwrap();

    let image = slab_to_bytes(ring.slab());
    let slab = slab_from_bytes(&image).unwrap();
    let reopened = RingBuffer::new(slab);

    let data = floats(reopened.read(0, 0, 10 * SEC).unwrap());
    assert_eq!(data, vec![(SEC, 10.0), (3 * SEC, 20.0)]);
    assert_eq!(reopened.oldest_timestamp(), Some(SEC));
    assert_eq!(reopened.newest_timestamp(), Some(3 * SEC));
}

#[test]
fn test_wraparound_state_detection() {
    let mut ring = ring_with(3, SEC);
    ring.write(0, bits(10.0), SEC).unwrap();
    ring.write(0, bits(20.0), 2 * SEC).unwrap();
    ring.write(0, bits(30.0), 3 * SEC).unwrap();
    ring.write(0, bits(40.0), 4 * SEC).unwrap();
    assert!(ring.has_wrapped());

    let image = slab_to_bytes(ring.slab());
    let reopened = RingBuffer::new(slab_from_bytes(&image).unwrap());

    assert!(reopened.has_wrapped());
    assert_eq!(reopened.oldest_timestamp(), Some(2 * SEC));
    assert_eq!(reopened.newest_timestamp(), Some(4 * SEC));
}

#[test]
fn test_read_strictly_increasing_timestamps() {
    // points come back in strictly increasing order, none of them empty
    let mut ring = ring_with(5, SEC);
    for i in 1u32..=13 {
        ring.write(0, bits(f64::from(i)), u64::from(i) * SEC).unwrap();
    }
    let data = ring.read(0, 0, u64::MAX).unwrap();
    assert_eq!(data.len(), 5);
    for w in data.windows(2) {
        assert!(w[0].0 < w[1].0);
    }
    for (_, b) in data {
        assert!(!f64::from_bits(b).is_nan());
    }
}

#[test]
fn test_read_skips_torn_write_slot() {
    // a slot whose value was stored but whose timestamp stayed zero (a
    // torn write) is treated as absent by readers, even when the
    // requested range starts at zero
    let mut ring = ring_with(4, SEC);
    ring.write(0, bits(10.0), SEC).unwrap();

    let mut image = slab_to_bytes(ring.slab());
    // layout: 64-byte header, max_series * 4 directory bytes,
    // slot_count * 8 timestamp bytes, then slot_count * 8 value bytes
    // per column; patch column 0, slot 3 with a finite value while its
    // timestamp stays zero
    let slot_count = 4usize;
    let max_series = 10usize;
    let values_base = 64 + max_series * 4 + slot_count * 8;
    let torn = values_base + 3 * 8;
    image[torn..torn + 8].copy_from_slice(&bits(99.0).to_le_bytes());

    let reopened = RingBuffer::new(slab_from_bytes(&image).unwrap());
    let data = floats(reopened.read(0, 0, 10 * SEC).unwrap());
    assert_eq!(data, vec![(SEC, 10.0)]);
}
