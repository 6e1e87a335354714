//! Tests for the slab storage and its byte image.

use rondo::slab::{Slab, UNASSIGNED_COLUMN};
use rondo::slab_image::{slab_from_bytes, slab_to_bytes, SlabLayout};

#[test]
fn test_slab_layout() {
    let layout = SlabLayout::new(1000, 10);

    assert_eq!(layout.series_dir_offset, 64);
    assert_eq!(layout.timestamp_column_offset, 104);
    assert_eq!(layout.value_columns_offset, 8104);
    assert_eq!(layout.value_column_size, 8000);
    assert_eq!(layout.file_size, 88104);

    assert_eq!(layout.value_column_offset(0), 8104);
    assert_eq!(layout.value_column_offset(1), 16104);
    assert_eq!(layout.value_column_offset(9), 80104);
}

#[test]
fn test_slab_create_and_open() {
    let slab = Slab::new(0x1234567890abcdef, 100, 5, 1_000_000_000);

    assert_eq!(slab.schema_hash(), 0x1234567890abcdef);
    assert_eq!(slab.slot_count(), 100);
    assert_eq!(slab.max_series(), 5);
    assert_eq!(slab.interval_ns(), 1_000_000_000);
    assert_eq!(slab.write_cursor(), 0);
    assert_eq!(slab.series_count(), 0);

    // the byte image reopens to the same state
    let image = slab_to_bytes(&slab);
    assert_eq!(image.len(), SlabLayout::new(100, 5).file_size);
    let slab = slab_from_bytes(&image).unwrap();

    assert_eq!(slab.schema_hash(), 0x1234567890abcdef);
    assert_eq!(slab.slot_count(), 100);
    assert_eq!(slab.max_series(), 5);
    assert_eq!(slab.interval_ns(), 1_000_000_000);
    assert_eq!(slab.write_cursor(), 0);
    assert_eq!(slab.series_count(), 0);
}

#[test]
fn test_slab_header_updates() {
    let mut slab = Slab::new(0x1234567890abcdef, 100, 5, 1_000_000_000);

    slab.set_write_cursor(42);
    slab.set_series_count(3);

    assert_eq!(slab.write_cursor(), 42);
    assert_eq!(slab.series_count(), 3);

    let reopened = slab_from_bytes(&slab_to_bytes(&slab)).unwrap();
    assert_eq!(reopened.write_cursor(), 42);
    assert_eq!(reopened.series_count(), 3);
}

#[test]
fn test_timestamp_operations() {
    let mut slab = Slab::new(0x1234567890abcdef, 100, 5, 1_000_000_000);

    assert_eq!(slab.read_timestamp(0), 0);
    assert_eq!(slab.read_timestamp(50), 0);
    assert_eq!(slab.read_timestamp(99), 0);

    slab.write_timestamp(0, 1000);
    slab.write_timestamp(50, 2000);
    slab.write_timestamp(99, 3000);

    assert_eq!(slab.read_timestamp(0), 1000);
    assert_eq!(slab.read_timestamp(50), 2000);
    assert_eq!(slab.read_timestamp(99), 3000);

    assert_eq!(slab.read_timestamp(1), 0);
    assert_eq!(slab.read_timestamp(49), 0);
    assert_eq!(slab.read_timestamp(98), 0);
}

#[test]
fn test_value_operations() {
    let mut slab = Slab::new(0x1234567890abcdef, 100, 5, 1_000_000_000);

    assert!(f64::from_bits(slab.read_value(0, 0)).is_nan());
    assert!(f64::from_bits(slab.read_value(50, 2)).is_nan());
    assert!(f64::from_bits(slab.read_value(99, 4)).is_nan());

    slab.write_value(0, 0, 42.0f64.to_bits());
    slab.write_value(50, 2, 3.125f64.to_bits());
    slab.write_value(99, 4, (-273.15f64).to_bits());

    assert_eq!(f64::from_bits(slab.read_value(0, 0)), 42.0);
    assert_eq!(f64::from_bits(slab.read_value(50, 2)), 3.125);
    assert_eq!(f64::from_bits(slab.read_value(99, 4)), -273.15);

    assert!(f64::from_bits(slab.read_value(0, 1)).is_nan());
    assert!(f64::from_bits(slab.read_value(1, 0)).is_nan());
    assert!(f64::from_bits(slab.read_value(50, 0)).is_nan());
}

#[test]
fn test_series_directory() {
    let mut slab = Slab::new(0x1234567890abcdef, 100, 5, 1_000_000_000);

    assert_eq!(slab.get_series_column(0), None);
    assert_eq!(slab.get_series_column(4), None);

    slab.set_series_column(0, 0);
    slab.set_series_column(2, 1);
    slab.set_series_column(4, 3);

    assert_eq!(slab.get_series_column(0), Some(0));
    assert_eq!(slab.get_series_column(2), Some(1));
    assert_eq!(slab.get_series_column(4), Some(3));

    assert_eq!(slab.get_series_column(1), None);
    assert_eq!(slab.get_series_column(3), None);
    // an out-of-range id reads as absent
    assert_eq!(slab.get_series_column(5), None);
    assert_eq!(UNASSIGNED_COLUMN, u32::MAX);
}

#[test]
fn test_invalid_header() {
    // correct header size but wrong magic
    let mut image = vec![0u8; 64];
    image[0..4].copy_from_slice(b"BAD\0");
    assert!(slab_from_bytes(&image).is_err());
}

#[test]
fn test_file_size_validation() {
    // an image smaller than the header is rejected
    let image = b"small".to_vec();
    assert!(slab_from_bytes(&image).is_err());

    // a valid header over a truncated body is rejected
    let slab = Slab::new(1, 4, 2, 1_000_000_000);
    let mut image = slab_to_bytes(&slab);
    image.pop();
    assert!(slab_from_bytes(&image).is_err());
}

#[test]
fn test_persistence() {
    let mut slab = Slab::new(0x1234567890abcdef, 10, 3, 1_000_000_000);

    slab.set_write_cursor(5);
    slab.set_series_count(2);
    slab.set_series_column(0, 0);
    slab.set_series_column(1, 1);
    slab.write_timestamp(0, 1_000_000_000);
    slab.write_timestamp(5, 2_000_000_000);
    slab.write_value(0, 0, 42.5f64.to_bits());
    slab.write_value(5, 1, (-17.25f64).to_bits());

    let image = slab_to_bytes(&slab);
    let slab = slab_from_bytes(&image).unwrap();

    assert_eq!(slab.write_cursor(), 5);
    assert_eq!(slab.series_count(), 2);
    assert_eq!(slab.get_series_column(0), Some(0));
    assert_eq!(slab.get_series_column(1), Some(1));
    assert_eq!(slab.read_timestamp(0), 1_000_000_000);
    assert_eq!(slab.read_timestamp(5), 2_000_000_000);
    assert_eq!(f64::from_bits(slab.read_value(0, 0)), 42.5);
    assert_eq!(f64::from_bits(slab.read_value(5, 1)), -17.25);
    assert_eq!(slab.read_timestamp(1), 0);
    assert!(f64::from_bits(slab.read_value(1, 0)).is_nan());
}

#[test]
fn test_image_layout_bytes() {
    // the image carries the documented layout: magic, version, fields
    let slab = Slab::new(0x0102030405060708, 2, 1, 9);
    let image = slab_to_bytes(&slab);

    assert_eq!(&image[0..4], b"RNDO");
    assert_eq!(&image[4..8], &[1, 0, 0, 0]);
    assert_eq!(&image[8..16], &[8, 7, 6, 5, 4, 3, 2, 1]);
    assert_eq!(&image[16..20], &[2, 0, 0, 0]);
    assert_eq!(&image[20..24], &[1, 0, 0, 0]);
    assert_eq!(&image[24..32], &[9, 0, 0, 0, 0, 0, 0, 0]);
    // cursor and series count start at zero, reserved bytes are zero
    assert_eq!(&image[32..64], &[0u8; 32][..]);
    // unassigned directory entry
    assert_eq!(&image[64..68], &[0xff, 0xff, 0xff, 0xff]);
    assert_eq!(image.len(), 64 + 4 + 16 + 16);
}

#[test]
fn test_image_rejects_bad_cursor() {
    let slab = Slab::new(1, 4, 1, 1_000_000_000);
    let mut image = slab_to_bytes(&slab);
    // plant a cursor beyond the slot count
    image[32] = 200;
    assert!(slab_from_bytes(&image).is_err());
}
