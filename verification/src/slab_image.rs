//! The slab's byte image: the fixed on-disk layout.
//!
//! A slab is kept on disk as one fixed-size file: a 64-byte little-endian
//! header, the series directory (4 bytes per series id), the timestamp
//! column (8 bytes per slot) and one value column per series (8 bytes per
//! slot).  `slab_to_bytes` produces exactly that image; `slab_from_bytes`
//! accepts exactly the images that decode to a well-formed slab, checking
//! the magic, the version, the cursor and counter ranges, and the file
//! size derived from the header.

use vstd::prelude::*;

use crate::error::{RondoError, SlabIoError};
use crate::slab::{Slab, SlabView, SLAB_VERSION};

verus! {

/// Size of the slab header in bytes.
pub const HEADER_SIZE: usize = 64;

/// Size of each series directory entry in bytes.
pub const SERIES_DIR_ENTRY_SIZE: usize = 4;

/// Size of a timestamp column entry in bytes.
pub const TIMESTAMP_SIZE: usize = 8;

/// Size of a value column entry in bytes.
pub const VALUE_SIZE: usize = 8;

/// Little-endian bytes of a 32-bit word.
pub open spec fn le32(x: u32) -> Seq<u8> {
    seq![x as u8, (x >> 8) as u8, (x >> 16) as u8, (x >> 24) as u8]
}

/// Little-endian bytes of a 64-bit word.
pub open spec fn le64(x: u64) -> Seq<u8> {
    seq![
        x as u8,
        (x >> 8) as u8,
        (x >> 16) as u8,
        (x >> 24) as u8,
        (x >> 32) as u8,
        (x >> 40) as u8,
        (x >> 48) as u8,
        (x >> 56) as u8,
    ]
}

/// A run of zero bytes.
pub open spec fn zero_bytes(n: int) -> Seq<u8> {
    Seq::new(n as nat, |i: int| 0u8)
}

/// The four magic bytes, spelling the format's name.
pub open spec fn magic_bytes() -> Seq<u8> {
    seq![0x52u8, 0x4eu8, 0x44u8, 0x4fu8]
}

/// The 64-byte header: magic, version, schema hash, geometry, cursor,
/// series count, and 24 reserved zero bytes.
pub open spec fn header_bytes(v: SlabView) -> Seq<u8> {
    magic_bytes() + le32(SLAB_VERSION) + le64(v.schema_hash) + le32(v.slot_count) + le32(
        v.max_series,
    ) + le64(v.interval_ns) + le32(v.write_cursor) + le32(v.series_count) + zero_bytes(24)
}

/// The series directory region: one 32-bit entry per series id.
pub open spec fn dir_bytes(directory: Seq<u32>) -> Seq<u8>
    decreases directory.len(),
{
    if directory.len() == 0 {
        Seq::empty()
    } else {
        dir_bytes(directory.drop_last()) + le32(directory.last())
    }
}

/// A column of 64-bit words, laid out back to back.
pub open spec fn words_bytes(words: Seq<u64>) -> Seq<u8>
    decreases words.len(),
{
    if words.len() == 0 {
        Seq::empty()
    } else {
        words_bytes(words.drop_last()) + le64(words.last())
    }
}

/// All value columns, laid out back to back.
pub open spec fn cols_bytes(values: Seq<Seq<u64>>) -> Seq<u8>
    decreases values.len(),
{
    if values.len() == 0 {
        Seq::empty()
    } else {
        cols_bytes(values.drop_last()) + words_bytes(values.last())
    }
}

/// The whole image: header, directory, timestamps, value columns.
pub open spec fn slab_bytes(v: SlabView) -> Seq<u8> {
    header_bytes(v) + dir_bytes(v.directory) + words_bytes(v.timestamps) + cols_bytes(v.values)
}

/// Distinct 32-bit words have distinct little-endian images.
proof fn lemma_le32_inj(x: u32, y: u32)
    requires
        le32(x) == le32(y),
    ensures
        x == y,
{
    assert(le32(x)[0] == le32(y)[0] && le32(x)[1] == le32(y)[1] && le32(x)[2] == le32(y)[2]
        && le32(x)[3] == le32(y)[3]);
    assert((x as u8 == y as u8 && (x >> 8) as u8 == (y >> 8) as u8 && (x >> 16) as u8 == (y >> 16)
        as u8 && (x >> 24) as u8 == (y >> 24) as u8) ==> x == y) by (bit_vector);
}

/// Distinct 64-bit words have distinct little-endian images.
proof fn lemma_le64_inj(x: u64, y: u64)
    requires
        le64(x) == le64(y),
    ensures
        x == y,
{
    assert(le64(x)[0] == le64(y)[0] && le64(x)[1] == le64(y)[1] && le64(x)[2] == le64(y)[2]
        && le64(x)[3] == le64(y)[3] && le64(x)[4] == le64(y)[4] && le64(x)[5] == le64(y)[5]
        && le64(x)[6] == le64(y)[6] && le64(x)[7] == le64(y)[7]);
    assert((x as u8 == y as u8 && (x >> 8) as u8 == (y >> 8) as u8 && (x >> 16) as u8 == (y >> 16)
        as u8 && (x >> 24) as u8 == (y >> 24) as u8 && (x >> 32) as u8 == (y >> 32) as u8 && (x
        >> 40) as u8 == (y >> 40) as u8 && (x >> 48) as u8 == (y >> 48) as u8 && (x >> 56) as u8
        == (y >> 56) as u8) ==> x == y) by (bit_vector);
}

/// Splitting equal concatenations at equal lengths gives equal halves.
proof fn lemma_concat_split<A>(a1: Seq<A>, a2: Seq<A>, b1: Seq<A>, b2: Seq<A>)
    requires
        a1 + a2 == b1 + b2,
        a1.len() == b1.len(),
    ensures
        a1 == b1,
        a2 == b2,
{
    assert forall|i: int| 0 <= i < a1.len() implies a1[i] == b1[i] by {
        assert(a1[i] == (a1 + a2)[i]);
        assert(b1[i] == (b1 + b2)[i]);
    }
    assert(a1 =~= b1);
    assert(a2 =~= (a1 + a2).subrange(a1.len() as int, (a1 + a2).len() as int));
    assert(b2 =~= (b1 + b2).subrange(b1.len() as int, (b1 + b2).len() as int));
}

/// The directory region determines the directory.
proof fn lemma_dir_bytes_inj(d1: Seq<u32>, d2: Seq<u32>)
    requires
        d1.len() == d2.len(),
        dir_bytes(d1) == dir_bytes(d2),
    ensures
        d1 == d2,
    decreases d1.len(),
{
    if d1.len() > 0 {
        lemma_dir_len(d1);
        lemma_dir_len(d2);
        lemma_dir_len(d1.drop_last());
        lemma_dir_len(d2.drop_last());
        lemma_concat_split(
            dir_bytes(d1.drop_last()),
            le32(d1.last()),
            dir_bytes(d2.drop_last()),
            le32(d2.last()),
        );
        lemma_le32_inj(d1.last(), d2.last());
        lemma_dir_bytes_inj(d1.drop_last(), d2.drop_last());
        assert forall|i: int| 0 <= i < d1.len() implies d1[i] == d2[i] by {
            if i < d1.len() - 1 {
                assert(d1[i] == d1.drop_last()[i]);
                assert(d2[i] == d2.drop_last()[i]);
            }
        }
        assert(d1 =~= d2);
    } else {
        assert(d1 =~= d2);
    }
}

/// The directory region is four bytes per entry.
proof fn lemma_dir_len(d: Seq<u32>)
    ensures
        dir_bytes(d).len() == 4 * d.len(),
    decreases d.len(),
{
    if d.len() > 0 {
        lemma_dir_len(d.drop_last());
    }
}

/// A word column region determines its words.
proof fn lemma_words_bytes_inj(w1: Seq<u64>, w2: Seq<u64>)
    requires
        w1.len() == w2.len(),
        words_bytes(w1) == words_bytes(w2),
    ensures
        w1 == w2,
    decreases w1.len(),
{
    if w1.len() > 0 {
        lemma_words_len(w1.drop_last());
        lemma_words_len(w2.drop_last());
        lemma_concat_split(
            words_bytes(w1.drop_last()),
            le64(w1.last()),
            words_bytes(w2.drop_last()),
            le64(w2.last()),
        );
        lemma_le64_inj(w1.last(), w2.last());
        lemma_words_bytes_inj(w1.drop_last(), w2.drop_last());
        assert forall|i: int| 0 <= i < w1.len() implies w1[i] == w2[i] by {
            if i < w1.len() - 1 {
                assert(w1[i] == w1.drop_last()[i]);
                assert(w2[i] == w2.drop_last()[i]);
            }
        }
        assert(w1 =~= w2);
    } else {
        assert(w1 =~= w2);
    }
}

/// A word column region is eight bytes per word.
proof fn lemma_words_len(w: Seq<u64>)
    ensures
        words_bytes(w).len() == 8 * w.len(),
    decreases w.len(),
{
    if w.len() > 0 {
        lemma_words_len(w.drop_last());
    }
}

/// The value region of equally shaped column sets determines the columns.
proof fn lemma_cols_bytes_inj(v1: Seq<Seq<u64>>, v2: Seq<Seq<u64>>, slot_count: int)
    requires
        v1.len() == v2.len(),
        forall|c: int| 0 <= c < v1.len() ==> (#[trigger] v1[c]).len() == slot_count,
        forall|c: int| 0 <= c < v2.len() ==> (#[trigger] v2[c]).len() == slot_count,
        cols_bytes(v1) == cols_bytes(v2),
    ensures
        v1 == v2,
    decreases v1.len(),
{
    if v1.len() > 0 {
        assert(slot_count >= 0) by {
            assert(v1[0].len() == slot_count);
        }
        lemma_words_len(v1.last());
        lemma_words_len(v2.last());
        lemma_cols_len(v1.drop_last(), slot_count);
        lemma_cols_len(v2.drop_last(), slot_count);
        lemma_concat_split(
            cols_bytes(v1.drop_last()),
            words_bytes(v1.last()),
            cols_bytes(v2.drop_last()),
            words_bytes(v2.last()),
        );
        lemma_words_bytes_inj(v1.last(), v2.last());
        lemma_cols_bytes_inj(v1.drop_last(), v2.drop_last(), slot_count);
        assert forall|i: int| 0 <= i < v1.len() implies v1[i] == v2[i] by {
            if i < v1.len() - 1 {
                assert(v1[i] == v1.drop_last()[i]);
                assert(v2[i] == v2.drop_last()[i]);
            }
        }
        assert(v1 =~= v2);
    } else {
        assert(v1 =~= v2);
    }
}

/// The region sizes that the concatenation splits rely on.
proof fn lemma_cols_len(v: Seq<Seq<u64>>, slot_count: int)
    requires
        forall|c: int| 0 <= c < v.len() ==> (#[trigger] v[c]).len() == slot_count,
        slot_count >= 0,
    ensures
        cols_bytes(v).len() == v.len() * (8 * slot_count),
    decreases v.len(),
{
    if v.len() > 0 {
        lemma_cols_len(v.drop_last(), slot_count);
        lemma_words_len(v.last());
        assert((v.len() - 1) * (8 * slot_count) + 8 * slot_count == v.len() * (8 * slot_count))
            by (nonlinear_arith);
    } else {
        assert(cols_bytes(v).len() == 0);
        assert(v.len() * (8 * slot_count) == 0) by (nonlinear_arith)
            requires
                v.len() == 0,
        ;
    }
}

/// The image is lossless: two well-formed slabs with the same byte image
/// are the same slab.  Together with the encoder's and decoder's
/// contracts this makes decode-after-encode the identity.
pub proof fn lemma_image_lossless(a: SlabView, b: SlabView)
    requires
        a.wf(),
        b.wf(),
        slab_bytes(a) == slab_bytes(b),
    ensures
        a.schema_hash == b.schema_hash,
        a.slot_count == b.slot_count,
        a.max_series == b.max_series,
        a.interval_ns == b.interval_ns,
        a.write_cursor == b.write_cursor,
        a.series_count == b.series_count,
        a.directory == b.directory,
        a.timestamps == b.timestamps,
        a.values == b.values,
{
    let rest_a = dir_bytes(a.directory) + words_bytes(a.timestamps) + cols_bytes(a.values);
    let rest_b = dir_bytes(b.directory) + words_bytes(b.timestamps) + cols_bytes(b.values);
    assert(header_bytes(a).len() == 64 && header_bytes(b).len() == 64);
    assert(slab_bytes(a) =~= header_bytes(a) + rest_a);
    assert(slab_bytes(b) =~= header_bytes(b) + rest_b);
    lemma_concat_split(header_bytes(a), rest_a, header_bytes(b), rest_b);
    // the header fields decode one by one
    let ha = header_bytes(a);
    let hb = header_bytes(b);
    assert(le64(a.schema_hash) =~= ha.subrange(8, 16));
    assert(le64(b.schema_hash) =~= hb.subrange(8, 16));
    lemma_le64_inj(a.schema_hash, b.schema_hash);
    assert(le32(a.slot_count) =~= ha.subrange(16, 20));
    assert(le32(b.slot_count) =~= hb.subrange(16, 20));
    lemma_le32_inj(a.slot_count, b.slot_count);
    assert(le32(a.max_series) =~= ha.subrange(20, 24));
    assert(le32(b.max_series) =~= hb.subrange(20, 24));
    lemma_le32_inj(a.max_series, b.max_series);
    assert(le64(a.interval_ns) =~= ha.subrange(24, 32));
    assert(le64(b.interval_ns) =~= hb.subrange(24, 32));
    lemma_le64_inj(a.interval_ns, b.interval_ns);
    assert(le32(a.write_cursor) =~= ha.subrange(32, 36));
    assert(le32(b.write_cursor) =~= hb.subrange(32, 36));
    lemma_le32_inj(a.write_cursor, b.write_cursor);
    assert(le32(a.series_count) =~= ha.subrange(36, 40));
    assert(le32(b.series_count) =~= hb.subrange(36, 40));
    lemma_le32_inj(a.series_count, b.series_count);
    // with equal geometry the three data regions split identically
    lemma_dir_len(a.directory);
    lemma_dir_len(b.directory);
    lemma_words_len(a.timestamps);
    lemma_words_len(b.timestamps);
    lemma_concat_split(
        dir_bytes(a.directory) + words_bytes(a.timestamps),
        cols_bytes(a.values),
        dir_bytes(b.directory) + words_bytes(b.timestamps),
        cols_bytes(b.values),
    );
    lemma_concat_split(
        dir_bytes(a.directory),
        words_bytes(a.timestamps),
        dir_bytes(b.directory),
        words_bytes(b.timestamps),
    );
    lemma_dir_bytes_inj(a.directory, b.directory);
    lemma_words_bytes_inj(a.timestamps, b.timestamps);
    lemma_cols_bytes_inj(a.values, b.values, a.slot_count as int);
}

/// Region offsets and sizes of a slab image, all derived from the slot
/// and series counts.
#[derive(Debug, Clone, Copy, PartialEq, Eq, Structural)]
pub struct SlabLayout {
    /// Total image size in bytes.
    pub file_size: usize,
    /// Offset of the series directory.
    pub series_dir_offset: usize,
    /// Offset of the timestamp column.
    pub timestamp_column_offset: usize,
    /// Offset of the first value column.
    pub value_columns_offset: usize,
    /// Size of one value column in bytes.
    pub value_column_size: usize,
}

/// The image size of a slab with the given geometry, as a mathematical
/// integer.
pub open spec fn spec_file_size(slot_count: u32, max_series: u32) -> int {
    HEADER_SIZE + max_series * SERIES_DIR_ENTRY_SIZE + slot_count * TIMESTAMP_SIZE + max_series
        * slot_count * VALUE_SIZE
}

impl SlabLayout {
    /// Computes the layout for the given geometry.
    pub fn new(slot_count: u32, max_series: u32) -> (r: SlabLayout)
        requires
            spec_file_size(slot_count, max_series) <= usize::MAX,
        ensures
            r.series_dir_offset == HEADER_SIZE,
            r.timestamp_column_offset == HEADER_SIZE + max_series * SERIES_DIR_ENTRY_SIZE,
            r.value_columns_offset == r.timestamp_column_offset + slot_count * TIMESTAMP_SIZE,
            r.value_column_size == slot_count * VALUE_SIZE,
            r.file_size == spec_file_size(slot_count, max_series),
    {
        let slot_count = slot_count as usize;
        let max_series = max_series as usize;
        proof {
            vstd::arithmetic::mul::lemma_mul_nonnegative(max_series as int, slot_count as int);
            vstd::arithmetic::mul::lemma_mul_is_associative(
                max_series as int,
                slot_count as int,
                VALUE_SIZE as int,
            );
            assert(max_series * slot_count * (VALUE_SIZE as int) >= 0) by (nonlinear_arith);
        }
        let series_dir_size = max_series * SERIES_DIR_ENTRY_SIZE;
        let series_dir_offset = HEADER_SIZE;
        let data_region_offset = series_dir_offset + series_dir_size;
        let timestamp_column_size = slot_count * TIMESTAMP_SIZE;
        let value_column_size = slot_count * VALUE_SIZE;
        proof {
            assert(max_series * (slot_count * (VALUE_SIZE as int)) == max_series * slot_count * (
            VALUE_SIZE as int)) by (nonlinear_arith);
            assert(max_series * (slot_count * (VALUE_SIZE as int)) >= 0) by (nonlinear_arith);
        }
        let total_value_columns_size = max_series * value_column_size;
        let timestamp_column_offset = data_region_offset;
        let value_columns_offset = timestamp_column_offset + timestamp_column_size;
        let file_size = value_columns_offset + total_value_columns_size;
        SlabLayout {
            file_size,
            series_dir_offset,
            timestamp_column_offset,
            value_columns_offset,
            value_column_size,
        }
    }

    /// The byte offset of one value column.
    pub fn value_column_offset(&self, series_column: u32) -> (r: usize)
        requires
            self.value_columns_offset + series_column * self.value_column_size <= usize::MAX,
        ensures
            r == self.value_columns_offset + series_column * self.value_column_size,
    {
        proof {
            vstd::arithmetic::mul::lemma_mul_nonnegative(
                series_column as int,
                self.value_column_size as int,
            );
        }
        self.value_columns_offset + (series_column as usize) * self.value_column_size
    }
}

/// Appends the little-endian bytes of a 32-bit word.
fn push_u32_le(out: &mut Vec<u8>, x: u32)
    ensures
        final(out)@ == old(out)@ + le32(x),
{
    out.push(x as u8);
    out.push((x >> 8) as u8);
    out.push((x >> 16) as u8);
    out.push((x >> 24) as u8);
    proof {
        assert(final(out)@ =~= old(out)@ + le32(x));
    }
}

/// Appends the little-endian bytes of a 64-bit word.
fn push_u64_le(out: &mut Vec<u8>, x: u64)
    ensures
        final(out)@ == old(out)@ + le64(x),
{
    out.push(x as u8);
    out.push((x >> 8) as u8);
    out.push((x >> 16) as u8);
    out.push((x >> 24) as u8);
    out.push((x >> 32) as u8);
    out.push((x >> 40) as u8);
    out.push((x >> 48) as u8);
    out.push((x >> 56) as u8);
    proof {
        assert(final(out)@ =~= old(out)@ + le64(x));
    }
}

/// Reads a little-endian 32-bit word.
fn read_u32_le(bytes: &Vec<u8>, offset: usize) -> (r: u32)
    requires
        offset + 4 <= bytes@.len(),
    ensures
        le32(r) =~= bytes@.subrange(offset as int, offset as int + 4),
{
    let n = bytes.len();
    let b0 = bytes[offset] as u32;
    let b1 = bytes[offset + 1] as u32;
    let b2 = bytes[offset + 2] as u32;
    let b3 = bytes[offset + 3] as u32;
    let r = b0 | (b1 << 8) | (b2 << 16) | (b3 << 24);
    proof {
        let x0 = bytes@[offset as int];
        let x1 = bytes@[offset as int + 1];
        let x2 = bytes@[offset as int + 2];
        let x3 = bytes@[offset as int + 3];
        assert({
            let v = (x0 as u32) | ((x1 as u32) << 8) | ((x2 as u32) << 16) | ((x3 as u32) << 24);
            v as u8 == x0 && (v >> 8) as u8 == x1 && (v >> 16) as u8 == x2 && (v >> 24) as u8 == x3
        }) by (bit_vector);
    }
    r
}

/// Reads a little-endian 64-bit word.
fn read_u64_le(bytes: &Vec<u8>, offset: usize) -> (r: u64)
    requires
        offset + 8 <= bytes@.len(),
    ensures
        le64(r) =~= bytes@.subrange(offset as int, offset as int + 8),
{
    let n = bytes.len();
    let b0 = bytes[offset] as u64;
    let b1 = bytes[offset + 1] as u64;
    let b2 = bytes[offset + 2] as u64;
    let b3 = bytes[offset + 3] as u64;
    let b4 = bytes[offset + 4] as u64;
    let b5 = bytes[offset + 5] as u64;
    let b6 = bytes[offset + 6] as u64;
    let b7 = bytes[offset + 7] as u64;
    let r = b0 | (b1 << 8) | (b2 << 16) | (b3 << 24) | (b4 << 32) | (b5 << 40) | (b6 << 48) | (b7
        << 56);
    proof {
        let x0 = bytes@[offset as int];
        let x1 = bytes@[offset as int + 1];
        let x2 = bytes@[offset as int + 2];
        let x3 = bytes@[offset as int + 3];
        let x4 = bytes@[offset as int + 4];
        let x5 = bytes@[offset as int + 5];
        let x6 = bytes@[offset as int + 6];
        let x7 = bytes@[offset as int + 7];
        assert({
            let v = (x0 as u64) | ((x1 as u64) << 8) | ((x2 as u64) << 16) | ((x3 as u64) << 24)
                | ((x4 as u64) << 32) | ((x5 as u64) << 40) | ((x6 as u64) << 48) | ((x7 as u64)
                << 56);
            v as u8 == x0 && (v >> 8) as u8 == x1 && (v >> 16) as u8 == x2 && (v >> 24) as u8 == x3
                && (v >> 32) as u8 == x4 && (v >> 40) as u8 == x5 && (v >> 48) as u8 == x6 && (v
                >> 56) as u8 == x7
        }) by (bit_vector);
    }
    r
}

/// Encodes a slab as its byte image.
pub fn slab_to_bytes(slab: &Slab) -> (r: Vec<u8>)
    requires
        slab@.wf(),
    ensures
        r@ == slab_bytes(slab@),
{
    let mut out: Vec<u8> = Vec::new();
    out.push(0x52);
    out.push(0x4e);
    out.push(0x44);
    out.push(0x4f);
    proof {
        assert(out@ =~= magic_bytes());
    }
    push_u32_le(&mut out, SLAB_VERSION);
    push_u64_le(&mut out, slab.schema_hash);
    push_u32_le(&mut out, slab.slot_count);
    push_u32_le(&mut out, slab.max_series);
    push_u64_le(&mut out, slab.interval_ns);
    push_u32_le(&mut out, slab.write_cursor);
    push_u32_le(&mut out, slab.series_count);
    let mut z: usize = 0;
    let ghost with_counts = out@;
    while z < 24
        invariant
            z <= 24,
            out@ == with_counts + zero_bytes(z as int),
        decreases 24 - z,
    {
        out.push(0);
        proof {
            assert(out@ =~= with_counts + zero_bytes(z as int + 1));
        }
        z = z + 1;
    }
    proof {
        assert(out@ =~= header_bytes(slab@));
    }
    let ghost header = out@;
    let dir_len = slab.directory.len();
    let mut i: usize = 0;
    proof {
        assert(slab.directory@.take(0) =~= Seq::<u32>::empty());
        assert(out@ =~= header + dir_bytes(slab.directory@.take(0)));
    }
    while i < dir_len
        invariant
            i <= dir_len,
            dir_len == slab.directory@.len(),
            out@ == header + dir_bytes(slab.directory@.take(i as int)),
        decreases dir_len - i,
    {
        push_u32_le(&mut out, slab.directory[i]);
        proof {
            assert(slab.directory@.take(i as int + 1).drop_last() =~= slab.directory@.take(
                i as int,
            ));
            assert(out@ =~= header + dir_bytes(slab.directory@.take(i as int + 1)));
        }
        i = i + 1;
    }
    proof {
        assert(slab.directory@.take(dir_len as int) =~= slab.directory@);
    }
    let ghost with_dir = out@;
    let ts_len = slab.timestamps.len();
    let mut i: usize = 0;
    proof {
        assert(slab.timestamps@.take(0) =~= Seq::<u64>::empty());
        assert(out@ =~= with_dir + words_bytes(slab.timestamps@.take(0)));
    }
    while i < ts_len
        invariant
            i <= ts_len,
            ts_len == slab.timestamps@.len(),
            out@ == with_dir + words_bytes(slab.timestamps@.take(i as int)),
        decreases ts_len - i,
    {
        push_u64_le(&mut out, slab.timestamps[i]);
        proof {
            assert(slab.timestamps@.take(i as int + 1).drop_last() =~= slab.timestamps@.take(
                i as int,
            ));
            assert(out@ =~= with_dir + words_bytes(slab.timestamps@.take(i as int + 1)));
        }
        i = i + 1;
    }
    proof {
        assert(slab.timestamps@.take(ts_len as int) =~= slab.timestamps@);
    }
    let ghost with_ts = out@;
    let col_count = slab.values.len();
    let mut c: usize = 0;
    proof {
        assert(slab@.values.take(0) =~= Seq::<Seq<u64>>::empty());
        assert(out@ =~= with_ts + cols_bytes(slab@.values.take(0)));
    }
    while c < col_count
        invariant
            c <= col_count,
            col_count == slab.values@.len(),
            slab.values@.len() == slab@.values.len(),
            forall|q: int| 0 <= q < col_count ==> slab@.values[q] == (#[trigger] slab.values@[q])@,
            out@ == with_ts + cols_bytes(slab@.values.take(c as int)),
        decreases col_count - c,
    {
        let ghost col_start = out@;
        let col_len = slab.values[c].len();
        let mut s: usize = 0;
        proof {
            assert(slab@.values[c as int].take(0) =~= Seq::<u64>::empty());
            assert(out@ =~= col_start + words_bytes(slab@.values[c as int].take(0)));
        }
        while s < col_len
            invariant
                s <= col_len,
                c < col_count,
                col_count == slab.values@.len(),
                col_len == slab.values@[c as int]@.len(),
                slab@.values[c as int] == slab.values@[c as int]@,
                out@ == col_start + words_bytes(slab@.values[c as int].take(s as int)),
            decreases col_len - s,
        {
            push_u64_le(&mut out, slab.values[c][s]);
            proof {
                assert(slab@.values[c as int].take(s as int + 1).drop_last() =~= slab@.values[c
                    as int].take(s as int));
                assert(out@ =~= col_start + words_bytes(
                    slab@.values[c as int].take(s as int + 1),
                ));
            }
            s = s + 1;
        }
        proof {
            assert(slab@.values[c as int].take(col_len as int) =~= slab@.values[c as int]);
            assert(slab@.values.take(c as int + 1).drop_last() =~= slab@.values.take(c as int));
            assert(out@ =~= with_ts + cols_bytes(slab@.values.take(c as int + 1)));
        }
        c = c + 1;
    }
    proof {
        assert(slab@.values.take(col_count as int) =~= slab@.values);
        assert(out@ =~= slab_bytes(slab@));
    }
    out
}

/// What every byte image of a well-formed slab looks like: its exact
/// length, the magic, and every header field at its documented offset.
proof fn lemma_image_facts(v: SlabView, bytes: Seq<u8>)
    requires
        v.wf(),
        bytes == slab_bytes(v),
    ensures
        bytes.len() == 64 + (v.max_series as int) * 4 + (v.slot_count as int) * 8 + (v.max_series
            as int) * ((v.slot_count as int) * 8),
        bytes.len() >= 64,
        bytes[0] == 0x52 && bytes[1] == 0x4e && bytes[2] == 0x44 && bytes[3] == 0x4f,
        bytes.subrange(4, 8) =~= le32(SLAB_VERSION),
        bytes.subrange(8, 16) =~= le64(v.schema_hash),
        bytes.subrange(16, 20) =~= le32(v.slot_count),
        bytes.subrange(20, 24) =~= le32(v.max_series),
        bytes.subrange(24, 32) =~= le64(v.interval_ns),
        bytes.subrange(32, 36) =~= le32(v.write_cursor),
        bytes.subrange(36, 40) =~= le32(v.series_count),
        forall|q: int| 40 <= q < 64 ==> bytes[q] == 0,
{
    lemma_dir_len(v.directory);
    lemma_words_len(v.timestamps);
    lemma_cols_len(v.values, v.slot_count as int);
    assert(header_bytes(v).len() == 64);
    assert(bytes.len() == 64 + (v.max_series as int) * 4 + (v.slot_count as int) * 8 + (
    v.max_series as int) * ((v.slot_count as int) * 8));
    assert(bytes.subrange(0, 64) =~= header_bytes(v));
    assert forall|q: int| 40 <= q < 64 implies bytes[q] == 0 by {
        assert(bytes[q] == header_bytes(v)[q]);
        assert(header_bytes(v)[q] == zero_bytes(24)[q - 40]);
    }
    assert(bytes[0] == header_bytes(v)[0] && bytes[1] == header_bytes(v)[1] && bytes[2]
        == header_bytes(v)[2] && bytes[3] == header_bytes(v)[3]);
}

/// Computes the image size of the given geometry, absent when it does
/// not fit the machine's address range.
fn image_size_of(slot_count: u32, max_series: u32) -> (r: Option<usize>)
    ensures
        r matches Some(n) ==> n == 64 + (max_series as int) * 4 + (slot_count as int) * 8 + (
        max_series as int) * ((slot_count as int) * 8),
        r is None ==> 64 + (max_series as int) * 4 + (slot_count as int) * 8 + (max_series as int)
            * ((slot_count as int) * 8) > usize::MAX,
{
    proof {
        assert((max_series as int) * 4 >= 0 && (slot_count as int) * 8 >= 0 && (max_series as int)
            * ((slot_count as int) * 8) >= 0) by (nonlinear_arith);
    }
    let dir_size = match (max_series as usize).checked_mul(SERIES_DIR_ENTRY_SIZE) {
        Some(n) => n,
        None => {
            return None;
        },
    };
    let ts_size = match (slot_count as usize).checked_mul(TIMESTAMP_SIZE) {
        Some(n) => n,
        None => {
            return None;
        },
    };
    let cols_size = match (max_series as usize).checked_mul(ts_size) {
        Some(n) => n,
        None => {
            return None;
        },
    };
    let with_dir = match HEADER_SIZE.checked_add(dir_size) {
        Some(n) => n,
        None => {
            return None;
        },
    };
    let with_ts = match with_dir.checked_add(ts_size) {
        Some(n) => n,
        None => {
            return None;
        },
    };
    match with_ts.checked_add(cols_size) {
        Some(n) => Some(n),
        None => None,
    }
}

/// Rejection with a description of what the image got wrong.
fn corrupt(reason: &str) -> (r: RondoError)
    ensures
        r matches RondoError::SlabIo(SlabIoError::CorruptedSlab { .. }),
{
    RondoError::SlabIo(SlabIoError::CorruptedSlab { reason: reason.to_owned() })
}

/// Decodes a slab image.  Succeeds on exactly the byte images of
/// well-formed slabs: the magic and version must match, the cursor and
/// series count must be in range, the geometry must be positive, the
/// reserved bytes zero, and the image size must equal the size the
/// header implies.  This is stricter than tolerating out-of-range header
/// fields and faulting later: a no-panic library rejects such images up
/// front.
pub fn slab_from_bytes(bytes: &Vec<u8>) -> (r: Result<Slab, RondoError>)
    ensures
        r is Ok <==> exists|v: SlabView| v.wf() && bytes@ == slab_bytes(v),
        r matches Ok(slab) ==> slab@.wf() && bytes@ == slab_bytes(slab@),
        r matches Err(e) ==> e matches RondoError::SlabIo(SlabIoError::CorruptedSlab { .. }),
{
    let image_len = bytes.len();
    if image_len < HEADER_SIZE {
        proof {
            if exists|v: SlabView| v.wf() && bytes@ == slab_bytes(v) {
                let v = choose|v: SlabView| v.wf() && bytes@ == slab_bytes(v);
                lemma_image_facts(v, bytes@);
            }
        }
        return Err(corrupt("image smaller than the header"));
    }
    if !(bytes[0] == 0x52 && bytes[1] == 0x4e && bytes[2] == 0x44 && bytes[3] == 0x4f) {
        proof {
            if exists|v: SlabView| v.wf() && bytes@ == slab_bytes(v) {
                let v = choose|v: SlabView| v.wf() && bytes@ == slab_bytes(v);
                lemma_image_facts(v, bytes@);
            }
        }
        return Err(corrupt("invalid magic bytes"));
    }
    let version = read_u32_le(bytes, 4);
    if version != SLAB_VERSION {
        proof {
            if exists|v: SlabView| v.wf() && bytes@ == slab_bytes(v) {
                let v = choose|v: SlabView| v.wf() && bytes@ == slab_bytes(v);
                lemma_image_facts(v, bytes@);
                lemma_le32_inj(version, SLAB_VERSION);
            }
        }
        return Err(corrupt("unsupported version"));
    }
    let schema_hash = read_u64_le(bytes, 8);
    let slot_count = read_u32_le(bytes, 16);
    let max_series = read_u32_le(bytes, 20);
    let interval_ns = read_u64_le(bytes, 24);
    let write_cursor = read_u32_le(bytes, 32);
    let series_count = read_u32_le(bytes, 36);
    let mut z: usize = 40;
    while z < 64
        invariant
            40 <= z <= 64,
            bytes@.len() >= 64,
            forall|q: int| 40 <= q < z ==> bytes@[q] == 0,
        decreases 64 - z,
    {
        if bytes[z] != 0 {
            proof {
                if exists|v: SlabView| v.wf() && bytes@ == slab_bytes(v) {
                    let v = choose|v: SlabView| v.wf() && bytes@ == slab_bytes(v);
                    lemma_image_facts(v, bytes@);
                }
            }
            return Err(corrupt("reserved header bytes are not zero"));
        }
        z = z + 1;
    }
    if slot_count == 0 || interval_ns == 0 || write_cursor >= slot_count || series_count
        > max_series {
        proof {
            if exists|v: SlabView| v.wf() && bytes@ == slab_bytes(v) {
                let v = choose|v: SlabView| v.wf() && bytes@ == slab_bytes(v);
                lemma_image_facts(v, bytes@);
                lemma_le32_inj(slot_count, v.slot_count);
                lemma_le32_inj(max_series, v.max_series);
                lemma_le64_inj(interval_ns, v.interval_ns);
                lemma_le32_inj(write_cursor, v.write_cursor);
                lemma_le32_inj(series_count, v.series_count);
            }
        }
        return Err(corrupt("header fields out of range"));
    }
    let expected = match image_size_of(slot_count, max_series) {
        Some(n) => n,
        None => {
            proof {
                if exists|v: SlabView| v.wf() && bytes@ == slab_bytes(v) {
                    let v = choose|v: SlabView| v.wf() && bytes@ == slab_bytes(v);
                    lemma_image_facts(v, bytes@);
                    lemma_le32_inj(slot_count, v.slot_count);
                    lemma_le32_inj(max_series, v.max_series);
                }
            }
            return Err(corrupt("image size does not match the header"));
        },
    };
    if image_len != expected {
        proof {
            if exists|v: SlabView| v.wf() && bytes@ == slab_bytes(v) {
                let v = choose|v: SlabView| v.wf() && bytes@ == slab_bytes(v);
                lemma_image_facts(v, bytes@);
                lemma_le32_inj(slot_count, v.slot_count);
                lemma_le32_inj(max_series, v.max_series);
            }
        }
        return Err(corrupt("image size does not match the header"));
    }
    proof {
        assert(bytes@.len() == 64 + (max_series as int) * 4 + (slot_count as int) * 8 + (
        max_series as int) * ((slot_count as int) * 8));
    }
    let dir_offset = HEADER_SIZE;
    let mut directory: Vec<u32> = Vec::new();
    let mut i: usize = 0;
    proof {
        assert(directory@.take(0) =~= Seq::<u32>::empty());
        assert(dir_bytes(directory@) =~= bytes@.subrange(64, 64));
        assert((max_series as int) * 4 + 64 <= bytes@.len()) by (nonlinear_arith)
            requires
                bytes@.len() == 64 + (max_series as int) * 4 + (slot_count as int) * 8 + (
                max_series as int) * ((slot_count as int) * 8),
                slot_count > 0,
        ;
    }
    while i < max_series as usize
        invariant
            i <= max_series as usize,
            dir_offset == 64,
            bytes@.len() >= 64 + (max_series as int) * 4,
            bytes@.len() <= usize::MAX,
            directory@.len() == i,
            dir_bytes(directory@) =~= bytes@.subrange(64, 64 + 4 * i as int),
        decreases max_series as usize - i,
    {
        proof {
            assert(64 + 4 * (i as int) + 4 <= 64 + 4 * (max_series as int)) by (nonlinear_arith)
                requires
                    i < max_series as usize,
            ;
        }
        let entry = read_u32_le(bytes, dir_offset + 4 * i);
        let ghost prev = directory@;
        directory.push(entry);
        proof {
            assert(directory@.drop_last() =~= prev);
            assert(directory@.last() == entry);
            assert(dir_bytes(directory@) =~= bytes@.subrange(64, 64 + 4 * (i as int + 1)));
        }
        i = i + 1;
    }
    let ts_offset = dir_offset + 4 * (max_series as usize);
    let mut timestamps: Vec<u64> = Vec::new();
    let mut i: usize = 0;
    proof {
        assert(words_bytes(timestamps@) =~= bytes@.subrange(ts_offset as int, ts_offset as int));
        assert(ts_offset as int + (slot_count as int) * 8 <= bytes@.len()) by (nonlinear_arith)
            requires
                bytes@.len() == 64 + (max_series as int) * 4 + (slot_count as int) * 8 + (
                max_series as int) * ((slot_count as int) * 8),
                ts_offset as int == 64 + (max_series as int) * 4,
        ;
    }
    while i < slot_count as usize
        invariant
            i <= slot_count as usize,
            ts_offset as int == 64 + (max_series as int) * 4,
            bytes@.len() >= ts_offset as int + (slot_count as int) * 8,
            bytes@.len() <= usize::MAX,
            timestamps@.len() == i,
            words_bytes(timestamps@) =~= bytes@.subrange(
                ts_offset as int,
                ts_offset as int + 8 * i as int,
            ),
        decreases slot_count as usize - i,
    {
        proof {
            assert(8 * (i as int) + 8 <= 8 * (slot_count as int)) by (nonlinear_arith)
                requires
                    i < slot_count as usize,
            ;
        }
        let word = read_u64_le(bytes, ts_offset + 8 * i);
        let ghost prev = timestamps@;
        timestamps.push(word);
        proof {
            assert(timestamps@.drop_last() =~= prev);
            assert(timestamps@.last() == word);
            assert(words_bytes(timestamps@) =~= bytes@.subrange(
                ts_offset as int,
                ts_offset as int + 8 * (i as int + 1),
            ));
        }
        i = i + 1;
    }
    let vals_offset = ts_offset + 8 * (slot_count as usize);
    let mut values: Vec<Vec<u64>> = Vec::new();
    let mut c: usize = 0;
    proof {
        assert(values@.map_values(|col: Vec<u64>| col@) =~= Seq::<Seq<u64>>::empty());
        assert(cols_bytes(values@.map_values(|col: Vec<u64>| col@)) =~= bytes@.subrange(
            vals_offset as int,
            vals_offset as int,
        ));
        assert(vals_offset as int + (max_series as int) * ((slot_count as int) * 8)
            <= bytes@.len()) by (nonlinear_arith)
            requires
                bytes@.len() == 64 + (max_series as int) * 4 + (slot_count as int) * 8 + (
                max_series as int) * ((slot_count as int) * 8),
                vals_offset as int == 64 + (max_series as int) * 4 + (slot_count as int) * 8,
        ;
    }
    while c < max_series as usize
        invariant
            c <= max_series as usize,
            slot_count > 0,
            vals_offset as int == 64 + (max_series as int) * 4 + (slot_count as int) * 8,
            bytes@.len() >= vals_offset as int + (max_series as int) * ((slot_count as int) * 8),
            bytes@.len() <= usize::MAX,
            values@.len() == c,
            forall|q: int|
                0 <= q < c ==> (#[trigger] values@[q])@.len() == slot_count,
            cols_bytes(values@.map_values(|col: Vec<u64>| col@)) =~= bytes@.subrange(
                vals_offset as int,
                vals_offset as int + (c as int) * ((slot_count as int) * 8),
            ),
        decreases max_series as usize - c,
    {
        proof {
            assert((c as int + 1) * ((slot_count as int) * 8) <= (max_series as int) * ((
            slot_count as int) * 8) && (c as int) * ((slot_count as int) * 8) + (slot_count as int)
                * 8 == (c as int + 1) * ((slot_count as int) * 8) && (c as int) * ((slot_count
                as int) * 8) >= 0) by (nonlinear_arith)
                requires
                    c < max_series as usize,
                    slot_count > 0,
            ;
        }
        let col_offset = vals_offset + c * (8 * (slot_count as usize));
        let ghost col_base = col_offset as int;
        let mut column: Vec<u64> = Vec::new();
        let mut s: usize = 0;
        proof {
            assert(words_bytes(column@) =~= bytes@.subrange(col_base, col_base));
        }
        while s < slot_count as usize
            invariant
                s <= slot_count as usize,
                col_base == col_offset as int,
                col_base + (slot_count as int) * 8 <= bytes@.len(),
                bytes@.len() <= usize::MAX,
                column@.len() == s,
                words_bytes(column@) =~= bytes@.subrange(col_base, col_base + 8 * s as int),
            decreases slot_count as usize - s,
        {
            proof {
                assert(8 * (s as int) + 8 <= 8 * (slot_count as int)) by (nonlinear_arith)
                    requires
                        s < slot_count as usize,
                ;
            }
            let word = read_u64_le(bytes, col_offset + 8 * s);
            let ghost prev = column@;
            column.push(word);
            proof {
                assert(column@.drop_last() =~= prev);
                assert(column@.last() == word);
                assert(words_bytes(column@) =~= bytes@.subrange(
                    col_base,
                    col_base + 8 * (s as int + 1),
                ));
            }
            s = s + 1;
        }
        let ghost prev_cols = values@.map_values(|col: Vec<u64>| col@);
        values.push(column);
        proof {
            let cols = values@.map_values(|col: Vec<u64>| col@);
            assert(cols.drop_last() =~= prev_cols);
            assert(cols_bytes(cols) =~= bytes@.subrange(
                vals_offset as int,
                vals_offset as int + (c as int + 1) * ((slot_count as int) * 8),
            ));
        }
        c = c + 1;
    }
    let slab = Slab {
        schema_hash,
        slot_count,
        max_series,
        interval_ns,
        write_cursor,
        series_count,
        directory,
        timestamps,
        values,
    };
    proof {
        assert(slab@.wf());
        assert(bytes@.len() == 64 + (max_series as int) * 4 + (slot_count as int) * 8 + (
        max_series as int) * ((slot_count as int) * 8));
        assert(bytes@.subrange(0, 64) =~= header_bytes(slab@));
        assert(dir_bytes(slab@.directory) =~= bytes@.subrange(64, 64 + 4 * (max_series as int)));
        assert(words_bytes(slab@.timestamps) =~= bytes@.subrange(
            ts_offset as int,
            ts_offset as int + 8 * (slot_count as int),
        ));
        assert(cols_bytes(slab@.values) =~= bytes@.subrange(
            vals_offset as int,
            vals_offset as int + (max_series as int) * ((slot_count as int) * 8),
        ));
        assert(4 * (max_series as int) == (max_series as int) * 4 && 8 * (slot_count as int) == (
        slot_count as int) * 8);
        assert(bytes@ =~= header_bytes(slab@) + dir_bytes(slab@.directory) + words_bytes(
            slab@.timestamps,
        ) + cols_bytes(slab@.values));
        assert(slab@.wf() && bytes@ == slab_bytes(slab@));
        assert(exists|v: SlabView| v.wf() && bytes@ == slab_bytes(v));
    }
    Ok(slab)
}

} // verus!
