//! Error types of the storage engine.
//!
//! Each subsystem reports its own enum; the top-level [`RondoError`] wraps
//! them so that every public operation can return one unified type.  The
//! variants carry the data that identifies the failing input.  Failures of
//! the surrounding process (file access, serialisation) are reported by the
//! host program's own types and do not appear here.

use vstd::prelude::*;

verus! {

/// Errors raised when assembling or validating a store.
#[derive(Debug, Clone)]
pub enum StoreError {
    /// The stored metadata is malformed or inconsistent with the
    /// configuration the store was opened with.
    CorruptedMetadata { reason: String },
    /// A schema's stable hash differs from the hash recorded when the
    /// store was created.
    SchemaMismatch { existing: u64, expected: u64 },
}

/// Errors raised during series registration.
#[derive(Debug, Clone)]
pub enum SeriesError {
    /// The schema already holds its configured maximum number of series.
    MaxSeriesExceeded { max_series: u32 },
    /// No configured schema's label matcher accepts the labels.
    NoMatchingSchema { labels: Vec<(String, String)> },
    /// A label key or value is not acceptable.
    InvalidLabel { key: String, value: String, reason: String },
}

/// Errors raised on the write path.
#[derive(Debug, Clone)]
pub enum RecordError {
    /// The timestamp is reserved (zero marks an empty slot).
    InvalidTimestamp { timestamp: u64 },
    /// The value is not storable; the field holds its bit pattern.
    InvalidValue { value_bits: u64, reason: String },
}

/// Errors raised on the read path.
#[derive(Debug, Clone)]
pub enum QueryError {
    /// The requested tier index does not exist for the schema.
    InvalidTier { tier: usize, max_tiers: usize },
    /// The requested range is empty (start at or past end).
    InvalidTimeRange { start: u64, end: u64 },
}

/// Errors raised by schema validation.
#[derive(Debug, Clone)]
pub enum SchemaError {
    /// A tier configuration is invalid on its own.
    InvalidTierConfig { reason: String },
    /// A tier's retention divided by its interval exceeds the slot cap.
    TooManySlots { tier: usize, slot_count: u64, max_slots: u64 },
    /// Tier intervals do not strictly increase with the tier index.
    TiersNotOrdered,
    /// The highest-resolution tier declares a consolidation function.
    ConsolidationOnHighestTier,
    /// The schema declares no tiers at all.
    NoTiers,
    /// The maximum series count is zero.
    InvalidMaxSeries { count: u32 },
}

/// Errors raised when decoding a slab image.
#[derive(Debug, Clone)]
pub enum SlabIoError {
    /// The image does not carry the expected layout.
    CorruptedSlab { reason: String },
}

/// Errors raised by the consolidation engine.
#[derive(Debug, Clone)]
pub enum ConsolidationError {
    /// A destination tier lacks the consolidation function that schema
    /// validation guarantees.
    NoConsolidationFunction { schema_index: usize, tier_index: usize },
}

/// The unified error type returned by the store's public operations.
#[derive(Debug, Clone)]
pub enum RondoError {
    Store(StoreError),
    Series(SeriesError),
    Record(RecordError),
    Query(QueryError),
    Schema(SchemaError),
    SlabIo(SlabIoError),
    Consolidation(ConsolidationError),
}

} // verus!
