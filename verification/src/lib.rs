//! Embedded round-robin time-series storage engine.
//!
//! The engine records numeric samples against named, labelled series, keeps
//! them in fixed-size ring buffers (one per schema and resolution tier),
//! downsamples between tiers with pluggable reducers, and exposes a
//! cursor-based drain for incremental export.
//!
//! Sample values are IEEE-754 doubles carried by their 64-bit bit patterns,
//! so that the storage and aggregation logic is exact integer logic: a NaN
//! pattern marks an empty slot, and infinite patterns are rejected on write.

pub mod consolidate;
pub mod error;
pub mod export;
pub mod fbits;
pub mod query;
pub mod remote_write;
pub mod ring;
pub mod ring_laws;
pub mod schema;
pub mod series;
pub mod slab;
pub mod slab_image;
pub mod store;
pub mod text;

pub use error::RondoError;
pub use query::QueryResult;
pub use schema::{ConsolidationFn, LabelMatcher, SchemaConfig, TierConfig};
pub use series::SeriesHandle;
pub use store::Store;
