//! An embedded time-series storage engine: a bounded in-memory ring buffer
//! with time-based eviction, a dual time/tag index, an append-only log image
//! with block-level adaptive compression and integrity checksums, and a
//! query planner with filtering, limits and time-bucketed aggregations.

use vstd::prelude::*;

pub mod buffer;
pub mod clock;
pub mod compression;
pub mod encoding;
pub mod error;
pub mod index;
pub mod persistence;
pub mod positions;
pub mod query;
pub mod storage;
pub mod types;

pub use buffer::CircularBuffer;
pub use error::TimeSeriesError;
pub use storage::TimeSeriesEngine;
pub use types::{DataPoint, Value};

verus! {

/// Timestamp in nanoseconds since the Unix epoch.
pub type Timestamp = i64;

} // verus!
