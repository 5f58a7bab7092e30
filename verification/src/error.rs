//! Error taxonomy of the storage engine.

use vstd::prelude::*;

verus! {

/// Typed errors surfaced by the engine's public operations.
#[derive(Debug)]
pub enum TimeSeriesError {
    /// Reserved: surfaces only if internal capacity accounting disagrees.
    BufferOverflow { capacity: usize, size: usize },
    /// Out-of-range timestamp conversion.
    InvalidTimestamp { timestamp: i64 },
    /// Block codec failure.
    CompressionError { message: String },
    /// Malformed predicate combination.
    Index { message: String },
    /// I/O, log image, header validation, checksum failure.
    Persistence { message: String },
    /// Missing query dependency.
    Query { message: String },
    /// Malformed bytes during decode.
    Serialization { message: String },
    /// Mapped-region failure reported by the host.
    MemoryMap { message: String },
    /// Bad configuration or lock poisoning reported by the host.
    Configuration { message: String },
}

impl TimeSeriesError {
    /// Build an `Index` error from a message.
    pub fn index(message: &str) -> (e: Self)
        ensures
            e is Index,
    {
        TimeSeriesError::Index { message: message.to_owned() }
    }

    /// Build a `Persistence` error from a message.
    pub fn persistence(message: &str) -> (e: Self)
        ensures
            e is Persistence,
    {
        TimeSeriesError::Persistence { message: message.to_owned() }
    }

    /// Build a `Query` error from a message.
    pub fn query(message: &str) -> (e: Self)
        ensures
            e is Query,
    {
        TimeSeriesError::Query { message: message.to_owned() }
    }

    /// Build a `Configuration` error from a message.
    pub fn configuration(message: &str) -> (e: Self)
        ensures
            e is Configuration,
    {
        TimeSeriesError::Configuration { message: message.to_owned() }
    }

    /// Build a `CompressionError` from a message.
    pub fn compression(message: &str) -> (e: Self)
        ensures
            e is CompressionError,
    {
        TimeSeriesError::CompressionError { message: message.to_owned() }
    }

    /// Build a `Serialization` error from a message.
    pub fn serialization(message: &str) -> (e: Self)
        ensures
            e is Serialization,
    {
        TimeSeriesError::Serialization { message: message.to_owned() }
    }
}

} // verus!
