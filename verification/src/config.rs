use vstd::prelude::*;

verus! {

/// Configuration of a log.
#[derive(Debug, Copy, Clone)]
pub struct Config {
    pub segment: SegmentConfig,
}

/// Limits of one segment, and where a fresh log starts.
#[derive(Debug, Copy, Clone)]
pub struct SegmentConfig {
    /// A segment is full once its store holds this many bytes.
    pub max_store_bytes: u64,
    /// A segment is full once its index holds this many bytes; the capacity
    /// of the index.
    pub max_index_bytes: u64,
    /// Base offset of the first segment of a fresh log.
    pub initial_offset: u64,
}

} // verus!
