//! Cache levels and kinds of memory prefetch hints.

use vstd::prelude::*;

verus! {

/// A level of the CPU cache.
#[derive(Debug, Clone, Copy, PartialEq, Eq, Structural)]
pub enum CacheLevel {
    L1,
    L2,
    L3,
}

/// How prefetched data is expected to be used.
#[derive(Debug, Clone, Copy, PartialEq, Eq, Structural)]
pub enum PrefetchKind {
    /// Data that will be used again: kept in the cache level.
    Temporal(CacheLevel),
    /// Data used once: brought in without displacing other data.
    NonTemporal(CacheLevel),
}

/// The size of a cache line, in bytes.
pub const CACHE_LINE_BYTES: usize = 64;

} // verus!
