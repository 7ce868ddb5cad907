//! The error of building a cache.
use vstd::prelude::*;

verus! {

/// A cache was asked to be built with nothing to hold.
#[derive(Debug, Clone, Copy, PartialEq, Eq, Structural)]
pub enum ConstructionError {
    /// The capacity (per shard, for a sharded cache) is zero.
    ZeroCapacity,
    /// A sharded cache was asked for zero shards.
    ZeroShards,
}

} // verus!
