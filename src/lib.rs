//! Least-recently-used caches: a single-threaded cache whose recency chain
//! lives in an index-linked arena, and a sharded cache that spreads keys over
//! independently locked `lru` caches.
pub mod error;
pub mod laws;
pub mod naive_cache;
pub mod sharded_cache;

pub use error::ConstructionError;
pub use naive_cache::NaiveLruCache;
pub use sharded_cache::ShardedLruCache;
