//! A cache simulation library: request and statistics types, a family of
//! cache eviction policies, and decoders for cache trace formats.
pub mod basic;
pub mod cache;
pub mod error;
pub mod eviction;
pub mod ordered;
pub mod request;
pub mod stats;
pub mod sweep;
pub mod trace;

pub use cache::{Cache, CacheModel, CacheResult, InsertResult};
pub use error::CacheError;
pub use eviction::{ArcCache, CarCache, ClockCache, FifoCache, LfuCache, LfudaCache, LruCache, MruCache, RandomCache, S3FifoCache, SieveCache, SlruCache, TwoQCache};
pub use request::{Operation, Request, RequestBuilder};
pub use stats::CacheStats;

use vstd::prelude::*;

verus! {

/// Object ID type
pub type ObjectId = u64;

/// Object size type
pub type ObjectSize = u32;

} // verus!
