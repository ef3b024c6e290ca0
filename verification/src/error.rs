//! Errors of cache operations.
use vstd::prelude::*;

verus! {

/// Errors that can occur during cache operations
#[derive(Debug, Clone, PartialEq, Eq)]
pub enum CacheError {
    /// Object is too large to fit in cache
    ObjectTooLarge { size: u64, capacity: u64 },
    /// Invalid operation
    InvalidOperation(String),
    /// Object not found
    ObjectNotFound(u64),
    /// Cache is full and cannot evict
    CacheFull,
}

} // verus!
