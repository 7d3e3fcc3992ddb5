//! A size-weighted in-memory cache with CLOCK (second-chance) eviction,
//! entry pinning, atomic rekeying, and sequence-locked usage statistics.
//!
//! The engine never evicts on its own: `insert` may push the total weight
//! past the capacity budget, and the owner decides when to call `evict`.

pub mod cache;
pub mod seqlock;
pub mod stats;
