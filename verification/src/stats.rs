//! Usage counters published by the cache engine.
//!
//! A [`StatsSnapshot`] is a plain `Copy` aggregate so that the whole set of
//! counters can be read and replaced as one indivisible unit through the
//! sequence lock; it is never updated field by field in shared storage.

use vstd::prelude::*;

verus! {

/// A consistent point-in-time copy of the engine's counters.
///
/// `capacity` is the fixed weight budget, `size` the current total weight,
/// and `len` the current number of live entries; the remaining counters only
/// ever grow (they saturate at `u64::MAX` instead of wrapping).
#[derive(Clone, Copy, Debug, PartialEq, Eq, Structural)]
pub struct StatsSnapshot {
    pub capacity: usize,
    pub size: usize,
    pub len: usize,
    pub hits: u64,
    pub misses: u64,
    pub insertions: u64,
    pub evictions: u64,
    pub removals: u64,
}

impl StatsSnapshot {
    /// An all-zero snapshot for a fresh engine with the given budget.
    pub open spec fn spec_empty(capacity: usize) -> StatsSnapshot {
        StatsSnapshot {
            capacity,
            size: 0,
            len: 0,
            hits: 0,
            misses: 0,
            insertions: 0,
            evictions: 0,
            removals: 0,
        }
    }

    /// Builds the all-zero snapshot for a fresh engine.
    pub fn empty(capacity: usize) -> (r: StatsSnapshot)
        ensures
            r == Self::spec_empty(capacity),
    {
        StatsSnapshot {
            capacity,
            size: 0,
            len: 0,
            hits: 0,
            misses: 0,
            insertions: 0,
            evictions: 0,
            removals: 0,
        }
    }
}

/// One step of a monotonic counter: an increment that saturates at the top
/// of the range instead of wrapping.
pub open spec fn bumped(c: u64) -> u64 {
    if c == u64::MAX {
        c
    } else {
        (c + 1) as u64
    }
}

/// Increments a monotonic counter, saturating at `u64::MAX`.
pub fn bump(c: u64) -> (r: u64)
    ensures
        r == bumped(c),
{
    if c == u64::MAX {
        c
    } else {
        c + 1
    }
}

/// Monotonic counters: a bump never decreases a counter, and it advances
/// strictly until the counter saturates at the top of its range.
pub proof fn lemma_bump_monotonic(c: u64)
    ensures
        bumped(c) >= c,
        c < u64::MAX ==> bumped(c) == c + 1,
{
}

/// Read access to a set of published counters.
pub trait Stats {
    /// The fixed weight budget, as a specification value.
    spec fn spec_capacity(&self) -> usize;

    /// The current total weight, as a specification value.
    spec fn spec_size(&self) -> usize;

    /// The current number of live entries, as a specification value.
    spec fn spec_len(&self) -> usize;

    /// Lookups that found their key, as a specification value.
    spec fn spec_hits(&self) -> u64;

    /// Counted lookups that missed, as a specification value.
    spec fn spec_misses(&self) -> u64;

    /// Completed insertions, as a specification value.
    spec fn spec_insertions(&self) -> u64;

    /// Entries taken by the CLOCK sweep, as a specification value.
    spec fn spec_evictions(&self) -> u64;

    /// Entries taken out by the remove family, as a specification value.
    spec fn spec_removals(&self) -> u64;

    /// The fixed weight budget.
    fn capacity(&self) -> (r: usize)
        ensures
            r == self.spec_capacity(),
    ;

    /// The current total weight of all live entries.
    fn size(&self) -> (r: usize)
        ensures
            r == self.spec_size(),
    ;

    /// The current number of live entries.
    fn len(&self) -> (r: usize)
        ensures
            r == self.spec_len(),
    ;

    /// How many lookups found their key.
    fn hits(&self) -> (r: u64)
        ensures
            r == self.spec_hits(),
    ;

    /// How many counted lookups missed.
    fn misses(&self) -> (r: u64)
        ensures
            r == self.spec_misses(),
    ;

    /// How many insertions have completed.
    fn insertions(&self) -> (r: u64)
        ensures
            r == self.spec_insertions(),
    ;

    /// How many entries the CLOCK sweep has taken.
    fn evictions(&self) -> (r: u64)
        ensures
            r == self.spec_evictions(),
    ;

    /// How many entries the remove family has taken out.
    fn removals(&self) -> (r: u64)
        ensures
            r == self.spec_removals(),
    ;
}

impl Stats for StatsSnapshot {
    open spec fn spec_capacity(&self) -> usize {
        self.capacity
    }

    open spec fn spec_size(&self) -> usize {
        self.size
    }

    open spec fn spec_len(&self) -> usize {
        self.len
    }

    open spec fn spec_hits(&self) -> u64 {
        self.hits
    }

    open spec fn spec_misses(&self) -> u64 {
        self.misses
    }

    open spec fn spec_insertions(&self) -> u64 {
        self.insertions
    }

    open spec fn spec_evictions(&self) -> u64 {
        self.evictions
    }

    open spec fn spec_removals(&self) -> u64 {
        self.removals
    }

    fn capacity(&self) -> (r: usize) {
        self.capacity
    }

    fn size(&self) -> (r: usize) {
        self.size
    }

    fn len(&self) -> (r: usize) {
        self.len
    }

    fn hits(&self) -> (r: u64) {
        self.hits
    }

    fn misses(&self) -> (r: u64) {
        self.misses
    }

    fn insertions(&self) -> (r: u64) {
        self.insertions
    }

    fn evictions(&self) -> (r: u64) {
        self.evictions
    }

    fn removals(&self) -> (r: u64) {
        self.removals
    }
}

} // verus!
