//! A sequential model of a sequence lock over a fixed-size copyable value.
//!
//! The protocol keeps a version counter next to the protected value. A write
//! section first bumps the version to an odd number, then replaces the value,
//! then bumps the version again, back to even. A reader accepts a copy of the
//! value only when it saw the same even version on both sides of the copy, so
//! it can never hand out a torn mixture of two writes; an in-progress write is
//! visible as an odd version. Writers are serialized against each other by
//! their caller's exclusion discipline, which here is Rust's `&mut` access.
//!
//! This module verifies the version discipline and the snapshot semantics of
//! that protocol: a read returns the whole stored value as one unit, a write
//! section is entered and left through [`SeqLock::begin_write`] and
//! [`SeqLock::end_write`], and the version's parity always tells whether a
//! write is in progress. The retry loop that real concurrent readers run is a
//! liveness device with no sequential content: under exclusive access a read
//! is admitted exactly when no write section is open.

use vstd::prelude::*;

verus! {

/// The version counter after one bump. The counter wraps; since its range
/// holds an even count of values, wrapping preserves the parity alternation.
pub open spec fn next_version(v: u64) -> u64 {
    if v == u64::MAX {
        0
    } else {
        (v + 1) as u64
    }
}

/// An overlapping write can never go unnoticed: from an even version, the
/// version inside the write section is odd — a reader that starts its copy
/// there retries at once — and the version after the section differs from
/// the one before it, so a reader whose copy straddled the section sees two
/// different versions and retries too. An accepted snapshot is therefore
/// always a whole value from one committed write.
pub proof fn lemma_version_distinguishes_writes(v: u64)
    requires
        v % 2 == 0,
    ensures
        next_version(v) % 2 == 1,
        next_version(v) != v,
        next_version(next_version(v)) % 2 == 0,
        next_version(next_version(v)) != v,
        next_version(next_version(v)) != next_version(v),
{
}

/// A version-stamped cell holding one copyable value.
///
/// The version starts even; it is odd exactly while a write section is open.
pub struct SeqLock<T: Copy> {
    seq: u64,
    data: T,
}

impl<T: Copy> SeqLock<T> {
    /// The current version counter.
    pub closed spec fn version(&self) -> u64 {
        self.seq
    }

    /// The currently stored value.
    pub closed spec fn value(&self) -> T {
        self.data
    }

    /// Whether a write section is open: the version is odd.
    pub open spec fn write_in_progress(&self) -> bool {
        self.version() % 2 == 1
    }

    /// Creates a lock around `val`, with the version at zero (even).
    pub fn new(val: T) -> (r: Self)
        ensures
            r.version() == 0,
            r.value() == val,
            !r.write_in_progress(),
    {
        SeqLock { seq: 0, data: val }
    }

    /// Copies the stored value out as one unit.
    ///
    /// A reader accepts only a copy made entirely between two sightings of
    /// the same even version; under exclusive access that is precisely a
    /// read outside any write section, so no retry loop remains.
    pub fn read(&self) -> (r: T)
        requires
            !self.write_in_progress(),
        ensures
            r == self.value(),
    {
        self.data
    }

    /// Opens a write section: bumps the version to the next (odd) count.
    pub fn begin_write(&mut self)
        ensures
            final(self).version() == next_version(old(self).version()),
            final(self).value() == old(self).value(),
            final(self).write_in_progress() == !old(self).write_in_progress(),
    {
        self.seq = if self.seq == u64::MAX {
            0
        } else {
            self.seq + 1
        };
    }

    /// Replaces the stored value inside an open write section.
    pub fn store(&mut self, val: T)
        requires
            old(self).write_in_progress(),
        ensures
            final(self).version() == old(self).version(),
            final(self).value() == val,
            final(self).write_in_progress(),
    {
        self.data = val;
    }

    /// Closes a write section: bumps the version back to even.
    pub fn end_write(&mut self)
        requires
            old(self).write_in_progress(),
        ensures
            final(self).version() == next_version(old(self).version()),
            final(self).value() == old(self).value(),
            !final(self).write_in_progress(),
    {
        self.seq = if self.seq == u64::MAX {
            0
        } else {
            self.seq + 1
        };
    }

    /// A whole write section: replaces the stored value as one unit.
    ///
    /// The version passes through exactly one odd count on the way, so a
    /// concurrent reader could never accept a copy made while the value was
    /// being replaced.
    pub fn write(&mut self, val: T)
        requires
            !old(self).write_in_progress(),
        ensures
            final(self).version() == next_version(next_version(old(self).version())),
            final(self).value() == val,
            !final(self).write_in_progress(),
    {
        self.begin_write();
        self.store(val);
        self.end_write();
    }

    /// Consumes the lock and hands the value back.
    pub fn into_inner(self) -> (r: T)
        ensures
            r == self.value(),
    {
        self.data
    }

    /// Direct access to the value under exclusive ownership; no version
    /// bump is needed because no reader can run concurrently with `&mut`.
    pub fn get_mut(&mut self) -> (r: &mut T)
        ensures
            *r == old(self).value(),
            final(self).value() == *final(r),
            final(self).version() == old(self).version(),
    {
        &mut self.data
    }
}

} // verus!
