//! The CLOCK cache engine: a size-weighted key/value table with
//! second-chance eviction, pinning, rekeying, and published statistics.
//!
//! Keys are `u64`; values are any sized type. The entry table is an
//! array-backed ring: the scan order of the CLOCK sweep is the order of the
//! entries in the vector, and the hand is an index into it that persists
//! between calls to [`ClockCache::evict`].
//!
//! Pinning is expressed through value handles: a lookup hands out a
//! [`ValueHandle`] and raises the entry's pin count; releasing the handle
//! lowers it again and applies the handle's accumulated size delta, so the
//! weight accounting stays exact while values mutate. A pinned entry is never
//! selected as an eviction victim and the remove and rekey families refuse it.

use vstd::prelude::*;

use crate::seqlock::SeqLock;
use crate::stats::{bump, bumped, StatsSnapshot};

verus! {

/// Why a remove was refused.
#[derive(Debug, PartialEq, Eq, Structural)]
pub enum RemoveError {
    /// The key is not in the table.
    NotPresent,
    /// The entry is pinned by an outstanding value handle.
    Pinned,
}

/// Why a rekey was refused.
#[derive(Debug)]
pub enum ChangeKeyError<E> {
    /// The key is not in the table.
    NotPresent,
    /// The entry is pinned by an outstanding value handle.
    Pinned,
    /// The caller's callback failed; its error is passed on unmodified.
    CallbackError(E),
}

impl<E> From<E> for ChangeKeyError<E> {
    fn from(e: E) -> (r: Self) {
        ChangeKeyError::CallbackError(e)
    }
}

impl<E> vstd::std_specs::convert::FromSpecImpl<E> for ChangeKeyError<E> {
    open spec fn obeys_from_spec() -> bool {
        true
    }

    open spec fn from_spec(e: E) -> Self {
        ChangeKeyError::CallbackError(e)
    }
}

/// One live entry of the table.
///
/// `weight` is the caller-assigned magnitude used for capacity accounting;
/// the engine never measures values itself. `pins` counts outstanding value
/// handles; `referenced` is the CLOCK recency bit.
pub struct Entry<V> {
    pub key: u64,
    pub value: V,
    pub weight: usize,
    pub pins: usize,
    pub referenced: bool,
}

impl<V> Entry<V> {
    /// Whether the entry is pinned against eviction and removal.
    pub open spec fn pinned(&self) -> bool {
        self.pins > 0
    }
}

/// The keys of a ring, in scan order.
pub open spec fn keys_of<V>(s: Seq<Entry<V>>) -> Seq<u64> {
    s.map_values(|e: Entry<V>| e.key)
}

/// No two live entries share a key.
pub open spec fn keys_unique<V>(s: Seq<Entry<V>>) -> bool {
    forall|i: int, j: int| 0 <= i < j < s.len() ==> s[i].key != s[j].key
}

/// The sum of the accounted weights of a ring.
pub open spec fn sum_weights<V>(s: Seq<Entry<V>>) -> int
    decreases s.len(),
{
    if s.len() == 0 {
        0
    } else {
        sum_weights(s.drop_last()) + s.last().weight
    }
}

proof fn lemma_sum_nonneg<V>(s: Seq<Entry<V>>)
    ensures
        sum_weights(s) >= 0,
    decreases s.len(),
{
    if s.len() > 0 {
        lemma_sum_nonneg(s.drop_last());
    }
}

proof fn lemma_sum_push<V>(s: Seq<Entry<V>>, e: Entry<V>)
    ensures
        sum_weights(s.push(e)) == sum_weights(s) + e.weight,
{
    assert(s.push(e).drop_last() =~= s);
}

proof fn lemma_sum_update<V>(s: Seq<Entry<V>>, i: int, e: Entry<V>)
    requires
        0 <= i < s.len(),
    ensures
        sum_weights(s.update(i, e)) == sum_weights(s) - s[i].weight + e.weight,
    decreases s.len(),
{
    let t = s.update(i, e);
    if i == s.len() - 1 {
        assert(t.drop_last() =~= s.drop_last());
    } else {
        assert(t.drop_last() =~= s.drop_last().update(i, e));
        lemma_sum_update(s.drop_last(), i, e);
        assert(t.last() == s.last());
    }
}

proof fn lemma_sum_remove<V>(s: Seq<Entry<V>>, i: int)
    requires
        0 <= i < s.len(),
    ensures
        sum_weights(s.remove(i)) == sum_weights(s) - s[i].weight,
    decreases s.len(),
{
    if i == s.len() - 1 {
        assert(s.remove(i) =~= s.drop_last());
    } else {
        let t = s.remove(i);
        assert(t.drop_last() =~= s.drop_last().remove(i));
        lemma_sum_remove(s.drop_last(), i);
        assert(t.last() == s.last());
    }
}

proof fn lemma_sum_at_least<V>(s: Seq<Entry<V>>, i: int)
    requires
        0 <= i < s.len(),
    ensures
        sum_weights(s) >= s[i].weight,
{
    lemma_sum_remove(s, i);
    lemma_sum_nonneg(s.remove(i));
}

/// A deferred size adjustment carried by a value accessor: on release it
/// reports a signed delta back to its owner's weight accounting.
pub trait AddSize: Sized {
    /// The accumulated size delta, as a specification value.
    spec fn spec_delta(&self) -> int;

    /// Adds `size_delta` to the accumulated adjustment.
    fn add_size(&mut self, size_delta: isize)
        requires
            isize::MIN <= old(self).spec_delta() + size_delta <= isize::MAX,
        ensures
            final(self).spec_delta() == old(self).spec_delta() + size_delta,
    ;

    /// Adds one last `size_delta` and hands the accessor back for release.
    fn finish(self, size_delta: isize) -> (r: Self)
        requires
            isize::MIN <= self.spec_delta() + size_delta <= isize::MAX,
        ensures
            r.spec_delta() == self.spec_delta() + size_delta,
    ;
}

/// A handle to a live entry, returned by [`ClockCache::get`].
///
/// While a handle is outstanding its entry is pinned: the CLOCK sweep skips
/// it and `remove`/`change_key` refuse it. The handle accumulates a signed
/// size delta through [`AddSize`]; [`ClockCache::release`] applies the delta
/// to the entry's weight and to the total size, and unpins the entry. The
/// value itself is reached through [`ClockCache::value`] and
/// [`ClockCache::value_mut`].
pub struct ValueHandle {
    key: u64,
    delta: isize,
}

impl ValueHandle {
    /// The key this handle pins.
    pub closed spec fn spec_key(&self) -> u64 {
        self.key
    }

    /// The key this handle pins.
    pub fn key(&self) -> (r: u64)
        ensures
            r == self.spec_key(),
    {
        self.key
    }
}

impl AddSize for ValueHandle {
    closed spec fn spec_delta(&self) -> int {
        self.delta as int
    }

    fn add_size(&mut self, size_delta: isize)
        ensures
            final(self).spec_key() == old(self).spec_key(),
    {
        self.delta = self.delta + size_delta;
    }

    fn finish(self, size_delta: isize) -> (r: Self)
        ensures
            r.spec_key() == self.spec_key(),
    {
        ValueHandle { key: self.key, delta: self.delta + size_delta }
    }
}

/// How one entry may change under a CLOCK sweep: key, value, weight and pin
/// count are untouched; the reference bit can only be cleared, and the bit
/// of a pinned entry is not even cleared (the sweep treats it as
/// transparent).
pub open spec fn entry_evolves<V>(x: Entry<V>, y: Entry<V>) -> bool {
    &&& y.key == x.key
    &&& y.value == x.value
    &&& y.weight == x.weight
    &&& y.pins == x.pins
    &&& (y.referenced ==> x.referenced)
    &&& (x.pins > 0 ==> y.referenced == x.referenced)
}

/// How a whole ring may change under a CLOCK sweep: pointwise
/// [`entry_evolves`], in place.
pub open spec fn sweep_evolves<V>(a: Seq<Entry<V>>, b: Seq<Entry<V>>) -> bool {
    &&& a.len() == b.len()
    &&& forall|i: int| 0 <= i < a.len() ==> #[trigger] entry_evolves(a[i], b[i])
}

/// The ring index visited at sweep step `j`, for a hand starting at
/// `start` in a ring of length `n`: the scan wraps around the ring, and a
/// bound of two full cycles keeps the formula total for `0 <= j < 2 * n`.
pub open spec fn cycle_index(start: int, j: int, n: int) -> int {
    if start + j < n {
        start + j
    } else if start + j < 2 * n {
        start + j - n
    } else {
        start + j - 2 * n
    }
}

/// Every answer the eviction callback can give accepts the candidate.
pub open spec fn always_accepts<V, F: Fn(u64, &V) -> Option<usize>>(f: F) -> bool {
    forall|k: u64, v: &V, ret: Option<usize>| call_ensures(f, (k, v), ret) ==> ret is Some
}

/// Every step of the sweep reaches every ring slot within one cycle.
proof fn lemma_cycle_covers(start: int, n: int, s: int)
    requires
        0 <= start < n,
        0 <= s < n,
    ensures
        exists|jj: int| 0 <= jj < n && cycle_index(start, jj, n) == s,
{
    if s >= start {
        assert(cycle_index(start, s - start, n) == s);
    } else {
        assert(cycle_index(start, s + n - start, n) == s);
    }
}

/// Size invariant: in every well-formed engine state — and every operation
/// of the engine both requires and re-establishes well-formedness — the
/// total size equals the sum of the accounted weights of all live entries,
/// and the published counters mirror the live state.
pub proof fn lemma_size_invariant<V>(c: &ClockCache<V>)
    requires
        c.wf(),
    ensures
        c.spec_size() as int == sum_weights(c.ring()),
        c.spec_stats().size == c.spec_size(),
        c.spec_stats().len == c.ring().len(),
        c.spec_stats().capacity == c.spec_capacity(),
{
}

/// Rekey atomicity: no well-formed engine state holds two live entries
/// under one key, so a rekey — whose contract re-establishes
/// well-formedness whatever key the callback returns — can never leave a
/// duplicate behind; a collision deterministically overwrites instead.
pub proof fn lemma_keys_unique<V>(c: &ClockCache<V>)
    requires
        c.wf(),
    ensures
        keys_unique(c.ring()),
{
}

/// A snapshot of the live keys, handed to rekeying callbacks as the
/// existence predicate: the callback consults it before returning a new key,
/// so it can avoid colliding with an entry that is already live.
pub struct KeySet {
    keys: Vec<u64>,
}

impl View for KeySet {
    type V = Set<u64>;

    closed spec fn view(&self) -> Set<u64> {
        Set::new(|k: u64| self.keys@.contains(k))
    }
}

impl KeySet {
    /// Whether `k` was live when the snapshot was taken.
    pub fn contains(&self, k: u64) -> (r: bool)
        ensures
            r == self@.contains(k),
    {
        let mut i: usize = 0;
        while i < self.keys.len()
            invariant
                i <= self.keys.len(),
                forall|j: int| 0 <= j < i ==> self.keys@[j] != k,
            decreases self.keys.len() - i,
        {
            if self.keys[i] == k {
                return true;
            }
            i += 1;
        }
        false
    }
}

/// Moves `w` by the signed delta `d`, within the `usize` range.
fn apply_delta(w: usize, d: isize) -> (r: usize)
    requires
        0 <= w + d <= usize::MAX,
    ensures
        r as int == w + d,
{
    if d >= 0 {
        w + (d as usize)
    } else {
        let mag: usize = ((-(d + 1)) as usize) + 1;
        w - mag
    }
}

/// The size-weighted CLOCK cache engine.
pub struct ClockCache<V> {
    entries: Vec<Entry<V>>,
    hand: usize,
    total_size: usize,
    capacity: usize,
    stats: SeqLock<StatsSnapshot>,
}

impl<V> ClockCache<V> {
    /// The ring of live entries, in CLOCK scan order.
    pub closed spec fn ring(&self) -> Seq<Entry<V>> {
        self.entries@
    }

    /// The CLOCK hand: the index where the next sweep resumes.
    pub closed spec fn spec_hand(&self) -> int {
        self.hand as int
    }

    /// The fixed weight budget.
    pub closed spec fn spec_capacity(&self) -> usize {
        self.capacity
    }

    /// The current total weight of all live entries.
    pub closed spec fn spec_size(&self) -> usize {
        self.total_size
    }

    /// The counters as currently published through the sequence lock.
    pub closed spec fn spec_stats(&self) -> StatsSnapshot {
        self.stats.value()
    }

    /// Whether some live entry holds `k`.
    pub open spec fn contains(&self, k: u64) -> bool {
        exists|i: int| 0 <= i < self.ring().len() && self.ring()[i].key == k
    }

    /// The ring index of the entry holding `k` (meaningful when `contains`).
    pub open spec fn idx_of(&self, k: u64) -> int {
        choose|i: int| 0 <= i < self.ring().len() && self.ring()[i].key == k
    }

    /// The entry holding `k` (meaningful when `contains`).
    pub open spec fn entry_of(&self, k: u64) -> Entry<V> {
        self.ring()[self.idx_of(k)]
    }

    /// The value stored under `k` (meaningful when `contains`).
    pub open spec fn value_of(&self, k: u64) -> V {
        self.entry_of(k).value
    }

    /// The accounted weight of the entry under `k` (meaningful when `contains`).
    pub open spec fn weight_of(&self, k: u64) -> usize {
        self.entry_of(k).weight
    }

    /// Whether the entry under `k` is pinned (meaningful when `contains`).
    pub open spec fn pinned(&self, k: u64) -> bool {
        self.entry_of(k).pinned()
    }

    /// The set of live keys.
    pub open spec fn key_set(&self) -> Set<u64> {
        Set::new(|k: u64| self.contains(k))
    }

    /// The engine's internal invariant: keys are unique, the total size is
    /// the sum of the live weights, the hand points into the ring, and the
    /// published counters mirror the current state.
    pub closed spec fn wf(&self) -> bool {
        &&& keys_unique(self.ring())
        &&& self.total_size as int == sum_weights(self.ring())
        &&& if self.ring().len() == 0 {
            self.hand == 0
        } else {
            (self.hand as int) < self.ring().len()
        }
        &&& !self.stats.write_in_progress()
        &&& self.stats.value().size == self.total_size
        &&& self.stats.value().len == self.ring().len()
        &&& self.stats.value().capacity == self.capacity
    }

    /// Creates an empty engine with the given weight budget.
    pub fn new(capacity: usize) -> (r: Self)
        ensures
            r.wf(),
            r.ring().len() == 0,
            r.spec_capacity() == capacity,
            r.spec_size() == 0,
            r.spec_hand() == 0,
            r.spec_stats() == StatsSnapshot::spec_empty(capacity),
    {
        ClockCache {
            entries: Vec::new(),
            hand: 0,
            total_size: 0,
            capacity,
            stats: SeqLock::new(StatsSnapshot::empty(capacity)),
        }
    }

    /// Finds the ring index of `key`, if present.
    fn find(&self, key: u64) -> (r: Option<usize>)
        ensures
            match r {
                Some(i) => i < self.ring().len() && self.ring()[i as int].key == key,
                None => !self.contains(key),
            },
    {
        let mut i: usize = 0;
        while i < self.entries.len()
            invariant
                i <= self.entries.len(),
                forall|j: int| 0 <= j < i ==> self.ring()[j].key != key,
            decreases self.entries.len() - i,
        {
            if self.entries[i].key == key {
                return Some(i);
            }
            i += 1;
        }
        None
    }

    /// Whether `key` is live. Affects neither recency nor statistics.
    pub fn contains_key(&self, key: u64) -> (r: bool)
        ensures
            r == self.contains(key),
    {
        self.find(key).is_some()
    }

    /// The current total weight of all live entries.
    pub fn size(&self) -> (r: usize)
        ensures
            r == self.spec_size(),
    {
        self.total_size
    }

    /// The fixed weight budget. The engine never enforces it by itself.
    pub fn capacity(&self) -> (r: usize)
        ensures
            r == self.spec_capacity(),
    {
        self.capacity
    }

    /// A consistent point-in-time copy of all counters, read through the
    /// sequence lock as one unit.
    pub fn stats(&self) -> (r: StatsSnapshot)
        requires
            self.wf(),
        ensures
            r == self.spec_stats(),
    {
        self.stats.read()
    }

    /// All live keys, in the ring's scan order. The order is unspecified to
    /// callers but stable while the table is not mutated.
    pub fn iter(&self) -> (r: Vec<u64>)
        ensures
            r@ == keys_of(self.ring()),
    {
        let mut keys: Vec<u64> = Vec::new();
        let mut i: usize = 0;
        while i < self.entries.len()
            invariant
                i <= self.entries.len(),
                keys@ =~= keys_of(self.ring().take(i as int)),
            decreases self.entries.len() - i,
        {
            keys.push(self.entries[i].key);
            proof {
                assert(self.ring().take(i + 1 as int).drop_last() =~= self.ring().take(
                    i as int,
                ));
                assert(keys_of(self.ring().take(i + 1)) =~= keys_of(
                    self.ring().take(i as int),
                ).push(self.ring()[i as int].key));
            }
            i += 1;
        }
        proof {
            assert(self.ring().take(self.ring().len() as int) =~= self.ring());
            assert(keys@ =~= keys_of(self.ring()));
        }
        keys
    }

    /// With unique keys, an index holding `k` is the index of `k`.
    proof fn lemma_idx(&self, i: int, k: u64)
        requires
            keys_unique(self.ring()),
            0 <= i < self.ring().len(),
            self.ring()[i].key == k,
        ensures
            self.contains(k),
            self.idx_of(k) == i,
    {
        assert(self.contains(k));
        let j = self.idx_of(k);
        assert(0 <= j < self.ring().len() && self.ring()[j].key == k);
        if j < i {
            assert(self.ring()[j].key != self.ring()[i].key);
        } else if i < j {
            assert(self.ring()[i].key != self.ring()[j].key);
        }
    }

    /// Looks `key` up. On a hit, the entry's reference bit is set (second
    /// chance against the next sweep), its pin count rises by one, `hits`
    /// is incremented, and a handle is returned. On a miss, `misses` is
    /// incremented only when `count_miss` is true, so callers can probe
    /// without polluting the miss statistics.
    pub fn get(&mut self, key: u64, count_miss: bool) -> (r: Option<ValueHandle>)
        requires
            old(self).wf(),
            old(self).contains(key) ==> old(self).entry_of(key).pins < usize::MAX,
        ensures
            final(self).wf(),
            final(self).spec_capacity() == old(self).spec_capacity(),
            final(self).spec_hand() == old(self).spec_hand(),
            final(self).spec_size() == old(self).spec_size(),
            old(self).contains(key) ==> {
                &&& r matches Some(h) && h.spec_key() == key && h.spec_delta() == 0
                &&& final(self).ring() == old(self).ring().update(
                    old(self).idx_of(key),
                    (Entry {
                        pins: (old(self).entry_of(key).pins + 1) as usize,
                        referenced: true,
                        ..old(self).entry_of(key)
                    }),
                )
                &&& final(self).spec_stats() == (StatsSnapshot {
                    hits: bumped(old(self).spec_stats().hits),
                    ..old(self).spec_stats()
                })
                &&& final(self).contains(key)
                &&& final(self).value_of(key) == old(self).value_of(key)
                &&& final(self).weight_of(key) == old(self).weight_of(key)
                &&& final(self).pinned(key)
            },
            !old(self).contains(key) ==> {
                &&& r is None
                &&& final(self).ring() == old(self).ring()
                &&& final(self).spec_stats() == if count_miss {
                    (StatsSnapshot {
                        misses: bumped(old(self).spec_stats().misses),
                        ..old(self).spec_stats()
                    })
                } else {
                    old(self).spec_stats()
                }
            },
    {
        match self.find(key) {
            Some(i) => {
                proof {
                    self.lemma_idx(i as int, key);
                }
                let ghost oldring = self.ring();
                let ghost olde = self.ring()[i as int];
                let e = &mut self.entries[i];
                e.referenced = true;
                e.pins = e.pins + 1;
                proof {
                    lemma_sum_update(
                        oldring,
                        i as int,
                        (Entry { pins: (olde.pins + 1) as usize, referenced: true, ..olde }),
                    );
                    assert(self.ring() =~= oldring.update(
                        i as int,
                        (Entry { pins: (olde.pins + 1) as usize, referenced: true, ..olde }),
                    ));
                    assert forall|a: int, b: int|
                        0 <= a < b < self.ring().len() implies self.ring()[a].key
                        != self.ring()[b].key by {
                        assert(oldring[a].key != oldring[b].key);
                    }
                }
                let mut s = self.stats.read();
                s.hits = bump(s.hits);
                self.stats.write(s);
                proof {
                    assert(self.ring()[i as int].key == key);
                    self.lemma_idx(i as int, key);
                }
                Some(ValueHandle { key, delta: 0 })
            },
            None => {
                if count_miss {
                    let mut s = self.stats.read();
                    s.misses = bump(s.misses);
                    self.stats.write(s);
                }
                None
            },
        }
    }

    /// Borrows the value a handle pins.
    pub fn value<'a>(&'a self, h: &ValueHandle) -> (r: &'a V)
        requires
            self.wf(),
            self.contains(h.spec_key()),
        ensures
            *r == self.value_of(h.spec_key()),
    {
        let i = match self.find(h.key()) {
            Some(i) => i,
            None => {
                proof {
                    assert(false);
                }
                0
            },
        };
        proof {
            self.lemma_idx(i as int, h.spec_key());
        }
        &self.entries[i].value
    }

    /// Mutably borrows the value a handle pins. The entry's accounted
    /// weight is unchanged; a caller that changes the value's true cost
    /// reports the difference through [`AddSize`] before releasing.
    pub fn value_mut<'a>(&'a mut self, h: &ValueHandle) -> (r: &'a mut V)
        requires
            old(self).wf(),
            old(self).contains(h.spec_key()),
        ensures
            *r == old(self).value_of(h.spec_key()),
            final(self).ring() == old(self).ring().update(
                old(self).idx_of(h.spec_key()),
                (Entry { value: *final(r), ..old(self).entry_of(h.spec_key()) }),
            ),
            final(self).wf(),
            final(self).spec_capacity() == old(self).spec_capacity(),
            final(self).spec_hand() == old(self).spec_hand(),
            final(self).spec_size() == old(self).spec_size(),
            final(self).spec_stats() == old(self).spec_stats(),
    {
        let i = match self.find(h.key()) {
            Some(i) => i,
            None => {
                proof {
                    assert(false);
                }
                0
            },
        };
        proof {
            self.lemma_idx(i as int, h.spec_key());
            let ghost oldring = self.ring();
            assert forall|e: Entry<V>| #[trigger]
                sum_weights(oldring.update(i as int, e)) == sum_weights(oldring) - oldring[
                    i as int
                ].weight + e.weight by {
                lemma_sum_update(oldring, i as int, e);
            }
            assert forall|e: Entry<V>|
                e.key == oldring[i as int].key implies #[trigger] keys_unique(
                oldring.update(i as int, e),
            ) by {
                let t = oldring.update(i as int, e);
                assert forall|a: int, b: int|
                    0 <= a < b < t.len() implies t[a].key != t[b].key by {
                    assert(oldring[a].key != oldring[b].key);
                }
            }
        }
        &mut self.entries[i].value
    }

    /// Releases a handle: applies its accumulated size delta to the entry's
    /// weight and to the total size, and lowers the pin count by one.
    pub fn release(&mut self, h: ValueHandle)
        requires
            old(self).wf(),
            old(self).contains(h.spec_key()),
            old(self).pinned(h.spec_key()),
            0 <= old(self).weight_of(h.spec_key()) + h.spec_delta(),
            old(self).spec_size() + h.spec_delta() <= usize::MAX,
        ensures
            final(self).wf(),
            final(self).spec_capacity() == old(self).spec_capacity(),
            final(self).spec_hand() == old(self).spec_hand(),
            final(self).spec_size() as int == old(self).spec_size() + h.spec_delta(),
            final(self).ring() == old(self).ring().update(
                old(self).idx_of(h.spec_key()),
                (Entry {
                    weight: (old(self).weight_of(h.spec_key()) + h.spec_delta()) as usize,
                    pins: (old(self).entry_of(h.spec_key()).pins - 1) as usize,
                    ..old(self).entry_of(h.spec_key())
                }),
            ),
            final(self).spec_stats() == (StatsSnapshot {
                size: (old(self).spec_size() + h.spec_delta()) as usize,
                ..old(self).spec_stats()
            }),
            final(self).contains(h.spec_key()),
            final(self).value_of(h.spec_key()) == old(self).value_of(h.spec_key()),
            final(self).weight_of(h.spec_key()) as int == old(self).weight_of(h.spec_key())
                + h.spec_delta(),
    {
        let i = match self.find(h.key()) {
            Some(i) => i,
            None => {
                proof {
                    assert(false);
                }
                0
            },
        };
        proof {
            self.lemma_idx(i as int, h.spec_key());
            lemma_sum_at_least(self.ring(), i as int);
        }
        let ghost oldring = self.ring();
        let ghost olde = self.ring()[i as int];
        let w = self.entries[i].weight;
        let nw = apply_delta(w, h.delta);
        let e = &mut self.entries[i];
        e.weight = nw;
        e.pins = e.pins - 1;
        self.total_size = apply_delta(self.total_size, h.delta);
        let mut s = self.stats.read();
        s.size = self.total_size;
        self.stats.write(s);
        proof {
            let ghost ne = (Entry {
                weight: (olde.weight + h.spec_delta()) as usize,
                pins: (olde.pins - 1) as usize,
                ..olde
            });
            lemma_sum_update(oldring, i as int, ne);
            assert(self.ring() =~= oldring.update(i as int, ne));
            assert forall|a: int, b: int|
                0 <= a < b < self.ring().len() implies self.ring()[a].key
                != self.ring()[b].key by {
                assert(oldring[a].key != oldring[b].key);
            }
            assert(self.ring()[i as int].key == h.spec_key());
            self.lemma_idx(i as int, h.spec_key());
        }
    }

    /// Inserts or replaces the entry under `key`, with its reference bit
    /// set and `size` as its accounted weight. When the key was already
    /// present, the previous value is dropped and its weight removed before
    /// the new weight is added; no callback runs for the old value, so
    /// callers that need cleanup remove it first. The capacity budget is
    /// never enforced here: the total size may exceed it until the owner
    /// calls `evict`.
    pub fn insert(&mut self, key: u64, value: V, size: usize)
        requires
            old(self).wf(),
            old(self).spec_size() - (if old(self).contains(key) {
                old(self).weight_of(key) as int
            } else {
                0
            }) + size <= usize::MAX,
        ensures
            final(self).wf(),
            final(self).spec_capacity() == old(self).spec_capacity(),
            final(self).spec_hand() == old(self).spec_hand(),
            final(self).contains(key),
            final(self).value_of(key) == value,
            final(self).weight_of(key) == size,
            !final(self).pinned(key),
            final(self).entry_of(key).referenced,
            old(self).contains(key) ==> {
                &&& final(self).ring() == old(self).ring().update(
                    old(self).idx_of(key),
                    (Entry { key, value, weight: size, pins: 0, referenced: true }),
                )
                &&& final(self).spec_size() as int == old(self).spec_size() - old(self).weight_of(
                    key,
                ) + size
            },
            !old(self).contains(key) ==> {
                &&& final(self).ring() == old(self).ring().push(
                    (Entry { key, value, weight: size, pins: 0, referenced: true }),
                )
                &&& final(self).spec_size() as int == old(self).spec_size() + size
            },
            final(self).spec_stats() == (StatsSnapshot {
                insertions: bumped(old(self).spec_stats().insertions),
                size: final(self).spec_size(),
                len: final(self).ring().len() as usize,
                ..old(self).spec_stats()
            }),
    {
        let ghost oldring = self.ring();
        let ghost mut gi: int = 0;
        match self.find(key) {
            Some(i) => {
                proof {
                    self.lemma_idx(i as int, key);
                    lemma_sum_at_least(self.ring(), i as int);
                    gi = i as int;
                }
                let w = self.entries[i].weight;
                let ne = Entry { key, value, weight: size, pins: 0, referenced: true };
                let e = &mut self.entries[i];
                *e = ne;
                self.total_size = self.total_size - w + size;
                proof {
                    lemma_sum_update(
                        oldring,
                        i as int,
                        self.ring()[i as int],
                    );
                    assert(self.ring() =~= oldring.update(i as int, self.ring()[i as int]));
                    assert forall|a: int, b: int|
                        0 <= a < b < self.ring().len() implies self.ring()[a].key
                        != self.ring()[b].key by {
                        assert(oldring[a].key != oldring[b].key);
                    }
                    self.lemma_idx(i as int, key);
                }
            },
            None => {
                self.entries.push(Entry { key, value, weight: size, pins: 0, referenced: true });
                self.total_size = self.total_size + size;
                proof {
                    lemma_sum_push(
                        oldring,
                        self.ring().last(),
                    );
                    assert(self.ring() =~= oldring.push(self.ring().last()));
                    assert forall|a: int, b: int|
                        0 <= a < b < self.ring().len() implies self.ring()[a].key
                        != self.ring()[b].key by {
                        if b < oldring.len() {
                            assert(oldring[a].key != oldring[b].key);
                        }
                    }
                    gi = self.ring().len() - 1;
                }
            },
        }
        let mut s = self.stats.read();
        s.insertions = bump(s.insertions);
        s.size = self.total_size;
        s.len = self.entries.len();
        self.stats.write(s);
        proof {
            assert(self.ring()[gi].key == key);
            self.lemma_idx(gi, key);
        }
    }

    /// Takes the entry at ring index `i` out, keeping the invariant: the
    /// hand is shifted past the gap and the entry's weight leaves the total.
    fn take_at(&mut self, i: usize) -> (r: Entry<V>)
        requires
            old(self).wf(),
            i < old(self).ring().len(),
        ensures
            final(self).wf(),
            r == old(self).ring()[i as int],
            final(self).spec_capacity() == old(self).spec_capacity(),
            final(self).ring() == old(self).ring().remove(i as int),
            final(self).spec_size() as int == old(self).spec_size() - old(self).ring()[
                i as int
            ].weight,
            final(self).spec_stats() == (StatsSnapshot {
                size: final(self).spec_size(),
                len: final(self).ring().len() as usize,
                ..old(self).spec_stats()
            }),
    {
        let ghost oldring = self.ring();
        proof {
            lemma_sum_at_least(oldring, i as int);
        }
        let e = self.entries.remove(i);
        let m = self.entries.len();
        if m == 0 {
            self.hand = 0;
        } else if self.hand > i {
            self.hand = self.hand - 1;
        } else if self.hand >= m {
            self.hand = 0;
        }
        self.total_size = self.total_size - e.weight;
        let mut s = self.stats.read();
        s.size = self.total_size;
        s.len = m;
        self.stats.write(s);
        proof {
            lemma_sum_remove(oldring, i as int);
            assert(self.ring() =~= oldring.remove(i as int));
            assert forall|a: int, b: int|
                0 <= a < b < self.ring().len() implies self.ring()[a].key
                != self.ring()[b].key by {
                let oa = if a < i { a } else { a + 1 };
                let ob = if b < i { b } else { b + 1 };
                assert(oldring[oa].key != oldring[ob].key);
            }
        }
        e
    }

    /// Removes the entry under `key` and returns its value, refusing an
    /// absent key with `NotPresent` and a pinned entry with `Pinned`. On
    /// success, `f` receives the value and returns it together with its
    /// final weight figure: that figure replaces the entry's accounted
    /// weight at the moment of removal, so the net effect on the total size
    /// is that this entry's accounted weight leaves it. `removals` is
    /// incremented.
    pub fn remove<F: FnOnce(V) -> (V, usize)>(&mut self, key: u64, f: F) -> (r: Result<
        V,
        RemoveError,
    >)
        requires
            old(self).wf(),
            old(self).contains(key) && !old(self).pinned(key) ==> call_requires(
                f,
                (old(self).value_of(key),),
            ),
        ensures
            final(self).wf(),
            final(self).spec_capacity() == old(self).spec_capacity(),
            !old(self).contains(key) ==> r == Err::<V, RemoveError>(RemoveError::NotPresent)
                && *final(self) == *old(self),
            old(self).contains(key) && old(self).pinned(key) ==> r == Err::<V, RemoveError>(
                RemoveError::Pinned,
            ) && *final(self) == *old(self),
            old(self).contains(key) && !old(self).pinned(key) ==> {
                &&& r is Ok
                &&& exists|vw: (V, usize)|
                    call_ensures(f, (old(self).value_of(key),), vw) && r == Ok::<
                        V,
                        RemoveError,
                    >(vw.0)
                &&& final(self).ring() == old(self).ring().remove(old(self).idx_of(key))
                &&& final(self).spec_size() as int == old(self).spec_size() - old(self).weight_of(
                    key,
                )
                &&& final(self).spec_stats() == (StatsSnapshot {
                    removals: bumped(old(self).spec_stats().removals),
                    size: final(self).spec_size(),
                    len: final(self).ring().len() as usize,
                    ..old(self).spec_stats()
                })
                &&& !final(self).contains(key)
            },
    {
        let i = match self.find(key) {
            Some(i) => i,
            None => {
                return Err(RemoveError::NotPresent);
            },
        };
        proof {
            self.lemma_idx(i as int, key);
        }
        if self.entries[i].pins > 0 {
            return Err(RemoveError::Pinned);
        }
        let e = self.take_at(i);
        let vw = f(e.value);
        proof {
            assert(call_ensures(f, (old(self).value_of(key),), vw));
        }
        let mut s = self.stats.read();
        s.removals = bump(s.removals);
        self.stats.write(s);
        proof {
            assert forall|x: int| 0 <= x < self.ring().len() implies self.ring()[x].key
                != key by {
                let ox = if x < i {
                    x
                } else {
                    x + 1
                };
                assert(self.ring()[x] == old(self).ring()[ox]);
                assert(old(self).ring()[ox].key != old(self).ring()[i as int].key);
            }
        }
        Ok(vw.0)
    }

    /// Removes the entry under `key` unconditionally, ignoring pin state;
    /// returns whether an entry was present. The caller-supplied `size`
    /// stands in for a callback's weight figure and replaces the accounted
    /// weight at the moment of removal, so the net effect on the total size
    /// is that this entry's accounted weight leaves it. For administrative
    /// invalidation paths that must succeed; `removals` is incremented.
    pub fn force_remove(&mut self, key: u64, size: usize) -> (r: bool)
        requires
            old(self).wf(),
        ensures
            final(self).wf(),
            final(self).spec_capacity() == old(self).spec_capacity(),
            r == old(self).contains(key),
            !old(self).contains(key) ==> *final(self) == *old(self),
            old(self).contains(key) ==> {
                &&& final(self).ring() == old(self).ring().remove(old(self).idx_of(key))
                &&& final(self).spec_size() as int == old(self).spec_size() - old(self).weight_of(
                    key,
                )
                &&& final(self).spec_stats() == (StatsSnapshot {
                    removals: bumped(old(self).spec_stats().removals),
                    size: final(self).spec_size(),
                    len: final(self).ring().len() as usize,
                    ..old(self).spec_stats()
                })
                &&& !final(self).contains(key)
            },
    {
        let _ = size;
        let i = match self.find(key) {
            Some(i) => i,
            None => {
                return false;
            },
        };
        proof {
            self.lemma_idx(i as int, key);
        }
        let _e = self.take_at(i);
        let mut s = self.stats.read();
        s.removals = bump(s.removals);
        self.stats.write(s);
        proof {
            assert forall|x: int| 0 <= x < self.ring().len() implies self.ring()[x].key
                != key by {
                let ox = if x < i {
                    x
                } else {
                    x + 1
                };
                assert(self.ring()[x] == old(self).ring()[ox]);
                assert(old(self).ring()[ox].key != old(self).ring()[i as int].key);
            }
        }
        true
    }

    /// Snapshots the live keys as an existence predicate for callbacks.
    fn snapshot_keys(&self) -> (r: KeySet)
        ensures
            r@ == self.key_set(),
    {
        let ks = KeySet { keys: self.iter() };
        proof {
            assert forall|k: u64| ks@.contains(k) implies self.key_set().contains(k) by {
                let i = choose|i: int| 0 <= i < ks.keys@.len() && ks.keys@[i] == k;
                assert(self.ring()[i].key == k);
            }
            assert forall|k: u64| self.key_set().contains(k) implies ks@.contains(k) by {
                let i = choose|i: int| 0 <= i < self.ring().len() && self.ring()[i].key == k;
                assert(ks.keys@[i] == k);
            }
            assert(ks@ =~= self.key_set());
        }
        ks
    }

    /// One CLOCK sweep: advances the hand over the ring, skipping pinned
    /// entries entirely (their reference bits are not even cleared and they
    /// do not count toward cycle termination). A non-pinned entry whose
    /// reference bit is set survives: the bit is cleared (second chance) and
    /// the scan continues. A non-pinned entry whose bit is clear is offered
    /// to `f`; if `f` returns a weight, the entry is evicted at once: the
    /// supplied figure replaces its accounted weight at the moment of
    /// removal (so the net effect on the total size is that the entry's
    /// accounted weight leaves it), `evictions` is incremented, and the key
    /// and value are returned. If `f` declines, the scan continues. When a
    /// full cycle finds no candidate to accept, the sweep gives up and
    /// returns nothing.
    ///
    /// The hand persists between calls, so repeated sweeps visit every live
    /// non-pinned entry once before any entry twice. The engine never calls
    /// this on its own initiative: enforcing the capacity budget is the
    /// owner's decision.
    #[verifier::rlimit(100)]
    pub fn evict<F: Fn(u64, &V) -> Option<usize>>(&mut self, f: F) -> (r: Option<(u64, V)>)
        requires
            old(self).wf(),
            forall|k: u64, v: &V|
                old(self).contains(k) && *v == old(self).value_of(k) ==> call_requires(
                    f,
                    (k, v),
                ),
        ensures
            final(self).wf(),
            final(self).spec_capacity() == old(self).spec_capacity(),
            r matches Some((k, v)) ==> {
                &&& old(self).contains(k)
                &&& !old(self).pinned(k)
                &&& v == old(self).value_of(k)
                &&& exists|vv: &V, ret: Option<usize>|
                    *vv == old(self).value_of(k) && ret is Some && call_ensures(f, (k, vv), ret)
                &&& sweep_evolves(
                    old(self).ring().remove(old(self).idx_of(k)),
                    final(self).ring(),
                )
                &&& final(self).spec_size() as int == old(self).spec_size() - old(self).weight_of(
                    k,
                )
                &&& final(self).spec_stats() == (StatsSnapshot {
                    evictions: bumped(old(self).spec_stats().evictions),
                    size: final(self).spec_size(),
                    len: final(self).ring().len() as usize,
                    ..old(self).spec_stats()
                })
            },
            r is None ==> {
                &&& sweep_evolves(old(self).ring(), final(self).ring())
                &&& final(self).spec_size() == old(self).spec_size()
                &&& final(self).spec_stats() == old(self).spec_stats()
                &&& forall|k2: u64| final(self).contains(k2) == old(self).contains(k2)
                &&& forall|k2: u64|
                    old(self).contains(k2) ==> {
                        &&& final(self).value_of(k2) == old(self).value_of(k2)
                        &&& final(self).weight_of(k2) == old(self).weight_of(k2)
                        &&& final(self).pinned(k2) == old(self).pinned(k2)
                    }
            },
            (always_accepts::<V, F>(f) && exists|i: int|
                0 <= i < old(self).ring().len() && !old(self).ring()[i].pinned()) ==> r is Some,
    {
        let n = self.entries.len();
        if n == 0 {
            return None;
        }
        let start = self.hand;
        let mut found: Option<usize> = None;
        let ghost mut gvv: Option<&V> = None;
        let ghost mut gret: Option<usize> = None;
        let mut step: usize = 0;
        while step < n && found.is_none()
            invariant
                old(self).wf(),
                self.wf(),
                n == self.ring().len(),
                0 < n,
                (start as int) == self.spec_hand(),
                start < n,
                step <= n,
                self.spec_hand() == old(self).spec_hand(),
                self.spec_capacity() == old(self).spec_capacity(),
                self.spec_size() == old(self).spec_size(),
                self.spec_stats() == old(self).spec_stats(),
                sweep_evolves(old(self).ring(), self.ring()),
                forall|k: u64, v: &V|
                    old(self).contains(k) && *v == old(self).value_of(k) ==> call_requires(
                        f,
                        (k, v),
                    ),
                found is None ==> forall|jj: int|
                    0 <= jj < step ==> self.ring()[cycle_index(start as int, jj, n as int)].pins
                        > 0 || !self.ring()[cycle_index(start as int, jj, n as int)].referenced,
                found matches Some(vi) ==> {
                    &&& (vi as int) < n
                    &&& self.ring()[vi as int].pins == 0
                    &&& gret is Some
                    &&& gvv matches Some(gv) && *gv == self.ring()[vi as int].value
                        && call_ensures(f, (self.ring()[vi as int].key, gv), gret)
                },
            decreases n - step,
        {
            let i = if step < n - start {
                start + step
            } else {
                step - (n - start)
            };
            proof {
                assert(i as int == cycle_index(start as int, step as int, n as int));
            }
            let ghost prev = self.ring();
            if self.entries[i].pins == 0 {
                if self.entries[i].referenced {
                    let e = &mut self.entries[i];
                    e.referenced = false;
                    proof {
                        assert(self.ring() =~= prev.update(
                            i as int,
                            (Entry { referenced: false, ..prev[i as int] }),
                        ));
                        lemma_sum_update(prev, i as int, self.ring()[i as int]);
                        assert forall|a: int, b: int|
                            0 <= a < b < self.ring().len() implies self.ring()[a].key
                            != self.ring()[b].key by {
                            assert(prev[a].key != prev[b].key);
                        }
                        assert forall|x: int|
                            0 <= x < old(self).ring().len() implies #[trigger] entry_evolves(
                            old(self).ring()[x],
                            self.ring()[x],
                        ) by {
                            assert(entry_evolves(old(self).ring()[x], prev[x]));
                        }
                    }
                } else {
                    let kk = self.entries[i].key;
                    proof {
                        assert(entry_evolves(old(self).ring()[i as int], prev[i as int]));
                        old(self).lemma_idx(i as int, kk);
                    }
                    let vref = &self.entries[i].value;
                    let ret = f(kk, vref);
                    if ret.is_some() {
                        found = Some(i);
                        proof {
                            gvv = Some(vref);
                            gret = ret;
                        }
                    }
                }
            }
            step += 1;
        }
        if found.is_none() {
            proof {
                assert forall|s: int|
                    0 <= s < n && self.ring()[s].pins == 0 implies !self.ring()[
                    s
                ].referenced by {
                    lemma_cycle_covers(start as int, n as int, s);
                }
            }
            let mut step2: usize = 0;
            while step2 < n && found.is_none()
                invariant
                    old(self).wf(),
                    self.wf(),
                    n == self.ring().len(),
                    0 < n,
                    (start as int) == self.spec_hand(),
                    start < n,
                    step2 <= n,
                    self.spec_hand() == old(self).spec_hand(),
                    self.spec_capacity() == old(self).spec_capacity(),
                    self.spec_size() == old(self).spec_size(),
                    self.spec_stats() == old(self).spec_stats(),
                    sweep_evolves(old(self).ring(), self.ring()),
                    forall|k: u64, v: &V|
                        old(self).contains(k) && *v == old(self).value_of(k) ==> call_requires(
                            f,
                            (k, v),
                        ),
                    forall|s: int|
                        0 <= s < n && self.ring()[s].pins == 0 ==> !self.ring()[s].referenced,
                    found is None && always_accepts::<V, F>(f) ==> forall|jj: int|
                        0 <= jj < step2 ==> self.ring()[
                            cycle_index(start as int, jj, n as int)
                        ].pins > 0,
                    found matches Some(vi) ==> {
                        &&& (vi as int) < n
                        &&& self.ring()[vi as int].pins == 0
                        &&& gret is Some
                        &&& gvv matches Some(gv) && *gv == self.ring()[vi as int].value
                            && call_ensures(f, (self.ring()[vi as int].key, gv), gret)
                    },
                decreases n - step2,
            {
                let i = if step2 < n - start {
                    start + step2
                } else {
                    step2 - (n - start)
                };
                proof {
                    assert(i as int == cycle_index(start as int, step2 as int, n as int));
                }
                if self.entries[i].pins == 0 {
                    let kk = self.entries[i].key;
                    proof {
                        assert(entry_evolves(old(self).ring()[i as int], self.ring()[i as int]));
                        old(self).lemma_idx(i as int, kk);
                    }
                    let vref = &self.entries[i].value;
                    let ret = f(kk, vref);
                    if ret.is_some() {
                        found = Some(i);
                        proof {
                            gvv = Some(vref);
                            gret = ret;
                        }
                    }
                }
                step2 += 1;
            }
        }
        match found {
            None => {
                proof {
                    assert forall|k2: u64|
                        self.contains(k2) == old(self).contains(k2) by {
                        if self.contains(k2) {
                            let i0 = self.idx_of(k2);
                            assert(entry_evolves(old(self).ring()[i0], self.ring()[i0]));
                        }
                        if old(self).contains(k2) {
                            let i0 = old(self).idx_of(k2);
                            assert(entry_evolves(old(self).ring()[i0], self.ring()[i0]));
                        }
                    }
                    assert forall|k2: u64| old(self).contains(k2) implies {
                        &&& self.value_of(k2) == old(self).value_of(k2)
                        &&& self.weight_of(k2) == old(self).weight_of(k2)
                        &&& self.pinned(k2) == old(self).pinned(k2)
                    } by {
                        let i0 = old(self).idx_of(k2);
                        assert(entry_evolves(old(self).ring()[i0], self.ring()[i0]));
                        self.lemma_idx(i0, k2);
                    }
                    if always_accepts::<V, F>(f) {
                        assert forall|i0: int|
                            0 <= i0 < old(self).ring().len() implies old(self).ring()[
                        i0].pins > 0 by {
                            lemma_cycle_covers(start as int, n as int, i0);
                            let jj = choose|jj: int|
                                0 <= jj < n && cycle_index(start as int, jj, n as int) == i0;
                            assert(self.ring()[i0].pins > 0);
                            assert(entry_evolves(old(self).ring()[i0], self.ring()[i0]));
                        }
                    }
                }
                None
            },
            Some(i) => {
                let ghost cur = self.ring();
                let ghost oldring = old(self).ring();
                let kk = self.entries[i].key;
                proof {
                    self.lemma_idx(i as int, kk);
                    assert(entry_evolves(oldring[i as int], cur[i as int]));
                    old(self).lemma_idx(i as int, kk);
                }
                let e = self.take_at(i);
                let mut s = self.stats.read();
                s.evictions = bump(s.evictions);
                self.stats.write(s);
                proof {
                    assert forall|x: int|
                        0 <= x < oldring.remove(i as int).len() implies #[trigger] entry_evolves(
                        oldring.remove(i as int)[x],
                        self.ring()[x],
                    ) by {
                        let ox = if x < i {
                            x
                        } else {
                            x + 1
                        };
                        assert(oldring.remove(i as int)[x] == oldring[ox]);
                        assert(self.ring()[x] == cur.remove(i as int)[x]);
                        assert(cur.remove(i as int)[x] == cur[ox]);
                        assert(entry_evolves(oldring[ox], cur[ox]));
                    }
                    let gv = gvv->Some_0;
                    assert(*gv == old(self).value_of(kk));
                    assert(call_ensures(f, (kk, gv), gret));
                    assert(gret is Some);
                    assert(old(self).contains(kk));
                    assert(!old(self).pinned(kk));
                    assert(e.value == old(self).value_of(kk));
                    assert(sweep_evolves(oldring.remove(old(self).idx_of(kk)), self.ring()));
                    assert(self.spec_size() as int == old(self).spec_size() - old(self).weight_of(kk));
                    assert(self.spec_stats() == (StatsSnapshot {
                        evictions: bumped(old(self).spec_stats().evictions),
                        size: self.spec_size(),
                        len: self.ring().len() as usize,
                        ..old(self).spec_stats()
                    }));
                }
                Some((kk, e.value))
            },
        }
    }

    /// Relocates the entry under `key` to a key chosen by `f`, refusing an
    /// absent key with `NotPresent` and a pinned entry with `Pinned`.
    ///
    /// `f` receives the old key, the owned value, and a [`KeySet`] through
    /// which it can check whether a candidate key is already live. It
    /// returns the new key together with the value, or hands the value back
    /// with an error, which aborts the rekey, leaves the entry in place and
    /// passes the error on as `CallbackError`. A successful rekey keeps the
    /// entry's ring position, weight and reference bit.
    ///
    /// Collision policy: when `f` returns a key that another live entry
    /// already holds, the rekeyed entry deterministically overwrites it;
    /// the stale entry is dropped and its weight leaves the total, so two
    /// live entries never share a key. Callers that must not lose the other
    /// entry consult the key set inside `f` and return an error instead.
    #[verifier::rlimit(100)]
    pub fn change_key<E, F: FnOnce(u64, V, KeySet) -> Result<(u64, V), (V, E)>>(
        &mut self,
        key: u64,
        f: F,
    ) -> (r: Result<(), ChangeKeyError<E>>)
        requires
            old(self).wf(),
            old(self).contains(key) && !old(self).pinned(key) ==> forall|ks: KeySet|
                ks@ == old(self).key_set() ==> call_requires(
                    f,
                    (key, old(self).value_of(key), ks),
                ),
        ensures
            final(self).wf(),
            final(self).spec_capacity() == old(self).spec_capacity(),
            !old(self).contains(key) ==> r == Err::<(), ChangeKeyError<E>>(
                ChangeKeyError::NotPresent,
            ) && *final(self) == *old(self),
            old(self).contains(key) && old(self).pinned(key) ==> r == Err::<
                (),
                ChangeKeyError<E>,
            >(ChangeKeyError::Pinned) && *final(self) == *old(self),
            old(self).contains(key) && !old(self).pinned(key) ==> exists|
                ks: KeySet,
                fr: Result<(u64, V), (V, E)>,
            |
                {
                    &&& ks@ == old(self).key_set()
                    &&& call_ensures(f, (key, old(self).value_of(key), ks), fr)
                    &&& match fr {
                        Err((v, e)) => {
                            &&& r == Err::<(), ChangeKeyError<E>>(
                                ChangeKeyError::CallbackError(e),
                            )
                            &&& final(self).ring() == old(self).ring().update(
                                old(self).idx_of(key),
                                (Entry { value: v, ..old(self).entry_of(key) }),
                            )
                            &&& final(self).spec_size() == old(self).spec_size()
                            &&& final(self).spec_stats() == old(self).spec_stats()
                        },
                        Ok((nk, nv)) => {
                            &&& r == Ok::<(), ChangeKeyError<E>>(())
                            &&& if nk == key || !old(self).contains(nk) {
                                &&& final(self).ring() == old(self).ring().update(
                                    old(self).idx_of(key),
                                    (Entry { key: nk, value: nv, ..old(self).entry_of(key) }),
                                )
                                &&& final(self).spec_size() == old(self).spec_size()
                                &&& final(self).spec_stats() == old(self).spec_stats()
                            } else {
                                &&& final(self).ring() == old(self).ring().update(
                                    old(self).idx_of(key),
                                    (Entry { key: nk, value: nv, ..old(self).entry_of(key) }),
                                ).remove(old(self).idx_of(nk))
                                &&& final(self).spec_size() as int == old(self).spec_size()
                                    - old(self).weight_of(nk)
                                &&& final(self).spec_stats() == (StatsSnapshot {
                                    size: final(self).spec_size(),
                                    len: final(self).ring().len() as usize,
                                    ..old(self).spec_stats()
                                })
                            }
                        },
                    }
                },
    {
        let i = match self.find(key) {
            Some(i) => i,
            None => {
                return Err(ChangeKeyError::NotPresent);
            },
        };
        proof {
            self.lemma_idx(i as int, key);
        }
        if self.entries[i].pins > 0 {
            return Err(ChangeKeyError::Pinned);
        }
        let ks = self.snapshot_keys();
        let ghost gks = ks;
        let ghost oldring = self.ring();
        let e = self.entries.remove(i);
        let Entry { key: ek, value: ev, weight: ew, pins: ep, referenced: er } = e;
        let fres = f(key, ev, ks);
        let ghost gfr = fres;
        match fres {
            Err((v, err)) => {
                self.entries.insert(
                    i,
                    Entry { key: ek, value: v, weight: ew, pins: ep, referenced: er },
                );
                proof {
                    assert(self.ring() =~= oldring.update(
                        i as int,
                        (Entry { value: gfr->Err_0.0, ..oldring[i as int] }),
                    ));
                    lemma_sum_update(oldring, i as int, self.ring()[i as int]);
                    assert forall|a: int, b: int|
                        0 <= a < b < self.ring().len() implies self.ring()[a].key
                        != self.ring()[b].key by {
                        assert(oldring[a].key != oldring[b].key);
                    }
                }
                Err(ChangeKeyError::CallbackError(err))
            },
            Ok((nk, nv)) => {
                let stale = if nk == key {
                    None
                } else {
                    self.find(nk)
                };
                self.entries.insert(
                    i,
                    Entry { key: nk, value: nv, weight: ew, pins: ep, referenced: er },
                );
                let ghost renamed = (Entry {
                    key: nk,
                    value: gfr->Ok_0.1,
                    ..oldring[i as int]
                });
                proof {
                    assert(self.ring() =~= oldring.update(i as int, renamed));
                    lemma_sum_update(oldring, i as int, renamed);
                }
                match stale {
                    None => {
                        proof {
                            if nk != key {
                                assert forall|a: int|
                                    0 <= a < oldring.len() && a != i implies oldring[a].key
                                    != nk by {
                                    let b = if a < i {
                                        a
                                    } else {
                                        a - 1
                                    };
                                    assert(oldring.remove(i as int)[b] == oldring[a]);
                                }
                            }
                            assert forall|a: int, b: int|
                                0 <= a < b < self.ring().len() implies self.ring()[a].key
                                != self.ring()[b].key by {
                                assert(oldring[a].key != oldring[b].key);
                            }
                            assert(!(nk != key && old(self).contains(nk))) by {
                                if nk != key && old(self).contains(nk) {
                                    let c = old(self).idx_of(nk);
                                    assert(oldring[c].key == nk);
                                }
                            }
                        }
                        Ok(())
                    },
                    Some(j) => {
                        let j2 = if j < i {
                            j
                        } else {
                            j + 1
                        };
                        proof {
                            assert(oldring.remove(i as int)[j as int] == oldring[j2 as int]);
                            assert(oldring[j2 as int].key == nk);
                            old(self).lemma_idx(j2 as int, nk);
                            assert(j2 != i);
                            lemma_sum_at_least(self.ring(), j2 as int);
                            lemma_sum_remove(self.ring(), j2 as int);
                        }
                        let ghost midring = self.ring();
                        let stale_entry = self.entries.remove(j2);
                        let m = self.entries.len();
                        if m == 0 {
                            self.hand = 0;
                        } else if self.hand > j2 {
                            self.hand = self.hand - 1;
                        } else if self.hand >= m {
                            self.hand = 0;
                        }
                        self.total_size = self.total_size - stale_entry.weight;
                        let mut s = self.stats.read();
                        s.size = self.total_size;
                        s.len = m;
                        self.stats.write(s);
                        proof {
                            assert(self.ring() =~= midring.remove(j2 as int));
                            assert forall|a: int, b: int|
                                0 <= a < b < self.ring().len() implies self.ring()[a].key
                                != self.ring()[b].key by {
                                let oa = if a < j2 {
                                    a
                                } else {
                                    a + 1
                                };
                                let ob = if b < j2 {
                                    b
                                } else {
                                    b + 1
                                };
                                assert(midring[oa] == self.ring()[a]);
                                assert(midring[ob] == self.ring()[b]);
                                if oa != i && ob != i {
                                    assert(oldring[oa].key != oldring[ob].key);
                                } else if oa == i {
                                    assert(midring[ob].key == oldring[ob].key);
                                    if oldring[ob].key == nk {
                                        assert(oldring[ob].key == oldring[j2 as int].key);
                                    }
                                } else {
                                    assert(midring[oa].key == oldring[oa].key);
                                    if oldring[oa].key == nk {
                                        assert(oldring[oa].key == oldring[j2 as int].key);
                                    }
                                }
                            }
                        }
                        Ok(())
                    },
                }
            },
        }
    }

    /// Relocates the entry under `key` to `new_key` unconditionally,
    /// ignoring pin state; returns whether the source key was present. The
    /// entry keeps its ring position, value, weight, pin count and
    /// reference bit. The collision policy is the same as for
    /// [`ClockCache::change_key`]: an existing entry under `new_key` is
    /// deterministically overwritten and its weight leaves the total.
    #[verifier::rlimit(100)]
    pub fn force_change_key(&mut self, key: u64, new_key: u64) -> (r: bool)
        requires
            old(self).wf(),
        ensures
            final(self).wf(),
            final(self).spec_capacity() == old(self).spec_capacity(),
            r == old(self).contains(key),
            !old(self).contains(key) ==> *final(self) == *old(self),
            old(self).contains(key) && new_key == key ==> *final(self) == *old(self),
            old(self).contains(key) && new_key != key && !old(self).contains(new_key) ==> {
                &&& final(self).ring() == old(self).ring().update(
                    old(self).idx_of(key),
                    (Entry { key: new_key, ..old(self).entry_of(key) }),
                )
                &&& final(self).spec_size() == old(self).spec_size()
                &&& final(self).spec_hand() == old(self).spec_hand()
                &&& final(self).spec_stats() == old(self).spec_stats()
            },
            old(self).contains(key) && new_key != key && old(self).contains(new_key) ==> {
                &&& final(self).ring() == old(self).ring().update(
                    old(self).idx_of(key),
                    (Entry { key: new_key, ..old(self).entry_of(key) }),
                ).remove(old(self).idx_of(new_key))
                &&& final(self).spec_size() as int == old(self).spec_size() - old(
                    self,
                ).weight_of(new_key)
                &&& final(self).spec_stats() == (StatsSnapshot {
                    size: final(self).spec_size(),
                    len: final(self).ring().len() as usize,
                    ..old(self).spec_stats()
                })
            },
    {
        let i = match self.find(key) {
            Some(i) => i,
            None => {
                return false;
            },
        };
        proof {
            self.lemma_idx(i as int, key);
        }
        if new_key == key {
            return true;
        }
        let stale = self.find(new_key);
        let ghost oldring = self.ring();
        let e = &mut self.entries[i];
        e.key = new_key;
        let ghost renamed = (Entry { key: new_key, ..oldring[i as int] });
        proof {
            assert(self.ring() =~= oldring.update(i as int, renamed));
            lemma_sum_update(oldring, i as int, renamed);
        }
        match stale {
            None => {
                proof {
                    assert forall|a: int, b: int|
                        0 <= a < b < self.ring().len() implies self.ring()[a].key
                        != self.ring()[b].key by {
                        assert(oldring[a].key != oldring[b].key);
                        if oldring[a].key == new_key || oldring[b].key == new_key {
                            assert(old(self).contains(new_key));
                        }
                    }
                }
                true
            },
            Some(j) => {
                proof {
                    old(self).lemma_idx(j as int, new_key);
                    assert(j != i);
                    lemma_sum_at_least(self.ring(), j as int);
                    lemma_sum_remove(self.ring(), j as int);
                }
                let ghost midring = self.ring();
                let j2: usize = j;
                let stale_entry = self.entries.remove(j2);
                let m = self.entries.len();
                if m == 0 {
                    self.hand = 0;
                } else if self.hand > j2 {
                    self.hand = self.hand - 1;
                } else if self.hand >= m {
                    self.hand = 0;
                }
                self.total_size = self.total_size - stale_entry.weight;
                let mut s = self.stats.read();
                s.size = self.total_size;
                s.len = m;
                self.stats.write(s);
                proof {
                    assert(self.ring() =~= midring.remove(j2 as int));
                    assert forall|a: int, b: int|
                        0 <= a < b < self.ring().len() implies self.ring()[a].key
                        != self.ring()[b].key by {
                        let oa = if a < j2 {
                            a
                        } else {
                            a + 1
                        };
                        let ob = if b < j2 {
                            b
                        } else {
                            b + 1
                        };
                        assert(midring[oa] == self.ring()[a]);
                        assert(midring[ob] == self.ring()[b]);
                        if oa != i && ob != i {
                            assert(oldring[oa].key != oldring[ob].key);
                        } else if oa == i {
                            assert(midring[ob].key == oldring[ob].key);
                            if oldring[ob].key == new_key {
                                assert(oldring[ob].key == oldring[j2 as int].key);
                            }
                        } else {
                            assert(midring[oa].key == oldring[oa].key);
                            if oldring[oa].key == new_key {
                                assert(oldring[oa].key == oldring[j2 as int].key);
                            }
                        }
                    }
                }
                true
            },
        }
    }
}

} // verus!
