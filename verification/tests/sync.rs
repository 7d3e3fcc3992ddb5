use clock_cache::cache::ClockCache;
use clock_cache::seqlock::SeqLock;
use clock_cache::stats::{Stats, StatsSnapshot};

#[test]
fn seqlock_read_returns_whole_value() {
    let l = SeqLock::new((1u64, 10u64));
    assert_eq!(l.read(), (1, 10));
}

#[test]
fn seqlock_write_replaces_value_as_one_unit() {
    let mut l = SeqLock::new((1u64, 10u64));
    l.write((2, 20));
    let (a, b) = l.read();
    assert_eq!(a, 2);
    assert_eq!(b, 20);
}

#[test]
fn seqlock_write_sections_compose() {
    let mut l = SeqLock::new(0u64);
    for i in 1..100u64 {
        l.begin_write();
        l.store(i);
        l.end_write();
        assert_eq!(l.read(), i);
    }
}

#[test]
fn seqlock_get_mut_and_into_inner() {
    let mut l = SeqLock::new(5u64);
    *l.get_mut() = 9;
    assert_eq!(l.read(), 9);
    assert_eq!(l.into_inner(), 9);
}

#[test]
fn counters_move_together() {
    // A snapshot read between whole-value writes always shows counters from
    // one point in time: fields updated together are observed together.
    let mut c: ClockCache<u64> = ClockCache::new(10);
    c.insert(1, 11, 2);
    let before = c.stats();
    let h = c.get(1, true).expect("hit");
    c.release(h);
    assert!(c.get(2, true).is_none());
    let after = c.stats();
    assert!(after.hits >= before.hits);
    assert!(after.misses >= before.misses);
    assert!(after.insertions >= before.insertions);
    assert!(after.evictions >= before.evictions);
    assert!(after.removals >= before.removals);
    assert_eq!(after.hits, 1);
    assert_eq!(after.misses, 1);
    assert_eq!(after.size as usize, after.len * 2);
}

#[test]
fn stats_trait_getters_match_fields() {
    let s = StatsSnapshot {
        capacity: 10,
        size: 4,
        len: 2,
        hits: 1,
        misses: 2,
        insertions: 3,
        evictions: 4,
        removals: 5,
    };
    assert_eq!(s.capacity(), 10);
    assert_eq!(Stats::size(&s), 4);
    assert_eq!(Stats::len(&s), 2);
    assert_eq!(s.hits(), 1);
    assert_eq!(s.misses(), 2);
    assert_eq!(s.insertions(), 3);
    assert_eq!(s.evictions(), 4);
    assert_eq!(s.removals(), 5);
}

#[test]
fn fresh_engine_stats_are_zero() {
    let c: ClockCache<u64> = ClockCache::new(42);
    let s = c.stats();
    assert_eq!(s.capacity, 42);
    assert_eq!(s.size, 0);
    assert_eq!(s.len, 0);
    assert_eq!(s.hits, 0);
    assert_eq!(s.misses, 0);
    assert_eq!(s.insertions, 0);
    assert_eq!(s.evictions, 0);
    assert_eq!(s.removals, 0);
}
