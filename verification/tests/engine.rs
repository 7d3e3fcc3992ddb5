use clock_cache::cache::{AddSize, ChangeKeyError, ClockCache, RemoveError};

#[test]
fn round_trip() {
    let mut c: ClockCache<String> = ClockCache::new(100);
    c.insert(1, String::from("v"), 10);
    assert_eq!(c.size(), 10);
    let h = c.get(1, true).expect("hit");
    assert_eq!(c.value(&h).as_str(), "v");
    assert_eq!(c.stats().hits, 1);
    c.release(h);
    let r = c.remove(1, |v| (v, 10));
    assert_eq!(r, Ok(String::from("v")));
    assert!(!c.contains_key(1));
    assert_eq!(c.size(), 0);
    assert_eq!(c.stats().removals, 1);
}

#[test]
fn miss_counting_toggle() {
    let mut c: ClockCache<u64> = ClockCache::new(10);
    assert!(c.get(7, false).is_none());
    assert_eq!(c.stats().misses, 0);
    assert!(c.get(7, true).is_none());
    assert_eq!(c.stats().misses, 1);
}

#[test]
fn capacity_never_enforced_implicitly() {
    let mut c: ClockCache<u64> = ClockCache::new(10);
    c.insert(1, 11, 6);
    c.insert(2, 22, 6);
    c.insert(3, 33, 6);
    assert_eq!(c.size(), 18);
    assert!(c.size() > c.capacity());
    assert_eq!(c.stats().size, 18);
    assert_eq!(c.stats().len, 3);
    assert_eq!(c.stats().insertions, 3);
}

#[test]
fn size_tracks_sum_of_weights() {
    let mut c: ClockCache<u64> = ClockCache::new(50);
    c.insert(1, 10, 5);
    assert_eq!(c.size(), 5);
    c.insert(2, 20, 7);
    assert_eq!(c.size(), 12);
    c.insert(1, 15, 9);
    assert_eq!(c.size(), 16);
    assert!(c.force_remove(2, 7));
    assert_eq!(c.size(), 9);
    let h = c.get(1, true).expect("hit");
    c.release(h);
    assert_eq!(c.size(), 9);
    let r = c.remove(1, |v| (v, 9));
    assert!(r.is_ok());
    assert_eq!(c.size(), 0);
    assert_eq!(c.stats().size, 0);
    assert_eq!(c.stats().len, 0);
}

#[test]
fn pin_exclusion() {
    let mut c: ClockCache<u64> = ClockCache::new(10);
    c.insert(1, 11, 1);
    c.insert(2, 22, 1);
    let h = c.get(1, true).expect("hit");
    let victim = c.evict(|_k, _v| Some(0)).expect("one candidate");
    assert_eq!(victim, (2, 22));
    assert!(c.evict(|_k, _v| Some(0)).is_none());
    assert!(c.contains_key(1));
    c.release(h);
    let victim = c.evict(|_k, _v| Some(0)).expect("unpinned now");
    assert_eq!(victim, (1, 11));
}

#[test]
fn pinned_entry_survives_repeated_sweeps() {
    let mut c: ClockCache<u64> = ClockCache::new(10);
    c.insert(1, 11, 1);
    let h = c.get(1, true).expect("hit");
    for _ in 0..5 {
        assert!(c.evict(|_k, _v| Some(0)).is_none());
    }
    assert!(c.contains_key(1));
    c.release(h);
}

#[test]
fn clock_fairness_evicts_each_once() {
    let mut c: ClockCache<u64> = ClockCache::new(10);
    for k in 0..4u64 {
        c.insert(k, k * 10, 1);
    }
    let mut seen = Vec::new();
    for _ in 0..4 {
        let (k, v) = c.evict(|_k, _v| Some(1)).expect("a live entry remains");
        assert_eq!(v, k * 10);
        assert!(!seen.contains(&k));
        seen.push(k);
    }
    assert_eq!(c.size(), 0);
    assert_eq!(c.stats().evictions, 4);
    assert!(c.evict(|_k, _v| Some(1)).is_none());
}

#[test]
fn evict_declined_leaves_table_unchanged() {
    let mut c: ClockCache<u64> = ClockCache::new(10);
    c.insert(1, 11, 2);
    c.insert(2, 22, 3);
    assert!(c.evict(|_k, _v| None).is_none());
    assert!(c.contains_key(1));
    assert!(c.contains_key(2));
    assert_eq!(c.size(), 5);
    assert_eq!(c.stats().evictions, 0);
}

#[test]
fn evict_callback_sees_key_and_value() {
    let mut c: ClockCache<u64> = ClockCache::new(10);
    c.insert(9, 90, 4);
    let r = c.evict(|k, v| if k == 9 && *v == 90 { Some(4) } else { None });
    assert_eq!(r, Some((9, 90)));
    assert_eq!(c.size(), 0);
}

#[test]
fn remove_error_cases() {
    let mut c: ClockCache<u64> = ClockCache::new(10);
    assert_eq!(c.remove(1, |v| (v, 0)), Err(RemoveError::NotPresent));
    c.insert(1, 11, 3);
    let h = c.get(1, true).expect("hit");
    assert_eq!(c.remove(1, |v| (v, 3)), Err(RemoveError::Pinned));
    c.release(h);
    assert_eq!(c.remove(1, |v| (v, 3)), Ok(11));
}

#[test]
fn force_remove_ignores_pins() {
    let mut c: ClockCache<u64> = ClockCache::new(10);
    assert!(!c.force_remove(1, 0));
    c.insert(1, 11, 3);
    assert!(c.force_remove(1, 3));
    assert!(!c.contains_key(1));
    assert_eq!(c.size(), 0);
    assert_eq!(c.stats().removals, 1);
}

#[test]
fn change_key_moves_entry() {
    let mut c: ClockCache<String> = ClockCache::new(10);
    c.insert(1, String::from("a"), 4);
    let r: Result<(), ChangeKeyError<&str>> = c.change_key(1, |k, v, ks| {
        assert_eq!(k, 1);
        if ks.contains(2) {
            Err((v, "already present"))
        } else {
            Ok((2, v))
        }
    });
    assert!(r.is_ok());
    assert!(!c.contains_key(1));
    assert!(c.contains_key(2));
    assert_eq!(c.size(), 4);
}

#[test]
fn change_key_error_cases() {
    let mut c: ClockCache<u64> = ClockCache::new(10);
    let r: Result<(), ChangeKeyError<u32>> = c.change_key(1, |_k, v, _ks| Ok((2, v)));
    assert!(matches!(r, Err(ChangeKeyError::NotPresent)));
    c.insert(1, 11, 3);
    let h = c.get(1, true).expect("hit");
    let r: Result<(), ChangeKeyError<u32>> = c.change_key(1, |_k, v, _ks| Ok((2, v)));
    assert!(matches!(r, Err(ChangeKeyError::Pinned)));
    c.release(h);
    let r: Result<(), ChangeKeyError<u32>> = c.change_key(1, |_k, v, _ks| Err((v, 42)));
    assert!(matches!(r, Err(ChangeKeyError::CallbackError(42))));
    assert!(c.contains_key(1));
    assert_eq!(c.size(), 3);
}

#[test]
fn change_key_collision_overwrites() {
    let mut c: ClockCache<u64> = ClockCache::new(20);
    c.insert(1, 11, 5);
    c.insert(2, 22, 7);
    let r: Result<(), ChangeKeyError<u32>> = c.change_key(1, |_k, v, _ks| Ok((2, v)));
    assert!(r.is_ok());
    assert!(!c.contains_key(1));
    assert!(c.contains_key(2));
    assert_eq!(c.stats().len, 1);
    assert_eq!(c.size(), 5);
    let h = c.get(2, true).expect("hit");
    assert_eq!(*c.value(&h), 11);
    c.release(h);
}

#[test]
fn force_change_key_cases() {
    let mut c: ClockCache<u64> = ClockCache::new(20);
    assert!(!c.force_change_key(1, 2));
    c.insert(1, 11, 5);
    assert!(c.force_change_key(1, 1));
    assert!(c.contains_key(1));
    assert!(c.force_change_key(1, 2));
    assert!(!c.contains_key(1));
    assert!(c.contains_key(2));
    c.insert(3, 33, 7);
    assert!(c.force_change_key(3, 2));
    assert_eq!(c.stats().len, 1);
    assert_eq!(c.size(), 7);
    let h = c.get(2, true).expect("hit");
    assert_eq!(*c.value(&h), 33);
    c.release(h);
}

#[test]
fn handle_reports_size_delta() {
    let mut c: ClockCache<Vec<u8>> = ClockCache::new(100);
    c.insert(1, vec![0u8; 10], 10);
    let mut h = c.get(1, true).expect("hit");
    c.value_mut(&h).extend_from_slice(&[1, 2, 3, 4, 5]);
    h.add_size(5);
    c.release(h);
    assert_eq!(c.size(), 15);
    assert_eq!(c.stats().size, 15);
    let h = c.get(1, true).expect("hit");
    assert_eq!(c.value(&h).len(), 15);
    let h = h.finish(-3);
    c.release(h);
    assert_eq!(c.size(), 12);
}

#[test]
fn untouched_handle_reports_zero() {
    let mut c: ClockCache<u64> = ClockCache::new(100);
    c.insert(1, 11, 10);
    let h = c.get(1, true).expect("hit");
    c.release(h);
    assert_eq!(c.size(), 10);
}

#[test]
fn insert_replaces_existing_entry() {
    let mut c: ClockCache<u64> = ClockCache::new(100);
    c.insert(1, 11, 10);
    c.insert(1, 99, 4);
    assert_eq!(c.size(), 4);
    assert_eq!(c.stats().len, 1);
    assert_eq!(c.stats().insertions, 2);
    let h = c.get(1, true).expect("hit");
    assert_eq!(*c.value(&h), 99);
    c.release(h);
}

#[test]
fn iter_lists_live_keys() {
    let mut c: ClockCache<u64> = ClockCache::new(100);
    c.insert(3, 1, 1);
    c.insert(1, 2, 1);
    c.insert(2, 3, 1);
    let mut keys = c.iter();
    keys.sort();
    assert_eq!(keys, vec![1, 2, 3]);
    assert!(c.force_remove(1, 1));
    let mut keys = c.iter();
    keys.sort();
    assert_eq!(keys, vec![2, 3]);
}

#[test]
fn contains_key_does_not_touch_stats() {
    let mut c: ClockCache<u64> = ClockCache::new(100);
    c.insert(1, 11, 1);
    assert!(c.contains_key(1));
    assert!(!c.contains_key(2));
    let s = c.stats();
    assert_eq!(s.hits, 0);
    assert_eq!(s.misses, 0);
}

#[test]
fn callback_error_value_is_preserved() {
    let mut c: ClockCache<String> = ClockCache::new(10);
    c.insert(1, String::from("keep"), 2);
    let r: Result<(), ChangeKeyError<u8>> = c.change_key(1, |_k, mut v, _ks| {
        v.push('!');
        Err((v, 7))
    });
    assert!(matches!(r, Err(ChangeKeyError::CallbackError(7))));
    let h = c.get(1, true).expect("hit");
    assert_eq!(c.value(&h).as_str(), "keep!");
    c.release(h);
}

#[test]
fn change_key_error_from_callback_error_type() {
    let e: ChangeKeyError<u8> = ChangeKeyError::from(5u8);
    assert!(matches!(e, ChangeKeyError::CallbackError(5)));
}
