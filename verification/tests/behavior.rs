//! Boundary behaviors, eviction accounting, the adaptive controller, and a
//! sequential stress run that re-checks the shard invariants afterwards.

use cachedb::bucket::cold_target_for;
use cachedb::{CacheDb, Error, LockingMethod};

#[test]
fn empty_cache() {
    let mut cdb = CacheDb::<String, String, 16>::new();
    let r = cdb.get(&LockingMethod::Blocking, &"foo".to_string());
    assert!(matches!(r, Err(Error::NoEntry)));
    assert_eq!(cdb.evict(100), 0);
}

#[test]
fn evict_returns_evicted_count() {
    let mut cdb = CacheDb::<u16, u16, 1>::new();
    cdb.disable_lru_eviction();
    for k in 0..10u16 {
        assert!(cdb.insert(&k, !k));
    }
    cdb.enable_lru_eviction();
    // All ten entries are idle; five can be evicted.
    assert_eq!(cdb.evict(5), 5);
    // The coldest (first inserted) keys left first.
    for k in 0..5u16 {
        assert!(!cdb.contains_key(&k));
    }
    for k in 5..10u16 {
        assert!(cdb.contains_key(&k));
    }
    // Draining more than remains reports only what went.
    assert_eq!(cdb.evict(100), 5);
    assert_eq!(cdb.evict(3), 0);
}

#[test]
fn evict_skips_entries_in_use() {
    let mut cdb = CacheDb::<u16, u16, 1>::new();
    cdb.disable_lru_eviction();
    for k in 0..4u16 {
        assert!(cdb.insert(&k, !k));
    }
    cdb.enable_lru_eviction();
    let g = cdb.get(&LockingMethod::Blocking, &1u16).unwrap();
    assert_eq!(cdb.evict(100), 3);
    assert!(cdb.contains_key(&1u16));
    assert_eq!(*cdb.read_value(&g), !1u16);
    cdb.release_read(g);
    assert!(cdb.check_invariants());
}

#[test]
fn lru_disabled_no_eviction() {
    let mut cdb = CacheDb::<u16, u16, 1>::new();
    cdb.disable_lru_eviction();
    for k in 0..50u16 {
        assert!(cdb.insert(&k, !k));
    }
    assert_eq!(cdb.evict(10), 0);
    for k in 0..50u16 {
        assert!(cdb.contains_key(&k));
    }
    cdb.enable_lru_eviction();
    assert!(cdb.evict(10) > 0);
}

#[test]
fn auto_eviction_under_pressure() {
    // One shard; the modelled capacity grows to eight, so the ninth
    // insertion finds the shard full of idle entries and evicts a batch.
    let mut cdb = CacheDb::<u16, u16, 1>::new();
    for k in 0..9u16 {
        assert!(cdb.insert(&k, !k));
    }
    for k in 0..4u16 {
        assert!(!cdb.contains_key(&k));
    }
    for k in 4..9u16 {
        assert!(cdb.contains_key(&k));
    }
    assert!(cdb.check_invariants());
}

#[test]
fn timed_lock_contention() {
    let mut cdb = CacheDb::<String, String, 16>::new();
    let w = cdb
        .get_or_insert_mut(&LockingMethod::Blocking, &"foo".to_string(), "bar".to_string())
        .unwrap();
    // While the write guard is held, a timed read attempt gives up.
    let r = cdb.get(&LockingMethod::Duration(100), &"foo".to_string());
    assert!(matches!(r, Err(Error::LockUnavailable)));
    cdb.release_write(w);
    // After the writer releases, a blocking read succeeds.
    let g = cdb.get(&LockingMethod::Blocking, &"foo".to_string()).unwrap();
    assert_eq!(*cdb.read_value(&g), "bar".to_string());
    cdb.release_read(g);
}

#[test]
fn recursive_read_while_holding() {
    let mut cdb = CacheDb::<String, String, 16>::new();
    assert!(cdb.insert(&"foo".to_string(), "bar".to_string()));
    let g1 = cdb
        .get(&LockingMethod::Recursive(Box::new(LockingMethod::Blocking)), &"foo".to_string())
        .unwrap();
    let g2 = cdb
        .get(&LockingMethod::Recursive(Box::new(LockingMethod::TryLock)), &"foo".to_string())
        .unwrap();
    assert_eq!(*cdb.read_value(&g1), "bar".to_string());
    assert_eq!(*cdb.read_value(&g2), "bar".to_string());
    cdb.release_read(g2);
    cdb.release_read(g1);
    assert!(cdb.check_invariants());
}

#[test]
fn write_lock_excludes() {
    let mut cdb = CacheDb::<String, String, 16>::new();
    assert!(cdb.insert(&"foo".to_string(), "bar".to_string()));
    let g = cdb.get(&LockingMethod::Blocking, &"foo".to_string()).unwrap();
    let w = cdb.get_mut(&LockingMethod::TryLock, &"foo".to_string());
    assert!(matches!(w, Err(Error::LockUnavailable)));
    cdb.release_read(g);
    let w = cdb.get_mut(&LockingMethod::TryLock, &"foo".to_string());
    assert!(w.is_ok());
    cdb.release_write(w.unwrap());
}

#[test]
fn get_or_insert_constructs_once() {
    let mut cdb = CacheDb::<String, String, 16>::new();
    let g = cdb
        .get_or_insert(&LockingMethod::Blocking, &"foo".to_string(), "bar".to_string())
        .unwrap();
    cdb.release_read(g);
    // A second call finds the entry; the candidate value is not stored.
    let g = cdb
        .get_or_insert(&LockingMethod::Blocking, &"foo".to_string(), "other".to_string())
        .unwrap();
    assert_eq!(*cdb.read_value(&g), "bar".to_string());
    cdb.release_read(g);
    // Plain insert on a present key reports that nothing was stored.
    assert!(!cdb.insert(&"foo".to_string(), "third".to_string()));
    let g = cdb.get(&LockingMethod::Blocking, &"foo".to_string()).unwrap();
    assert_eq!(*cdb.read_value(&g), "bar".to_string());
    cdb.release_read(g);
}

#[test]
fn abort_insert_leaves_nothing() {
    let mut cdb = CacheDb::<String, String, 16>::new();
    let w = cdb
        .get_or_insert_mut(&LockingMethod::Blocking, &"foo".to_string(), "bar".to_string())
        .unwrap();
    // The constructing caller gives up: no partial record stays behind.
    cdb.abort_insert(w);
    assert!(!cdb.contains_key(&"foo".to_string()));
    let r = cdb.get(&LockingMethod::Blocking, &"foo".to_string());
    assert!(matches!(r, Err(Error::NoEntry)));
    assert!(cdb.check_invariants());
}

#[test]
fn downgrade_keeps_reading() {
    let mut cdb = CacheDb::<String, String, 16>::new();
    let w = cdb
        .get_or_insert_mut(&LockingMethod::Blocking, &"foo".to_string(), "bar".to_string())
        .unwrap();
    let g = cdb.downgrade(w);
    assert_eq!(*cdb.read_value(&g), "bar".to_string());
    // Another reader can join now.
    let g2 = cdb.get(&LockingMethod::TryLock, &"foo".to_string()).unwrap();
    assert_eq!(*cdb.read_value(&g2), "bar".to_string());
    cdb.release_read(g2);
    cdb.release_read(g);
}

#[test]
fn expire_flag_is_advisory() {
    let mut cdb = CacheDb::<String, String, 4>::new();
    assert!(cdb.insert(&"foo".to_string(), "bar".to_string()));
    let g = cdb.get(&LockingMethod::Blocking, &"foo".to_string()).unwrap();
    cdb.expire_read(&g);
    cdb.release_read(g);
    // The flag is set on the record, and the entry is idle again.
    let mut seen = false;
    for bucket in &cdb.buckets {
        for e in &bucket.entries {
            if e.key == "foo" {
                assert!(e.expire);
                assert!(e.linked);
                assert_eq!(e.use_count, 0);
                seen = true;
            }
        }
    }
    assert!(seen);
}

#[test]
fn shard_routing_u16() {
    let mut cdb = CacheDb::<u16, u16, 8>::new();
    for k in 0..32u16 {
        assert!(cdb.insert(&k, !k));
    }
    for k in 0..32u16 {
        let b = (k as usize) % 8;
        let mut found = false;
        for e in &cdb.buckets[b].entries {
            if e.key == k {
                found = true;
            }
        }
        assert!(found);
    }
    assert!(cdb.check_invariants());
}

#[test]
fn error_messages() {
    assert_eq!(Error::NoEntry.message(), "Entry not found");
    assert_eq!(Error::LockUnavailable.message(), "Trying to lock failed");
}

#[test]
fn cold_target_interpolation() {
    // Below the region: the generous end; above it: the conservative end.
    assert_eq!(cold_target_for(500, 1000, 10000, 5, 60), 60);
    assert_eq!(cold_target_for(20000, 1000, 10000, 5, 60), 5);
    // Inside the region: linear, here 60 - (4500 * 55) / 9000 = 33.
    assert_eq!(cold_target_for(5500, 1000, 10000, 5, 60), 33);
    // Degenerate percentage region resolves to the lower end.
    assert_eq!(cold_target_for(5500, 1000, 10000, 60, 5), 60);
}

#[test]
fn config_setters_fan_out() {
    let mut cdb = CacheDb::<u16, u16, 4>::new();
    cdb.config_target_cooldown(100);
    cdb.config_min_capacity_limit(400);
    cdb.config_max_capacity_limit(4000);
    cdb.config_min_cache_percent(10);
    cdb.config_max_cache_percent(50);
    cdb.config_evict_batch(2);
    for bucket in &cdb.buckets {
        assert_eq!(bucket.target_cooldown, 100);
        // Capacity limits express a total; each shard takes its share.
        assert_eq!(bucket.min_capacity_limit, 100);
        assert_eq!(bucket.max_capacity_limit, 1000);
        assert_eq!(bucket.min_cache_percent, 10);
        assert_eq!(bucket.max_cache_percent, 50);
        assert_eq!(bucket.evict_batch, 2);
    }
}

#[test]
fn stress_invariants() {
    // A deterministic churn over many shards; afterwards every shard must
    // satisfy the universal invariants, and every stored value must be the
    // bitwise complement of its key.
    let mut cdb = CacheDb::<u16, u16, 64>::new();
    let mut state: u64 = 0x2545F4914F6CDD1D;
    let mut held: Vec<cachedb::EntryReadGuard<u16>> = Vec::new();
    for _ in 0..2000 {
        state = state.wrapping_mul(6364136223846793005).wrapping_add(1442695040888963407);
        let k = ((state >> 33) % 1000) as u16;
        let p = (state >> 13) % 100;
        if p < 40 {
            let g = cdb.get_or_insert(&LockingMethod::Blocking, &k, !k).unwrap();
            assert_eq!(*cdb.read_value(&g), !k);
            cdb.release_read(g);
        } else if p < 55 {
            if let Ok(w) = cdb.get_or_insert_mut(&LockingMethod::Duration(500), &k, !k) {
                assert_eq!(*cdb.peek_value(&w), !k);
                cdb.release_write(w);
            }
        } else if p < 70 {
            if let Ok(g) = cdb.get(&LockingMethod::TryLock, &k) {
                held.push(g);
            }
        } else if p < 85 {
            if let Some(g) = held.pop() {
                cdb.release_read(g);
            }
        } else if p < 95 {
            cdb.evict(8);
        } else {
            while let Some(g) = held.pop() {
                cdb.release_read(g);
            }
        }
    }
    while let Some(g) = held.pop() {
        cdb.release_read(g);
    }
    assert!(cdb.check_invariants());
    for bucket in &cdb.buckets {
        for e in &bucket.entries {
            assert_eq!(e.value, Some(!e.key));
            assert_eq!(e.use_count, 0);
            assert!(e.linked);
        }
    }
}

#[test]
fn construction_protocol() {
    let mut cdb = CacheDb::<String, String, 16>::new();
    let w = cdb.begin_insert(&"foo".to_string()).unwrap();
    // The record exists, but the construction write lock keeps the empty
    // value slot invisible: a try-read fails instead of seeing nothing.
    let r = cdb.get(&LockingMethod::TryLock, &"foo".to_string());
    assert!(matches!(r, Err(Error::LockUnavailable)));
    cdb.write_value(&w, "bar".to_string());
    let g = cdb.downgrade(w);
    assert_eq!(*cdb.read_value(&g), "bar".to_string());
    cdb.release_read(g);
    // Beginning again finds the key present.
    assert!(cdb.begin_insert(&"foo".to_string()).is_none());
}

#[test]
fn failed_construction_rolls_back() {
    let mut cdb = CacheDb::<String, String, 16>::new();
    let w = cdb.begin_insert(&"foo".to_string()).unwrap();
    // The constructor failed; the record leaves with the guard.
    cdb.abort_insert(w);
    assert!(!cdb.contains_key(&"foo".to_string()));
    let r = cdb.get(&LockingMethod::Blocking, &"foo".to_string());
    assert!(matches!(r, Err(Error::NoEntry)));
    assert!(cdb.check_invariants());
}

#[test]
fn controller_decay() {
    let mut bucket = cachedb::Bucket::<u16, u16>::new();
    bucket.target_cooldown = 5;
    bucket.maxused_reduction = 10;
    bucket.maxused = 100;
    bucket.maxused_countdown = 0;
    // The countdown expired: one decay step takes maxused/10 + 1 off the
    // peak and rearms the countdown.
    let m = bucket.update_maxused();
    assert_eq!(m, 89);
    assert_eq!(bucket.maxused, 89);
    assert_eq!(bucket.maxused_countdown, 5);
    // While the countdown runs, the peak only tracks new highs.
    let m = bucket.update_maxused();
    assert_eq!(m, 89);
    assert_eq!(bucket.maxused_countdown, 4);
    // Small peaks still bleed off, one per step.
    bucket.maxused = 3;
    bucket.maxused_countdown = 0;
    bucket.maxused_reduction = 10000;
    let m = bucket.update_maxused();
    assert_eq!(m, 2);
}
