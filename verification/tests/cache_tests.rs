use memstore::cache::Admission;
use memstore::cache::Cache;
use memstore::cache::ConfigError;
use memstore::cache::StoreError;

fn mk(soft: u64, hard: u64) -> Cache {
    Cache::new(soft, hard).expect("valid limits")
}

#[test]
fn config_rejects_inverted_limits() {
    assert_eq!(Cache::new(200, 100).err(), Some(ConfigError::InvalidLimits));
    assert_eq!(Cache::new(100, 100).err(), Some(ConfigError::InvalidLimits));
    assert!(Cache::new(100, 200).is_ok());
}

#[test]
fn aggregate_size_tracks_live_entries() {
    let mut c = mk(1000, 2000);
    assert_eq!(c.aggregate_size(), 0);
    c.store("a".to_string(), vec![1], 10).unwrap();
    assert_eq!(c.aggregate_size(), 10);
    c.store("b".to_string(), vec![2], 25).unwrap();
    assert_eq!(c.aggregate_size(), 35);
    c.retrieve(&"a".to_string());
    assert_eq!(c.aggregate_size(), 35);
    c.store("a".to_string(), vec![3], 5).unwrap();
    assert_eq!(c.aggregate_size(), 30);
    c.lru();
    assert_eq!(c.aggregate_size(), 30);
    assert_eq!(c.entry_count(), 2);
}

#[test]
fn store_then_retrieve_returns_stored_value() {
    let mut c = mk(100, 200);
    c.store("k".to_string(), vec![1, 2, 3], 3).unwrap();
    assert_eq!(c.retrieve(&"k".to_string()), Some(vec![1, 2, 3]));
}

#[test]
fn retrieve_miss_is_none() {
    let mut c = mk(100, 200);
    assert_eq!(c.retrieve(&"absent".to_string()), None);
    c.store("k".to_string(), vec![1], 1).unwrap();
    assert_eq!(c.retrieve(&"other".to_string()), None);
    assert_eq!(c.entry_count(), 1);
}

#[test]
fn retrieve_refreshes_recency_order() {
    let mut c = mk(100, 200);
    c.store("a".to_string(), vec![1], 1).unwrap();
    c.store("b".to_string(), vec![2], 1).unwrap();
    c.retrieve(&"a".to_string());
    assert_eq!(c.recency_order(), vec!["b".to_string(), "a".to_string()]);
}

#[test]
fn eviction_stops_at_soft_limit_without_over_evicting() {
    let mut c = mk(100, 200);
    c.store("a".to_string(), vec![0; 4], 60).unwrap();
    c.store("b".to_string(), vec![1; 4], 60).unwrap();
    c.store("c".to_string(), vec![2; 4], 60).unwrap();
    c.store("d".to_string(), vec![3; 4], 70).unwrap();
    assert_eq!(c.aggregate_size(), 250);
    assert!(!c.is_ready());
    c.lru();
    // oldest entries go until the total is at most 100; "d" alone leaves 70,
    // and removing only "a" and "b" would have left 130, so exactly three go
    assert_eq!(c.aggregate_size(), 70);
    assert_eq!(c.recency_order(), vec!["d".to_string()]);
    assert!(c.is_ready());
}

#[test]
fn opportunistic_eviction_between_the_limits() {
    let mut c = mk(100, 200);
    c.store("a".to_string(), vec![1], 60).unwrap();
    c.store("b".to_string(), vec![2], 60).unwrap();
    assert!(c.is_ready());
    let released = c.lru();
    assert!(released.is_empty());
    assert_eq!(c.aggregate_size(), 60);
    assert_eq!(c.recency_order(), vec!["b".to_string()]);
}

#[test]
fn saturated_store_suspends_then_proceeds() {
    let mut c = mk(50, 100);
    c.store("a".to_string(), vec![1], 60).unwrap();
    assert!(c.is_ready());
    c.store("b".to_string(), vec![2], 60).unwrap();
    // aggregate hit 120, at or past the hard limit: the admission gate closed
    assert!(!c.is_ready());
    // a store that would push the size to 150 must wait, not fail
    assert_eq!(c.admission(30), Admission::Suspend);
    let id = c.wait_ready();
    let released = c.lru();
    assert_eq!(released, vec![id]);
    assert!(c.is_ready());
    assert!(c.aggregate_size() <= 50);
    // released, the writer retries, is admitted, and succeeds
    assert_eq!(c.admission(30), Admission::Admit);
    c.store("c".to_string(), vec![3], 30).unwrap();
    assert_eq!(c.retrieve(&"c".to_string()), Some(vec![3]));
}

#[test]
fn oversized_store_fails_immediately_without_suspending() {
    let mut c = mk(50, 100);
    assert_eq!(c.admission(500), Admission::Unsatisfiable);
    let r = c.store("big".to_string(), vec![9], 500);
    assert_eq!(r, Err(StoreError::CapacityUnsatisfiable));
    // nothing changed, nothing waits
    assert_eq!(c.aggregate_size(), 0);
    assert_eq!(c.entry_count(), 0);
    assert!(c.is_ready());
    assert!(c.lru().is_empty());
}

#[test]
fn overwrite_leaves_one_entry_with_new_size() {
    let mut c = mk(100, 200);
    c.store("k".to_string(), vec![1, 1], 10).unwrap();
    c.store("k".to_string(), vec![2, 2, 2], 20).unwrap();
    assert_eq!(c.entry_count(), 1);
    assert_eq!(c.aggregate_size(), 20);
    assert_eq!(c.retrieve(&"k".to_string()), Some(vec![2, 2, 2]));
}

#[test]
fn waiters_release_in_bulk_and_registry_clears() {
    let mut c = mk(50, 100);
    c.store("a".to_string(), vec![1], 120).unwrap_err();
    c.store("a".to_string(), vec![1], 100).unwrap();
    assert!(!c.is_ready());
    let w1 = c.wait_ready();
    let w2 = c.wait_ready();
    assert_ne!(w1, w2);
    let mut released = c.lru();
    released.sort();
    let mut expected = vec![w1, w2];
    expected.sort();
    assert_eq!(released, expected);
    // the sweep cleared the registry: a later pass releases nobody
    c.store("b".to_string(), vec![2], 100).unwrap();
    assert!(!c.is_ready());
    assert!(c.lru().is_empty());
}

#[test]
fn abandoned_waiter_deregisters_safely() {
    let mut c = mk(50, 100);
    c.store("a".to_string(), vec![1], 100).unwrap();
    assert!(!c.is_ready());
    let w1 = c.wait_ready();
    let w2 = c.wait_ready();
    c.deregister_waiter(w1);
    // deregistering an unknown or already-removed identifier is a no-op
    c.deregister_waiter(w1);
    c.deregister_waiter(123456);
    let released = c.lru();
    assert_eq!(released, vec![w2]);
}

#[test]
fn empty_key_and_zero_size_are_ordinary_entries() {
    let mut c = mk(50, 100);
    c.store("".to_string(), vec![7], 0).unwrap();
    assert_eq!(c.aggregate_size(), 0);
    assert_eq!(c.entry_count(), 1);
    assert_eq!(c.retrieve(&"".to_string()), Some(vec![7]));
}

#[test]
fn store_at_exactly_the_hard_limit_is_admitted_then_closes() {
    let mut c = mk(50, 100);
    assert_eq!(c.admission(100), Admission::Admit);
    c.store("a".to_string(), vec![1], 100).unwrap();
    assert!(!c.is_ready());
    // the object is still retrievable while the admission gate is closed
    assert_eq!(c.retrieve(&"a".to_string()), Some(vec![1]));
    assert!(!c.is_ready());
}

#[test]
fn admission_depends_on_gate_state() {
    let mut c = mk(50, 100);
    assert_eq!(c.admission(0), Admission::Admit);
    assert_eq!(c.admission(100), Admission::Admit);
    assert_eq!(c.admission(101), Admission::Unsatisfiable);
    c.store("a".to_string(), vec![1], 100).unwrap();
    assert_eq!(c.admission(10), Admission::Suspend);
    // an oversized object is refused outright even while the admission gate is closed
    assert_eq!(c.admission(101), Admission::Unsatisfiable);
}
