use cache_lru::cache::Cache;

#[test]
fn test_basic_operations() {
    let mut cache = Cache::<String, i32>::new(2);
    cache.put("a".to_string(), 1);
    cache.put("b".to_string(), 2);
    assert_eq!(cache.get(&"a".to_string()), Some(&1));
    cache.put("c".to_string(), 3);
    assert_eq!(cache.get(&"b".to_string()), None);
    assert_eq!(cache.get(&"a".to_string()), Some(&1));
    assert_eq!(cache.get(&"c".to_string()), Some(&3));
}

#[test]
fn test_capacity() {
    let mut cache = Cache::<String, i32>::new(2);
    cache.put("A".to_string(), 1);
    cache.put("B".to_string(), 2);
    cache.put("C".to_string(), 3);
    assert_eq!(cache.get(&"A".to_string()), None);
    assert_eq!(cache.get(&"B".to_string()), Some(&2));
    assert_eq!(cache.get(&"C".to_string()), Some(&3));
}

#[test]
fn test_update_existing() {
    let mut cache = Cache::<String, i32>::new(2);
    cache.put("A".to_string(), 1);
    cache.put("B".to_string(), 2);
    cache.put("A".to_string(), 3);
    assert_eq!(cache.get(&"A".to_string()), Some(&3));
    assert_eq!(cache.get(&"B".to_string()), Some(&2));
}

#[test]
fn test_len_never_exceeds_capacity() {
    let mut cache = Cache::<u64, u64>::new(3);
    for i in 0..20u64 {
        cache.put(i % 7, i);
        assert!(cache.len() <= 3);
    }
}

#[test]
fn test_eviction_order() {
    let mut cache = Cache::<u64, u64>::new(3);
    cache.put(1, 10);
    cache.put(2, 20);
    cache.put(3, 30);
    cache.put(4, 40);
    assert_eq!(cache.get(&1), None);
    assert_eq!(cache.get(&2), Some(&20));
    assert_eq!(cache.get(&3), Some(&30));
    assert_eq!(cache.get(&4), Some(&40));
}

#[test]
fn test_update_resets_recency_without_growing() {
    let mut cache = Cache::<String, i32>::new(2);
    cache.put("a".to_string(), 1);
    cache.put("b".to_string(), 2);
    cache.put("a".to_string(), 3);
    assert_eq!(cache.len(), 2);
    cache.put("c".to_string(), 4);
    assert_eq!(cache.get(&"b".to_string()), None);
    assert_eq!(cache.get(&"a".to_string()), Some(&3));
    assert_eq!(cache.get(&"c".to_string()), Some(&4));
}

#[test]
fn test_absent_get_changes_nothing() {
    let mut cache = Cache::<String, i32>::new(2);
    cache.put("a".to_string(), 1);
    cache.put("b".to_string(), 2);
    assert_eq!(cache.get(&"missing".to_string()), None);
    // "a" is still the least-recently-used entry, so the next insert evicts it
    cache.put("c".to_string(), 3);
    assert_eq!(cache.get(&"a".to_string()), None);
    assert_eq!(cache.get(&"b".to_string()), Some(&2));
    assert_eq!(cache.get(&"c".to_string()), Some(&3));
}

#[test]
fn test_zero_capacity_retains_nothing() {
    let mut cache = Cache::<String, i32>::new(0);
    cache.put("a".to_string(), 1);
    assert_eq!(cache.len(), 0);
    assert_eq!(cache.get(&"a".to_string()), None);
    cache.put("b".to_string(), 2);
    cache.put("a".to_string(), 3);
    assert_eq!(cache.len(), 0);
    assert_eq!(cache.get(&"a".to_string()), None);
    assert_eq!(cache.get(&"b".to_string()), None);
}

#[test]
fn test_new_from_pairs_replays_in_order() {
    let pairs = vec![
        ("x".to_string(), 1),
        ("y".to_string(), 2),
        ("x".to_string(), 3),
        ("z".to_string(), 4),
    ];
    let mut cache = Cache::new_from_pairs(2, pairs);
    // "x" was refreshed by its duplicate, so "y" was the eviction victim
    assert_eq!(cache.get(&"y".to_string()), None);
    assert_eq!(cache.get(&"x".to_string()), Some(&3));
    assert_eq!(cache.get(&"z".to_string()), Some(&4));
}

#[test]
fn test_entry_at_reports_recency_order() {
    let mut cache = Cache::<u64, u64>::new(3);
    cache.put(1, 10);
    cache.put(2, 20);
    cache.put(3, 30);
    cache.get(&1);
    assert_eq!(cache.len(), 3);
    // least recently used first; the read moved key 1 to the back
    assert_eq!(*cache.entry_at(0), (2, 20));
    assert_eq!(*cache.entry_at(1), (3, 30));
    assert_eq!(*cache.entry_at(2), (1, 10));
}
