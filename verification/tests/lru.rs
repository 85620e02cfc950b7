use lru_cache::LRU;

#[test]
fn empty_cache_probe_returns_none() {
    let mut c = LRU::new(3);
    assert_eq!(c.get(1), None);
    assert_eq!(c.get(0), None);
    assert_eq!(c.len(), 0);
}

#[test]
fn insert_then_get_returns_value() {
    let mut c = LRU::new(2);
    c.insert(5, 50);
    assert_eq!(c.get(5), Some(50));
    assert_eq!(c.len(), 1);
}

#[test]
fn eviction_scenario_capacity_three() {
    let mut c = LRU::new(3);
    c.insert(1, 1);
    c.insert(2, 2);
    c.insert(3, 3);
    c.insert(4, 4);
    assert!(!c.contains(1));
    assert!(c.contains(2));
    assert!(c.contains(3));
    assert!(c.contains(4));
    assert_eq!(c.len(), 3);
    assert_eq!(c.order(), vec![2, 3, 4]);
}

#[test]
fn eviction_scenario_continued_insert() {
    let mut c = LRU::new(3);
    c.insert(1, 1);
    c.insert(2, 2);
    c.insert(3, 3);
    c.insert(4, 4);
    c.insert(7, 3);
    assert!(!c.contains(2));
    assert_eq!(c.order(), vec![3, 4, 7]);
}

#[test]
fn eviction_scenario_continued_gets() {
    let mut c = LRU::new(3);
    c.insert(1, 1);
    c.insert(2, 2);
    c.insert(3, 3);
    c.insert(4, 4);
    c.insert(7, 3);
    assert_eq!(c.get(7), Some(3));
    assert_eq!(c.order(), vec![3, 4, 7]);
    assert_eq!(c.get(3), Some(3));
    assert_eq!(c.order(), vec![4, 7, 3]);
}

#[test]
fn capacity_bound_holds_and_oldest_is_evicted() {
    let mut c = LRU::new(4);
    for k in 0..5 {
        c.insert(k, k * 10);
    }
    assert_eq!(c.len(), 4);
    assert_eq!(c.capacity(), 4);
    assert!(!c.contains(0));
    for k in 1..5 {
        assert!(c.contains(k));
    }
}

#[test]
fn views_agree_after_mixed_calls() {
    let mut c = LRU::new(3);
    c.insert(1, 1);
    c.insert(2, 2);
    c.get(1);
    c.insert(3, 3);
    c.insert(4, 4);
    c.get(9);
    let order = c.order();
    assert_eq!(order.len(), c.len());
    assert!(order.len() <= c.capacity());
    for i in 0..order.len() {
        assert!(c.contains(order[i]));
        for j in 0..i {
            assert_ne!(order[i], order[j]);
        }
    }
}

#[test]
fn touch_keeps_size_and_value_but_reorders() {
    let mut c = LRU::new(3);
    c.insert(1, 10);
    c.insert(2, 20);
    c.insert(3, 30);
    assert_eq!(c.get(1), Some(10));
    assert_eq!(c.len(), 3);
    assert_eq!(c.order(), vec![2, 3, 1]);
    // the touch changed which key is evicted next
    c.insert(4, 40);
    assert!(!c.contains(2));
    assert!(c.contains(1));
}

#[test]
fn repeated_touch_leaves_one_entry() {
    let mut c = LRU::new(3);
    c.insert(1, 10);
    c.insert(2, 20);
    for _ in 0..5 {
        assert_eq!(c.get(1), Some(10));
    }
    assert_eq!(c.len(), 2);
    assert_eq!(c.order(), vec![2, 1]);
    let order = c.order();
    let mut hits = 0;
    for i in 0..order.len() {
        if order[i] == 1 {
            hits += 1;
        }
    }
    assert_eq!(hits, 1);
}

#[test]
fn overwrite_replaces_value_without_eviction() {
    let mut c = LRU::new(2);
    c.insert(1, 10);
    c.insert(2, 20);
    c.insert(1, 11);
    assert_eq!(c.len(), 2);
    assert!(c.contains(2));
    assert_eq!(c.get(1), Some(11));
    assert_eq!(c.get(2), Some(20));
}

#[test]
fn overwrite_counts_as_touch() {
    let mut c = LRU::new(2);
    c.insert(1, 10);
    c.insert(2, 20);
    c.insert(1, 11);
    assert_eq!(c.order(), vec![2, 1]);
    c.insert(3, 30);
    assert!(!c.contains(2));
    assert!(c.contains(1));
}

#[test]
fn contains_is_not_a_touch() {
    let mut c = LRU::new(2);
    c.insert(1, 10);
    c.insert(2, 20);
    assert!(c.contains(1));
    assert_eq!(c.order(), vec![1, 2]);
    c.insert(3, 30);
    assert!(!c.contains(1));
}

#[test]
fn capacity_one_keeps_latest() {
    let mut c = LRU::new(1);
    c.insert(1, 10);
    c.insert(2, 20);
    assert_eq!(c.len(), 1);
    assert_eq!(c.get(1), None);
    assert_eq!(c.get(2), Some(20));
}

#[test]
fn miss_does_not_reorder() {
    let mut c = LRU::new(3);
    c.insert(1, 10);
    c.insert(2, 20);
    assert_eq!(c.get(42), None);
    assert_eq!(c.order(), vec![1, 2]);
    assert_eq!(c.len(), 2);
}

#[test]
fn largest_key_and_value_round_trip() {
    let mut c = LRU::new(2);
    c.insert(u64::MAX, u64::MAX);
    c.insert(0, 0);
    assert_eq!(c.get(u64::MAX), Some(u64::MAX));
    assert_eq!(c.get(0), Some(0));
}
