use sharded_lru::{ConstructionError, NaiveLruCache};

#[test]
fn mine_basics() {
    let mut cache: NaiveLruCache<i32> = NaiveLruCache::new(2);
    assert_eq!(false, cache.put(999));
    println!("{:?}", cache.keys());
    assert_eq!(false, cache.put(888));
    println!("{:?}", cache.keys());
    assert_eq!(true, cache.put(999));
    println!("{:?}", cache.keys());
    assert_eq!(false, cache.put(777));
    println!("{:?}", cache.keys());
    assert_eq!(false, cache.put(888));
    println!("{:?}", cache.keys());
    assert_eq!(true, cache.put(777));
    println!("{:?}", cache.keys());
    assert_eq!(true, cache.put(888));
    println!("{:?}", cache.keys());
}

#[test]
fn scenario_order_after_each_put() {
    let mut cache: NaiveLruCache<i32> = NaiveLruCache::new(2);
    cache.put(999);
    assert_eq!(cache.keys(), vec![999]);
    cache.put(888);
    assert_eq!(cache.keys(), vec![888, 999]);
    cache.put(999);
    assert_eq!(cache.keys(), vec![999, 888]);
    cache.put(777);
    assert_eq!(cache.keys(), vec![777, 999]);
    cache.put(888);
    assert_eq!(cache.keys(), vec![888, 777]);
}

#[test]
fn distinct_keys_fill_up_to_capacity() {
    let mut cache: NaiveLruCache<u64> = NaiveLruCache::new(3);
    let expected = [1usize, 2, 3, 3, 3, 3];
    for (i, want) in expected.iter().enumerate() {
        assert_eq!(cache.put(i as u64 * 10), false);
        assert_eq!(cache.len(), *want);
        assert!(cache.len() <= cache.capacity());
    }
    assert_eq!(cache.keys(), vec![50, 40, 30]);
}

#[test]
fn order_is_reverse_of_last_put() {
    let mut cache: NaiveLruCache<i64> = NaiveLruCache::new(10);
    for k in [1i64, 2, 3, 1, 4, 2] {
        cache.put(k);
    }
    assert_eq!(cache.keys(), vec![2, 4, 1, 3]);
}

#[test]
fn full_cache_evicts_least_recently_put() {
    let mut cache: NaiveLruCache<i32> = NaiveLruCache::new(3);
    cache.put(1);
    cache.put(2);
    cache.put(3);
    cache.put(1);
    assert_eq!(cache.put(4), false);
    assert_eq!(cache.keys(), vec![4, 1, 3]);
    assert_eq!(cache.put(2), false);
    assert_eq!(cache.keys(), vec![2, 4, 1]);
}

#[test]
fn repeated_put_of_one_key() {
    let mut cache: NaiveLruCache<i32> = NaiveLruCache::new(4);
    cache.put(5);
    cache.put(6);
    for _ in 0..5 {
        assert_eq!(cache.put(5), true);
        assert_eq!(cache.len(), 2);
        assert_eq!(cache.keys(), vec![5, 6]);
    }
}

#[test]
fn zero_capacity_holds_nothing() {
    let mut cache: NaiveLruCache<i32> = NaiveLruCache::new(0);
    assert_eq!(cache.put(1), false);
    assert_eq!(cache.put(1), false);
    assert_eq!(cache.len(), 0);
    assert!(cache.keys().is_empty());
}

#[test]
fn capacity_one_keeps_last_key() {
    let mut cache: NaiveLruCache<i32> = NaiveLruCache::new(1);
    assert_eq!(cache.put(1), false);
    assert_eq!(cache.put(2), false);
    assert_eq!(cache.put(2), true);
    assert_eq!(cache.put(1), false);
    assert_eq!(cache.keys(), vec![1]);
}

#[test]
fn try_new_refuses_zero_capacity() {
    let r: Result<NaiveLruCache<i32>, ConstructionError> = NaiveLruCache::try_new(0);
    assert_eq!(r.err(), Some(ConstructionError::ZeroCapacity));
    let c: NaiveLruCache<i32> = NaiveLruCache::try_new(3).unwrap();
    assert_eq!(c.capacity(), 3);
    assert_eq!(c.len(), 0);
}
