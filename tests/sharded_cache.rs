use sharded_lru::sharded_cache::shard_index;
use sharded_lru::{ConstructionError, ShardedLruCache};
use std::hash::{Hash, Hasher};

fn std_hash(key: i64) -> u64 {
    let mut h = std::collections::hash_map::DefaultHasher::new();
    key.hash(&mut h);
    h.finish()
}

#[test]
fn mine2_basics() {
    let cache: ShardedLruCache<i64, i64> = ShardedLruCache::new(2, 2);
    cache.push(999, 999);
    cache.push(888, 888);
    cache.push(777, 777);
    cache.push(666, 666);
}

#[test]
fn scenario_shards_hold_at_most_their_capacity() {
    let cache: ShardedLruCache<i64, i64> = ShardedLruCache::new(2, 2);
    let mut per_shard = [0usize; 2];
    let mut evicted = 0usize;
    for k in [999i64, 888, 777, 666] {
        let shard = cache.get_shard_id(&k);
        per_shard[shard] += 1;
        if let Some((old, _)) = cache.push(k, k) {
            assert_ne!(old, k);
            assert_eq!(cache.get_shard_id(&old), shard);
            evicted += 1;
        }
    }
    let expected_evictions: usize = per_shard.iter().map(|n| n.saturating_sub(2)).sum();
    assert_eq!(evicted, expected_evictions);
    for shard in 0..2 {
        assert_eq!(cache.shard_len(shard), per_shard[shard].min(2));
        assert!(cache.shard_len(shard) <= 2);
    }
    assert_eq!(cache.len(), 4 - evicted);
    assert!(cache.len() <= 4);
}

#[test]
fn push_reports_former_entry_and_eviction() {
    let cache: ShardedLruCache<i64, i64> = ShardedLruCache::new(1, 2);
    assert_eq!(cache.push(1, 10), None);
    assert_eq!(cache.push(2, 20), None);
    assert_eq!(cache.push(1, 11), Some((1, 10)));
    assert_eq!(cache.push(3, 30), Some((2, 20)));
    assert_eq!(cache.push(1, 12), Some((1, 11)));
}

#[test]
fn shard_routing_is_deterministic() {
    let cache: ShardedLruCache<i64, i64> = ShardedLruCache::new(7, 4);
    for k in [-5i64, 0, 1, 42, 999, i64::MAX, i64::MIN] {
        let first = cache.get_shard_id(&k);
        assert!(first < 7);
        for _ in 0..3 {
            assert_eq!(cache.get_shard_id(&k), first);
        }
        cache.push(k, k);
        assert_eq!(cache.get_shard_id(&k), first);
    }
}

#[test]
fn shard_id_is_std_hash_modulo_count() {
    let cache: ShardedLruCache<i64, i64> = ShardedLruCache::new(5, 1);
    for k in [3i64, 17, 123456789, -1] {
        assert_eq!(cache.get_shard_id(&k) as u64, std_hash(k) % 5);
    }
}

#[test]
fn shard_index_reduces_modulo() {
    assert_eq!(shard_index(17, 5), 2);
    assert_eq!(shard_index(0, 3), 0);
    assert_eq!(shard_index(u64::MAX, 10), 5);
    assert_eq!(shard_index(12, 1), 0);
}

#[test]
fn sharded_try_new_errors() {
    assert_eq!(
        ShardedLruCache::try_new(0, 2).err(),
        Some(ConstructionError::ZeroShards)
    );
    assert_eq!(
        ShardedLruCache::try_new(3, 0).err(),
        Some(ConstructionError::ZeroCapacity)
    );
    let c = ShardedLruCache::try_new(3, 4).unwrap();
    assert_eq!(c.shard_count(), 3);
    assert_eq!(c.capacity_per_shard(), 4);
}

#[test]
fn zero_capacity_shards_hold_nothing() {
    let cache: ShardedLruCache<i64, i64> = ShardedLruCache::new(3, 0);
    assert_eq!(cache.push(1, 1), None);
    assert_eq!(cache.push(1, 2), None);
    assert_eq!(cache.len(), 0);
}

#[test]
fn many_keys_stay_within_total_capacity() {
    let cache: ShardedLruCache<i64, i64> = ShardedLruCache::new(4, 3);
    for k in 0..100i64 {
        let got = cache.push(k, k * 2);
        if let Some((old, v)) = got {
            assert_eq!(v, old * 2);
            assert_eq!(cache.get_shard_id(&old), cache.get_shard_id(&k));
        }
        assert!(cache.len() <= 12);
    }
    for shard in 0..4 {
        assert_eq!(cache.shard_len(shard), 3);
    }
}
