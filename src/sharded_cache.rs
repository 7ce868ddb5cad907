//! A cache that spreads its keys over independently locked LRU shards, so
//! that puts to different shards never wait for each other.
use crate::error::ConstructionError;
use lru::LruCache;
use vstd::prelude::*;
use vstd::rwlock::RwLock;

verus! {

/// `lru::LruCache`, the cache of one shard; opaque here, seen through
/// `lru_entries` and `lru_cap`.
#[verifier::external_type_specification]
#[verifier::external_body]
#[verifier::reject_recursive_types(K)]
#[verifier::reject_recursive_types(V)]
#[verifier::reject_recursive_types(S)]
pub struct ExLruCache<K, V, S>(LruCache<K, V, S>);

/// `lru::DefaultHasher`, the hash builder that `LruCache::new` picks; only
/// carried inside the cache type.
#[verifier::external_type_specification]
#[verifier::external_body]
pub struct ExLruHasher(lru::DefaultHasher);

/// The hash of a key, as std's unkeyed `DefaultHasher` computes it.
pub uninterp spec fn key_hash(key: i64) -> u64;

/// The entries of an `lru` cache, most recently used first.
pub uninterp spec fn lru_entries(c: LruCache<i64, i64>) -> Seq<(i64, i64)>;

/// The capacity an `lru` cache was made with.
pub uninterp spec fn lru_cap(c: LruCache<i64, i64>) -> nat;

/// The keys of `e` are distinct.
pub open spec fn distinct_keys(e: Seq<(i64, i64)>) -> bool {
    forall|a: int, b: int| 0 <= a < b < e.len() ==> #[trigger] e[a].0 != #[trigger] e[b].0
}

/// `e` holds an entry of key `k`.
pub open spec fn has_key(e: Seq<(i64, i64)>, k: i64) -> bool {
    exists|i: int| 0 <= i < e.len() && #[trigger] e[i].0 == k
}

/// The entries after `push(k, v)` on a cache of capacity `cap` holding `e`,
/// and what the push returns: an entry of `k` moves to the front with the new
/// value and its old entry is returned; otherwise, unless the capacity is
/// zero, the new entry goes in front, in place of the oldest entry (which is
/// returned) where the cache is full.
pub open spec fn lru_push_result(e: Seq<(i64, i64)>, cap: nat, k: i64, v: i64) -> (Seq<(i64, i64)>, Option<(i64, i64)>) {
    if has_key(e, k) {
        let i = choose|i: int| 0 <= i < e.len() && #[trigger] e[i].0 == k;
        (seq![(k, v)] + e.remove(i), Some(e[i]))
    } else if cap == 0 {
        (e, None)
    } else if e.len() == cap {
        (seq![(k, v)] + e.drop_last(), Some(e.last()))
    } else {
        (seq![(k, v)] + e, None)
    }
}

/// Relies on `BuildHasher::hash_one` over `BuildHasherDefault<DefaultHasher>`:
/// a fresh, unkeyed `DefaultHasher` fed the key and finished, so the result
/// depends on the key alone.
#[verifier::external_body]
fn hash_key(key: &i64) -> (r: u64)
    ensures
        r == key_hash(*key),
{
    std::hash::BuildHasher::hash_one(
        &std::hash::BuildHasherDefault::<std::collections::hash_map::DefaultHasher>::default(),
        key,
    )
}

/// Relies on `lru::LruCache::new`: an empty cache that holds at most `cap`
/// entries.
#[verifier::external_body]
fn new_lru(cap: usize) -> (r: LruCache<i64, i64>)
    ensures
        lru_entries(r) == Seq::<(i64, i64)>::empty(),
        lru_cap(r) == cap,
{
    LruCache::new(cap)
}

/// Relies on `lru::LruCache::push` (through `capturing_put`): see
/// `lru_push_result`. The capacity does not change.
#[verifier::external_body]
fn lru_push(c: &mut LruCache<i64, i64>, k: i64, v: i64) -> (r: Option<(i64, i64)>)
    requires
        distinct_keys(lru_entries(*old(c))),
    ensures
        lru_entries(*final(c)) == lru_push_result(lru_entries(*old(c)), lru_cap(*old(c)), k, v).0,
        r == lru_push_result(lru_entries(*old(c)), lru_cap(*old(c)), k, v).1,
        lru_cap(*final(c)) == lru_cap(*old(c)),
{
    c.push(k, v)
}

/// Relies on `lru::LruCache::len`: the number of entries.
#[verifier::external_body]
fn lru_len(c: &LruCache<i64, i64>) -> (r: usize)
    ensures
        r == lru_entries(*c).len(),
{
    c.len()
}

/// The shard that holds `key` among `shard_count` shards.
pub open spec fn shard_of(key: i64, shard_count: nat) -> nat {
    (key_hash(key) as nat) % shard_count
}

/// Reduces a key's hash to a shard index.
pub fn shard_index(hash: u64, shard_count: usize) -> (r: usize)
    requires
        shard_count > 0,
    ensures
        r == (hash as nat) % (shard_count as nat),
        r < shard_count,
{
    (hash % (shard_count as u64)) as usize
}

/// What the lock of shard `shard` (of `shards`) keeps true of its cache: it
/// was made with capacity `cap`, holds no more, holds each key once, and
/// holds only keys routed to that shard.
pub open spec fn shard_holds(c: LruCache<i64, i64>, shard: nat, shards: nat, cap: nat) -> bool {
    let e = lru_entries(c);
    &&& lru_cap(c) == cap
    &&& e.len() <= cap
    &&& distinct_keys(e)
    &&& forall|i: int| 0 <= i < e.len() ==> shard_of(#[trigger] e[i].0, shards) == shard
}

/// The lock predicate of shard `shard`.
pub open spec fn shard_pred(shard: nat, shards: nat, cap: nat) -> spec_fn(LruCache<i64, i64>) -> bool {
    |c: LruCache<i64, i64>| shard_holds(c, shard, shards, cap)
}

/// A push keeps a shard's invariant when the key is routed to that shard.
proof fn lemma_push_keeps_shard(e: Seq<(i64, i64)>, cap: nat, k: i64, v: i64, shard: nat, shards: nat)
    requires
        e.len() <= cap,
        distinct_keys(e),
        forall|i: int| 0 <= i < e.len() ==> shard_of(#[trigger] e[i].0, shards) == shard,
        shard_of(k, shards) == shard,
    ensures
        ({
            let (e2, r) = lru_push_result(e, cap, k, v);
            &&& e2.len() <= cap
            &&& distinct_keys(e2)
            &&& forall|i: int| 0 <= i < e2.len() ==> shard_of(#[trigger] e2[i].0, shards) == shard
            &&& (r matches Some(p) ==> shard_of(p.0, shards) == shard)
        }),
{
    let (e2, r) = lru_push_result(e, cap, k, v);
    if has_key(e, k) {
        let j = choose|i: int| 0 <= i < e.len() && #[trigger] e[i].0 == k;
        assert(e2 == seq![(k, v)] + e.remove(j));
        assert forall|a: int| 1 <= a < e2.len() implies e2[a] == e[if a - 1 < j { a - 1 } else { a }] by {}
        assert forall|a: int, b: int| 0 <= a < b < e2.len() implies #[trigger] e2[a].0 != #[trigger] e2[b].0 by {
            let b0 = if b - 1 < j { b - 1 } else { b };
            assert(e2[b] == e[b0]);
            if a > 0 {
                let a0 = if a - 1 < j { a - 1 } else { a };
                assert(e2[a] == e[a0]);
            }
        }
        assert forall|i: int| 0 <= i < e2.len() implies shard_of(#[trigger] e2[i].0, shards) == shard by {
            if i > 0 {
                assert(e2[i] == e[if i - 1 < j { i - 1 } else { i }]);
            }
        }
    } else if cap == 0 {
    } else if e.len() == cap {
        assert(e2 == seq![(k, v)] + e.drop_last());
        assert forall|a: int, b: int| 0 <= a < b < e2.len() implies #[trigger] e2[a].0 != #[trigger] e2[b].0 by {
            assert(e2[b] == e[b - 1]);
            if a > 0 {
                assert(e2[a] == e[a - 1]);
            }
        }
        assert forall|i: int| 0 <= i < e2.len() implies shard_of(#[trigger] e2[i].0, shards) == shard by {
            if i > 0 {
                assert(e2[i] == e[i - 1]);
            }
        }
        assert(shard_of(e[e.len() - 1].0, shards) == shard);
    } else {
        assert(e2 == seq![(k, v)] + e);
        assert forall|a: int, b: int| 0 <= a < b < e2.len() implies #[trigger] e2[a].0 != #[trigger] e2[b].0 by {
            assert(e2[b] == e[b - 1]);
            if a > 0 {
                assert(e2[a] == e[a - 1]);
            }
        }
        assert forall|i: int| 0 <= i < e2.len() implies shard_of(#[trigger] e2[i].0, shards) == shard by {
            if i > 0 {
                assert(e2[i] == e[i - 1]);
            }
        }
    }
}

/// LRU caches of `i64` keys and values, one per shard, each behind its own
/// lock.
#[verifier::reject_recursive_types(K)]
#[verifier::reject_recursive_types(V)]
pub struct ShardedLruCache<K, V> {
    inner: Vec<RwLock<LruCache<K, V>, spec_fn(LruCache<K, V>) -> bool>>,
    capacity_per_shard: usize,
}

impl ShardedLruCache<i64, i64> {
    /// There is at least one shard, and the lock of each shard keeps that
    /// shard's invariant.
    pub closed spec fn wf(&self) -> bool {
        &&& self.inner@.len() > 0
        &&& forall|i: int| 0 <= i < self.inner@.len() ==> (#[trigger] self.inner@[i]).pred()
            == shard_pred(i as nat, self.inner@.len(), self.capacity_per_shard as nat)
    }

    /// The number of shards.
    pub closed spec fn shards(&self) -> nat {
        self.inner@.len()
    }

    /// The capacity of each shard.
    pub closed spec fn shard_cap(&self) -> nat {
        self.capacity_per_shard as nat
    }

    /// Builds `shard_count` empty shards of `capacity_per_shard` entries each.
    pub fn new(shard_count: usize, capacity_per_shard: usize) -> (r: Self)
        requires
            shard_count > 0,
        ensures
            r.wf(),
            r.shards() == shard_count,
            r.shard_cap() == capacity_per_shard,
    {
        let mut inner: Vec<RwLock<LruCache<i64, i64>, spec_fn(LruCache<i64, i64>) -> bool>> = Vec::new();
        let mut i: usize = 0;
        while i < shard_count
            invariant
                i <= shard_count,
                inner@.len() == i,
                forall|j: int| 0 <= j < i ==> (#[trigger] inner@[j]).pred()
                    == shard_pred(j as nat, shard_count as nat, capacity_per_shard as nat),
            decreases shard_count - i,
        {
            let shard = new_lru(capacity_per_shard);
            let ghost pred = shard_pred(i as nat, shard_count as nat, capacity_per_shard as nat);
            assert(pred(shard));
            inner.push(RwLock::new(shard, Ghost(pred)));
            i = i + 1;
        }
        ShardedLruCache { inner, capacity_per_shard }
    }

    /// Like `new`, but refuses zero shards or a zero capacity.
    pub fn try_new(shard_count: usize, capacity_per_shard: usize) -> (r: Result<Self, ConstructionError>)
        ensures
            r is Ok <==> shard_count > 0 && capacity_per_shard > 0,
            r matches Err(e) ==> e == (if shard_count == 0 {
                ConstructionError::ZeroShards
            } else {
                ConstructionError::ZeroCapacity
            }),
            r matches Ok(c) ==> c.wf() && c.shards() == shard_count && c.shard_cap() == capacity_per_shard,
    {
        if shard_count == 0 {
            Err(ConstructionError::ZeroShards)
        } else if capacity_per_shard == 0 {
            Err(ConstructionError::ZeroCapacity)
        } else {
            Ok(Self::new(shard_count, capacity_per_shard))
        }
    }

    /// The number of shards.
    pub fn shard_count(&self) -> (r: usize)
        ensures
            r == self.shards(),
    {
        self.inner.len()
    }

    /// The capacity of each shard.
    pub fn capacity_per_shard(&self) -> (r: usize)
        ensures
            r == self.shard_cap(),
    {
        self.capacity_per_shard
    }

    /// The shard that `key` is routed to: its hash modulo the shard count.
    pub fn get_shard_id(&self, key: &i64) -> (r: usize)
        requires
            self.wf(),
        ensures
            r == shard_of(*key, self.shards()),
            r < self.shards(),
    {
        shard_index(hash_key(key), self.inner.len())
    }

    /// Pushes `key` and `value` into the key's shard while holding that
    /// shard's lock alone. Returns what the shard handed back: the former
    /// entry of `key`, or the entry evicted to make room, or nothing; an entry
    /// handed back always comes from the key's own shard.
    pub fn push(&self, key: i64, value: i64) -> (r: Option<(i64, i64)>)
        requires
            self.wf(),
        ensures
            r matches Some(p) ==> shard_of(p.0, self.shards()) == shard_of(key, self.shards()),
    {
        let id = self.get_shard_id(&key);
        let (mut cache, handle) = self.inner[id].acquire_write();
        let ghost n = self.inner@.len();
        let ghost cap = self.capacity_per_shard as nat;
        proof {
            lemma_push_keeps_shard(lru_entries(cache), cap, key, value, id as nat, n);
        }
        let r = lru_push(&mut cache, key, value);
        handle.release_write(cache);
        r
    }

    /// The number of entries in shard `shard`; never more than the capacity
    /// per shard.
    pub fn shard_len(&self, shard: usize) -> (r: usize)
        requires
            self.wf(),
            shard < self.shards(),
        ensures
            r <= self.shard_cap(),
    {
        let handle = self.inner[shard].acquire_read();
        let r = lru_len(handle.borrow());
        handle.release_read();
        r
    }

    /// The number of entries over all shards, each shard read under its own
    /// lock in turn; never more than the shard count times the capacity per
    /// shard.
    pub fn len(&self) -> (r: usize)
        requires
            self.wf(),
        ensures
            r <= self.shards() * self.shard_cap(),
    {
        let mut total: usize = 0;
        let mut i: usize = 0;
        while i < self.inner.len()
            invariant
                self.wf(),
                i <= self.inner@.len(),
                total <= i * self.capacity_per_shard,
            decreases self.inner@.len() - i,
        {
            let n = self.shard_len(i);
            proof {
                assert((i + 1) * self.capacity_per_shard == i * self.capacity_per_shard + self.capacity_per_shard) by (nonlinear_arith);
                assert(i * self.capacity_per_shard <= self.inner@.len() * self.capacity_per_shard) by (nonlinear_arith)
                    requires i <= self.inner@.len();
            }
            total = total.saturating_add(n);
            i = i + 1;
        }
        total
    }
}

/// Routing depends on the key and the shard count alone: two calls of
/// `get_shard_id` with one key on one cache name the same shard, and it is a
/// shard of the cache.
pub proof fn lemma_shard_deterministic(cache: &ShardedLruCache<i64, i64>, key: i64, r1: usize, r2: usize)
    requires
        cache.wf(),
        r1 == shard_of(key, cache.shards()),
        r2 == shard_of(key, cache.shards()),
    ensures
        r1 == r2,
        r1 < cache.shards(),
{
}

} // verus!
