//! What holds of every sequence of puts on a `NaiveLruCache`, stated over
//! `after_put`, which states what one `put` does to the cached keys.
use crate::naive_cache::{after_put, lemma_index_of_unique};
use vstd::prelude::*;

verus! {

/// The keys, most recently used first, after putting the keys of `ks` in
/// turn into a cache of capacity `cap` that held `s`.
pub open spec fn after_puts<T>(s: Seq<T>, ks: Seq<T>, cap: nat) -> Seq<T>
    decreases ks.len(),
{
    if ks.len() == 0 {
        s
    } else {
        after_put(after_puts(s, ks.drop_last(), cap), ks.last(), cap)
    }
}

/// The position in `ks` of the last put of `k`, or -1 where there is none.
pub open spec fn last_put<T>(ks: Seq<T>, k: T) -> int
    decreases ks.len(),
{
    if ks.len() == 0 {
        -1
    } else if ks.last() == k {
        ks.len() - 1
    } else {
        last_put(ks.drop_last(), k)
    }
}

proof fn lemma_last_put_range<T>(ks: Seq<T>, k: T)
    ensures
        -1 <= last_put(ks, k) < ks.len(),
        ks.contains(k) ==> last_put(ks, k) >= 0,
    decreases ks.len(),
{
    if ks.len() > 0 && ks.last() != k {
        lemma_last_put_range(ks.drop_last(), k);
        if ks.contains(k) {
            let i = choose|i: int| 0 <= i < ks.len() && ks[i] == k;
            assert(ks.drop_last()[i] == k);
        }
    }
}

/// `x` stands before `y` in `s`.
spec fn precedes<T>(s: Seq<T>, x: T, y: T) -> bool {
    exists|a0: int, b0: int| #![trigger s[a0], s[b0]] 0 <= a0 < b0 < s.len() && s[a0] == x && s[b0] == y
}

/// One put: the keys stay distinct, only `k` can be new, `k` comes first,
/// and the other keys keep their relative order.
proof fn lemma_put_step<T>(s: Seq<T>, k: T, cap: nat)
    requires
        s.no_duplicates(),
        s.len() <= cap,
        cap > 0,
    ensures
        after_put(s, k, cap).no_duplicates(),
        after_put(s, k, cap).len() > 0,
        after_put(s, k, cap)[0] == k,
        after_put(s, k, cap).len() == if s.contains(k) {
            s.len() as int
        } else if s.len() + 1 > cap {
            cap as int
        } else {
            s.len() + 1int
        },
        forall|x: T| #[trigger] after_put(s, k, cap).contains(x) ==> x == k || s.contains(x),
        forall|a: int, b: int|
            #![trigger after_put(s, k, cap)[a], after_put(s, k, cap)[b]]
            1 <= a < b < after_put(s, k, cap).len() ==> precedes(s, after_put(s, k, cap)[a], after_put(s, k, cap)[b]),
{
    let r = after_put(s, k, cap);
    if s.contains(k) {
        let i = choose|i: int| 0 <= i < s.len() && s[i] == k;
        lemma_index_of_unique(s, i);
        let m = seq![k] + s.remove(i);
        assert(r == m);
        assert(r.len() == s.len());
        assert(r[0] == k);
        assert forall|a: int| 1 <= a < m.len() implies m[a] == s[if a - 1 < i { a - 1 } else { a }] by {}
        assert forall|a: int, b: int| #![trigger r[a], r[b]] 1 <= a < b < r.len() implies precedes(s, r[a], r[b]) by {
            let a0 = if a - 1 < i { a - 1 } else { a };
            let b0 = if b - 1 < i { b - 1 } else { b };
            assert(s[a0] == r[a] && s[b0] == r[b]);
        }
        assert forall|x: T| r.contains(x) implies x == k || s.contains(x) by {
            let j = choose|j: int| 0 <= j < r.len() && r[j] == x;
            if j > 0 {
                assert(s[if j - 1 < i { j - 1 } else { j }] == x);
            }
        }
        assert(r.no_duplicates()) by {
            assert forall|a: int, b: int| 0 <= a < b < r.len() implies r[a] != r[b] by {
                let b0 = if b - 1 < i { b - 1 } else { b };
                if a > 0 {
                    let a0 = if a - 1 < i { a - 1 } else { a };
                    assert(s[a0] == r[a] && s[b0] == r[b]);
                } else {
                    assert(s[b0] == r[b] && b0 != i);
                }
            }
        }
    } else {
        let m = seq![k] + s;
        assert(r == if m.len() > cap { m.take(cap as int) } else { m });
        assert(r[0] == k);
        assert(r.len() == if s.len() + 1 > cap { cap as int } else { s.len() + 1int });
        assert forall|a: int, b: int| #![trigger r[a], r[b]] 1 <= a < b < r.len() implies precedes(s, r[a], r[b]) by {
            assert(s[a - 1] == r[a] && s[b - 1] == r[b]);
        }
        assert forall|x: T| r.contains(x) implies x == k || s.contains(x) by {
            let j = choose|j: int| 0 <= j < r.len() && r[j] == x;
            if j > 0 {
                assert(s[j - 1] == x);
            }
        }
        assert(r.no_duplicates()) by {
            assert forall|a: int, b: int| 0 <= a < b < r.len() implies r[a] != r[b] by {
                if a == 0 {
                    assert(s[b - 1] == r[b]);
                } else {
                    assert(s[a - 1] == r[a] && s[b - 1] == r[b]);
                }
            }
        }
    }
}

/// Every key cached after the puts of `ks` into an empty cache was put, and
/// the cached keys are distinct.
proof fn lemma_puts_from_empty<T>(ks: Seq<T>, cap: nat)
    requires
        cap > 0,
    ensures
        after_puts(Seq::empty(), ks, cap).no_duplicates(),
        after_puts(Seq::empty(), ks, cap).len() <= cap,
        forall|x: T| after_puts(Seq::empty(), ks, cap).contains(x) ==> ks.contains(x),
    decreases ks.len(),
{
    if ks.len() > 0 {
        let prev = ks.drop_last();
        lemma_puts_from_empty(prev, cap);
        let s = after_puts(Seq::empty(), prev, cap);
        lemma_put_step(s, ks.last(), cap);
        assert(after_puts(Seq::empty(), ks, cap) == after_put(s, ks.last(), cap));
        assert forall|x: T| after_puts(Seq::empty(), ks, cap).contains(x) implies ks.contains(x) by {
            if x != ks.last() {
                assert(after_put(s, ks.last(), cap).contains(x));
                assert(s.contains(x));
                assert(prev.contains(x));
                let j = choose|j: int| 0 <= j < prev.len() && prev[j] == x;
                assert(ks[j] == x);
            }
        }
    }
}

/// A put never leaves more keys than the capacity in a cache that held no
/// more than that.
pub proof fn lemma_put_within_capacity<T>(s: Seq<T>, k: T, cap: nat)
    requires
        s.no_duplicates(),
        s.len() <= cap,
    ensures
        after_put(s, k, cap).len() <= cap,
{
    if cap > 0 {
        lemma_put_step(s, k, cap);
    }
}

/// Putting distinct keys into an empty cache leaves as many keys as were
/// put, up to the capacity.
pub proof fn lemma_capacity_bound<T>(ks: Seq<T>, cap: nat)
    requires
        ks.no_duplicates(),
    ensures
        after_puts(Seq::empty(), ks, cap).len() == if ks.len() < cap {
            ks.len()
        } else {
            cap
        },
    decreases ks.len(),
{
    if ks.len() > 0 {
        let prev = ks.drop_last();
        assert(prev.no_duplicates());
        lemma_capacity_bound(prev, cap);
        if cap == 0 {
            assert(after_puts(Seq::empty(), ks, cap) =~= Seq::<T>::empty());
        } else {
            lemma_puts_from_empty(prev, cap);
            let s = after_puts(Seq::empty(), prev, cap);
            assert(after_puts(Seq::empty(), ks, cap) == after_put(s, ks.last(), cap));
            if s.contains(ks.last()) {
                assert(prev.contains(ks.last()));
                let j = choose|j: int| 0 <= j < prev.len() && prev[j] == ks.last();
                assert(ks[j] == ks[ks.len() - 1]);
            }
            lemma_put_step(s, ks.last(), cap);
        }
    }
}

/// After any puts into an empty cache, the keys run from the most recently
/// put to the least recently put: a key before another was last put later.
pub proof fn lemma_recency_order<T>(ks: Seq<T>, cap: nat)
    ensures
        ({
            let r = after_puts(Seq::empty(), ks, cap);
            forall|a: int, b: int| 0 <= a < b < r.len() ==> last_put(ks, r[a]) > last_put(ks, r[b])
        }),
    decreases ks.len(),
{
    if ks.len() > 0 && cap > 0 {
        let prev = ks.drop_last();
        let k = ks.last();
        lemma_recency_order(prev, cap);
        lemma_puts_from_empty(prev, cap);
        let s = after_puts(Seq::empty(), prev, cap);
        lemma_put_step(s, k, cap);
        let r = after_puts(Seq::empty(), ks, cap);
        assert forall|a: int, b: int| 0 <= a < b < r.len() implies last_put(ks, r[a]) > last_put(ks, r[b]) by {
            assert(r.contains(r[b]));
            if a == 0 {
                assert(r[b] != k);
                assert(s.contains(r[b]));
                lemma_last_put_range(prev, r[b]);
            } else {
                assert(precedes(s, r[a], r[b]));
                let (a0, b0) = choose|a0: int, b0: int| 0 <= a0 < b0 < s.len() && s[a0] == r[a] && s[b0] == r[b];
                assert(r[a] != k && r[b] != k);
            }
        }
    } else if ks.len() > 0 {
        assert(after_puts(Seq::empty(), ks, cap) =~= Seq::<T>::empty());
    }
}

/// A new key put into a full cache evicts exactly the last key of the chain,
/// and that key is the one least recently put among those cached.
pub proof fn lemma_eviction<T>(ks: Seq<T>, k: T, cap: nat)
    requires
        cap > 0,
        after_puts(Seq::empty(), ks, cap).len() == cap,
        !after_puts(Seq::empty(), ks, cap).contains(k),
    ensures
        ({
            let s = after_puts(Seq::empty(), ks, cap);
            let victim = s.last();
            &&& after_put(s, k, cap) == seq![k] + s.drop_last()
            &&& !after_put(s, k, cap).contains(victim)
            &&& forall|x: T| s.contains(x) && x != victim ==> last_put(ks, x) > last_put(ks, victim)
        }),
{
    let s = after_puts(Seq::empty(), ks, cap);
    let victim = s.last();
    lemma_puts_from_empty(ks, cap);
    lemma_recency_order(ks, cap);
    assert(after_put(s, k, cap) =~= seq![k] + s.drop_last());
    assert forall|x: T| s.contains(x) && x != victim implies last_put(ks, x) > last_put(ks, victim) by {
        let j = choose|j: int| 0 <= j < s.len() && s[j] == x;
        assert(j < s.len() - 1);
    }
    if after_put(s, k, cap).contains(victim) {
        let j = choose|j: int| 0 <= j < cap && after_put(s, k, cap)[j] == victim;
        if j == 0 {
            assert(s.contains(k));
        } else {
            assert(s[j - 1] == s[s.len() - 1]);
        }
    }
}

/// Putting a cached key keeps the number of keys, leaves the key cached (so
/// the next put of it reports it as present), and a second put of it changes
/// nothing more.
pub proof fn lemma_touch_idempotent<T>(s: Seq<T>, k: T, cap: nat)
    requires
        s.no_duplicates(),
        s.len() <= cap,
        s.contains(k),
    ensures
        after_put(s, k, cap).len() == s.len(),
        after_put(s, k, cap).contains(k),
        after_put(after_put(s, k, cap), k, cap) == after_put(s, k, cap),
{
    lemma_put_step(s, k, cap);
    let r = after_put(s, k, cap);
    assert(r.contains(k)) by {
        assert(r[0] == k);
    }
    lemma_index_of_unique(r, 0);
    assert(r.remove(0) =~= r.drop_first());
    assert(after_put(r, k, cap) =~= r);
}

} // verus!
