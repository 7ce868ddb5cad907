//! A single-threaded LRU cache. Entries live in an arena (`Vec`) and are
//! linked into a recency chain by slot indices; two sentinel slots bound the
//! chain on the newest and on the oldest side.
use std::collections::HashMap;
use std::hash::Hash;
use vstd::prelude::*;
use vstd::std_specs::hash::obeys_key_model;
use crate::error::ConstructionError;

verus! {

/// Slot of the sentinel that precedes the most recently used entry.
const HEAD: usize = 0;

/// Slot of the sentinel that follows the least recently used entry.
const TAIL: usize = 1;

/// One slot of the arena: a cached key (none for a sentinel) and the slots of
/// its neighbours in the recency chain.
#[derive(Clone, Copy)]
struct Node<T> {
    key: Option<T>,
    prev: usize,
    next: usize,
}

/// The recency chain as a sequence of slots: the newest sentinel, the entries
/// from newest to oldest, then the oldest sentinel.
spec fn chain(order: Seq<usize>) -> Seq<usize> {
    seq![HEAD].add(order).push(TAIL)
}

/// The arena links the slots of `chain(order)` in both directions, each slot
/// once.
spec fn linked<T>(nodes: Seq<Node<T>>, order: Seq<usize>) -> bool {
    let c = chain(order);
    &&& c.no_duplicates()
    &&& forall|k: int| 0 <= k < c.len() ==> #[trigger] c[k] < nodes.len()
    &&& forall|k: int| 0 <= k < c.len() - 1 ==> #[trigger] nodes[c[k] as int].next == c[k + 1]
    &&& forall|k: int| 1 <= k < c.len() ==> #[trigger] nodes[c[k] as int].prev == c[k - 1]
}

proof fn lemma_chain_index(order: Seq<usize>, k: int)
    requires
        0 <= k < order.len() + 2,
    ensures
        chain(order).len() == order.len() + 2,
        chain(order)[k] == if k == 0 {
            HEAD
        } else if k == order.len() + 1 {
            TAIL
        } else {
            order[k - 1]
        },
{
}

pub(crate) proof fn lemma_index_of_unique<A>(s: Seq<A>, i: int)
    requires
        s.no_duplicates(),
        0 <= i < s.len(),
    ensures
        s.contains(s[i]),
        s.index_of(s[i]) == i,
{
    assert(s.contains(s[i]));
}

/// A slot that is not in `order` is not in the chain built from it, provided
/// that it is no sentinel.
proof fn lemma_not_in_chain(order: Seq<usize>, x: usize)
    requires
        x != HEAD,
        x != TAIL,
        !order.contains(x),
    ensures
        !chain(order).contains(x),
{
    let c = chain(order);
    assert forall|k: int| 0 <= k < c.len() implies c[k] != x by {
        lemma_chain_index(order, k);
        if 0 < k < c.len() - 1 {
            assert(order[k - 1] == c[k]);
        }
    }
}

/// Every slot of `order` lies inside the arena.
proof fn lemma_order_bounds<T>(nodes: Seq<Node<T>>, order: Seq<usize>)
    requires
        linked(nodes, order),
    ensures
        forall|i: int| 0 <= i < order.len() ==> #[trigger] order[i] < nodes.len(),
{
    assert forall|i: int| 0 <= i < order.len() implies #[trigger] order[i] < nodes.len() by {
        lemma_chain_index(order, i + 1);
    }
}

/// The slots of `order` are distinct and none is a sentinel.
proof fn lemma_order_slots(order: Seq<usize>)
    requires
        chain(order).no_duplicates(),
    ensures
        order.no_duplicates(),
        forall|i: int| 0 <= i < order.len() ==> #[trigger] order[i] != HEAD && order[i] != TAIL,
{
    let c = chain(order);
    assert forall|i: int| 0 <= i < order.len() implies #[trigger] order[i] != HEAD && order[i] != TAIL by {
        lemma_chain_index(order, i + 1);
        lemma_chain_index(order, 0);
        lemma_chain_index(order, order.len() + 1int);
    }
    assert forall|a: int, b: int| 0 <= a < b < order.len() implies order[a] != order[b] by {
        lemma_chain_index(order, a + 1);
        lemma_chain_index(order, b + 1);
    }
}

/// Unlinks the entry at slot `x` (position `i` of `order`): its former
/// neighbours now point at each other. No key changes.
fn detach<T: Copy>(nodes: &mut Vec<Node<T>>, x: usize, Ghost(order): Ghost<Seq<usize>>, Ghost(i): Ghost<int>)
    requires
        linked(old(nodes)@, order),
        0 <= i < order.len(),
        order[i] == x,
    ensures
        linked(final(nodes)@, order.remove(i)),
        final(nodes)@.len() == old(nodes)@.len(),
        forall|j: int| 0 <= j < old(nodes)@.len() ==> (#[trigger] final(nodes)@[j]).key == old(nodes)@[j].key,
{
    let ghost c = chain(order);
    proof {
        lemma_chain_index(order, i + 1);
        lemma_chain_index(order, i);
        lemma_chain_index(order, i + 2);
    }
    let p = nodes[x].prev;
    let n = nodes[x].next;
    assert(p == c[i] && n == c[i + 2]);
    let mut pn = nodes[p];
    pn.next = n;
    nodes.set(p, pn);
    let mut nn = nodes[n];
    nn.prev = p;
    nodes.set(n, nn);
    proof {
        let nc = chain(order.remove(i));
        assert(nc =~= c.remove(i + 1));
        assert forall|k: int| 0 <= k < nc.len() - 1 implies #[trigger] nodes@[nc[k] as int].next == nc[k + 1] by {
            if k < i {
                assert(nc[k] == c[k] && nc[k + 1] == c[k + 1]);
            } else if k == i {
                assert(nc[k] == c[i] && nc[k + 1] == c[i + 2]);
            } else {
                assert(nc[k] == c[k + 1] && nc[k + 1] == c[k + 2]);
            }
        }
        assert forall|k: int| 1 <= k < nc.len() implies #[trigger] nodes@[nc[k] as int].prev == nc[k - 1] by {
            if k <= i {
                assert(nc[k] == c[k] && nc[k - 1] == c[k - 1]);
            } else if k == i + 1 {
                assert(nc[k] == c[i + 2] && nc[k - 1] == c[i]);
            } else {
                assert(nc[k] == c[k + 1] && nc[k - 1] == c[k]);
            }
        }
        assert forall|k: int| 0 <= k < nc.len() implies #[trigger] nc[k] < nodes@.len() by {
            if k <= i {
                assert(nc[k] == c[k]);
            } else {
                assert(nc[k] == c[k + 1]);
            }
        }
    }
}

/// Links the unchained slot `x` right after slot `y`, which stands at
/// position `p` of the chain; `x` takes position `p` of `order`. No key
/// changes.
fn insert_x_after_y<T: Copy>(nodes: &mut Vec<Node<T>>, x: usize, y: usize, Ghost(order): Ghost<Seq<usize>>, Ghost(p): Ghost<int>)
    requires
        linked(old(nodes)@, order),
        0 <= p <= order.len(),
        chain(order)[p] == y,
        x < old(nodes)@.len(),
        !chain(order).contains(x),
    ensures
        linked(final(nodes)@, order.insert(p, x)),
        final(nodes)@.len() == old(nodes)@.len(),
        forall|j: int| 0 <= j < old(nodes)@.len() ==> (#[trigger] final(nodes)@[j]).key == old(nodes)@[j].key,
{
    let ghost c = chain(order);
    proof {
        lemma_chain_index(order, p);
        lemma_chain_index(order, p + 1);
    }
    let after_y = nodes[y].next;
    assert(after_y == c[p + 1]);
    let mut yn = nodes[y];
    yn.next = x;
    nodes.set(y, yn);
    let mut an = nodes[after_y];
    an.prev = x;
    nodes.set(after_y, an);
    let mut xn = nodes[x];
    xn.next = after_y;
    xn.prev = y;
    nodes.set(x, xn);
    proof {
        let nc = chain(order.insert(p, x));
        assert(nc =~= c.insert(p + 1, x));
        assert forall|k: int| 0 <= k < nc.len() - 1 implies #[trigger] nodes@[nc[k] as int].next == nc[k + 1] by {
            if k < p {
                assert(nc[k] == c[k] && nc[k + 1] == c[k + 1]);
            } else if k == p {
                assert(nc[k] == y && nc[k + 1] == x);
            } else if k == p + 1 {
                assert(nc[k] == x && nc[k + 1] == after_y);
            } else {
                assert(nc[k] == c[k - 1] && nc[k + 1] == c[k]);
            }
        }
        assert forall|k: int| 1 <= k < nc.len() implies #[trigger] nodes@[nc[k] as int].prev == nc[k - 1] by {
            if k <= p {
                assert(nc[k] == c[k] && nc[k - 1] == c[k - 1]);
            } else if k == p + 1 {
                assert(nc[k] == x && nc[k - 1] == y);
            } else if k == p + 2 {
                assert(nc[k] == after_y && nc[k - 1] == x);
            } else {
                assert(nc[k] == c[k - 1] && nc[k - 1] == c[k - 2]);
            }
        }
        assert forall|k: int| 0 <= k < nc.len() implies #[trigger] nc[k] < nodes@.len() by {
            if k <= p {
                assert(nc[k] == c[k]);
            } else if k > p + 1 {
                assert(nc[k] == c[k - 1]);
            }
        }
        assert(nc.no_duplicates()) by {
            assert forall|a: int, b: int| 0 <= a < b < nc.len() implies nc[a] != nc[b] by {
                if a == p + 1 {
                    assert(nc[b] == c[b - 1]);
                } else if b == p + 1 {
                    assert(nc[a] == c[a]);
                } else {
                    let a0 = if a < p + 1 { a } else { a - 1 };
                    let b0 = if b < p + 1 { b } else { b - 1 };
                    assert(nc[a] == c[a0] && nc[b] == c[b0]);
                }
            }
        }
    }
}

/// The keys of a cache, most recently used first, after `put(k)` on a cache
/// of capacity `cap` that held `s`: `k` moves to the front (or enters there),
/// and where that leaves more than `cap` keys the oldest one drops.
pub open spec fn after_put<T>(s: Seq<T>, k: T, cap: nat) -> Seq<T> {
    let moved = if s.contains(k) {
        seq![k] + s.remove(s.index_of(k))
    } else {
        seq![k] + s
    };
    if moved.len() > cap {
        moved.take(cap as int)
    } else {
        moved
    }
}

/// A bounded cache of keys that evicts the least recently used key.
pub struct NaiveLruCache<T> {
    capacity: usize,
    nodes: Vec<Node<T>>,
    item_map: HashMap<T, usize>,
    order: Ghost<Seq<usize>>,
}

/// The key held in an entry slot.
spec fn key_of<T>(nodes: Seq<Node<T>>, slot: usize) -> T {
    nodes[slot as int].key->Some_0
}

impl<T> View for NaiveLruCache<T> {
    type V = Seq<T>;

    /// The cached keys from the most to the least recently used.
    closed spec fn view(&self) -> Seq<T> {
        Seq::new(self.order@.len(), |i: int| key_of(self.nodes@, self.order@[i]))
    }
}

impl<T: Copy + Eq + Hash> NaiveLruCache<T> {
    /// The fixed number of keys the cache can hold.
    pub closed spec fn cap(&self) -> nat {
        self.capacity as nat
    }

    /// The arena, the chain and the key index agree: the chain holds every
    /// arena slot past the sentinels, each slot holds a key, and the index
    /// maps exactly those keys to their slots.
    pub closed spec fn wf(&self) -> bool {
        let order = self.order@;
        let nodes = self.nodes@;
        let index = self.item_map@;
        &&& obeys_key_model::<T>()
        &&& linked(nodes, order)
        &&& nodes.len() == order.len() + 2
        &&& order.len() <= self.capacity
        &&& forall|i: int| 0 <= i < order.len() ==> {
            &&& (#[trigger] nodes[order[i] as int]).key is Some
            &&& index.contains_key(key_of(nodes, order[i]))
            &&& index[key_of(nodes, order[i])] == order[i]
        }
        &&& forall|k: T| #[trigger] index.contains_key(k) ==> {
            &&& order.contains(index[k])
            &&& nodes[index[k] as int].key == Some(k)
        }
    }

    /// Creates an empty cache that holds at most `capacity` keys. A capacity
    /// of zero gives a cache that never keeps a key. Keys must hash and
    /// compare lawfully, as the primitive integer types do.
    pub fn new(capacity: usize) -> (r: Self)
        requires
            obeys_key_model::<T>(),
        ensures
            r.wf(),
            r@ == Seq::<T>::empty(),
            r.cap() == capacity,
    {
        let mut nodes: Vec<Node<T>> = Vec::new();
        nodes.push(Node { key: None, prev: HEAD, next: TAIL });
        nodes.push(Node { key: None, prev: HEAD, next: TAIL });
        let r = NaiveLruCache { capacity, nodes, item_map: HashMap::new(), order: Ghost(Seq::empty()) };
        proof {
            let c = chain(Seq::<usize>::empty());
            assert(c =~= seq![HEAD, TAIL]);
        }
        assert(r@ =~= Seq::<T>::empty());
        r
    }

    /// Like `new`, but refuses a capacity of zero.
    pub fn try_new(capacity: usize) -> (r: Result<Self, ConstructionError>)
        requires
            obeys_key_model::<T>(),
        ensures
            capacity == 0 <==> r is Err,
            r matches Err(e) ==> e == ConstructionError::ZeroCapacity,
            r matches Ok(c) ==> c.wf() && c@ == Seq::<T>::empty() && c.cap() == capacity,
    {
        if capacity == 0 {
            Err(ConstructionError::ZeroCapacity)
        } else {
            Ok(Self::new(capacity))
        }
    }

    /// The number of keys the cache can hold.
    pub fn capacity(&self) -> (r: usize)
        ensures
            r == self.cap(),
    {
        self.capacity
    }

    /// The number of cached keys.
    pub fn len(&self) -> (r: usize)
        requires
            self.wf(),
        ensures
            r == self@.len(),
    {
        self.nodes.len() - 2
    }

    /// The cached keys from the most to the least recently used, read by
    /// walking the recency chain from the newest sentinel to the oldest.
    pub fn keys(&self) -> (r: Vec<T>)
        requires
            self.wf(),
        ensures
            r@ == self@,
    {
        let ghost order = self.order@;
        let ghost c = chain(order);
        proof {
            lemma_chain_index(order, 0);
            lemma_chain_index(order, 1);
            lemma_order_slots(order);
        }
        let mut out: Vec<T> = Vec::new();
        let mut cur = self.nodes[HEAD].next;
        while cur != TAIL
            invariant
                self.wf(),
                order == self.order@,
                c == chain(order),
                out@.len() <= order.len(),
                cur == c[out@.len() + 1int],
                out@ == self@.take(out@.len() as int),
            decreases order.len() - out@.len(),
        {
            let ghost i = out@.len() as int;
            proof {
                lemma_chain_index(order, i + 1);
                lemma_chain_index(order, i + 2);
                if i == order.len() {
                    assert(cur == TAIL);
                }
            }
            let node = self.nodes[cur];
            assert(node.key is Some);
            if let Some(k) = node.key {
                out.push(k);
            }
            cur = node.next;
            assert(out@ =~= self@.take(i + 1));
        }
        proof {
            lemma_chain_index(order, out@.len() + 1int);
            if out@.len() < order.len() {
                assert(order[out@.len() as int] != TAIL);
            }
        }
        assert(out@ =~= self@);
        out
    }

    /// The cached keys are distinct, and they are exactly the keys of the
    /// index.
    proof fn lemma_view(&self)
        requires
            self.wf(),
        ensures
            self@.len() == self.order@.len(),
            self@.no_duplicates(),
            forall|k: T| self@.contains(k) <==> #[trigger] self.item_map@.contains_key(k),
            self.order@.no_duplicates(),
            forall|i: int| 0 <= i < self.order@.len() ==> #[trigger] self.order@[i] != HEAD && self.order@[i] != TAIL,
    {
        let order = self.order@;
        lemma_order_slots(order);
        assert forall|a: int, b: int| 0 <= a < b < self@.len() implies self@[a] != self@[b] by {
            assert(self.item_map@[self@[a]] == order[a]);
            assert(self.item_map@[self@[b]] == order[b]);
        }
        assert forall|k: T| self@.contains(k) <==> #[trigger] self.item_map@.contains_key(k) by {
            if self.item_map@.contains_key(k) {
                let i = choose|i: int| 0 <= i < order.len() && order[i] == self.item_map@[k];
                assert(self@[i] == k);
            }
            if self@.contains(k) {
                let i = choose|i: int| 0 <= i < self@.len() && self@[i] == k;
                assert(self.nodes@[order[i] as int].key is Some);
            }
        }
    }

    /// Inserts `item`, or marks it as the most recently used where it is
    /// cached already; returns whether it was cached. A new key in a full
    /// cache takes the slot of the least recently used key, which leaves.
    pub fn put(&mut self, item: T) -> (r: bool)
        requires
            old(self).wf(),
        ensures
            final(self).wf(),
            final(self).cap() == old(self).cap(),
            r == old(self)@.contains(item),
            final(self)@ == after_put(old(self)@, item, old(self).cap()),
            final(self)@.no_duplicates(),
            final(self)@.len() <= final(self).cap(),
    {
        let r = self.put_inner(item);
        proof {
            self.lemma_view();
        }
        r
    }

    /// The relinking work of `put`: moves a cached key to the front, or
    /// brings a new key in at the front, reusing the oldest slot when full.
    fn put_inner(&mut self, item: T) -> (r: bool)
        requires
            old(self).wf(),
        ensures
            final(self).wf(),
            final(self).cap() == old(self).cap(),
            r == old(self)@.contains(item),
            final(self)@ == after_put(old(self)@, item, old(self).cap()),
    {
        let ghost old_view = self@;
        let ghost order = self.order@;
        let ghost old_nodes = self.nodes@;
        proof {
            self.lemma_view();
        }
        match self.item_map.get(&item) {
            Some(slot_ref) => {
                let slot = *slot_ref;
                let ghost i = order.index_of(slot);
                proof {
                    assert(order.contains(slot));
                    lemma_index_of_unique(order, i);
                    lemma_index_of_unique(old_view, i);
                    lemma_chain_index(order, i + 1);
                    assert(chain(order)[i + 1] < self.nodes@.len());
                }
                detach(&mut self.nodes, slot, Ghost(order), Ghost(i));
                let ghost order1 = order.remove(i);
                proof {
                    lemma_chain_index(order1, 0);
                    lemma_not_in_chain(order1, slot);
                }
                insert_x_after_y(&mut self.nodes, slot, HEAD, Ghost(order1), Ghost(0));
                self.order = Ghost(order1.insert(0, slot));
                proof {
                    let new_order = order1.insert(0, slot);
                    assert(new_order =~= seq![slot] + order.remove(i));
                    let expect = seq![item] + old_view.remove(i);
                    lemma_order_bounds(old_nodes, order);
                    assert forall|j: int| 0 <= j < self@.len() implies self@[j] == expect[j] by {
                        if j > 0 {
                            assert(new_order[j] == order.remove(i)[j - 1]);
                            if j - 1 < i {
                                assert(new_order[j] == order[j - 1]);
                                assert(self.nodes@[order[j - 1] as int].key == old_nodes[order[j - 1] as int].key);
                            } else {
                                assert(new_order[j] == order[j]);
                                assert(self.nodes@[order[j] as int].key == old_nodes[order[j] as int].key);
                            }
                        } else {
                            assert(self.nodes@[slot as int].key == old_nodes[slot as int].key);
                        }
                    }
                    assert(self@ =~= expect);
                    lemma_order_slots(new_order);
                    assert forall|k: T| #[trigger] self.item_map@.contains_key(k) implies new_order.contains(self.item_map@[k]) by {
                        let j = choose|j: int| 0 <= j < order.len() && order[j] == self.item_map@[k];
                        if j == i {
                            assert(new_order[0] == order[j]);
                        } else if j < i {
                            assert(new_order[j + 1] == order[j]);
                        } else {
                            assert(new_order[j] == order[j]);
                        }
                    }
                }
                true
            },
            None => {
                if self.capacity == 0 {
                    assert(after_put(old_view, item, 0) =~= Seq::<T>::empty());
                    assert(self@ =~= Seq::<T>::empty());
                    return false;
                }
                if self.nodes.len() - 2 < self.capacity {
                    let slot = self.nodes.len();
                    self.nodes.push(Node { key: Some(item), prev: HEAD, next: HEAD });
                    proof {
                        let c = chain(order);
                        assert forall|k: int| 0 <= k < c.len() implies #[trigger] c[k] < slot by {}
                        assert forall|j: int| 0 <= j < order.len() implies order[j] != slot by {
                            lemma_chain_index(order, j + 1);
                            assert(c[j + 1] < slot);
                        }
                        assert(!order.contains(slot));
                        lemma_not_in_chain(order, slot);
                        lemma_chain_index(order, 0);
                        assert(linked(self.nodes@, order));
                    }
                    insert_x_after_y(&mut self.nodes, slot, HEAD, Ghost(order), Ghost(0));
                    self.item_map.insert(item, slot);
                    self.order = Ghost(order.insert(0, slot));
                    proof {
                        let new_order = order.insert(0, slot);
                        assert(new_order =~= seq![slot] + order);
                        let expect = seq![item] + old_view;
                        lemma_order_bounds(old_nodes, order);
                        assert forall|j: int| 0 <= j < self@.len() implies self@[j] == expect[j] by {
                            if j > 0 {
                                assert(new_order[j] == order[j - 1]);
                                assert(order[j - 1] < slot);
                                assert(self.nodes@[order[j - 1] as int].key == old_nodes[order[j - 1] as int].key);
                            }
                        }
                        assert(self@ =~= expect);
                        lemma_order_slots(new_order);
                        assert forall|k: T| #[trigger] self.item_map@.contains_key(k) implies new_order.contains(self.item_map@[k]) by {
                            if k != item {
                                let j = choose|j: int| 0 <= j < order.len() && order[j] == self.item_map@[k];
                                assert(new_order[j + 1] == order[j]);
                            } else {
                                assert(new_order[0] == slot);
                            }
                        }
                    }
                } else {
                    let last: usize = (self.nodes.len() - 2) as usize;
                    let ghost i = last - 1;
                    proof {
                        lemma_chain_index(order, order.len() + 1int);
                        lemma_chain_index(order, order.len() as int);
                    }
                    let oldest = self.nodes[TAIL].prev;
                    assert(oldest == order[i]);
                    let old_key = match self.nodes[oldest].key {
                        Some(k) => k,
                        None => item,
                    };
                    assert(old_key == old_view[i]);
                    detach(&mut self.nodes, oldest, Ghost(order), Ghost(i));
                    let ghost order1 = order.remove(i);
                    self.item_map.remove(&old_key);
                    let mut node = self.nodes[oldest];
                    node.key = Some(item);
                    self.nodes.set(oldest, node);
                    proof {
                        lemma_chain_index(order1, 0);
                        lemma_not_in_chain(order1, oldest);
                    }
                    insert_x_after_y(&mut self.nodes, oldest, HEAD, Ghost(order1), Ghost(0));
                    self.item_map.insert(item, oldest);
                    self.order = Ghost(order1.insert(0, oldest));
                    proof {
                        let new_order = order1.insert(0, oldest);
                        assert(new_order =~= seq![oldest] + order.drop_last());
                        lemma_order_bounds(old_nodes, order);
                        let expect = (seq![item] + old_view).take(self.capacity as int);
                        assert forall|j: int| 0 < j < new_order.len() implies self.nodes@[new_order[j] as int].key == old_nodes[new_order[j] as int].key by {
                            assert(new_order[j] == order[j - 1]);
                            assert(order[j - 1] != oldest);
                        }
                        assert forall|j: int| 0 <= j < self@.len() implies self@[j] == expect[j] by {
                            if j > 0 {
                                assert(new_order[j] == order[j - 1]);
                            }
                        }
                        assert(self@ =~= expect);
                        assert forall|j: int| 0 <= j < new_order.len() implies {
                            &&& (#[trigger] self.nodes@[new_order[j] as int]).key is Some
                            &&& self.item_map@.contains_key(key_of(self.nodes@, new_order[j]))
                            &&& self.item_map@[key_of(self.nodes@, new_order[j])] == new_order[j]
                        } by {
                            if j > 0 {
                                assert(self@[j] == old_view[j - 1]);
                                assert(old_view[j - 1] != old_view[i]);
                                assert(old_view.contains(old_view[j - 1]));
                            }
                        }
                        lemma_order_slots(new_order);
                        assert forall|k: T| #[trigger] self.item_map@.contains_key(k) implies new_order.contains(self.item_map@[k]) by {
                            if k != item {
                                let j = choose|j: int| 0 <= j < order.len() && order[j] == self.item_map@[k];
                                assert(j != i);
                                assert(new_order[j + 1] == order[j]);
                            } else {
                                assert(new_order[0] == oldest);
                            }
                        }
                    }
                }
                false
            },
        }
    }

}

} // verus!
