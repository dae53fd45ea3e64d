use vstd::prelude::*;

use crate::lru::{NodeId, Removed};

verus! {

/// The number of distinct values a `usize` can hold: the modulus of the
/// wrapping modification counter.
pub open spec fn counter_modulus() -> nat {
    usize::MAX as nat + 1
}

/// The value a wrapping `usize` counter shows after `n` increments from zero.
pub open spec fn wrapped(n: nat) -> nat {
    n % counter_modulus()
}

/// `s` with `id` taken out of its position and put first.
pub open spec fn moved_to_front(s: Seq<NodeId>, id: NodeId) -> Seq<NodeId> {
    seq![id] + s.remove(s.index_of(id))
}

/// Moving an element to the front keeps the length and the elements.
pub proof fn lemma_moved_to_front(s: Seq<NodeId>, id: NodeId)
    requires
        s.contains(id),
    ensures
        moved_to_front(s, id).len() == s.len(),
        moved_to_front(s, id)[0] == id,
        forall|x: NodeId| moved_to_front(s, id).contains(x) <==> s.contains(x),
{
    let p = s.index_of(id);
    let m = moved_to_front(s, id);
    assert(s[p] == id);
    assert(s.remove(p).len() == s.len() - 1);
    assert forall|x: NodeId| m.contains(x) implies s.contains(x) by {
        let k = choose|k: int| 0 <= k < m.len() && m[k] == x;
        if k > 0 {
            assert(m[k] == s.remove(p)[k - 1]);
            if k - 1 < p {
                assert(s[k - 1] == x);
            } else {
                assert(s[k] == x);
            }
        }
    }
    assert forall|x: NodeId| s.contains(x) implies m.contains(x) by {
        let k = choose|k: int| 0 <= k < s.len() && s[k] == x;
        if k < p {
            assert(m[k + 1] == x);
        } else if k > p {
            assert(m[k] == x);
        } else {
            assert(m[0] == x);
        }
    }
}

/// The neighbours of a removed entry stay in the list.
pub proof fn lemma_without_neighbours<Key, Value>(v: CacheView<Key, Value>, id: NodeId)
    requires
        v.order.contains(id),
        v.order.no_duplicates(),
    ensures
        v.next_of(id) is Some ==> v.without(id).order.contains(v.next_of(id)->Some_0),
        v.previous_of(id) is Some ==> v.without(id).order.contains(v.previous_of(id)->Some_0),
{
    let p = v.order.index_of(id);
    let w = v.order.remove(p);
    assert(v.order[p] == id);
    if p + 1 < v.order.len() {
        assert(w[p] == v.order[p + 1]);
    }
    if p > 0 {
        assert(w[p - 1] == v.order[p - 1]);
    }
}

/// One increment of a wrapping counter, in terms of the unwrapped count.
pub(crate) proof fn lemma_wrapped_succ(c: nat)
    ensures
        wrapped(c + 1) == if wrapped(c) + 1 == counter_modulus() { 0 } else { wrapped(c) + 1 },
{
    vstd::arithmetic::div_mod::lemma_mod_adds(c as int, 1, counter_modulus() as int);
    vstd::arithmetic::div_mod::lemma_small_mod(1, counter_modulus());
    vstd::arithmetic::div_mod::lemma_mod_self_0(counter_modulus() as int);
}

/// The abstract state of a cache.
pub struct CacheView<Key, Value> {
    /// The occupied slots, from the most to the least recently used.
    pub order: Seq<NodeId>,
    /// The key and value held by each occupied slot.
    pub slots: Map<NodeId, (Key, Value)>,
    /// For each occupied slot, the count of modifications at its last touch.
    pub stamps: Map<NodeId, nat>,
    /// The count of recency-affecting modifications so far, never wrapped.
    pub clock: nat,
    /// The most entries the cache holds.
    pub capacity: nat,
}

impl<Key, Value> CacheView<Key, Value> {
    /// The entries, from the most to the least recently used.
    pub open spec fn entries(self) -> Seq<(Key, Value)> {
        self.order.map_values(|id: NodeId| self.slots[id])
    }

    /// The entries with the count of modifications at their last touch, from
    /// the most to the least recently used.
    pub open spec fn stamped(self) -> Seq<(Key, Value, nat)> {
        self.order.map_values(|id: NodeId| (self.slots[id].0, self.slots[id].1, self.stamps[id]))
    }

    /// The keys, from the most to the least recently used.
    pub open spec fn keys(self) -> Seq<Key> {
        self.order.map_values(|id: NodeId| self.slots[id].0)
    }

    /// The number of modifications since `id` was last touched.
    pub open spec fn age(self, id: NodeId) -> nat {
        (self.clock - self.stamps[id]) as nat
    }

    /// The distance since the last touch of `id`, as a wrapping counter reads it.
    pub open spec fn staleness(self, id: NodeId) -> nat {
        wrapped(self.age(id))
    }

    /// The state after touching `id`: it moves to the front and takes a new
    /// stamp, unless it is in front already.
    pub open spec fn touched(self, id: NodeId) -> CacheView<Key, Value> {
        if self.order[0] == id {
            self
        } else {
            CacheView {
                order: moved_to_front(self.order, id),
                stamps: self.stamps.insert(id, self.clock + 1),
                clock: self.clock + 1,
                ..self
            }
        }
    }

    /// Whether the cache holds as many entries as it may.
    pub open spec fn is_full(self) -> bool {
        self.order.len() >= self.capacity
    }

    /// The state after a new entry `(key, value)` is placed in slot `id` at the
    /// front, the least recently used entry leaving first when the cache is full.
    pub open spec fn pushed(self, id: NodeId, key: Key, value: Value) -> CacheView<Key, Value> {
        CacheView {
            order: seq![id] + if self.is_full() { self.order.drop_last() } else { self.order },
            slots: self.slots.insert(id, (key, value)),
            stamps: self.stamps.insert(id, self.clock + 1),
            clock: self.clock + 1,
            capacity: self.capacity,
        }
    }

    /// The state after the entry in slot `id` is taken out.
    pub open spec fn without(self, id: NodeId) -> CacheView<Key, Value> {
        CacheView {
            order: self.order.remove(self.order.index_of(id)),
            slots: self.slots.remove(id),
            stamps: self.stamps.remove(id),
            ..self
        }
    }

    /// The state after the value in slot `id` is replaced by `value`.
    pub open spec fn with_value(self, id: NodeId, value: Value) -> CacheView<Key, Value> {
        CacheView { slots: self.slots.insert(id, (self.slots[id].0, value)), ..self }
    }

    /// The slot after `id` in the recency order, towards the least recently used end.
    pub open spec fn next_of(self, id: NodeId) -> Option<NodeId> {
        let p = self.order.index_of(id);
        if p + 1 < self.order.len() {
            Some(self.order[p + 1])
        } else {
            None
        }
    }

    /// The slot before `id` in the recency order, towards the most recently used end.
    pub open spec fn previous_of(self, id: NodeId) -> Option<NodeId> {
        let p = self.order.index_of(id);
        if p > 0 {
            Some(self.order[p - 1])
        } else {
            None
        }
    }

    /// `index` maps each key held to its slot, and nothing else.
    pub open spec fn indexed_by(self, index: Map<Key, NodeId>) -> bool {
        &&& forall|k: Key| #[trigger]
            index.contains_key(k) ==> self.order.contains(index[k]) && self.slots[index[k]].0 == k
        &&& forall|id: NodeId| #[trigger]
            self.order.contains(id) ==> index.contains_key(self.slots[id].0) && index[self.slots[id].0] == id
    }

    /// Whether an entry has key `k`.
    pub open spec fn contains_key(self, k: Key) -> bool {
        self.keys().contains(k)
    }

    /// The slot of the entry with key `k`.
    pub open spec fn id_of(self, k: Key) -> NodeId {
        self.order[self.keys().index_of(k)]
    }

    /// The value of the entry with key `k`.
    pub open spec fn value_of(self, k: Key) -> Value {
        self.slots[self.id_of(k)].1
    }

    /// The view that a map's own invariant guarantees.
    pub open spec fn sound(self) -> bool {
        &&& self.order.no_duplicates()
        &&& self.order.len() <= self.capacity
        &&& 2 <= self.capacity
        &&& forall|x: NodeId| #[trigger] self.slots.contains_key(x) <==> self.order.contains(x)
        &&& forall|x: NodeId| #[trigger] self.stamps.contains_key(x) <==> self.order.contains(x)
        &&& forall|x: NodeId| self.order.contains(x) ==> #[trigger] self.stamps[x] <= self.clock
        &&& forall|i: int, j: int|
            0 <= i < j < self.order.len() ==> self.stamps[#[trigger] self.order[i]]
                > self.stamps[#[trigger] self.order[j]]
    }
}

/// The entries after `(key, value)` is written to `entries`, most recently
/// used first, in a map that holds at most `capacity` entries: a held key is
/// replaced and moves to the front; a new key goes to the front, and when the
/// map is full the last entry leaves.
pub open spec fn push_entries<Key, Value>(
    entries: Seq<(Key, Value)>,
    capacity: nat,
    key: Key,
    value: Value,
) -> Seq<(Key, Value)> {
    let keys = entries.map_values(|e: (Key, Value)| e.0);
    if keys.contains(key) {
        seq![(key, value)] + entries.remove(keys.index_of(key))
    } else if entries.len() >= capacity {
        seq![(key, value)] + entries.drop_last()
    } else {
        seq![(key, value)] + entries
    }
}

/// The entries after each item of `items` is written in turn.
pub open spec fn extend_entries<Key, Value>(
    entries: Seq<(Key, Value)>,
    capacity: nat,
    items: Seq<(Key, Value)>,
) -> Seq<(Key, Value)>
    decreases items.len(),
{
    if items.len() == 0 {
        entries
    } else {
        push_entries(
            extend_entries(entries, capacity, items.drop_last()),
            capacity,
            items.last().0,
            items.last().1,
        )
    }
}

/// The stamped entries and the count of modifications after `(key, value)` is
/// written: a held key gets the new value and, unless it is in front already,
/// moves to the front with a new stamp; a new key goes to the front with a new
/// stamp, and when the map is full the last entry leaves.
pub open spec fn push_stamped<Key, Value>(
    entries: Seq<(Key, Value, nat)>,
    clock: nat,
    capacity: nat,
    key: Key,
    value: Value,
) -> (Seq<(Key, Value, nat)>, nat) {
    let keys = entries.map_values(|e: (Key, Value, nat)| e.0);
    if keys.contains(key) {
        let p = keys.index_of(key);
        if p == 0 {
            (entries.update(0, (key, value, entries[0].2)), clock)
        } else {
            (seq![(key, value, clock + 1)] + entries.remove(p), clock + 1)
        }
    } else if entries.len() >= capacity {
        (seq![(key, value, clock + 1)] + entries.drop_last(), clock + 1)
    } else {
        (seq![(key, value, clock + 1)] + entries, clock + 1)
    }
}

/// The stamped entries and the count of modifications after each item of
/// `items` is written in turn.
pub open spec fn extend_stamped<Key, Value>(
    entries: Seq<(Key, Value, nat)>,
    clock: nat,
    capacity: nat,
    items: Seq<(Key, Value)>,
) -> (Seq<(Key, Value, nat)>, nat)
    decreases items.len(),
{
    if items.len() == 0 {
        (entries, clock)
    } else {
        let before = extend_stamped(entries, clock, capacity, items.drop_last());
        push_stamped(before.0, before.1, capacity, items.last().0, items.last().1)
    }
}

/// A write changes the stamped entries and the count of modifications as
/// `push_stamped` says.
pub proof fn lemma_stamped_after_write<Key, Value>(
    pre: CacheView<Key, Value>,
    post: CacheView<Key, Value>,
    index: Map<Key, NodeId>,
    key: Key,
    value: Value,
    r: Option<Removed<Key, Value>>,
)
    requires
        pre.sound(),
        pre.indexed_by(index),
        written(pre, post, key, value, r),
    ensures
        (post.stamped(), post.clock) == push_stamped(pre.stamped(), pre.clock, pre.capacity, key, value),
{
    let es = pre.stamped();
    let keys = es.map_values(|e: (Key, Value, nat)| e.0);
    assert(keys =~= pre.keys());
    lemma_indexed_lookup(pre, index, key);
    let expect = push_stamped(es, pre.clock, pre.capacity, key, value);
    if pre.contains_key(key) {
        let id = pre.id_of(key);
        let p = pre.order.index_of(id);
        assert(keys.index_of(key) == p);
        assert(pre.order[p] == id);
        if p == 0 {
            assert(post.stamped() =~= expect.0) by {
                assert forall|i: int| 0 <= i < es.len() implies post.stamped()[i] == expect.0[i] by {
                    if i > 0 {
                        assert(pre.order[i] != id);
                    }
                }
            }
        } else {
            lemma_moved_to_front(pre.order, id);
            assert(post.stamped() =~= expect.0) by {
                assert forall|i: int| 0 <= i < es.len() implies post.stamped()[i] == expect.0[i] by {
                    if i > 0 {
                        let x = post.order[i];
                        assert(x == pre.order.remove(p)[i - 1]);
                        if i - 1 < p {
                            assert(x == pre.order[i - 1]);
                        } else {
                            assert(x == pre.order[i]);
                        }
                        assert(x != id);
                    }
                }
            }
        }
    } else if pre.is_full() {
        assert(post.stamped() =~= expect.0) by {
            assert forall|i: int| 0 <= i < es.len() implies post.stamped()[i] == expect.0[i] by {
                if i > 0 {
                    assert(post.order[i] == pre.order[i - 1]);
                    assert(pre.order[i - 1] != pre.order[pre.order.len() - 1]);
                }
            }
        }
    } else {
        assert(post.stamped() =~= expect.0) by {
            assert forall|i: int| 0 <= i < es.len() + 1 implies post.stamped()[i] == expect.0[i] by {
                if i > 0 {
                    assert(post.order[i] == pre.order[i - 1]);
                    assert(pre.order.contains(pre.order[i - 1]));
                }
            }
        }
    }
}

/// A write of `(key, value)` that returned `r` took the map from `pre` to
/// `post`: a held key gets the new value and is touched; a new key goes in
/// front, evicting the least recently used entry when the map is full.
pub open spec fn written<Key, Value>(
    pre: CacheView<Key, Value>,
    post: CacheView<Key, Value>,
    key: Key,
    value: Value,
    r: Option<Removed<Key, Value>>,
) -> bool {
    if pre.contains_key(key) {
        &&& r == Some(Removed::<Key, Value>::PreviousValue(pre.value_of(key)))
        &&& post == pre.touched(pre.id_of(key)).with_value(pre.id_of(key), value)
    } else if pre.is_full() {
        &&& r == Some(Removed::Evicted(pre.slots[pre.order.last()].0, pre.slots[pre.order.last()].1))
        &&& post == pre.pushed(pre.order.last(), key, value)
    } else {
        &&& r is None
        &&& !pre.order.contains(post.order[0])
        &&& post == pre.pushed(post.order[0], key, value)
    }
}

/// A sound view indexed by `index` holds exactly the keys of `index`, each
/// in the slot that `index` gives.
pub proof fn lemma_indexed_lookup<Key, Value>(v: CacheView<Key, Value>, index: Map<Key, NodeId>, k: Key)
    requires
        v.sound(),
        v.indexed_by(index),
    ensures
        index.contains_key(k) <==> v.contains_key(k),
        index.contains_key(k) ==> {
            &&& v.id_of(k) == index[k]
            &&& v.keys().index_of(k) == v.order.index_of(index[k])
            &&& v.order.contains(index[k])
        },
{
    let keys = v.keys();
    if index.contains_key(k) {
        let id = index[k];
        assert(v.order.contains(id));
        let i = v.order.index_of(id);
        assert(v.order[i] == id);
        assert(keys[i] == k);
        assert(keys.contains(k));
        let j = keys.index_of(k);
        assert(keys[j] == k);
        assert(v.order.contains(v.order[j]));
        assert(index[v.slots[v.order[j]].0] == v.order[j]);
        lemma_index_of_unique(v.order, j);
    }
    if keys.contains(k) {
        let j = keys.index_of(k);
        assert(keys[j] == k);
        assert(v.order.contains(v.order[j]));
    }
}

/// A sound view indexed by a map holds each key once.
pub proof fn lemma_indexed_keys_distinct<Key, Value>(v: CacheView<Key, Value>, index: Map<Key, NodeId>)
    requires
        v.sound(),
        v.indexed_by(index),
    ensures
        v.keys().no_duplicates(),
{
    let keys = v.keys();
    assert forall|i: int, j: int| 0 <= i < j < keys.len() implies keys[i] != keys[j] by {
        assert(v.order.contains(v.order[i]));
        assert(v.order.contains(v.order[j]));
    }
}

/// After a write the index, updated as the write requires, still matches.
pub proof fn lemma_index_after_write<Key, Value>(
    pre: CacheView<Key, Value>,
    post: CacheView<Key, Value>,
    index: Map<Key, NodeId>,
    key: Key,
    value: Value,
    r: Option<Removed<Key, Value>>,
)
    requires
        pre.sound(),
        pre.indexed_by(index),
        written(pre, post, key, value, r),
    ensures
        pre.contains_key(key) ==> post.indexed_by(index),
        !pre.contains_key(key) && pre.is_full() ==> post.indexed_by(
            index.remove(pre.slots[pre.order.last()].0).insert(key, pre.order.last()),
        ),
        !pre.contains_key(key) && !pre.is_full() ==> post.indexed_by(index.insert(key, post.order[0])),
{
    lemma_indexed_lookup(pre, index, key);
    if pre.contains_key(key) {
        let id = pre.id_of(key);
        lemma_moved_to_front(pre.order, id);
        assert(post.order =~= pre.touched(id).order);
        assert forall|x: NodeId| #[trigger] post.order.contains(x) <==> pre.order.contains(x) by {}
        assert forall|x: NodeId| pre.order.contains(x) implies post.slots[x].0 == pre.slots[x].0 by {}
        assert forall|k: Key| #[trigger] index.contains_key(k) implies post.order.contains(index[k]) && post.slots[index[k]].0 == k by {}
        assert forall|x: NodeId| #[trigger] post.order.contains(x) implies index.contains_key(post.slots[x].0) && index[post.slots[x].0] == x by {
            assert(pre.order.contains(x));
        }
    } else if pre.is_full() {
        let t = pre.order.last();
        let ix = index.remove(pre.slots[t].0).insert(key, t);
        let d = pre.order.drop_last();
        assert(pre.order.len() > 0);
        assert(pre.order[pre.order.len() - 1] == t);
        assert forall|id: NodeId| d.contains(id) <==> (pre.order.contains(id) && id != t) by {
            if d.contains(id) {
                let k = choose|k: int| 0 <= k < d.len() && d[k] == id;
                assert(pre.order[k] == id);
            }
            if pre.order.contains(id) && id != t {
                let k = choose|k: int| 0 <= k < pre.order.len() && pre.order[k] == id;
                assert(d[k] == id);
            }
        }
        assert forall|id: NodeId| #[trigger] post.order.contains(id) <==> (d.contains(id) || id == t) by {
            if post.order.contains(id) {
                let k = choose|k: int| 0 <= k < post.order.len() && post.order[k] == id;
                if k > 0 {
                    assert(d[k - 1] == id);
                }
            }
            if d.contains(id) {
                let k = choose|k: int| 0 <= k < d.len() && d[k] == id;
                assert(post.order[k + 1] == id);
            }
            assert(post.order[0] == t);
        }
        assert forall|k: Key| #[trigger] ix.contains_key(k) implies post.order.contains(ix[k]) && post.slots[ix[k]].0 == k by {
            if k != key {
                assert(index.contains_key(k));
                assert(index[k] != t);
            }
        }
        assert(pre.order.contains(t));
        assert(index[pre.slots[t].0] == t);
        assert forall|id: NodeId| #[trigger] post.order.contains(id) implies ix.contains_key(post.slots[id].0) && ix[post.slots[id].0] == id by {
            if id != t {
                assert(pre.order.contains(id));
                assert(index.contains_key(pre.slots[id].0));
                assert(pre.slots[id].0 != key);
                assert(pre.slots[id].0 != pre.slots[t].0);
            }
        }
    } else {
        let id0 = post.order[0];
        let ix = index.insert(key, id0);
        assert forall|id: NodeId| #[trigger] post.order.contains(id) <==> (pre.order.contains(id) || id == id0) by {
            if post.order.contains(id) {
                let k = choose|k: int| 0 <= k < post.order.len() && post.order[k] == id;
                if k > 0 {
                    assert(pre.order[k - 1] == id);
                }
            }
            if pre.order.contains(id) {
                let k = choose|k: int| 0 <= k < pre.order.len() && pre.order[k] == id;
                assert(post.order[k + 1] == id);
            }
        }
        assert forall|k: Key| #[trigger] ix.contains_key(k) implies post.order.contains(ix[k]) && post.slots[ix[k]].0 == k by {
            if k != key {
                assert(index.contains_key(k));
            }
        }
        assert forall|id: NodeId| #[trigger] post.order.contains(id) implies ix.contains_key(post.slots[id].0) && ix[post.slots[id].0] == id by {
            if id != id0 {
                assert(pre.order.contains(id));
                assert(index.contains_key(pre.slots[id].0));
                assert(pre.slots[id].0 != key);
            }
        }
    }
}

/// Touching an entry leaves the index matching.
pub proof fn lemma_index_after_touch<Key, Value>(
    pre: CacheView<Key, Value>,
    index: Map<Key, NodeId>,
    id: NodeId,
)
    requires
        pre.indexed_by(index),
        pre.order.contains(id),
    ensures
        pre.touched(id).indexed_by(index),
        pre.touched(id).slots == pre.slots,
        forall|x: NodeId| pre.touched(id).order.contains(x) <==> pre.order.contains(x),
{
    lemma_moved_to_front(pre.order, id);
    let post = pre.touched(id);
    assert forall|x: NodeId| #[trigger] post.order.contains(x) <==> pre.order.contains(x) by {}
    assert forall|k: Key| #[trigger] index.contains_key(k) implies post.order.contains(index[k]) && post.slots[index[k]].0 == k by {}
    assert forall|x: NodeId| #[trigger] post.order.contains(x) implies index.contains_key(post.slots[x].0) && index[post.slots[x].0] == x by {
        assert(pre.order.contains(x));
    }
}

/// After an entry is taken out, the index without its key still matches.
pub proof fn lemma_index_after_remove<Key, Value>(
    pre: CacheView<Key, Value>,
    index: Map<Key, NodeId>,
    id: NodeId,
)
    requires
        pre.sound(),
        pre.indexed_by(index),
        pre.order.contains(id),
    ensures
        pre.without(id).indexed_by(index.remove(pre.slots[id].0)),
{
    let post = pre.without(id);
    let p = pre.order.index_of(id);
    assert(pre.order[p] == id);
    assert forall|x: NodeId| #[trigger] post.order.contains(x) <==> (pre.order.contains(x) && x != id) by {
        if post.order.contains(x) {
            let k = choose|k: int| 0 <= k < post.order.len() && post.order[k] == x;
            if k < p {
                assert(pre.order[k] == x);
            } else {
                assert(pre.order[k + 1] == x);
            }
        }
        if pre.order.contains(x) && x != id {
            let k = choose|k: int| 0 <= k < pre.order.len() && pre.order[k] == x;
            if k < p {
                assert(post.order[k] == x);
            } else {
                assert(post.order[k - 1] == x);
            }
        }
    }
    let ix = index.remove(pre.slots[id].0);
    assert forall|k: Key| #[trigger] ix.contains_key(k) implies post.order.contains(ix[k]) && post.slots[ix[k]].0 == k by {
        assert(index.contains_key(k));
        assert(index[k] != id);
    }
}

/// A write changes the entries as `push_entries` says.
pub proof fn lemma_entries_after_write<Key, Value>(
    pre: CacheView<Key, Value>,
    post: CacheView<Key, Value>,
    index: Map<Key, NodeId>,
    key: Key,
    value: Value,
    r: Option<Removed<Key, Value>>,
)
    requires
        pre.sound(),
        pre.indexed_by(index),
        written(pre, post, key, value, r),
    ensures
        post.entries() == push_entries(pre.entries(), pre.capacity, key, value),
{
    let es = pre.entries();
    let keys = es.map_values(|e: (Key, Value)| e.0);
    assert(keys =~= pre.keys());
    lemma_indexed_lookup(pre, index, key);
    if pre.contains_key(key) {
        let id = pre.id_of(key);
        let p = pre.order.index_of(id);
        assert(keys.index_of(key) == p);
        assert(pre.order[p] == id);
        let expect = seq![(key, value)] + es.remove(p);
        lemma_moved_to_front(pre.order, id);
        assert(post.entries().len() == expect.len());
        assert forall|i: int| 0 <= i < expect.len() implies post.entries()[i] == expect[i] by {
            if i > 0 {
                let x = post.order[i];
                assert(x == pre.order.remove(p)[i - 1]);
                if i - 1 < p {
                    assert(x == pre.order[i - 1]);
                    assert(x != id);
                } else {
                    assert(x == pre.order[i]);
                    assert(x != id);
                }
            } else {
                assert(pre.slots[id].0 == key);
            }
        }
        assert(post.entries() =~= expect);
    } else if pre.is_full() {
        let t = pre.order.last();
        let expect = seq![(key, value)] + es.drop_last();
        assert(post.entries().len() == expect.len());
        assert forall|i: int| 0 <= i < expect.len() implies post.entries()[i] == expect[i] by {
            if i > 0 {
                assert(post.order[i] == pre.order[i - 1]);
                assert(pre.order[i - 1] != pre.order[pre.order.len() - 1]);
            }
        }
        assert(post.entries() =~= expect);
    } else {
        let id0 = post.order[0];
        let expect = seq![(key, value)] + es;
        assert(post.entries().len() == expect.len());
        assert forall|i: int| 0 <= i < expect.len() implies post.entries()[i] == expect[i] by {
            if i > 0 {
                assert(post.order[i] == pre.order[i - 1]);
                assert(pre.order.contains(pre.order[i - 1]));
            }
        }
        assert(post.entries() =~= expect);
    }
}

/// The wrapping difference of two counter readings is the distance between
/// the unwrapped counts.
pub proof fn lemma_wrapping_distance(later: nat, earlier: nat)
    requires
        earlier <= later,
    ensures
        vstd::wrapping::usize_specs::wrapping_sub(wrapped(later) as usize, wrapped(earlier) as usize)
            == wrapped((later - earlier) as nat),
{
    let m = counter_modulus() as int;
    vstd::arithmetic::div_mod::lemma_sub_mod_noop(later as int, earlier as int, m);
    let d = wrapped(later) as int - wrapped(earlier) as int;
    if d < 0 {
        vstd::arithmetic::div_mod::lemma_mod_add_multiples_vanish(d, m);
        vstd::arithmetic::div_mod::lemma_small_mod((d + m) as nat, m as nat);
    } else {
        vstd::arithmetic::div_mod::lemma_small_mod(d as nat, m as nat);
    }
}

/// In a sequence without duplicates, the element at `i` is found at `i`.
pub proof fn lemma_index_of_unique(s: Seq<NodeId>, i: int)
    requires
        s.no_duplicates(),
        0 <= i < s.len(),
    ensures
        s.index_of(s[i]) == i,
{
    assert(s.contains(s[i]));
}

} // verus!
