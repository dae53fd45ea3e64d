use vstd::prelude::*;

use crate::lru::{NodeId, Removed};
use crate::view::{
    counter_modulus, lemma_index_of_unique, lemma_moved_to_front, push_entries, wrapped, written,
    CacheView,
};
use crate::LruMap;

verus! {

/// A well-formed map holds at most as many entries as its capacity. Every
/// operation of a map keeps it well formed.
pub proof fn lemma_len_within_capacity<Key, Value, M: LruMap<Key, Value>>(m: &M)
    requires
        m.cache_wf(),
    ensures
        m.engine().order.len() <= m.engine().capacity,
{
    m.lemma_engine_sound();
}

/// A write keeps the capacity, and leaves at most that many entries.
pub proof fn lemma_write_within_capacity<Key, Value>(
    pre: CacheView<Key, Value>,
    post: CacheView<Key, Value>,
    key: Key,
    value: Value,
    r: Option<Removed<Key, Value>>,
)
    requires
        pre.sound(),
        written(pre, post, key, value, r),
    ensures
        post.capacity == pre.capacity,
        post.order.len() <= post.capacity,
{
    if pre.contains_key(key) {
        let j = pre.keys().index_of(key);
        assert(pre.order.contains(pre.order[j]));
        lemma_moved_to_front(pre.order, pre.id_of(key));
    }
}

/// Writing a new key into a full map evicts exactly the least recently used
/// entry, returns it, and keeps the number of entries.
pub proof fn lemma_full_write_evicts_tail<Key, Value>(
    pre: CacheView<Key, Value>,
    post: CacheView<Key, Value>,
    key: Key,
    value: Value,
    r: Option<Removed<Key, Value>>,
)
    requires
        pre.sound(),
        !pre.contains_key(key),
        pre.order.len() == pre.capacity,
        written(pre, post, key, value, r),
    ensures
        r == Some(Removed::Evicted(pre.entries().last().0, pre.entries().last().1)),
        post.entries() == seq![(key, value)] + pre.entries().drop_last(),
        post.order.len() == pre.order.len(),
{
    let es = pre.entries();
    assert(es.map_values(|e: (Key, Value)| e.0) =~= pre.keys());
    assert(post.entries() =~= push_entries(es, pre.capacity, key, value)) by {
        assert(post.entries().len() == es.len());
        assert forall|i: int| 0 <= i < es.len() implies post.entries()[i] == (seq![(key, value)]
            + es.drop_last())[i] by {
            if i > 0 {
                assert(post.order[i] == pre.order[i - 1]);
                assert(pre.order[i - 1] != pre.order[pre.order.len() - 1]);
            }
        }
    }
}

/// Writing a key that is held replaces its value, returns the old value, and
/// keeps the number of entries.
pub proof fn lemma_held_write_replaces<Key, Value>(
    pre: CacheView<Key, Value>,
    post: CacheView<Key, Value>,
    key: Key,
    value: Value,
    r: Option<Removed<Key, Value>>,
)
    requires
        pre.sound(),
        pre.contains_key(key),
        written(pre, post, key, value, r),
    ensures
        r == Some(Removed::<Key, Value>::PreviousValue(pre.value_of(key))),
        post.order.len() == pre.order.len(),
        post.keys()[0] == key,
        post.slots[post.order[0]] == (key, value),
{
    let j = pre.keys().index_of(key);
    assert(pre.keys()[j] == key);
    assert(pre.order.contains(pre.order[j]));
    lemma_moved_to_front(pre.order, pre.id_of(key));
}

/// Taking an entry out of a map whose keys are distinct removes its key, and
/// only its key, from the key order.
pub proof fn lemma_taken_key_gone<Key, Value>(v: CacheView<Key, Value>, id: NodeId)
    requires
        v.sound(),
        v.keys().no_duplicates(),
        v.order.contains(id),
    ensures
        v.without(id).keys() == v.keys().remove(v.order.index_of(id)),
        !v.without(id).contains_key(v.slots[id].0),
        v.without(id).order.len() == v.order.len() - 1,
{
    let p = v.order.index_of(id);
    assert(v.order[p] == id);
    let w = v.without(id);
    assert(w.order.len() == v.order.len() - 1);
    assert forall|i: int| 0 <= i < w.order.len() implies #[trigger] w.order[i] == v.order[if i < p { i } else { i + 1 }] by {}
    assert forall|i: int| 0 <= i < w.order.len() implies w.slots[w.order[i]] == v.slots[w.order[i]] by {
        assert(w.order[i] != id);
    }
    assert(w.keys() =~= v.keys().remove(p));
    if w.contains_key(v.slots[id].0) {
        let j = choose|j: int| 0 <= j < w.keys().len() && w.keys()[j] == v.slots[id].0;
        let q = if j < p { j } else { j + 1 };
        assert(v.keys()[q] == v.keys()[p]);
    }
}

/// After a key is touched, it is the most recently used, the other keys keep
/// their order, and every key keeps its value.
pub proof fn lemma_touch_moves_to_front<Key, Value>(v: CacheView<Key, Value>, k: Key)
    requires
        v.sound(),
        v.keys().no_duplicates(),
        v.contains_key(k),
    ensures
        v.touched(v.id_of(k)).keys()[0] == k,
        v.touched(v.id_of(k)).keys() == seq![k] + v.keys().remove(v.keys().index_of(k)),
        v.touched(v.id_of(k)).slots == v.slots,
        v.touched(v.id_of(k)).order.len() == v.order.len(),
        v.touched(v.id_of(k)).entries().len() == v.entries().len(),
{
    let j = v.keys().index_of(k);
    let id = v.id_of(k);
    assert(v.keys()[j] == k);
    assert(v.order.contains(v.order[j]));
    lemma_moved_to_front(v.order, id);
    assert(v.order.index_of(id) == j) by {
        let q = v.order.index_of(id);
        assert(v.order.contains(id));
        assert(v.order[q] == id);
        assert(v.keys()[q] == v.keys()[j]);
    }
    let t = v.touched(id);
    assert(t.keys() =~= seq![k] + v.keys().remove(j)) by {
        if v.order[0] != id {
            assert forall|i: int| 0 < i < t.keys().len() implies t.keys()[i] == v.keys().remove(j)[i - 1] by {
                assert(t.order[i] == v.order.remove(j)[i - 1]);
            }
        } else {
            assert(j == 0);
            assert forall|i: int| 0 < i < t.keys().len() implies t.keys()[i] == v.keys().remove(j)[i - 1] by {}
        }
    }
}

/// Along the recency order staleness grows: a more recently used entry has
/// been touched fewer modifications ago, which is also what the wrapping
/// counter shows while that count fits in it.
pub proof fn lemma_staleness_grows<Key, Value>(v: CacheView<Key, Value>, i: int, j: int)
    requires
        v.sound(),
        0 <= i < j < v.order.len(),
    ensures
        v.age(v.order[i]) < v.age(v.order[j]),
        v.age(v.order[j]) < counter_modulus() ==> v.staleness(v.order[i]) < v.staleness(
            v.order[j],
        ),
{
    assert(v.order.contains(v.order[i]));
    assert(v.order.contains(v.order[j]));
    if v.age(v.order[j]) < counter_modulus() {
        vstd::arithmetic::div_mod::lemma_small_mod(v.age(v.order[i]), counter_modulus());
        vstd::arithmetic::div_mod::lemma_small_mod(v.age(v.order[j]), counter_modulus());
    }
}

/// Touching an entry that is not already the most recently used makes its
/// staleness zero, and so does pushing a new entry.
pub proof fn lemma_touch_resets_staleness<Key, Value>(v: CacheView<Key, Value>, id: NodeId, key: Key, value: Value)
    requires
        v.sound(),
        v.order.len() > 0,
        v.order[0] != id,
    ensures
        v.touched(id).staleness(id) == 0,
        v.pushed(id, key, value).staleness(id) == 0,
{
    assert(wrapped(0) == 0);
}

/// The entries that `next` yields from position `front` onwards.
pub open spec fn forward_walk<Key, Value>(v: CacheView<Key, Value>, front: int) -> Seq<(Key, Value)>
    decreases v.order.len() - front,
{
    if front < 0 || front >= v.order.len() {
        Seq::empty()
    } else {
        seq![v.entries()[front]] + forward_walk(v, front + 1)
    }
}

/// The entries that `next_back` yields from position `back` down.
pub open spec fn backward_walk<Key, Value>(v: CacheView<Key, Value>, back: int) -> Seq<(Key, Value)>
    decreases back + 1,
{
    if back < 0 || back >= v.order.len() {
        Seq::empty()
    } else {
        seq![v.entries()[back]] + backward_walk(v, back - 1)
    }
}

/// The entries that repeated calls of the draining iterator's `next` yield.
pub open spec fn drain_walk<Key, Value>(v: CacheView<Key, Value>) -> Seq<(Key, Value)>
    decreases v.order.len(),
{
    if v.order.len() == 0 {
        Seq::empty()
    } else {
        seq![v.entries()[0]] + drain_walk(v.without(v.order[0]))
    }
}

/// The forward walk from `front` is the rest of the entries.
proof fn lemma_forward_walk<Key, Value>(v: CacheView<Key, Value>, front: int)
    requires
        0 <= front <= v.order.len(),
    ensures
        forward_walk(v, front) == v.entries().subrange(front, v.order.len() as int),
    decreases v.order.len() - front,
{
    if front < v.order.len() {
        lemma_forward_walk(v, front + 1);
        assert(forward_walk(v, front) =~= v.entries().subrange(front, v.order.len() as int));
    } else {
        assert(forward_walk(v, front) =~= v.entries().subrange(front, v.order.len() as int));
    }
}

/// The backward walk from `back` is the entries up to it, reversed.
proof fn lemma_backward_walk<Key, Value>(v: CacheView<Key, Value>, back: int)
    requires
        -1 <= back < v.order.len(),
    ensures
        backward_walk(v, back) == v.entries().subrange(0, back + 1).reverse(),
    decreases back + 1,
{
    if back >= 0 {
        lemma_backward_walk(v, back - 1);
        let s = v.entries().subrange(0, back + 1);
        assert(s.reverse() =~= seq![s[back]] + s.drop_last().reverse());
        assert(s.drop_last() =~= v.entries().subrange(0, back));
    } else {
        assert(backward_walk(v, back) =~= v.entries().subrange(0, back + 1).reverse());
    }
}

/// Iterating forward from the most recently used entry yields every entry in
/// recency order, and iterating backward from the least recently used entry
/// yields the same entries reversed.
pub proof fn lemma_round_trip<Key, Value>(v: CacheView<Key, Value>)
    ensures
        forward_walk(v, 0) == v.entries(),
        backward_walk(v, v.order.len() - 1) == v.entries().reverse(),
        forward_walk(v, 0) == backward_walk(v, v.order.len() - 1).reverse(),
{
    lemma_forward_walk(v, 0);
    lemma_backward_walk(v, v.order.len() - 1);
    assert(v.entries().subrange(0, v.order.len() as int) =~= v.entries());
    assert(v.entries().reverse().reverse() =~= v.entries());
}

/// Draining a map yields every entry in recency order, and leaves nothing:
/// after as many steps as it has entries, the map is empty.
pub proof fn lemma_drain<Key, Value>(v: CacheView<Key, Value>)
    requires
        v.sound(),
    ensures
        drain_walk(v) == v.entries(),
    decreases v.order.len(),
{
    if v.order.len() > 0 {
        let w = v.without(v.order[0]);
        assert(v.order.index_of(v.order[0]) == 0) by {
            lemma_index_of_unique(v.order, 0);
        }
        assert(w.order =~= v.order.drop_first());
        assert forall|x: NodeId| #[trigger] w.slots.contains_key(x) <==> w.order.contains(x) by {
            if w.order.contains(x) {
                let k = choose|k: int| 0 <= k < w.order.len() && w.order[k] == x;
                assert(v.order[k + 1] == x);
            }
            if v.order.contains(x) && x != v.order[0] {
                let k = choose|k: int| 0 <= k < v.order.len() && v.order[k] == x;
                assert(w.order[k - 1] == x);
            }
        }
        assert forall|x: NodeId| #[trigger] w.stamps.contains_key(x) <==> w.order.contains(x) by {
            assert(w.slots.contains_key(x) <==> w.order.contains(x));
        }
        assert(w.sound()) by {
            assert forall|i: int, j: int| 0 <= i < j < w.order.len() implies w.stamps[#[trigger] w.order[i]]
                > w.stamps[#[trigger] w.order[j]] by {
                assert(w.order[i] == v.order[i + 1]);
                assert(w.order[j] == v.order[j + 1]);
            }
            assert forall|x: NodeId| w.order.contains(x) implies #[trigger] w.stamps[x] <= w.clock by {
                let k = choose|k: int| 0 <= k < w.order.len() && w.order[k] == x;
                assert(v.order[k + 1] == x);
            }
        }
        lemma_drain(w);
        assert(drain_walk(v) =~= v.entries()) by {
            assert forall|i: int| 0 <= i < v.order.len() - 1 implies w.entries()[i] == v.entries()[i + 1] by {
                assert(w.order[i] == v.order[i + 1]);
                assert(v.order[i + 1] != v.order[0]);
            }
        }
    } else {
        assert(drain_walk(v) =~= v.entries());
    }
}

} // verus!
