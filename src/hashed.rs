use std::collections::HashMap;
use std::hash::{BuildHasher, Hash, RandomState};
use vstd::prelude::*;
use vstd::std_specs::hash::{builds_valid_hashers, obeys_key_model};

use crate::lru::{EntryCache, EntryRef, IntoIter, Iter, LruCache, NodeId, Removed};
use crate::view::{
    extend_entries, lemma_entries_after_write, lemma_index_after_remove, lemma_index_after_touch,
    lemma_index_after_write, lemma_indexed_keys_distinct, lemma_stamped_after_write, push_stamped, extend_stamped, lemma_indexed_lookup, push_entries, written, CacheView,
};
use crate::LruMap;

verus! {

/// Relies on `HashMap::with_capacity_and_hasher`: the new map is empty.
#[verifier::external_body]
fn empty_index<Key, State>(capacity: usize, hasher: State) -> (r: HashMap<Key, NodeId, State>)
    ensures
        forall|k: Key| !r@.contains_key(k),
{
    HashMap::with_capacity_and_hasher(capacity, hasher)
}

/// A Least Recently Used map with fixed capacity that finds keys through a
/// `HashMap`.
#[verifier::reject_recursive_types(Key)]
#[verifier::reject_recursive_types(State)]
pub struct LruHashMap<Key, Value, State = RandomState> {
    map: HashMap<Key, NodeId, State>,
    cache: LruCache<Key, Value>,
}

impl<Key, Value, State> View for LruHashMap<Key, Value, State> {
    type V = CacheView<Key, Value>;

    closed spec fn view(&self) -> CacheView<Key, Value> {
        self.cache@
    }
}

impl<Key: Hash + Eq + Copy, Value> LruHashMap<Key, Value, RandomState> {
    /// Creates a new map with the maximum `capacity`.
    pub fn new(capacity: usize) -> (r: Self)
        requires
            2 <= capacity <= u32::MAX,
            obeys_key_model::<Key>(),
        ensures
            r.wf(),
            r@.order.len() == 0,
            r@.clock == 0,
            r@.capacity == capacity,
    {
        LruHashMap { map: HashMap::with_capacity(capacity), cache: LruCache::new(capacity) }
    }
}

impl<Key: Hash + Eq + Copy, Value, State: BuildHasher> LruHashMap<Key, Value, State> {
    /// The map's invariant: the index holds each key of the recency engine
    /// with its slot.
    pub closed spec fn wf(&self) -> bool {
        &&& self.cache.wf()
        &&& obeys_key_model::<Key>()
        &&& builds_valid_hashers::<State>()
        &&& self.cache@.indexed_by(self.map@)
    }

    /// Creates a new map with the maximum `capacity` that hashes with `hasher`.
    pub fn with_hasher(capacity: usize, hasher: State) -> (r: Self)
        requires
            2 <= capacity <= u32::MAX,
            obeys_key_model::<Key>(),
            builds_valid_hashers::<State>(),
        ensures
            r.wf(),
            r@.order.len() == 0,
            r@.clock == 0,
            r@.capacity == capacity,
    {
        LruHashMap { map: empty_index(capacity, hasher), cache: LruCache::new(capacity) }
    }

    fn node_of(&self, key: &Key) -> (r: Option<NodeId>)
        requires
            self.wf(),
        ensures
            self.cache@.sound(),
            r is Some <==> self@.contains_key(*key),
            r is Some ==> r->Some_0 == self@.id_of(*key) && self@.order.contains(r->Some_0),
    {
        proof {
            self.cache.lemma_view();
            lemma_indexed_lookup(self@, self.map@, *key);
        }
        match self.map.get(key) {
            Some(node) => Some(*node),
            None => None,
        }
    }

    /// Returns the stored value for `key`, if present, touching the key.
    pub fn get(&mut self, key: &Key) -> (r: Option<&Value>)
        requires
            old(self).wf(),
        ensures
            final(self).wf(),
            match r {
                Some(v) => {
                    &&& old(self)@.contains_key(*key)
                    &&& *v == old(self)@.value_of(*key)
                    &&& final(self)@ == old(self)@.touched(old(self)@.id_of(*key))
                },
                None => {
                    &&& !old(self)@.contains_key(*key)
                    &&& final(self)@ == old(self)@
                },
            },
    {
        let node = self.node_of(key);
        match node {
            Some(node) => {
                proof {
                    lemma_index_after_touch(self@, self.map@, node);
                }
                let found = self.cache.get(node);
                Some(found.value())
            },
            None => None,
        }
    }

    /// Returns the stored value for `key` for modification, if present,
    /// touching the key.
    pub fn get_mut(&mut self, key: &Key) -> (r: Option<&mut Value>)
        requires
            old(self).wf(),
        ensures
            match r {
                Some(v) => {
                    &&& old(self)@.contains_key(*key)
                    &&& *v == old(self)@.value_of(*key)
                    &&& final(self).wf()
                    &&& final(self)@ == old(self)@.touched(old(self)@.id_of(*key)).with_value(
                        old(self)@.id_of(*key),
                        *final(v),
                    )
                },
                None => {
                    &&& !old(self)@.contains_key(*key)
                    &&& *final(self) == *old(self)
                },
            },
    {
        let ghost pre = self@;
        let ghost index = self.map@;
        let node = self.node_of(key);
        match node {
            Some(node) => {
                proof {
                    lemma_index_after_touch(pre, index, node);
                }
                let slot = self.cache.get_mut(node);
                let value = slot.value_mut();
                Some(value)
            },
            None => None,
        }
    }

    /// Returns the stored value for `key`, if present, without touching it.
    pub fn get_without_update(&self, key: &Key) -> (r: Option<&Value>)
        requires
            self.wf(),
        ensures
            match r {
                Some(v) => self@.contains_key(*key) && *v == self@.value_of(*key),
                None => !self@.contains_key(*key),
            },
    {
        match self.node_of(key) {
            Some(node) => Some(self.cache.get_without_touch(node).value()),
            None => None,
        }
    }

    /// Returns an [`EntryRef`] for `key`, if present, without touching it.
    pub fn entry(&mut self, key: &Key) -> (r: Option<EntryRef<'_, Self, Key, Value>>)
        requires
            old(self).wf(),
        ensures
            match r {
                Some(e) => {
                    &&& old(self)@.contains_key(*key)
                    &&& e.wf()
                    &&& e.owner() == *old(self)
                    &&& e.position() == old(self)@.id_of(*key)
                    &&& !e.has_accessed()
                },
                None => !old(self)@.contains_key(*key) && *final(self) == *old(self),
            },
    {
        match self.node_of(key) {
            Some(node) => Some(EntryRef::new(self, node)),
            None => None,
        }
    }

    /// Inserts `value` for `key`, touching the key. A value already stored
    /// for the key is returned as [`Removed::PreviousValue`]; otherwise, when
    /// the map is full, the least recently used entry is returned as
    /// [`Removed::Evicted`].
    pub fn push(&mut self, key: Key, value: Value) -> (r: Option<Removed<Key, Value>>)
        requires
            old(self).wf(),
        ensures
            final(self).wf(),
            written(old(self)@, final(self)@, key, value, r),
            final(self)@.entries() == push_entries(old(self)@.entries(), old(self)@.capacity, key, value),
            (final(self)@.stamped(), final(self)@.clock) == push_stamped(
                old(self)@.stamped(),
                old(self)@.clock,
                old(self)@.capacity,
                key,
                value,
            ),
    {
        let ghost pre = self@;
        let ghost index = self.map@;
        match self.node_of(&key) {
            Some(node) => {
                let slot = self.cache.get_mut(node);
                let previous = slot.replace_value(value);
                proof {
                    self.cache.lemma_view();
                    lemma_index_after_write(pre, self@, index, key, value, Some(Removed::PreviousValue(previous)));
                    lemma_entries_after_write(pre, self@, index, key, value, Some(Removed::PreviousValue(previous)));
                    lemma_stamped_after_write(pre, self@, index, key, value, Some(Removed::PreviousValue(previous)));
                }
                Some(Removed::PreviousValue(previous))
            },
            None => {
                let (node, result) = self.cache.push(key, value);
                match &result {
                    Some(Removed::Evicted(evicted, _)) => {
                        self.map.remove(evicted);
                    },
                    _ => {},
                }
                self.map.insert(key, node);
                proof {
                    self.cache.lemma_view();
                    lemma_index_after_write(pre, self@, index, key, value, result);
                    lemma_entries_after_write(pre, self@, index, key, value, result);
                    lemma_stamped_after_write(pre, self@, index, key, value, result);
                    if pre.is_full() {
                        assert(self.map@ =~= index.remove(pre.slots[pre.order.last()].0).insert(key, pre.order.last()));
                    } else {
                        assert(self.map@ =~= index.insert(key, self@.order[0]));
                    }
                }
                result
            },
        }
    }

    /// Pushes each item of `items` in turn.
    pub fn extend(&mut self, items: Vec<(Key, Value)>)
        requires
            old(self).wf(),
        ensures
            final(self).wf(),
            final(self)@.entries() == extend_entries(old(self)@.entries(), old(self)@.capacity, items@),
            (final(self)@.stamped(), final(self)@.clock) == extend_stamped(
                old(self)@.stamped(),
                old(self)@.clock,
                old(self)@.capacity,
                items@,
            ),
            final(self)@.capacity == old(self)@.capacity,
    {
        let ghost start = self@.entries();
        let ghost start_stamped = self@.stamped();
        let ghost start_clock = self@.clock;
        let ghost all = items@;
        let mut rest = items;
        let total = rest.len();
        let mut items: Vec<(Key, Value)> = Vec::new();
        while rest.len() > 0
            invariant
                rest@.len() + items@.len() == all.len(),
                total == all.len(),
                forall|j: int| 0 <= j < rest@.len() ==> rest@[j] == #[trigger] all[j],
                forall|j: int| 0 <= j < items@.len() ==> items@[j] == #[trigger] all[all.len() - 1 - j],
            decreases rest@.len(),
        {
            let item = rest.pop().unwrap();
            items.push(item);
        }
        let mut i: usize = 0;
        while i < total
            invariant
                self.wf(),
                self@.capacity == old(self)@.capacity,
                items@.len() + i == all.len(),
                total == all.len(),
                forall|j: int| 0 <= j < items@.len() ==> items@[j] == #[trigger] all[all.len() - 1 - j],
                self@.entries() == extend_entries(start, self@.capacity, all.take(i as int)),
                (self@.stamped(), self@.clock) == extend_stamped(
                    start_stamped,
                    start_clock,
                    self@.capacity,
                    all.take(i as int),
                ),
            decreases total - i,
        {
            proof {
                assert(items@[items@.len() - 1] == all[all.len() - 1 - (items@.len() - 1)]);
            }
            let (key, value) = items.pop().unwrap();
            proof {
                assert(all[i as int] == (key, value));
                assert(all.take(i as int + 1).drop_last() =~= all.take(i as int));
            }
            self.push(key, value);
            i = i + 1;
        }
        proof {
            assert(all.take(i as int) =~= all);
        }
    }

}

impl<Key: Hash + Eq + Copy, Value, State: BuildHasher> EntryCache<Key, Value> for LruHashMap<Key, Value, State> {
    open spec fn cache_wf(&self) -> bool {
        self.wf()
    }

    open spec fn engine(&self) -> CacheView<Key, Value> {
        self@
    }

    proof fn lemma_engine_sound(&self) {
        self.cache.lemma_view();
        lemma_indexed_keys_distinct(self@, self.map@);
    }

    fn cache(&self) -> (r: &LruCache<Key, Value>) {
        &self.cache
    }

    fn touch(&mut self, node: NodeId) {
        proof {
            lemma_index_after_touch(self@, self.map@, node);
        }
        self.cache.touch(node);
    }

    fn remove(&mut self, node: NodeId) -> (r: ((Key, Value), Option<NodeId>, Option<NodeId>)) {
        proof {
            self.cache.lemma_view();
            lemma_index_after_remove(self@, self.map@, node);
        }
        let ((key, value), next, previous) = self.cache.remove(node);
        self.map.remove(&key);
        ((key, value), next, previous)
    }
}



impl<Key: Hash + Eq + Copy, Value> LruMap<Key, Value> for LruHashMap<Key, Value, RandomState> {
    open spec fn keys_lawful() -> bool {
        obeys_key_model::<Key>()
    }

    fn new(capacity: usize) -> (r: Self) {
        Self::new(capacity)
    }

    fn len(&self) -> (r: usize) {
        proof {
            assert(self.cache_wf());
            assert(self.wf());
        }
        self.cache.len()
    }

    fn head(&mut self) -> (r: Option<EntryRef<'_, Self, Key, Value>>) {
        match self.cache.head() {
            Some(node) => Some(EntryRef::new(self, node)),
            None => None,
        }
    }

    fn tail(&mut self) -> (r: Option<EntryRef<'_, Self, Key, Value>>) {
        match self.cache.tail() {
            Some(node) => Some(EntryRef::new(self, node)),
            None => None,
        }
    }

    fn iter(&self) -> (r: Iter<'_, Key, Value>) {
        self.cache.iter()
    }

    fn get(&mut self, key: &Key) -> (r: Option<&Value>) {
        self.get(key)
    }

    fn get_without_update(&self, key: &Key) -> (r: Option<&Value>) {
        self.get_without_update(key)
    }

    fn entry(&mut self, key: &Key) -> (r: Option<EntryRef<'_, Self, Key, Value>>) {
        self.entry(key)
    }

    fn push(&mut self, key: Key, value: Value) -> (r: Option<Removed<Key, Value>>) {
        self.push(key, value)
    }

    fn extend(&mut self, items: Vec<(Key, Value)>) {
        self.extend(items)
    }

    fn into_iter(self) -> (r: IntoIter<Key, Value>) {
        IntoIter::new(self.cache)
    }
}

} // verus!
