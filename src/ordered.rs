use std::collections::BTreeMap;
use std::ops::Bound;
use std::cmp::Ordering;
use vstd::laws_cmp::obeys_cmp;
use vstd::prelude::*;
use vstd::std_specs::cmp::{OrdSpec, PartialOrdSpec};

use crate::lru::{EntryCache, EntryRef, IntoIter, Iter, LruCache, NodeId, Removed};
use crate::view::{
    extend_entries, lemma_entries_after_write, lemma_index_after_remove, lemma_index_after_touch,
    lemma_index_after_write, lemma_indexed_keys_distinct, lemma_stamped_after_write, push_stamped, extend_stamped, lemma_indexed_lookup, lemma_wrapping_distance, push_entries, written,
    CacheView,
};
use crate::LruMap;

verus! {

/// Declares std's `Bound` (`Included`, `Excluded`, `Unbounded`), the ends of
/// the key ranges handed to `BTreeMap::range`; its variants are read as they
/// are.
#[verifier::external_type_specification]
#[verifier::reject_recursive_types(T)]
pub struct ExBound<T>(Bound<T>);

/// `k` lies on the inner side of the lower end `start`.
pub open spec fn above_start<Key: Ord>(k: Key, start: Bound<Key>) -> bool {
    match start {
        Bound::Included(a) => k.cmp_spec(&a) != std::cmp::Ordering::Less,
        Bound::Excluded(a) => k.cmp_spec(&a) == std::cmp::Ordering::Greater,
        Bound::Unbounded => true,
    }
}

/// `k` lies on the inner side of the upper end `end`.
pub open spec fn below_end<Key: Ord>(k: Key, end: Bound<Key>) -> bool {
    match end {
        Bound::Included(b) => k.cmp_spec(&b) != std::cmp::Ordering::Greater,
        Bound::Excluded(b) => k.cmp_spec(&b) == std::cmp::Ordering::Less,
        Bound::Unbounded => true,
    }
}

/// `k` lies between the two ends.
pub open spec fn in_range<Key: Ord>(k: Key, range: (Bound<Key>, Bound<Key>)) -> bool {
    above_start(k, range.0) && below_end(k, range.1)
}

/// The two ends of a range on which `BTreeMap::range` does not panic: the
/// start is not past the end, and they are not one key excluded twice.
pub open spec fn valid_range<Key: Ord>(range: (Bound<Key>, Bound<Key>)) -> bool {
    match (range.0, range.1) {
        (Bound::Included(a), Bound::Included(b)) => a.cmp_spec(&b) != std::cmp::Ordering::Greater,
        (Bound::Included(a), Bound::Excluded(b)) => a.cmp_spec(&b) != std::cmp::Ordering::Greater,
        (Bound::Excluded(a), Bound::Included(b)) => a.cmp_spec(&b) != std::cmp::Ordering::Greater,
        (Bound::Excluded(a), Bound::Excluded(b)) => a.cmp_spec(&b) == std::cmp::Ordering::Less,
        _ => true,
    }
}

/// Order by a lawful comparison is transitive, and strict when either step is.
proof fn lemma_cmp_chain<Key: Ord>(x: Key, y: Key, z: Key)
    requires
        obeys_cmp::<Key>(),
        x.cmp_spec(&y) != Ordering::Greater,
        y.cmp_spec(&z) != Ordering::Greater,
    ensures
        x.cmp_spec(&z) != Ordering::Greater,
        x.cmp_spec(&y) == Ordering::Less || y.cmp_spec(&z) == Ordering::Less ==> x.cmp_spec(&z)
            == Ordering::Less,
{
    reveal(vstd::laws_cmp::obeys_partial_cmp_spec_properties);
    reveal(vstd::laws_cmp::obeys_cmp_ord);
    reveal(vstd::laws_eq::obeys_eq_spec_properties);
    assert(x.partial_cmp_spec(&y) == Some(x.cmp_spec(&y)));
    assert(y.partial_cmp_spec(&z) == Some(y.cmp_spec(&z)));
    assert(x.partial_cmp_spec(&z) == Some(x.cmp_spec(&z)));
    assert(z.partial_cmp_spec(&x) == Some(z.cmp_spec(&x)));
    assert(y.partial_cmp_spec(&x) == Some(y.cmp_spec(&x)));
    assert(z.partial_cmp_spec(&y) == Some(z.cmp_spec(&y)));
}

/// No key lies in a range whose ends are the wrong way round.
proof fn lemma_inverted_range_empty<Key: Ord>(k: Key, range: (Bound<Key>, Bound<Key>))
    requires
        obeys_cmp::<Key>(),
        !valid_range(range),
    ensures
        !in_range(k, range),
{
    reveal(vstd::laws_cmp::obeys_partial_cmp_spec_properties);
    reveal(vstd::laws_cmp::obeys_cmp_ord);
    match (range.0, range.1) {
        (Bound::Included(a), Bound::Included(b)) => {
            if in_range(k, range) {
                lemma_cmp_chain(a, k, b);
            }
        },
        (Bound::Included(a), Bound::Excluded(b)) => {
            if in_range(k, range) {
                lemma_cmp_chain(a, k, b);
            }
        },
        (Bound::Excluded(a), Bound::Included(b)) => {
            if in_range(k, range) {
                assert(a.partial_cmp_spec(&k) == Some(a.cmp_spec(&k)));
                assert(k.partial_cmp_spec(&a) == Some(k.cmp_spec(&a)));
                lemma_cmp_chain(a, k, b);
            }
        },
        (Bound::Excluded(a), Bound::Excluded(b)) => {
            if in_range(k, range) {
                assert(a.partial_cmp_spec(&k) == Some(a.cmp_spec(&k)));
                assert(k.partial_cmp_spec(&a) == Some(k.cmp_spec(&a)));
                lemma_cmp_chain(a, k, b);
            }
        },
        _ => {},
    }
}

/// Tells whether `BTreeMap::range` takes `range` without panicking.
fn range_is_valid<Key: Ord>(range: &(Bound<Key>, Bound<Key>)) -> (r: bool)
    requires
        obeys_cmp::<Key>(),
    ensures
        r == valid_range(*range),
{
    proof {
        reveal(vstd::laws_cmp::obeys_cmp_ord);
    }
    match (&range.0, &range.1) {
        (Bound::Included(a), Bound::Included(b))
        | (Bound::Included(a), Bound::Excluded(b))
        | (Bound::Excluded(a), Bound::Included(b)) => !matches!(a.cmp(b), Ordering::Greater),
        (Bound::Excluded(a), Bound::Excluded(b)) => matches!(a.cmp(b), Ordering::Less),
        _ => true,
    }
}

/// `condition` holds of `(k, v)` whatever call of it is made.
pub open spec fn surely<Key, Value, Condition: Fn(&Key, &Value) -> bool>(
    condition: Condition,
    k: Key,
    v: Value,
) -> bool {
    forall|b: bool| condition.ensures((&k, &v), b) ==> b
}

/// Relies on `BTreeMap::range`: it yields each entry whose key lies in
/// `range` once, and no other, and panics on a range that `valid_range`
/// excludes.
#[verifier::external_body]
fn entries_in_range<Key: Ord + Copy>(
    map: &BTreeMap<Key, NodeId>,
    range: (Bound<Key>, Bound<Key>),
) -> (r: Vec<(Key, NodeId)>)
    requires
        obeys_cmp::<Key>(),
        valid_range(range),
    ensures
        forall|i: int|
            0 <= i < r@.len() ==> map@.contains_key(#[trigger] r@[i].0) && map@[r@[i].0] == r@[i].1
                && in_range(r@[i].0, range),
        forall|k: Key|
            map@.contains_key(k) && in_range(k, range) ==> exists|i: int|
                0 <= i < r@.len() && #[trigger] r@[i].0 == k,
{
    map.range(range).map(|(k, v)| (*k, *v)).collect()
}

/// A Least Recently Used map with fixed capacity that finds keys through a
/// `BTreeMap`, which also answers range queries.
pub struct LruBTreeMap<Key, Value> {
    map: BTreeMap<Key, NodeId>,
    cache: LruCache<Key, Value>,
}

impl<Key, Value> View for LruBTreeMap<Key, Value> {
    type V = CacheView<Key, Value>;

    closed spec fn view(&self) -> CacheView<Key, Value> {
        self.cache@
    }
}

impl<Key: Ord + Copy, Value> LruBTreeMap<Key, Value> {
    /// The map's invariant: the index holds each key of the recency engine
    /// with its slot.
    pub closed spec fn wf(&self) -> bool {
        &&& self.cache.wf()
        &&& obeys_cmp::<Key>()
        &&& self.cache@.indexed_by(self.map@)
    }

    /// Creates a new map with the maximum `capacity`.
    pub fn new(capacity: usize) -> (r: Self)
        requires
            2 <= capacity <= u32::MAX,
            obeys_cmp::<Key>(),
        ensures
            r.wf(),
            r@.order.len() == 0,
            r@.clock == 0,
            r@.capacity == capacity,
    {
        LruBTreeMap { map: BTreeMap::new(), cache: LruCache::new(capacity) }
    }

    fn node_of(&self, key: &Key) -> (r: Option<NodeId>)
        requires
            self.wf(),
        ensures
            self.cache@.sound(),
            r is Some <==> self@.contains_key(*key),
            r is Some ==> r->Some_0 == self@.id_of(*key) && self@.order.contains(r->Some_0),
    {
        proof {
            self.cache.lemma_view();
            lemma_indexed_lookup(self@, self.map@, *key);
        }
        match self.map.get(key) {
            Some(node) => Some(*node),
            None => None,
        }
    }

    /// Returns the stored value for `key`, if present, touching the key.
    pub fn get(&mut self, key: &Key) -> (r: Option<&Value>)
        requires
            old(self).wf(),
        ensures
            final(self).wf(),
            match r {
                Some(v) => {
                    &&& old(self)@.contains_key(*key)
                    &&& *v == old(self)@.value_of(*key)
                    &&& final(self)@ == old(self)@.touched(old(self)@.id_of(*key))
                },
                None => {
                    &&& !old(self)@.contains_key(*key)
                    &&& final(self)@ == old(self)@
                },
            },
    {
        let node = self.node_of(key);
        match node {
            Some(node) => {
                proof {
                    lemma_index_after_touch(self@, self.map@, node);
                }
                let found = self.cache.get(node);
                Some(found.value())
            },
            None => None,
        }
    }

    /// Returns the stored value for `key`, if present, without touching it.
    pub fn get_without_update(&self, key: &Key) -> (r: Option<&Value>)
        requires
            self.wf(),
        ensures
            match r {
                Some(v) => self@.contains_key(*key) && *v == self@.value_of(*key),
                None => !self@.contains_key(*key),
            },
    {
        match self.node_of(key) {
            Some(node) => Some(self.cache.get_without_touch(node).value()),
            None => None,
        }
    }

    /// Returns an [`EntryRef`] for `key`, if present, without touching it.
    pub fn entry(&mut self, key: &Key) -> (r: Option<EntryRef<'_, Self, Key, Value>>)
        requires
            old(self).wf(),
        ensures
            match r {
                Some(e) => {
                    &&& old(self)@.contains_key(*key)
                    &&& e.wf()
                    &&& e.owner() == *old(self)
                    &&& e.position() == old(self)@.id_of(*key)
                    &&& !e.has_accessed()
                },
                None => !old(self)@.contains_key(*key) && *final(self) == *old(self),
            },
    {
        match self.node_of(key) {
            Some(node) => Some(EntryRef::new(self, node)),
            None => None,
        }
    }

    /// Inserts `value` for `key`, touching the key. A value already stored
    /// for the key is returned as [`Removed::PreviousValue`]; otherwise, when
    /// the map is full, the least recently used entry is returned as
    /// [`Removed::Evicted`].
    pub fn push(&mut self, key: Key, value: Value) -> (r: Option<Removed<Key, Value>>)
        requires
            old(self).wf(),
        ensures
            final(self).wf(),
            written(old(self)@, final(self)@, key, value, r),
            final(self)@.entries() == push_entries(old(self)@.entries(), old(self)@.capacity, key, value),
            (final(self)@.stamped(), final(self)@.clock) == push_stamped(
                old(self)@.stamped(),
                old(self)@.clock,
                old(self)@.capacity,
                key,
                value,
            ),
    {
        let ghost pre = self@;
        let ghost index = self.map@;
        match self.node_of(&key) {
            Some(node) => {
                let slot = self.cache.get_mut(node);
                let previous = slot.replace_value(value);
                proof {
                    self.cache.lemma_view();
                    lemma_index_after_write(pre, self@, index, key, value, Some(Removed::PreviousValue(previous)));
                    lemma_entries_after_write(pre, self@, index, key, value, Some(Removed::PreviousValue(previous)));
                    lemma_stamped_after_write(pre, self@, index, key, value, Some(Removed::PreviousValue(previous)));
                }
                Some(Removed::PreviousValue(previous))
            },
            None => {
                let (node, result) = self.cache.push(key, value);
                match &result {
                    Some(Removed::Evicted(evicted, _)) => {
                        self.map.remove(evicted);
                    },
                    _ => {},
                }
                self.map.insert(key, node);
                proof {
                    self.cache.lemma_view();
                    lemma_index_after_write(pre, self@, index, key, value, result);
                    lemma_entries_after_write(pre, self@, index, key, value, result);
                    lemma_stamped_after_write(pre, self@, index, key, value, result);
                    if pre.is_full() {
                        assert(self.map@ =~= index.remove(pre.slots[pre.order.last()].0).insert(key, pre.order.last()));
                    } else {
                        assert(self.map@ =~= index.insert(key, self@.order[0]));
                    }
                }
                result
            },
        }
    }

    /// Pushes each item of `items` in turn.
    pub fn extend(&mut self, items: Vec<(Key, Value)>)
        requires
            old(self).wf(),
        ensures
            final(self).wf(),
            final(self)@.entries() == extend_entries(old(self)@.entries(), old(self)@.capacity, items@),
            (final(self)@.stamped(), final(self)@.clock) == extend_stamped(
                old(self)@.stamped(),
                old(self)@.clock,
                old(self)@.capacity,
                items@,
            ),
            final(self)@.capacity == old(self)@.capacity,
    {
        let ghost start = self@.entries();
        let ghost start_stamped = self@.stamped();
        let ghost start_clock = self@.clock;
        let ghost all = items@;
        let mut rest = items;
        let total = rest.len();
        let mut items: Vec<(Key, Value)> = Vec::new();
        while rest.len() > 0
            invariant
                rest@.len() + items@.len() == all.len(),
                total == all.len(),
                forall|j: int| 0 <= j < rest@.len() ==> rest@[j] == #[trigger] all[j],
                forall|j: int| 0 <= j < items@.len() ==> items@[j] == #[trigger] all[all.len() - 1 - j],
            decreases rest@.len(),
        {
            let item = rest.pop().unwrap();
            items.push(item);
        }
        let mut i: usize = 0;
        while i < total
            invariant
                self.wf(),
                self@.capacity == old(self)@.capacity,
                items@.len() + i == all.len(),
                total == all.len(),
                forall|j: int| 0 <= j < items@.len() ==> items@[j] == #[trigger] all[all.len() - 1 - j],
                self@.entries() == extend_entries(start, self@.capacity, all.take(i as int)),
                (self@.stamped(), self@.clock) == extend_stamped(
                    start_stamped,
                    start_clock,
                    self@.capacity,
                    all.take(i as int),
                ),
            decreases total - i,
        {
            proof {
                assert(items@[items@.len() - 1] == all[all.len() - 1 - (items@.len() - 1)]);
            }
            let (key, value) = items.pop().unwrap();
            proof {
                assert(all[i as int] == (key, value));
                assert(all.take(i as int + 1).drop_last() =~= all.take(i as int));
            }
            self.push(key, value);
            i = i + 1;
        }
        proof {
            assert(all.take(i as int) =~= all);
        }
    }

    /// The slot of the least stale entry whose key lies in `range` and whose
    /// key and value pass `condition`.
    fn most_recent_node<Condition: Fn(&Key, &Value) -> bool>(
        &self,
        range: (Bound<Key>, Bound<Key>),
        condition: Condition,
    ) -> (r: Option<NodeId>)
        requires
            self.wf(),
            forall|k: &Key, v: &Value| #[trigger] condition.requires((k, v)),
        ensures
            match r {
                Some(id) => {
                    &&& self@.order.contains(id)
                    &&& in_range(self@.slots[id].0, range)
                    &&& condition.ensures((&self@.slots[id].0, &self@.slots[id].1), true)
                    &&& forall|x: NodeId|
                        #![trigger self@.staleness(x)]
                        self@.order.contains(x) && in_range(self@.slots[x].0, range) && surely(
                            condition,
                            self@.slots[x].0,
                            self@.slots[x].1,
                        ) ==> self@.staleness(id) <= self@.staleness(x)
                },
                None => forall|x: NodeId|
                    #![trigger self@.slots[x]]
                    self@.order.contains(x) && in_range(self@.slots[x].0, range) ==> !surely(
                        condition,
                        self@.slots[x].0,
                        self@.slots[x].1,
                    ),
            },
    {
        proof {
            self.cache.lemma_view();
        }
        if !range_is_valid(&range) {
            proof {
                assert forall|x: NodeId| #![trigger self@.slots[x]] self@.order.contains(x) implies !in_range(
                    self@.slots[x].0,
                    range,
                ) by {
                    lemma_inverted_range_empty(self@.slots[x].0, range);
                }
            }
            return None;
        }
        let entries = entries_in_range(&self.map, range);
        let mut closest: Option<(NodeId, usize)> = None;
        let mut i: usize = 0;
        while i < entries.len()
            invariant
                self.wf(),
                self@.sound(),
                valid_range(range),
                forall|k: &Key, v: &Value| #[trigger] condition.requires((k, v)),
                i <= entries@.len(),
                forall|j: int|
                    0 <= j < entries@.len() ==> self.map@.contains_key(#[trigger] entries@[j].0)
                        && self.map@[entries@[j].0] == entries@[j].1 && in_range(entries@[j].0, range),
                forall|k: Key|
                    self.map@.contains_key(k) && in_range(k, range) ==> exists|j: int|
                        0 <= j < entries@.len() && #[trigger] entries@[j].0 == k,
                match closest {
                    Some((id, best)) => {
                        &&& self@.order.contains(id)
                        &&& in_range(self@.slots[id].0, range)
                        &&& condition.ensures((&self@.slots[id].0, &self@.slots[id].1), true)
                        &&& best == self@.staleness(id)
                        &&& forall|j: int|
                            0 <= j < i && surely(
                                condition,
                                self@.slots[entries@[j].1].0,
                                self@.slots[entries@[j].1].1,
                            ) ==> best <= self@.staleness(#[trigger] entries@[j].1)
                    },
                    None => forall|j: int|
                        0 <= j < i ==> !surely(
                            condition,
                            self@.slots[#[trigger] entries@[j].1].0,
                            self@.slots[entries@[j].1].1,
                        ),
                },
            decreases entries@.len() - i,
        {
            let (key, node_id) = entries[i];
            proof {
                assert(self.map@.contains_key(entries@[i as int].0));
            }
            let node = self.cache.get_without_touch(node_id);
            let passes = condition(node.key(), node.value());
            if passes {
                proof {
                    lemma_wrapping_distance(self@.clock, self@.stamps[node_id]);
                }
                let staleness = self.cache.sequence().wrapping_sub(node.last_accessed());
                let better = match closest {
                    Some((_, best)) => staleness < best,
                    None => true,
                };
                if better {
                    closest = Some((node_id, staleness));
                }
            }
            i = i + 1;
        }
        proof {
            assert forall|x: NodeId| self@.order.contains(x) && in_range(self@.slots[x].0, range)
                implies exists|j: int| 0 <= j < entries@.len() && entries@[j].1 == x by {
                let k = self@.slots[x].0;
                assert(self.map@.contains_key(k));
                let j = choose|j: int| 0 <= j < entries@.len() && #[trigger] entries@[j].0 == k;
                assert(entries@[j].1 == x);
            }
        }
        match closest {
            Some((id, _)) => Some(id),
            None => None,
        }
    }

    /// Returns a cursor on the most recently touched entry whose key lies in
    /// `range`, touching nothing.
    pub fn most_recent_in_range(&mut self, range: (Bound<Key>, Bound<Key>)) -> (r: Option<EntryRef<'_, Self, Key, Value>>)
        requires
            old(self).wf(),
        ensures
            match r {
                Some(e) => {
                    &&& e.wf()
                    &&& e.owner() == *old(self)
                    &&& !e.has_accessed()
                    &&& in_range(old(self)@.slots[e.position()].0, range)
                    &&& forall|x: NodeId|
                        #![trigger old(self)@.staleness(x)]
                        old(self)@.order.contains(x) && in_range(old(self)@.slots[x].0, range)
                            ==> old(self)@.staleness(e.position()) <= old(self)@.staleness(x)
                },
                None => {
                    &&& *final(self) == *old(self)
                    &&& forall|x: NodeId|
                        #![trigger old(self)@.slots[x]]
                        old(self)@.order.contains(x) ==> !in_range(old(self)@.slots[x].0, range)
                },
            },
    {
        let any = |_key: &Key, _value: &Value| -> (b: bool)
            ensures
                b,
            { true };
        self.most_recent_in_range_where(range, any)
    }

    /// Returns a cursor on the most recently touched entry whose key lies in
    /// `range` and whose key and value pass `condition`, touching nothing.
    pub fn most_recent_in_range_where<Condition: Fn(&Key, &Value) -> bool>(
        &mut self,
        range: (Bound<Key>, Bound<Key>),
        condition: Condition,
    ) -> (r: Option<EntryRef<'_, Self, Key, Value>>)
        requires
            old(self).wf(),
            forall|k: &Key, v: &Value| #[trigger] condition.requires((k, v)),
        ensures
            match r {
                Some(e) => {
                    &&& e.wf()
                    &&& e.owner() == *old(self)
                    &&& !e.has_accessed()
                    &&& in_range(old(self)@.slots[e.position()].0, range)
                    &&& condition.ensures(
                        (&old(self)@.slots[e.position()].0, &old(self)@.slots[e.position()].1),
                        true,
                    )
                    &&& forall|x: NodeId|
                        #![trigger old(self)@.staleness(x)]
                        old(self)@.order.contains(x) && in_range(old(self)@.slots[x].0, range)
                            && surely(condition, old(self)@.slots[x].0, old(self)@.slots[x].1)
                            ==> old(self)@.staleness(e.position()) <= old(self)@.staleness(x)
                },
                None => {
                    &&& *final(self) == *old(self)
                    &&& forall|x: NodeId|
                        #![trigger old(self)@.slots[x]]
                        old(self)@.order.contains(x) && in_range(old(self)@.slots[x].0, range) ==> !surely(
                            condition,
                            old(self)@.slots[x].0,
                            old(self)@.slots[x].1,
                        )
                },
            },
    {
        match self.most_recent_node(range, condition) {
            Some(node) => Some(EntryRef::new(self, node)),
            None => None,
        }
    }
}

impl<Key: Ord + Copy, Value> EntryCache<Key, Value> for LruBTreeMap<Key, Value> {
    open spec fn cache_wf(&self) -> bool {
        self.wf()
    }

    open spec fn engine(&self) -> CacheView<Key, Value> {
        self@
    }

    proof fn lemma_engine_sound(&self) {
        self.cache.lemma_view();
        lemma_indexed_keys_distinct(self@, self.map@);
    }

    fn cache(&self) -> (r: &LruCache<Key, Value>) {
        &self.cache
    }

    fn touch(&mut self, node: NodeId) {
        proof {
            lemma_index_after_touch(self@, self.map@, node);
        }
        self.cache.touch(node);
    }

    fn remove(&mut self, node: NodeId) -> (r: ((Key, Value), Option<NodeId>, Option<NodeId>)) {
        proof {
            self.cache.lemma_view();
            lemma_index_after_remove(self@, self.map@, node);
        }
        let ((key, value), next, previous) = self.cache.remove(node);
        self.map.remove(&key);
        ((key, value), next, previous)
    }
}


impl<Key: Ord + Copy, Value> LruMap<Key, Value> for LruBTreeMap<Key, Value> {
    open spec fn keys_lawful() -> bool {
        obeys_cmp::<Key>()
    }

    fn new(capacity: usize) -> (r: Self) {
        Self::new(capacity)
    }

    fn len(&self) -> (r: usize) {
        self.cache.len()
    }

    fn head(&mut self) -> (r: Option<EntryRef<'_, Self, Key, Value>>) {
        match self.cache.head() {
            Some(node) => Some(EntryRef::new(self, node)),
            None => None,
        }
    }

    fn tail(&mut self) -> (r: Option<EntryRef<'_, Self, Key, Value>>) {
        match self.cache.tail() {
            Some(node) => Some(EntryRef::new(self, node)),
            None => None,
        }
    }

    fn iter(&self) -> (r: Iter<'_, Key, Value>) {
        self.cache.iter()
    }

    fn get(&mut self, key: &Key) -> (r: Option<&Value>) {
        self.get(key)
    }

    fn get_without_update(&self, key: &Key) -> (r: Option<&Value>) {
        self.get_without_update(key)
    }

    fn entry(&mut self, key: &Key) -> (r: Option<EntryRef<'_, Self, Key, Value>>) {
        self.entry(key)
    }

    fn push(&mut self, key: Key, value: Value) -> (r: Option<Removed<Key, Value>>) {
        self.push(key, value)
    }

    fn extend(&mut self, items: Vec<(Key, Value)>) {
        self.extend(items)
    }

    fn into_iter(self) -> (r: IntoIter<Key, Value>) {
        IntoIter::new(self.cache)
    }
}

} // verus!
