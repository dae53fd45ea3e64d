//! Least Recently Used maps with a fixed capacity: an arena-backed recency
//! list with an index by hash or by order on top.
use vstd::prelude::*;

mod hashed;
mod laws;
mod lru;
mod ordered;
mod view;

pub use crate::hashed::LruHashMap;
pub use crate::laws::{
    backward_walk, drain_walk, forward_walk, lemma_drain, lemma_full_write_evicts_tail,
    lemma_held_write_replaces, lemma_len_within_capacity, lemma_round_trip,
    lemma_staleness_grows, lemma_taken_key_gone, lemma_touch_moves_to_front, lemma_touch_resets_staleness,
    lemma_write_within_capacity,
};
pub use crate::lru::{EntryCache, EntryRef, IntoIter, Iter, LruCache, Node, NodeId, Removed};
pub use crate::ordered::{in_range, surely, valid_range, LruBTreeMap};
pub use crate::view::{
    counter_modulus, extend_entries, extend_stamped, push_entries, push_stamped, wrapped, written,
    CacheView,
};

verus! {

/// A Least Recently Used map interface that supports all map implementations
/// of this crate.
pub trait LruMap<Key, Value>: EntryCache<Key, Value> + Sized {
    /// The laws the key type obeys so that the map's index works.
    spec fn keys_lawful() -> bool;

    /// Creates a new map with the maximum `capacity`.
    fn new(capacity: usize) -> (r: Self)
        requires
            2 <= capacity <= u32::MAX,
            Self::keys_lawful(),
        ensures
            r.cache_wf(),
            r.engine().order.len() == 0,
            r.engine().clock == 0,
            r.engine().capacity == capacity,
    ;

    /// Returns the number of keys present in this map.
    fn len(&self) -> (r: usize)
        requires
            self.cache_wf(),
        ensures
            r == self.engine().order.len(),
    ;

    /// Returns true if this map contains no keys.
    fn is_empty(&self) -> (r: bool)
        requires
            self.cache_wf(),
        ensures
            r == (self.engine().order.len() == 0),
    {
        self.len() == 0
    }

    /// Returns a reference to the most recently used key.
    fn head(&mut self) -> (r: Option<EntryRef<'_, Self, Key, Value>>)
        requires
            old(self).cache_wf(),
        ensures
            match r {
                Some(e) => {
                    &&& e.wf()
                    &&& e.owner() == *old(self)
                    &&& e.position() == old(self).engine().order[0]
                    &&& !e.has_accessed()
                },
                None => old(self).engine().order.len() == 0 && *final(self) == *old(self),
            },
    ;

    /// Returns a reference to the least recently used key.
    fn tail(&mut self) -> (r: Option<EntryRef<'_, Self, Key, Value>>)
        requires
            old(self).cache_wf(),
        ensures
            match r {
                Some(e) => {
                    &&& e.wf()
                    &&& e.owner() == *old(self)
                    &&& e.position() == old(self).engine().order.last()
                    &&& !e.has_accessed()
                },
                None => old(self).engine().order.len() == 0 && *final(self) == *old(self),
            },
    ;

    /// Returns an iterator over the keys and values in order from most
    /// recently touched to least recently touched.
    fn iter(&self) -> (r: Iter<'_, Key, Value>)
        requires
            self.cache_wf(),
        ensures
            r.wf(),
            r.source() == self.engine(),
            r.front() == 0,
            r.back() == -1,
    ;

    /// Returns the stored value for `key`, if present, touching the key.
    fn get(&mut self, key: &Key) -> (r: Option<&Value>)
        requires
            old(self).cache_wf(),
        ensures
            final(self).cache_wf(),
            match r {
                Some(v) => {
                    &&& old(self).engine().contains_key(*key)
                    &&& *v == old(self).engine().value_of(*key)
                    &&& final(self).engine() == old(self).engine().touched(old(self).engine().id_of(*key))
                },
                None => {
                    &&& !old(self).engine().contains_key(*key)
                    &&& final(self).engine() == old(self).engine()
                },
            },
    ;

    /// Returns the stored value for `key`, if present, without touching it.
    fn get_without_update(&self, key: &Key) -> (r: Option<&Value>)
        requires
            self.cache_wf(),
        ensures
            match r {
                Some(v) => self.engine().contains_key(*key) && *v == self.engine().value_of(*key),
                None => !self.engine().contains_key(*key),
            },
    ;

    /// Returns an [`EntryRef`] for `key`, if present, without touching it.
    fn entry(&mut self, key: &Key) -> (r: Option<EntryRef<'_, Self, Key, Value>>)
        requires
            old(self).cache_wf(),
        ensures
            match r {
                Some(e) => {
                    &&& old(self).engine().contains_key(*key)
                    &&& e.wf()
                    &&& e.owner() == *old(self)
                    &&& e.position() == old(self).engine().id_of(*key)
                    &&& !e.has_accessed()
                },
                None => !old(self).engine().contains_key(*key) && *final(self) == *old(self),
            },
    ;

    /// Inserts `value` for `key`, touching the key. A value already stored
    /// for the key is returned as [`Removed::PreviousValue`]; otherwise, when
    /// the map is full, the least recently used entry is returned as
    /// [`Removed::Evicted`].
    fn push(&mut self, key: Key, value: Value) -> (r: Option<Removed<Key, Value>>)
        requires
            old(self).cache_wf(),
        ensures
            final(self).cache_wf(),
            written(old(self).engine(), final(self).engine(), key, value, r),
            final(self).engine().entries() == push_entries(
                old(self).engine().entries(),
                old(self).engine().capacity,
                key,
                value,
            ),
            (final(self).engine().stamped(), final(self).engine().clock) == push_stamped(
                old(self).engine().stamped(),
                old(self).engine().clock,
                old(self).engine().capacity,
                key,
                value,
            ),
    ;

    /// Pushes each item of `items` in turn.
    fn extend(&mut self, items: Vec<(Key, Value)>)
        requires
            old(self).cache_wf(),
        ensures
            final(self).cache_wf(),
            final(self).engine().entries() == extend_entries(
                old(self).engine().entries(),
                old(self).engine().capacity,
                items@,
            ),
            (final(self).engine().stamped(), final(self).engine().clock) == extend_stamped(
                old(self).engine().stamped(),
                old(self).engine().clock,
                old(self).engine().capacity,
                items@,
            ),
            final(self).engine().capacity == old(self).engine().capacity,
    ;

    /// Returns an iterator that drains the map from the most to the least
    /// recently used entry.
    fn into_iter(self) -> (r: IntoIter<Key, Value>)
        requires
            self.cache_wf(),
        ensures
            r.wf(),
            r.source() == self.engine(),
    ;
}

} // verus!
