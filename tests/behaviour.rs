use std::hash::RandomState;
use std::ops::Bound;

use lrumap::{LruBTreeMap, LruHashMap, LruMap, Removed};

fn keys_in_order<M: LruMap<u32, u32>>(lru: &M) -> Vec<u32> {
    let mut keys = Vec::new();
    let mut iter = lru.iter();
    while let Some((key, _value)) = iter.next() {
        keys.push(*key);
    }
    keys
}

fn keys_backwards<M: LruMap<u32, u32>>(lru: &M) -> Vec<u32> {
    let mut iter = lru.iter();
    while iter.next().is_some() {}
    let mut keys = Vec::new();
    while let Some((key, _value)) = iter.next_back() {
        keys.push(*key);
    }
    keys
}

fn capacity_two_scenario<M: LruMap<u32, u32>>() {
    let mut lru = M::new(2);
    assert_eq!(lru.push(1, 1), None);
    assert_eq!(lru.push(2, 2), None);
    assert_eq!(lru.push(3, 3), Some(Removed::Evicted(1, 1)));
    assert_eq!(lru.push(2, 22), Some(Removed::PreviousValue(2)));
    assert_eq!(lru.push(4, 4), Some(Removed::Evicted(3, 3)));
    assert_eq!(keys_in_order(&lru), vec![4, 2]);
    assert_eq!(lru.get(&2), Some(&22));
    assert_eq!(keys_in_order(&lru), vec![2, 4]);
    assert_eq!(lru.get_without_update(&4), Some(&4));
    assert_eq!(keys_in_order(&lru), vec![2, 4]);
    assert_eq!(lru.head().unwrap().key(), &2);
}

#[test]
fn capacity_two_scenario_hash() {
    capacity_two_scenario::<LruHashMap<_, _>>();
}

#[test]
fn capacity_two_scenario_btree() {
    capacity_two_scenario::<LruBTreeMap<_, _>>();
}

#[test]
fn range_query_scenario() {
    let mut lru = LruBTreeMap::new(5);
    lru.extend(vec![(1u32, 1u32), (2, 2), (3, 3), (4, 4), (5, 5)]);
    assert_eq!(keys_in_order(&lru), vec![5, 4, 3, 2, 1]);
    let range = (Bound::Included(2), Bound::Included(4));
    assert_eq!(lru.most_recent_in_range(range).unwrap().key(), &4);
    lru.get(&2);
    assert_eq!(lru.most_recent_in_range(range).unwrap().key(), &2);
}

#[test]
fn range_query_touches_nothing() {
    let mut lru = LruBTreeMap::new(5);
    lru.extend(vec![(1u32, 1u32), (2, 2), (3, 3), (4, 4), (5, 5)]);
    assert_eq!(lru.most_recent_in_range((Bound::Included(1), Bound::Included(3))).unwrap().key(), &3);
    assert_eq!(keys_in_order(&lru), vec![5, 4, 3, 2, 1]);
}

#[test]
fn range_query_bounds() {
    let mut lru = LruBTreeMap::new(5);
    lru.extend(vec![(1u32, 1u32), (2, 2), (3, 3), (4, 4), (5, 5)]);
    let excluded = (Bound::Excluded(2), Bound::Excluded(4));
    assert_eq!(lru.most_recent_in_range(excluded).unwrap().key(), &3);
    let below = (Bound::Unbounded, Bound::Excluded(3));
    assert_eq!(lru.most_recent_in_range(below).unwrap().key(), &2);
    let above = (Bound::Excluded(5), Bound::Unbounded);
    assert!(lru.most_recent_in_range(above).is_none());
    let everything = (Bound::Unbounded, Bound::Unbounded);
    assert_eq!(lru.most_recent_in_range(everything).unwrap().key(), &5);
}

#[test]
fn range_query_with_condition() {
    let mut lru = LruBTreeMap::<u32, u16>::new(5);
    lru.extend(vec![(1, 1), (2, 2), (3, 3), (4, 4), (5, 5)]);
    let condition = |key: &u32, value: &u16| key == &3 || value == &4;
    let range = (Bound::Included(2), Bound::Included(4));
    assert_eq!(lru.most_recent_in_range_where(range, condition).unwrap().key(), &4);
    lru.get(&2);
    assert_eq!(lru.most_recent_in_range_where(range, condition).unwrap().key(), &4);
    lru.get(&3);
    assert_eq!(lru.most_recent_in_range_where(range, condition).unwrap().key(), &3);
    let never = |_key: &u32, _value: &u16| false;
    assert!(lru.most_recent_in_range_where(range, never).is_none());
}

fn entry_staleness_example<M: LruMap<u32, u32>>() {
    let mut lru = M::new(3);
    lru.push(1, 1);
    lru.push(2, 2);
    lru.push(3, 3);
    let mut entry = lru.entry(&2).unwrap();
    assert_eq!(entry.staleness(), 1);
    assert_eq!(entry.peek_value(), &2);
    assert_eq!(entry.staleness(), 1);
    assert_eq!(entry.value(), &2);
    assert_eq!(entry.staleness(), 0);
    assert_eq!(lru.head().unwrap().key(), &2);
}

#[test]
fn entry_staleness_example_hash() {
    entry_staleness_example::<LruHashMap<_, _>>();
}

#[test]
fn entry_staleness_example_btree() {
    entry_staleness_example::<LruBTreeMap<_, _>>();
}

fn push_example<M: LruMap<u32, u32>>() {
    let mut lru = M::new(3);
    lru.push(1, 1);
    lru.push(2, 2);
    lru.push(3, 3);
    assert_eq!(lru.push(4, 4), Some(Removed::Evicted(1, 1)));
    assert_eq!(lru.head().unwrap().key(), &4);
    assert_eq!(lru.tail().unwrap().key(), &2);
}

#[test]
fn push_example_hash() {
    push_example::<LruHashMap<_, _>>();
}

#[test]
fn push_example_btree() {
    push_example::<LruBTreeMap<_, _>>();
}

fn extend_example<M: LruMap<u32, u32>>() {
    let mut lru = M::new(3);
    lru.extend(vec![(1, 1), (2, 2), (3, 3), (4, 4)]);
    assert_eq!(lru.head().unwrap().key(), &4);
    assert_eq!(lru.tail().unwrap().key(), &2);
}

#[test]
fn extend_example_hash() {
    extend_example::<LruHashMap<_, _>>();
}

#[test]
fn extend_example_btree() {
    extend_example::<LruBTreeMap<_, _>>();
}

fn extend_repeats_push<M: LruMap<u32, u32>>() {
    let mut lru = M::new(3);
    lru.push(7, 70);
    lru.extend(vec![(1, 1), (7, 71), (2, 2), (1, 10)]);
    assert_eq!(keys_in_order(&lru), vec![1, 2, 7]);
    assert_eq!(lru.get_without_update(&7), Some(&71));
    assert_eq!(lru.get_without_update(&1), Some(&10));
    assert_eq!(lru.len(), 3);
}

#[test]
fn extend_repeats_push_hash() {
    extend_repeats_push::<LruHashMap<_, _>>();
}

#[test]
fn extend_repeats_push_btree() {
    extend_repeats_push::<LruBTreeMap<_, _>>();
}

fn length_never_exceeds_capacity<M: LruMap<u32, u32>>() {
    let mut lru = M::new(4);
    for i in 0..50u32 {
        lru.push(i % 7, i);
        assert!(lru.len() <= 4);
    }
    assert_eq!(lru.len(), 4);
}

#[test]
fn length_never_exceeds_capacity_hash() {
    length_never_exceeds_capacity::<LruHashMap<_, _>>();
}

#[test]
fn length_never_exceeds_capacity_btree() {
    length_never_exceeds_capacity::<LruBTreeMap<_, _>>();
}

fn replacing_keeps_length<M: LruMap<u32, u32>>() {
    let mut lru = M::new(3);
    lru.extend(vec![(1, 1), (2, 2)]);
    assert_eq!(lru.push(1, 100), Some(Removed::PreviousValue(1)));
    assert_eq!(lru.len(), 2);
    assert_eq!(lru.push(1, 101), Some(Removed::PreviousValue(100)));
    assert_eq!(lru.len(), 2);
    assert_eq!(keys_in_order(&lru), vec![1, 2]);
}

#[test]
fn replacing_keeps_length_hash() {
    replacing_keeps_length::<LruHashMap<_, _>>();
}

#[test]
fn replacing_keeps_length_btree() {
    replacing_keeps_length::<LruBTreeMap<_, _>>();
}

fn touch_moves_to_front<M: LruMap<u32, u32>>() {
    let mut lru = M::new(4);
    lru.extend(vec![(1, 1), (2, 2), (3, 3), (4, 4)]);
    for key in [1u32, 3, 2, 4, 1] {
        assert!(lru.get(&key).is_some());
        assert_eq!(lru.head().unwrap().key(), &key);
    }
    assert!(lru.get(&9).is_none());
    assert_eq!(lru.head().unwrap().key(), &1);
}

#[test]
fn touch_moves_to_front_hash() {
    touch_moves_to_front::<LruHashMap<_, _>>();
}

#[test]
fn touch_moves_to_front_btree() {
    touch_moves_to_front::<LruBTreeMap<_, _>>();
}

fn peek_changes_nothing<M: LruMap<u32, u32>>() {
    let mut lru = M::new(4);
    lru.extend(vec![(1, 1), (2, 2), (3, 3)]);
    let before: Vec<usize> = [1u32, 2, 3].iter().map(|k| lru.entry(k).unwrap().staleness()).collect();
    assert_eq!(lru.get_without_update(&1), Some(&1));
    assert_eq!(lru.get_without_update(&5), None);
    assert_eq!(keys_in_order(&lru), vec![3, 2, 1]);
    let after: Vec<usize> = [1u32, 2, 3].iter().map(|k| lru.entry(k).unwrap().staleness()).collect();
    assert_eq!(before, after);
}

#[test]
fn peek_changes_nothing_hash() {
    peek_changes_nothing::<LruHashMap<_, _>>();
}

#[test]
fn peek_changes_nothing_btree() {
    peek_changes_nothing::<LruBTreeMap<_, _>>();
}

fn staleness_follows_order<M: LruMap<u32, u32>>() {
    let mut lru = M::new(5);
    lru.extend(vec![(1, 1), (2, 2), (3, 3), (4, 4), (5, 5)]);
    let stale: Vec<usize> = [5u32, 4, 3, 2, 1].iter().map(|k| lru.entry(k).unwrap().staleness()).collect();
    assert_eq!(stale, vec![0, 1, 2, 3, 4]);
    lru.get(&1);
    assert_eq!(lru.entry(&1).unwrap().staleness(), 0);
    assert_eq!(lru.entry(&2).unwrap().staleness(), 4);
    assert_eq!(lru.entry(&5).unwrap().staleness(), 1);
}

#[test]
fn staleness_follows_order_hash() {
    staleness_follows_order::<LruHashMap<_, _>>();
}

#[test]
fn staleness_follows_order_btree() {
    staleness_follows_order::<LruBTreeMap<_, _>>();
}

fn backward_is_reverse_of_forward<M: LruMap<u32, u32>>() {
    let mut lru = M::new(6);
    lru.extend(vec![(1, 1), (2, 2), (3, 3), (4, 4)]);
    lru.get(&2);
    let forward = keys_in_order(&lru);
    let mut backward = keys_backwards(&lru);
    backward.reverse();
    assert_eq!(forward, vec![2, 4, 3, 1]);
    assert_eq!(forward, backward);
}

#[test]
fn backward_is_reverse_of_forward_hash() {
    backward_is_reverse_of_forward::<LruHashMap<_, _>>();
}

#[test]
fn backward_is_reverse_of_forward_btree() {
    backward_is_reverse_of_forward::<LruBTreeMap<_, _>>();
}

fn draining_leaves_nothing<M: LruMap<u32, u32>>() {
    let mut lru = M::new(3);
    lru.extend(vec![(1, 10), (2, 20), (3, 30)]);
    let mut iter = lru.into_iter();
    assert_eq!(iter.next(), Some((3, 30)));
    assert_eq!(iter.next(), Some((2, 20)));
    assert_eq!(iter.next(), Some((1, 10)));
    assert_eq!(iter.next(), None);
    assert_eq!(iter.next(), None);
}

#[test]
fn draining_leaves_nothing_hash() {
    draining_leaves_nothing::<LruHashMap<_, _>>();
}

#[test]
fn draining_leaves_nothing_btree() {
    draining_leaves_nothing::<LruBTreeMap<_, _>>();
}

fn removing_everything_empties<M: LruMap<u32, u32>>() {
    let mut lru = M::new(3);
    lru.extend(vec![(1, 1), (2, 2), (3, 3)]);
    while let Some(entry) = lru.head() {
        let _ = entry.take();
    }
    assert!(lru.is_empty());
    assert_eq!(lru.push(4, 4), None);
    assert_eq!(lru.push(5, 5), None);
    assert_eq!(lru.push(6, 6), None);
    assert_eq!(lru.push(7, 7), Some(Removed::Evicted(4, 4)));
    assert_eq!(keys_in_order(&lru), vec![7, 6, 5]);
}

#[test]
fn removing_everything_empties_hash() {
    removing_everything_empties::<LruHashMap<_, _>>();
}

#[test]
fn removing_everything_empties_btree() {
    removing_everything_empties::<LruBTreeMap<_, _>>();
}

#[test]
fn hash_map_with_hasher() {
    let mut lru: LruHashMap<u32, u32, RandomState> = LruHashMap::with_hasher(2, RandomState::new());
    assert_eq!(lru.len(), 0);
    assert_eq!(lru.push(1, 1), None);
    assert_eq!(lru.push(2, 2), None);
    assert_eq!(lru.push(3, 3), Some(Removed::Evicted(1, 1)));
    assert_eq!(lru.get(&2), Some(&2));
}

#[test]
fn hash_map_get_mut() {
    let mut lru = LruHashMap::new(3);
    lru.extend(vec![(1u32, 1u32), (2, 2)]);
    *lru.get_mut(&1).unwrap() = 11;
    assert_eq!(lru.get_without_update(&1), Some(&11));
    assert_eq!(lru.head().unwrap().key(), &1);
    assert!(lru.get_mut(&3).is_none());
}

fn take_and_move<M: LruMap<u32, u32>>() {
    let mut lru = M::new(4);
    lru.extend(vec![(1, 1), (2, 2), (3, 3), (4, 4)]);
    let entry = lru.entry(&3).unwrap();
    let ((key, value), next) = entry.take_and_move_next();
    assert_eq!((key, value), (3, 3));
    assert_eq!(next.unwrap().key(), &2);
    let entry = lru.entry(&2).unwrap();
    let ((key, _), previous) = entry.take_and_move_previous();
    assert_eq!(key, 2);
    assert_eq!(previous.unwrap().key(), &4);
    assert_eq!(keys_in_order(&lru), vec![4, 1]);
    assert_eq!(lru.len(), 2);
    assert!(lru.get(&3).is_none());
}

#[test]
fn take_and_move_hash() {
    take_and_move::<LruHashMap<_, _>>();
}

#[test]
fn take_and_move_btree() {
    take_and_move::<LruBTreeMap<_, _>>();
}

#[test]
fn inverted_range_finds_nothing() {
    let mut lru = LruBTreeMap::new(5);
    lru.extend(vec![(1u32, 1u32), (2, 2), (3, 3), (4, 4), (5, 5)]);
    assert!(lru.most_recent_in_range((Bound::Included(4), Bound::Included(2))).is_none());
    assert!(lru.most_recent_in_range((Bound::Excluded(3), Bound::Excluded(3))).is_none());
    assert!(lru.most_recent_in_range((Bound::Included(3), Bound::Excluded(2))).is_none());
    let any = |_key: &u32, _value: &u32| true;
    assert!(lru.most_recent_in_range_where((Bound::Excluded(5), Bound::Included(1)), any).is_none());
    assert_eq!(lru.most_recent_in_range((Bound::Included(3), Bound::Excluded(3))).map(|e| *e.key()), None);
    assert_eq!(lru.most_recent_in_range((Bound::Included(3), Bound::Included(3))).unwrap().key(), &3);
    assert_eq!(keys_in_order(&lru), vec![5, 4, 3, 2, 1]);
}

fn extend_counts_touches<M: LruMap<u32, u32>>() {
    let mut lru = M::new(3);
    lru.extend(vec![(1, 1), (1, 2), (2, 2), (2, 3), (1, 4)]);
    // Re-writing the front key does not count as a touch.
    assert_eq!(lru.entry(&1).unwrap().staleness(), 0);
    assert_eq!(lru.entry(&2).unwrap().staleness(), 1);
    assert_eq!(lru.get_without_update(&1), Some(&4));
    assert_eq!(lru.get_without_update(&2), Some(&3));
}

#[test]
fn extend_counts_touches_hash() {
    extend_counts_touches::<LruHashMap<_, _>>();
}

#[test]
fn extend_counts_touches_btree() {
    extend_counts_touches::<LruBTreeMap<_, _>>();
}
