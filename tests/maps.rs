use std::ops::Bound;

use lrumap::{LruBTreeMap, LruHashMap, LruMap, Removed};

fn values_in_order<M: LruMap<u32, u32>>(lru: &M) -> Vec<u32> {
    let mut values = Vec::new();
    let mut iter = lru.iter();
    while let Some((_key, value)) = iter.next() {
        values.push(*value);
    }
    values
}

fn basic_tests<M>()
where
    M: LruMap<u32, u32>,
{
    let mut lru = M::new(2);
    assert!(lru.is_empty());
    assert_eq!(lru.push(1, 1), None);
    assert_eq!(lru.len(), 1);
    assert_eq!(lru.push(2, 2), None);
    assert_eq!(lru.len(), 2);
    // Pushing a new value will expire the first push.
    assert_eq!(lru.push(3, 3), Some(Removed::Evicted(1, 1)));
    assert_eq!(lru.len(), 2);
    // Replacing 2 will return the existing value.
    assert_eq!(lru.push(2, 22), Some(Removed::PreviousValue(2)));
    // Replacing the value should have made 2 the most recent entry, meaning a
    // push will remove 3.
    assert_eq!(lru.push(4, 4), Some(Removed::Evicted(3, 3)));
    // Getting an entry should update its access
    assert_eq!(lru.get(&2), Some(&22));
    // But not using get_without_update
    assert_eq!(lru.get_without_update(&4), Some(&4));
    // Key 2 is still the front, and shouldn't be stale.
    assert_eq!(lru.entry(&2).unwrap().staleness(), 0);
    // Key 4 is the second, and there has been one modification since the entry
    // was last touched.
    assert_eq!(lru.entry(&4).unwrap().staleness(), 1);
    assert_eq!(lru.push(5, 5), Some(Removed::Evicted(4, 4)));
    // The key is already the most recent one, so nothing moves.
    assert_eq!(lru.get(&5), Some(&5));
    assert_eq!(lru.head().unwrap().key(), &5);
}

#[test]
fn hash_basics() {
    basic_tests::<LruHashMap<_, _>>();
}

#[test]
fn btree_basics() {
    basic_tests::<LruBTreeMap<_, _>>();
}

fn larger_tests<M>()
where
    M: LruMap<u32, u32>,
{
    // The final re-ordering edge case only arises with at least 3 entries. With
    // only 2 entries, either entry is either the head or the tail.
    let mut lru = M::new(5);
    lru.extend(vec![(1, 1), (2, 2), (3, 3), (4, 4), (5, 5)]);
    // Test the second to last moving to the front => 2, 5, 4, 3, 1
    assert_eq!(lru.get(&2), Some(&2));
    assert_eq!(values_in_order(&lru), vec![2, 5, 4, 3, 1]);
    // Test moving the middle entry => 4, 2, 5, 3, 1
    assert_eq!(lru.get(&4), Some(&4));
    assert_eq!(values_in_order(&lru), vec![4, 2, 5, 3, 1]);
    // Test moving the second entry => 2, 4, 5, 3, 1
    assert_eq!(lru.get(&2), Some(&2));
    // Test the staleness (number of changes since last touch).
    assert_eq!(lru.entry(&2).unwrap().staleness(), 0);
    assert_eq!(lru.entry(&4).unwrap().staleness(), 1);
    assert_eq!(lru.entry(&5).unwrap().staleness(), 3);
    assert_eq!(lru.entry(&3).unwrap().staleness(), 5);
    assert_eq!(lru.entry(&1).unwrap().staleness(), 7);

    // Verify the order, but drain the map this time.
    let mut drained = Vec::new();
    let mut iter = lru.into_iter();
    while let Some((_key, value)) = iter.next() {
        drained.push(value);
    }
    assert_eq!(drained, vec![2, 4, 5, 3, 1]);
}

#[test]
fn hash_larger() {
    larger_tests::<LruHashMap<_, _>>();
}

#[test]
fn btree_larger() {
    larger_tests::<LruBTreeMap<_, _>>();
}

fn enumeration_tests<M>()
where
    M: LruMap<u32, u32>,
{
    let mut lru = M::new(3);
    assert!(lru.head().is_none());
    lru.push(1, 1);
    {
        let mut entry = lru.head().unwrap();
        assert_eq!(entry.key(), &1);
        assert!(!entry.move_next());
        assert_eq!(entry.key(), &1);
        assert!(!entry.move_previous());
        assert_eq!(entry.key(), &1);
    }
    lru.push(2, 2);
    {
        let mut entry = lru.head().unwrap();
        assert_eq!(entry.key(), &2);
        assert_eq!(entry.peek_value(), &2);
        assert!(entry.move_next());
        assert_eq!(entry.key(), &1);
        assert_eq!(entry.peek_value(), &1);
        assert!(!entry.move_next());
        assert!(entry.move_previous());
        assert_eq!(entry.key(), &2);
        assert_eq!(entry.peek_value(), &2);
        assert!(!entry.move_previous());
        assert_eq!(entry.key(), &2);
    }
    lru.push(3, 3);
    {
        // Test mutating and iterating.
        let mut entry = lru.tail().unwrap();
        assert_eq!(entry.key(), &1);
        // By accessing the value, this should now become the head.
        assert_eq!(entry.value(), &1);
        assert!(!entry.move_previous());
        // Iterate through the remaining entries.
        assert!(entry.move_next());
        assert_eq!(entry.key(), &3);
        assert_eq!(entry.peek_value(), &3);
        assert!(entry.move_next());
        assert_eq!(entry.key(), &2);
        assert_eq!(entry.peek_value(), &2);
        assert!(!entry.move_next());
    }
}

#[test]
fn hash_enumeration() {
    enumeration_tests::<LruHashMap<_, _>>();
}

#[test]
fn btree_enumeration() {
    enumeration_tests::<LruBTreeMap<_, _>>();
}

fn iteration_tests<M>()
where
    M: LruMap<u32, u32>,
{
    let mut lru = M::new(5);
    lru.extend(vec![(1, 1), (2, 2), (3, 3), (4, 4), (5, 5)]);
    let mut pairs = Vec::new();
    let mut all = lru.iter();
    while let Some(pair) = all.next() {
        pairs.push(pair);
    }
    assert_eq!(pairs, &[(&5, &5), (&4, &4), (&3, &3), (&2, &2), (&1, &1)]);

    // Test double-ended iteration
    let mut iter = lru.iter();
    assert!(iter.next_back().is_none());
    for i in (1..=5).rev() {
        assert_eq!(iter.next().unwrap().0, &i);
    }
    assert!(iter.next().is_none());
    // We're now past the end of the tail, we should be able to recover and get
    // back to the head.
    for i in 1..=5 {
        assert_eq!(iter.next_back().unwrap().0, &i);
    }
    assert!(iter.next_back().is_none());

    // Test partial iteration
    let entry = lru.entry(&3).unwrap();
    let mut partial = Vec::new();
    let mut from_three = entry.iter();
    while let Some(pair) = from_three.next() {
        partial.push(pair);
    }
    assert_eq!(partial, &[(&3, &3), (&2, &2), (&1, &1)]);
    // Moving back should return the previous entry from the starting point.
    assert_eq!(lru.entry(&3).unwrap().iter().next_back().unwrap().0, &4);
}

#[test]
fn hash_iteration() {
    iteration_tests::<LruHashMap<_, _>>();
}

#[test]
fn btree_iteration() {
    iteration_tests::<LruBTreeMap<_, _>>();
}

fn entry_removal_tests<M>()
where
    M: LruMap<u32, u32>,
{
    let mut lru = M::new(3);
    lru.push(1, 1);
    lru.push(2, 2);
    lru.push(3, 3);
    let entry = lru.head().unwrap();
    // Remove 3, no previous, should return None.
    assert!(entry.remove_moving_previous().is_none());
    assert_eq!(lru.len(), 2);
    assert!(lru.get(&3).is_none());
    let entry = lru.tail().unwrap();
    // Remove 1, no next, should return None.
    assert!(entry.remove_moving_next().is_none());
    assert_eq!(lru.len(), 1);
    assert!(lru.get(&1).is_none());
    let (key, _value) = lru.head().unwrap().take();
    assert!(lru.is_empty());
    assert!(lru.get(&2).is_none());
    assert_eq!(key, 2);
    assert!(lru.head().is_none());
    assert!(lru.tail().is_none());

    // Start fresh and test deleting the other directions
    lru.push(1, 1);
    lru.push(2, 2);
    lru.push(3, 3);
    // Remove 3, moving next, should end up on 2
    let mut entry = lru.head().unwrap();
    entry = entry.remove_moving_next().unwrap();
    assert_eq!(entry.key(), &2);
    // Remove 1, moving previous, should end up on 2
    let mut entry = lru.tail().unwrap();
    entry = entry.remove_moving_previous().unwrap();
    let (key, _value) = entry.take();
    assert_eq!(key, 2);
    assert!(lru.head().is_none());
    assert!(lru.tail().is_none());
}

#[test]
fn hash_entry_removal() {
    entry_removal_tests::<LruHashMap<_, _>>();
}

#[test]
fn btree_entry_removal() {
    entry_removal_tests::<LruBTreeMap<_, _>>();
}

#[test]
fn most_recent_in_range_test() {
    let mut lru = LruBTreeMap::new(5);
    lru.extend(vec![(1, 1), (2, 2), (3, 3), (4, 4), (5, 5)]);

    assert_eq!(
        lru.most_recent_in_range((Bound::Included(2), Bound::Included(4)))
            .unwrap()
            .key(),
        &4
    );
    lru.get(&2);
    assert_eq!(
        lru.most_recent_in_range((Bound::Included(2), Bound::Included(4)))
            .unwrap()
            .key(),
        &2
    );
    assert_eq!(
        lru.most_recent_in_range_where(
            (Bound::Included(2), Bound::Included(4)),
            |key: &u32, _value: &u16| key != &2
        )
        .unwrap()
        .key(),
        &4
    );
}
