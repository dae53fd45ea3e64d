use lrumap::{LruCache, Removed};

fn keys(cache: &LruCache<u32, u32>) -> Vec<u32> {
    let mut keys = Vec::new();
    let mut iter = cache.iter();
    while let Some((key, _value)) = iter.next() {
        keys.push(*key);
    }
    keys
}

#[test]
fn engine_push_touch_remove() {
    let mut cache = LruCache::new(3);
    let (a, none_a) = cache.push(1, 10);
    let (b, none_b) = cache.push(2, 20);
    let (c, none_c) = cache.push(3, 30);
    assert!(none_a.is_none() && none_b.is_none() && none_c.is_none());
    assert_eq!(keys(&cache), vec![3, 2, 1]);
    assert_eq!(cache.head(), Some(c));
    assert_eq!(cache.tail(), Some(a));
    assert_eq!(cache.sequence(), 3);

    cache.touch(a);
    assert_eq!(keys(&cache), vec![1, 3, 2]);
    assert_eq!(cache.sequence(), 4);
    cache.touch(a);
    assert_eq!(cache.sequence(), 4);

    let (removed, next, previous) = cache.remove(c);
    assert_eq!(removed, (3, 30));
    assert_eq!(next, Some(b));
    assert_eq!(previous, Some(a));
    assert_eq!(cache.len(), 2);
    assert_eq!(keys(&cache), vec![1, 2]);

    let (reused, evicted) = cache.push(4, 40);
    assert_eq!(reused, c);
    assert!(evicted.is_none());
    let (slot, evicted) = cache.push(5, 50);
    assert_eq!(slot, b);
    assert_eq!(evicted, Some(Removed::Evicted(2, 20)));
    assert_eq!(keys(&cache), vec![5, 4, 1]);
}

#[test]
fn engine_node_access() {
    let mut cache = LruCache::new(2);
    let (a, _) = cache.push(1, 10);
    let (b, _) = cache.push(2, 20);
    assert_eq!(cache.get_without_touch(a).key(), &1);
    assert_eq!(cache.get_without_touch(a).value(), &10);
    assert_eq!(cache.get_without_touch(a).last_accessed(), 1);
    assert_eq!(cache.get(a).value(), &10);
    assert_eq!(cache.head(), Some(a));
    assert_eq!(cache.get_without_touch(a).last_accessed(), 3);
    let old = cache.get_mut(b).replace_value(21);
    assert_eq!(old, 20);
    assert_eq!(cache.head(), Some(b));
    *cache.get_mut(a).value_mut() = 11;
    assert_eq!(cache.get_without_touch(a).value(), &11);
    assert_eq!(keys(&cache), vec![1, 2]);
}
