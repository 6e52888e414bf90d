use image_cache::lrucache::LRUCache;

#[test]
fn inserting_past_capacity_evicts_oldest() {
    let mut cache = LRUCache::new(2);
    cache.insert("A", 1);
    cache.insert("B", 2);
    cache.insert("C", 3);
    assert!(!cache.contains_key(&"A"));
    assert!(cache.contains_key(&"B"));
    assert!(cache.contains_key(&"C"));
    assert_eq!(cache.len(), 2);
}

#[test]
fn get_promotes_entry() {
    let mut cache = LRUCache::new(2);
    cache.insert("A", 1);
    cache.insert("B", 2);
    assert_eq!(cache.get(&"A"), Some(&1));
    cache.insert("C", 3);
    assert!(cache.contains_key(&"A"));
    assert!(!cache.contains_key(&"B"));
    assert!(cache.contains_key(&"C"));
}

#[test]
fn peek_does_not_promote() {
    let mut cache = LRUCache::new(2);
    cache.insert("A", 1);
    cache.insert("B", 2);
    assert_eq!(cache.peek(&"A"), Some(&1));
    cache.insert("C", 3);
    assert!(!cache.contains_key(&"A"));
    assert!(cache.contains_key(&"B"));
    assert!(cache.contains_key(&"C"));
}

#[test]
fn contains_key_does_not_promote() {
    let mut cache = LRUCache::new(2);
    cache.insert("A", 1);
    cache.insert("B", 2);
    assert!(cache.contains_key(&"A"));
    cache.insert("C", 3);
    assert!(!cache.contains_key(&"A"));
    assert!(cache.contains_key(&"B"));
}

#[test]
fn insert_returns_previous_value() {
    let mut cache = LRUCache::new(2);
    assert_eq!(cache.insert("foo", 1), None);
    assert_eq!(cache.insert("foo", 2), Some(1));
    assert_eq!(cache.get(&"foo"), Some(&2));
    assert_eq!(cache.len(), 1);
}

#[test]
fn insert_of_present_key_promotes_it() {
    let mut cache = LRUCache::new(2);
    cache.insert("foo", 1);
    assert_eq!(cache.insert("foo", 2), Some(1));
    cache.insert("bar", 1);
    cache.insert("baz", 2);
    assert!(cache.contains_key(&"baz"));
    assert!(cache.contains_key(&"bar"));
    assert!(!cache.contains_key(&"foo"));
}

#[test]
fn remove_absent_key_changes_nothing() {
    let mut cache: LRUCache<&str, i32> = LRUCache::new(10);
    assert_eq!(cache.remove(&"foo"), None);
    cache.insert("bar", 7);
    assert_eq!(cache.remove(&"foo"), None);
    assert_eq!(cache.len(), 1);
    assert_eq!(cache.peek(&"bar"), Some(&7));
}

#[test]
fn remove_present_key_returns_value() {
    let mut cache: LRUCache<&str, i32> = LRUCache::new(10);
    cache.insert("foo", 1);
    assert_eq!(cache.remove(&"foo"), Some(1));
    assert!(!cache.contains_key(&"foo"));
    assert!(cache.is_empty());
    assert_eq!(cache.remove(&"foo"), None);
}

#[test]
fn remove_relinks_neighbours() {
    let mut cache = LRUCache::new(3);
    cache.insert(1, "one");
    cache.insert(2, "two");
    cache.insert(3, "three");
    assert_eq!(cache.remove(&2), Some("two"));
    cache.insert(4, "four");
    cache.insert(5, "five");
    assert!(!cache.contains_key(&1));
    assert!(cache.contains_key(&3));
    assert!(cache.contains_key(&4));
    assert!(cache.contains_key(&5));
    assert_eq!(cache.remove(&5), Some("five"));
    assert_eq!(cache.remove(&3), Some("three"));
    assert_eq!(cache.len(), 1);
    cache.insert(6, "six");
    cache.insert(7, "seven");
    cache.insert(8, "eight");
    assert!(!cache.contains_key(&4));
    assert_eq!(cache.len(), 3);
}

#[test]
fn len_never_exceeds_capacity() {
    let mut cache = LRUCache::new(3);
    for i in 0..20u32 {
        cache.insert(i % 7, i);
        assert!(cache.len() <= 3);
    }
    assert!(cache.is_full());
}

#[test]
fn zero_capacity_keeps_nothing() {
    let mut cache = LRUCache::new(0);
    assert_eq!(cache.insert("A", 1), None);
    assert_eq!(cache.len(), 0);
    assert!(cache.is_empty());
    assert!(cache.is_full());
    assert!(!cache.contains_key(&"A"));
    assert_eq!(cache.get(&"A"), None);
}

#[test]
fn get_absent_key_is_none() {
    let mut cache: LRUCache<&str, i32> = LRUCache::new(2);
    assert_eq!(cache.get(&"foo"), None);
    cache.insert("foo", 1);
    assert_eq!(cache.get(&"foo"), Some(&1));
    assert_eq!(cache.get(&"bar"), None);
    assert_eq!(cache.peek(&"bar"), None);
}

#[test]
fn get_mut_changes_value_and_promotes() {
    let mut cache: LRUCache<&str, i32> = LRUCache::new(2);
    cache.insert("foo", 1);
    cache.insert("bar", 5);
    {
        let foo = cache.get_mut(&"foo").unwrap();
        *foo = 2;
    }
    assert_eq!(cache.get_mut(&"baz"), None);
    cache.insert("baz", 3);
    assert_eq!(cache.peek(&"foo"), Some(&2));
    assert!(!cache.contains_key(&"bar"));
}

#[test]
fn observers_track_size() {
    let mut cache = LRUCache::new(2);
    assert!(cache.is_empty());
    assert!(!cache.is_full());
    cache.insert(10, "foo");
    assert!(!cache.is_empty());
    assert!(!cache.is_full());
    assert_eq!(cache.len(), 1);
    cache.insert(20, "bar");
    assert!(cache.is_full());
    assert_eq!(cache.len(), 2);
}

#[test]
fn string_keys_work() {
    let mut cache: LRUCache<String, Vec<u8>> = LRUCache::new(1);
    cache.insert("a.png".to_string(), vec![1, 2]);
    assert_eq!(cache.get(&"a.png".to_string()), Some(&vec![1, 2]));
    cache.insert("b.png".to_string(), vec![3]);
    assert!(!cache.contains_key(&"a.png".to_string()));
    assert_eq!(cache.peek(&"b.png".to_string()), Some(&vec![3]));
}
