use image_cache::lrucache::LRUCache;
use image_cache::serve::{resolve, serve_cached, store_computed};

#[test]
fn same_key_computes_once() {
    let mut cache: LRUCache<String, Vec<u8>> = LRUCache::new(2);
    let mut calls = 0;
    for _ in 0..8 {
        let r: Result<Vec<u8>, String> = resolve(&mut cache, "k".to_string(), || {
            calls += 1;
            Ok(vec![7, 8, 9])
        });
        assert_eq!(r, Ok(vec![7, 8, 9]));
    }
    assert_eq!(calls, 1);
}

#[test]
fn failed_compute_is_not_cached() {
    let mut cache: LRUCache<String, Vec<u8>> = LRUCache::new(2);
    let mut calls = 0;
    for _ in 0..3 {
        let r: Result<Vec<u8>, String> = resolve(&mut cache, "k".to_string(), || {
            calls += 1;
            Err("cannot decode".to_string())
        });
        assert_eq!(r, Err("cannot decode".to_string()));
    }
    assert_eq!(calls, 3);
    assert!(cache.is_empty());
    let r: Result<Vec<u8>, String> = resolve(&mut cache, "k".to_string(), || {
        calls += 1;
        Ok(vec![1])
    });
    assert_eq!(r, Ok(vec![1]));
    assert_eq!(calls, 4);
}

#[test]
fn hit_path_returns_cached_value() {
    let mut cache: LRUCache<String, Vec<u8>> = LRUCache::new(2);
    cache.insert("k".to_string(), vec![4, 5]);
    for _ in 0..4 {
        let r: Result<Vec<u8>, String> = resolve(&mut cache, "k".to_string(), || {
            panic!("compute must not run on a hit")
        });
        assert_eq!(r, Ok(vec![4, 5]));
    }
    assert_eq!(cache.len(), 1);
}

#[test]
fn hit_promotes_entry() {
    let mut cache: LRUCache<String, Vec<u8>> = LRUCache::new(2);
    cache.insert("a".to_string(), vec![1]);
    cache.insert("b".to_string(), vec![2]);
    assert_eq!(serve_cached(&mut cache, &"a".to_string()), Some(vec![1]));
    let r: Result<Vec<u8>, String> = store_computed(&mut cache, "c".to_string(), Ok(vec![3]));
    assert_eq!(r, Ok(vec![3]));
    assert!(cache.contains_key(&"a".to_string()));
    assert!(!cache.contains_key(&"b".to_string()));
    assert!(cache.contains_key(&"c".to_string()));
}

#[test]
fn miss_leaves_cache_alone() {
    let mut cache: LRUCache<String, Vec<u8>> = LRUCache::new(2);
    cache.insert("a".to_string(), vec![1]);
    cache.insert("b".to_string(), vec![2]);
    assert_eq!(serve_cached(&mut cache, &"z".to_string()), None);
    cache.insert("c".to_string(), vec![3]);
    assert!(!cache.contains_key(&"a".to_string()));
}

#[test]
fn store_failure_passes_error_through() {
    let mut cache: LRUCache<String, Vec<u8>> = LRUCache::new(2);
    cache.insert("a".to_string(), vec![1]);
    let r: Result<Vec<u8>, u32> = store_computed(&mut cache, "b".to_string(), Err(404));
    assert_eq!(r, Err(404));
    assert_eq!(cache.len(), 1);
    assert!(!cache.contains_key(&"b".to_string()));
}

#[test]
fn store_evicts_when_full() {
    let mut cache: LRUCache<String, Vec<u8>> = LRUCache::new(1);
    let r: Result<Vec<u8>, String> = store_computed(&mut cache, "a".to_string(), Ok(vec![1]));
    assert_eq!(r, Ok(vec![1]));
    let r: Result<Vec<u8>, String> = store_computed(&mut cache, "b".to_string(), Ok(vec![2]));
    assert_eq!(r, Ok(vec![2]));
    assert!(!cache.contains_key(&"a".to_string()));
    assert_eq!(serve_cached(&mut cache, &"b".to_string()), Some(vec![2]));
}

#[test]
fn zero_capacity_computes_every_time() {
    let mut cache: LRUCache<String, Vec<u8>> = LRUCache::new(0);
    let mut calls = 0;
    for _ in 0..3 {
        let r: Result<Vec<u8>, String> = resolve(&mut cache, "k".to_string(), || {
            calls += 1;
            Ok(vec![1])
        });
        assert_eq!(r, Ok(vec![1]));
    }
    assert_eq!(calls, 3);
}
