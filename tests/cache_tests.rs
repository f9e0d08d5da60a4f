use http_proxy::cache::{Cache, CACHE_MAX};
use http_proxy::error::ProxyError;
use http_proxy::lru_queue::LruQueue;
use http_proxy::request::Request;

fn request_for(key: &[u8]) -> Request {
    Request::from_string(key).unwrap()
}

fn key(i: usize) -> Vec<u8> {
    format!("GET /{} HTTP/1.1\r\nHost: example.com\r\n\r\n", i).into_bytes()
}

fn store(cache: &mut Cache, k: &[u8], ttl: Option<u32>, now: u64) {
    cache
        .add_cache(k.to_vec(), request_for(k), b"body".to_vec(), ttl, b"D1".to_vec(), now)
        .unwrap();
}

#[test]
fn capacity_eleven_distinct_keys() {
    let mut cache = Cache::new();
    for i in 0..11 {
        let k = key(i);
        if cache.get(&k, 0).is_none() && cache.is_full() {
            cache.remove_lru_cache().unwrap();
        }
        store(&mut cache, &k, None, 0);
    }
    assert_eq!(cache.len(), CACHE_MAX);
    assert!(!cache.contains_key(&key(0)));
    for i in 1..11 {
        assert!(cache.contains_key(&key(i)));
    }
}

#[test]
fn fresh_lookup_protects_least_recently_used() {
    let mut cache = Cache::new();
    for i in 0..10 {
        store(&mut cache, &key(i), None, 0);
    }
    assert!(cache.is_full());
    let (record, stale) = cache.get(&key(0), 0).unwrap();
    assert!(!stale);
    assert_eq!(record.response, b"body".to_vec());
    let new_key = key(10);
    assert!(cache.get(&new_key, 0).is_none());
    cache.remove_lru_cache().unwrap();
    store(&mut cache, &new_key, None, 0);
    assert!(cache.contains_key(&key(0)));
    assert!(!cache.contains_key(&key(1)));
    assert!(cache.contains_key(&new_key));
}

#[test]
fn stale_lookup_does_not_promote() {
    let mut cache = Cache::new();
    store(&mut cache, &key(0), Some(5), 0);
    for i in 1..10 {
        store(&mut cache, &key(i), None, 0);
    }
    let (_, stale) = cache.get(&key(0), 100).unwrap();
    assert!(stale);
    let evicted = cache.remove_lru_cache().unwrap();
    assert_eq!(evicted.expiry_secs, Some(5));
    assert!(!cache.contains_key(&key(0)));
}

#[test]
fn freshness_boundary_at_ttl() {
    let mut cache = Cache::new();
    store(&mut cache, &key(1), Some(5), 100);
    let (_, stale_at_5) = cache.get(&key(1), 105).unwrap();
    assert!(!stale_at_5);
    let (_, stale_at_6) = cache.get(&key(1), 106).unwrap();
    assert!(stale_at_6);
}

#[test]
fn record_without_ttl_never_stale() {
    let mut cache = Cache::new();
    store(&mut cache, &key(1), None, 0);
    let (_, stale) = cache.get(&key(1), u64::MAX).unwrap();
    assert!(!stale);
}

#[test]
fn lookup_of_absent_key_misses() {
    let mut cache = Cache::new();
    store(&mut cache, &key(1), None, 0);
    assert!(cache.get(&key(2), 0).is_none());
}

#[test]
fn insert_into_full_cache_fails() {
    let mut cache = Cache::new();
    for i in 0..10 {
        store(&mut cache, &key(i), None, 0);
    }
    let k = key(3);
    let r = cache.add_cache(k.clone(), request_for(&k), vec![1], None, b"D".to_vec(), 0);
    assert!(matches!(r, Err(ProxyError::CacheFull)));
    assert_eq!(cache.len(), 10);
}

#[test]
fn insert_existing_key_overwrites_and_promotes() {
    let mut cache = Cache::new();
    store(&mut cache, &key(1), None, 0);
    store(&mut cache, &key(2), None, 0);
    let k = key(1);
    cache
        .add_cache(k.clone(), request_for(&k), b"new".to_vec(), Some(9), b"D2".to_vec(), 7)
        .unwrap();
    assert_eq!(cache.len(), 2);
    let (record, _) = cache.get(&k, 7).unwrap();
    assert_eq!(record.response, b"new".to_vec());
    assert_eq!(record.date, b"D2".to_vec());
    assert_eq!(record.time_now, 7);
    let evicted = cache.remove_lru_cache().unwrap();
    assert_eq!(evicted.request.url, b"/2".to_vec());
}

#[test]
fn evict_from_empty_cache_fails() {
    let mut cache = Cache::new();
    assert!(matches!(cache.remove_lru_cache(), Err(ProxyError::CacheEmpty)));
}

#[test]
fn remove_untracked_key_fails() {
    let mut cache = Cache::new();
    store(&mut cache, &key(1), None, 0);
    assert!(matches!(cache.remove_cache(&key(2)), Err(ProxyError::KeyNotTracked)));
    let removed = cache.remove_cache(&key(1)).unwrap();
    assert_eq!(removed.request.url, b"/1".to_vec());
    assert_eq!(cache.len(), 0);
}

#[test]
fn lru_queue_orders_by_use() {
    let mut q = LruQueue::new();
    q.add_lru(b"a");
    q.add_lru(b"b");
    q.add_lru(b"c");
    q.add_lru(b"a");
    assert_eq!(q.len(), 3);
    assert_eq!(q.evict_lru_by_value(b"c"), Some(b"c".to_vec()));
    assert_eq!(q.evict_lru_by_value(b"z"), None);
    assert_eq!(q.evict_lru(), Some(b"b".to_vec()));
    assert_eq!(q.evict_lru(), Some(b"a".to_vec()));
    assert_eq!(q.evict_lru(), None);
}
