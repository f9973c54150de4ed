use retrieval_rs::cache::{CacheEntry, ImageFeatureCache};

fn bits(v: &[f32]) -> Vec<u32> {
    v.iter().map(|x| x.to_bits()).collect()
}

#[test]
fn empty_cache_has_no_entries() {
    let cache = ImageFeatureCache::new();
    assert_eq!(cache.len(), 0);
    assert!(cache.lookup("a.jpg", 1000).is_none());
}

#[test]
fn repeated_calls_hit_without_recomputing() {
    let mut cache = ImageFeatureCache::new();
    let mut calls = 0;
    let first: Result<Vec<u32>, String> = cache.get_or_compute("a.jpg", 1000, || {
        calls += 1;
        Ok(bits(&[0.1, 0.2]))
    });
    assert_eq!(first, Ok(bits(&[0.1, 0.2])));
    let second: Result<Vec<u32>, String> = cache.get_or_compute("a.jpg", 1000, || {
        calls += 1;
        Ok(bits(&[9.0, 9.0]))
    });
    assert_eq!(second, Ok(bits(&[0.1, 0.2])));
    assert_eq!(calls, 1);
    assert_eq!(cache.len(), 1);
}

#[test]
fn changed_time_recomputes_and_overwrites() {
    let mut cache = ImageFeatureCache::new();
    let _: Result<Vec<u32>, String> = cache.get_or_compute("a.jpg", 1000, || Ok(bits(&[0.1, 0.2])));
    let mut calls = 0;
    let again: Result<Vec<u32>, String> = cache.get_or_compute("a.jpg", 1001, || {
        calls += 1;
        Ok(bits(&[0.1, 0.2]))
    });
    assert_eq!(again, Ok(bits(&[0.1, 0.2])));
    assert_eq!(calls, 1);
    assert!(cache.lookup("a.jpg", 1000).is_none());
    assert_eq!(cache.lookup("a.jpg", 1001), Some(bits(&[0.1, 0.2])));
    assert_eq!(cache.len(), 1);
}

#[test]
fn failed_compute_leaves_cache_unchanged() {
    let mut cache = ImageFeatureCache::new();
    let r: Result<Vec<u32>, String> = cache.get_or_compute("bad.png", 5, || Err("decode".to_string()));
    assert_eq!(r, Err("decode".to_string()));
    assert_eq!(cache.len(), 0);
    assert!(cache.lookup("bad.png", 5).is_none());
}

#[test]
fn persist_then_restore_keeps_entry() {
    let mut cache = ImageFeatureCache::new();
    cache.insert_entry("a.jpg".to_string(), CacheEntry::new("a.jpg".to_string(), bits(&[0.1, 0.2]), 1000));
    let snapshot = cache.persist();
    assert_eq!(snapshot.len(), 1);
    assert_eq!(snapshot[0].0, "a.jpg");
    assert_eq!(snapshot[0].1.path, "a.jpg");
    assert_eq!(snapshot[0].1.features, bits(&[0.1, 0.2]));
    assert_eq!(snapshot[0].1.last_modified, 1000);
    let restored = ImageFeatureCache::restore(&snapshot);
    assert_eq!(restored.len(), 1);
    assert_eq!(restored.lookup("a.jpg", 1000), Some(bits(&[0.1, 0.2])));
}

#[test]
fn round_trip_ignores_key_order() {
    let mut cache = ImageFeatureCache::new();
    cache.insert_entry("a.jpg".to_string(), CacheEntry::new("a.jpg".to_string(), vec![1, 2], 10));
    cache.insert_entry("b.png".to_string(), CacheEntry::new("b.png".to_string(), vec![3, 4], 20));
    let mut snapshot = cache.persist();
    snapshot.reverse();
    let restored = ImageFeatureCache::restore(&snapshot);
    assert_eq!(restored.len(), 2);
    assert_eq!(restored.lookup("a.jpg", 10), Some(vec![1, 2]));
    assert_eq!(restored.lookup("b.png", 20), Some(vec![3, 4]));
}

#[test]
fn restore_later_pair_wins() {
    let pairs = vec![
        ("a.jpg".to_string(), CacheEntry::new("a.jpg".to_string(), vec![1], 10)),
        ("a.jpg".to_string(), CacheEntry::new("a.jpg".to_string(), vec![2], 11)),
    ];
    let restored = ImageFeatureCache::restore(&pairs);
    assert_eq!(restored.len(), 1);
    assert!(restored.lookup("a.jpg", 10).is_none());
    assert_eq!(restored.lookup("a.jpg", 11), Some(vec![2]));
}

#[test]
fn insert_replaces_existing_key() {
    let mut cache = ImageFeatureCache::new();
    cache.insert_entry("x".to_string(), CacheEntry::new("x".to_string(), vec![1], 1));
    cache.insert_entry("x".to_string(), CacheEntry::new("x".to_string(), vec![7], 2));
    assert_eq!(cache.len(), 1);
    assert_eq!(cache.lookup("x", 2), Some(vec![7]));
}
