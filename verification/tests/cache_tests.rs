use imagesorter::cache::{CachedHash, HashCache};

#[test]
fn test_cache_hit_requires_same_mtime() {
    let mut cache = HashCache::new();
    cache.insert("a/img.jpg".to_string(), 1000, "efcdab8967452301".to_string());

    // Same path and same modification time: the stored fingerprint.
    assert_eq!(cache.get("a/img.jpg", 1000), Some("efcdab8967452301".to_string()));
    // A different modification time is a miss, not an error.
    assert_eq!(cache.get("a/img.jpg", 1001), None);
    // An unknown path is a miss.
    assert_eq!(cache.get("a/other.jpg", 1000), None);
}

#[test]
fn test_cache_insert_overwrites_path() {
    let mut cache = HashCache::new();
    cache.insert("p".to_string(), 5, "0000000000000000".to_string());
    cache.insert("p".to_string(), 6, "1111111111111111".to_string());
    assert_eq!(cache.get("p", 5), None);
    assert_eq!(cache.get("p", 6), Some("1111111111111111".to_string()));
}

#[test]
fn test_cache_from_entries_last_wins() {
    let entries = vec![
        ("x".to_string(), CachedHash { hash: "aaaaaaaaaaaaaaaa".to_string(), mtime: 1 }),
        ("y".to_string(), CachedHash { hash: "bbbbbbbbbbbbbbbb".to_string(), mtime: 2 }),
        ("x".to_string(), CachedHash { hash: "cccccccccccccccc".to_string(), mtime: 3 }),
    ];
    let cache = HashCache::from_entries(entries);
    assert_eq!(cache.get("x", 1), None);
    assert_eq!(cache.get("x", 3), Some("cccccccccccccccc".to_string()));
    assert_eq!(cache.get("y", 2), Some("bbbbbbbbbbbbbbbb".to_string()));
}

#[test]
fn test_cache_entries_round_trip() {
    let mut cache = HashCache::new();
    cache.insert("a".to_string(), 10, "2222222222222222".to_string());
    cache.insert("b".to_string(), 20, "3333333333333333".to_string());
    let copy = HashCache::from_entries(cache.entries().clone());
    assert_eq!(copy.get("a", 10), Some("2222222222222222".to_string()));
    assert_eq!(copy.get("b", 20), Some("3333333333333333".to_string()));
}
