use atlas_packer::cache::{CacheKey, TextureCache, TextureSizeCache};

fn key(path: &str, downsample: u32) -> CacheKey {
    CacheKey {
        image_path: path.to_string(),
        region: None,
        downsample,
    }
}

fn region_key(path: &str, region: (u32, u32, u32, u32)) -> CacheKey {
    CacheKey {
        image_path: path.to_string(),
        region: Some(region),
        downsample: 10000,
    }
}

#[test]
fn hit_returns_first_inserted_data() {
    let mut cache = TextureCache::new(1000);
    assert!(cache.get(&key("a.png", 10000)).is_none());
    assert!(cache.insert(key("a.png", 10000), vec![1, 2, 3]));
    assert_eq!(cache.get(&key("a.png", 10000)), Some(vec![1, 2, 3]));
    // a second insert for the same key keeps the first result
    assert!(cache.insert(key("a.png", 10000), vec![9, 9, 9]));
    assert_eq!(cache.get(&key("a.png", 10000)), Some(vec![1, 2, 3]));
}

#[test]
fn distinct_regions_are_distinct_keys() {
    let mut cache = TextureCache::new(1000);
    assert!(cache.insert(region_key("a.png", (0, 0, 4, 4)), vec![1]));
    assert!(cache.insert(region_key("a.png", (0, 0, 8, 8)), vec![2]));
    assert_eq!(cache.get(&region_key("a.png", (0, 0, 4, 4))), Some(vec![1]));
    assert_eq!(cache.get(&region_key("a.png", (0, 0, 8, 8))), Some(vec![2]));
    assert!(cache.get(&key("a.png", 10000)).is_none());
}

#[test]
fn eviction_drops_least_recently_used() {
    let mut cache = TextureCache::new(100);
    assert!(cache.insert(key("a.png", 10000), vec![0; 60]));
    assert!(cache.insert(key("b.png", 10000), vec![1; 50]));
    // inserting b exceeded the budget, so a (least recently used) was evicted
    assert!(cache.get(&key("a.png", 10000)).is_none());
    assert_eq!(cache.get(&key("b.png", 10000)), Some(vec![1; 50]));
}

#[test]
fn get_refreshes_recency() {
    let mut cache = TextureCache::new(100);
    assert!(cache.insert(key("a.png", 10000), vec![0; 40]));
    assert!(cache.insert(key("b.png", 10000), vec![1; 40]));
    // touching a makes b the eviction candidate
    assert!(cache.get(&key("a.png", 10000)).is_some());
    assert!(cache.insert(key("c.png", 10000), vec![2; 40]));
    assert!(cache.get(&key("a.png", 10000)).is_some());
    assert!(cache.get(&key("b.png", 10000)).is_none());
}

#[test]
fn entry_larger_than_budget_is_served_uncached() {
    let mut cache = TextureCache::new(100);
    assert!(cache.insert(key("a.png", 10000), vec![0; 60]));
    assert!(!cache.insert(key("big.png", 10000), vec![1; 150]));
    assert!(cache.get(&key("big.png", 10000)).is_none());
    // the resident entry was not disturbed
    assert_eq!(cache.get(&key("a.png", 10000)), Some(vec![0; 60]));
}

#[test]
fn repeated_lookups_decode_once() {
    // the decode-count probe: the caller decodes only on a miss
    let mut cache = TextureCache::new(1000);
    let mut decodes = 0;
    let mut fetch = |cache: &mut TextureCache, k: CacheKey, decodes: &mut u32| -> Vec<u8> {
        if let Some(d) = cache.get(&k) {
            d
        } else {
            *decodes += 1;
            let data = vec![7, 7, 7];
            cache.insert(k, data.clone());
            data
        }
    };
    let first = fetch(&mut cache, key("a.png", 10000), &mut decodes);
    let second = fetch(&mut cache, key("a.png", 10000), &mut decodes);
    assert_eq!(first, second);
    assert_eq!(decodes, 1);
}

#[test]
fn size_cache_memoizes_first_answer() {
    let mut sizes = TextureSizeCache::new();
    let path = "a.png".to_string();
    assert!(sizes.get(&path).is_none());
    sizes.insert(&path, (640, 480));
    assert_eq!(sizes.get(&path), Some((640, 480)));
    sizes.insert(&path, (1, 1));
    assert_eq!(sizes.get(&path), Some((640, 480)));
    let other = "b.png".to_string();
    assert!(sizes.get(&other).is_none());
}
