use bufdb::cache::CachePool;
use bufdb::config::InstanceConfig;

fn pool_names(pool: &CachePool<u32>) -> Vec<String> {
    let mut names: Vec<String> = pool.entries.iter().map(|e| e.name.clone()).collect();
    names.sort();
    names
}

#[test]
fn test_cache() {
    let mut cache: CachePool<u32> = CachePool::new();

    for i in 1..=5u32 {
        let name = format!("OBJ-{}", i);
        cache.put(&name, i, i as i64);
    }
    cache.put("OBJ-0", 0, 6);

    assert_eq!(6, cache.len());

    let config = InstanceConfig::new(String::from("DB")).set_max_cache(Some(4));
    cache.cleanup(&config, 6);
    assert_eq!(4, cache.len());
    assert_eq!(vec!["OBJ-0", "OBJ-3", "OBJ-4", "OBJ-5"], pool_names(&cache));

    // 60 ms later every entry is idle, but min_live_time protects them all.
    let config = InstanceConfig::new(String::from("DB"))
        .set_max_cache(Some(2))
        .set_min_live_time(Some(600_000))
        .set_max_idle_time(Some(50));
    cache.cleanup(&config, 66);
    assert_eq!(4, cache.len());

    let touched = cache.get("OBJ-0", 66);
    assert_eq!(Some(&0u32), touched);

    let config = InstanceConfig::new(String::from("DB")).set_max_idle_time(Some(50));
    cache.cleanup(&config, 66);
    assert_eq!(1, cache.len());
    assert!(cache.contains("OBJ-0"));
}

#[test]
fn test_cache_basic_ops() {
    let mut cache: CachePool<u32> = CachePool::new();
    assert!(cache.is_empty());
    cache.put("A", 1, 10);
    cache.put("B", 2, 20);
    cache.put("A", 3, 30);
    assert_eq!(2, cache.len());
    assert_eq!(Some(&3u32), cache.get("A", 40));
    assert_eq!(Some(3u32), cache.remove("A"));
    assert_eq!(None, cache.remove("A"));
    assert!(!cache.contains("A"));
    assert!(cache.contains("B"));
    assert_eq!(1, cache.collect().len());
}

#[test]
fn test_cache_cleanup_idempotent() {
    let mut cache: CachePool<u32> = CachePool::new();
    for i in 1..=6u32 {
        let name = format!("OBJ-{}", i);
        cache.put(&name, i, i as i64);
    }
    let config = InstanceConfig::new(String::from("DB")).set_max_cache(Some(3));
    cache.cleanup(&config, 10);
    let first = pool_names(&cache);
    cache.cleanup(&config, 10);
    assert_eq!(first, pool_names(&cache));
    assert_eq!(3, cache.len());
}
