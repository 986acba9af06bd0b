use dirscan::{clear_cache, summarize_listing, DirectEntry, FileNode, ScanCache, ScanError, WalkEntry, CACHE_TTL};

fn summary(path: &str, sub: u64) -> FileNode {
    let entries = vec![DirectEntry::Dir {
        name: "sub".to_string(),
        path: format!("{}/sub", path),
        modified: 1,
        contents: vec![WalkEntry::File { len: Some(sub) }],
    }];
    summarize_listing(path, &entries)
}

#[test]
fn served_within_ttl_even_after_change() {
    let mut cache = ScanCache::new();
    let p = "/d".to_string();
    let first = cache.record(&p, Ok(summary("/d", 10)), 1000).unwrap();
    let hit = cache.cached(&p, false, 1000 + CACHE_TTL - 1).unwrap();
    assert_eq!(hit, first);
    assert_eq!(cache.cached(&p, false, 1000).unwrap(), first);
}

#[test]
fn expired_after_ttl() {
    let mut cache = ScanCache::new();
    let p = "/d".to_string();
    cache.store(&p, summary("/d", 10), 1000);
    assert_eq!(cache.cached(&p, false, 1000 + CACHE_TTL), None);
    assert_eq!(cache.cached(&p, false, 999), None);
}

#[test]
fn refresh_skips_cache_and_updates_it() {
    let mut cache = ScanCache::new();
    let p = "/d".to_string();
    cache.store(&p, summary("/d", 10), 1000);
    assert_eq!(cache.cached(&p, true, 1001), None);
    let fresh = cache.record(&p, Ok(summary("/d", 99)), 1001).unwrap();
    assert_eq!(fresh.size, 99);
    assert_eq!(cache.cached(&p, false, 1002).unwrap().size, 99);
    assert_eq!(cache.len(), 1);
}

#[test]
fn clear_forces_fresh_scan() {
    let mut cache = ScanCache::new();
    let p = "/d".to_string();
    cache.store(&p, summary("/d", 10), 1000);
    cache.store(&"/e".to_string(), summary("/e", 1), 1000);
    assert_eq!(cache.len(), 2);
    clear_cache(&mut cache);
    assert_eq!(cache.len(), 0);
    assert_eq!(cache.cached(&p, false, 1001), None);
}

#[test]
fn failed_scan_keeps_entries() {
    let mut cache = ScanCache::new();
    let good = "/good".to_string();
    let gone = "/gone".to_string();
    cache.store(&good, summary("/good", 5), 1000);
    cache.store(&gone, summary("/gone", 6), 1000);
    let r = cache.record(&gone, Err(ScanError::NotFound), 5000);
    assert_eq!(r, Err(ScanError::NotFound));
    assert_eq!(cache.len(), 2);
    assert_eq!(cache.cached(&good, false, 1001).unwrap().size, 5);
    assert_eq!(cache.cached(&gone, false, 1001).unwrap().size, 6);
}

#[test]
fn keys_are_not_normalised() {
    let mut cache = ScanCache::new();
    cache.store(&"/d".to_string(), summary("/d", 1), 1000);
    cache.store(&"/d/".to_string(), summary("/d/", 2), 1000);
    assert_eq!(cache.len(), 2);
    assert_eq!(cache.cached(&"/d".to_string(), false, 1000).unwrap().size, 1);
    assert_eq!(cache.cached(&"/d/".to_string(), false, 1000).unwrap().size, 2);
}
