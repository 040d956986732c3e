use reveal_lib::photo_cache::{
    summarize_entry, valid_asset, valid_group, CacheEntry, CachedFile, PhotoCache, DEFAULT_LIMIT, GIB,
};

const SOURCE: &str = "source-0000000000000001";

fn entry(cache: &PhotoCache, asset: &str, bytes: u64, used: u64) -> CacheEntry {
    CacheEntry { path: cache.entry_path(asset, SOURCE).unwrap(), bytes, used }
}

#[test]
fn evicts_least_recently_used_whole_entries() {
    let cache = PhotoCache::new("/cache", 20);
    let entries = vec![entry(&cache, "aa", 10, 1), entry(&cache, "bb", 10, 2), entry(&cache, "cc", 10, 3)];
    let plan = cache.trim(&entries);
    assert_eq!(plan.cleanup.removed_bytes, 10);
    assert_eq!(plan.cleanup.remaining_bytes, 20);
    // the oldest goes; the middle and the most recent stay
    assert_eq!(plan.evict, vec![0]);
}

#[test]
fn trim_goes_by_last_use_not_by_listing_order() {
    let cache = PhotoCache::new("/cache", 15);
    let entries = vec![entry(&cache, "aa", 10, 30), entry(&cache, "bb", 10, 10), entry(&cache, "cc", 10, 20)];
    let plan = cache.trim(&entries);
    assert_eq!(plan.evict, vec![1, 2]);
    assert_eq!(plan.cleanup.removed_bytes, 20);
    assert_eq!(plan.cleanup.remaining_bytes, 10);
}

#[test]
fn trim_under_the_limit_removes_nothing() {
    let cache = PhotoCache::new("/cache", 100);
    let entries = vec![entry(&cache, "aa", 10, 1), entry(&cache, "bb", 10, 2)];
    let plan = cache.trim(&entries);
    assert!(plan.evict.is_empty());
    assert_eq!(plan.cleanup.removed_bytes, 0);
    assert_eq!(plan.cleanup.remaining_bytes, 20);
}

#[test]
fn clear_keeps_leased_entries_and_counts_them_protected() {
    let mut cache = PhotoCache::new("/cache", DEFAULT_LIMIT);
    let lease = cache.lease("bb", SOURCE).unwrap();
    let entries = vec![entry(&cache, "aa", 10, 1), entry(&cache, "bb", 11, 2), entry(&cache, "cc", 12, 3)];
    let plan = cache.clear(&entries);
    assert_eq!(plan.evict, vec![0, 2]);
    assert_eq!(plan.cleanup.removed_bytes, 22);
    assert_eq!(plan.cleanup.remaining_bytes, 11);
    assert_eq!(plan.cleanup.protected_bytes, 11);
    cache.release(lease);
    let plan = cache.clear(&entries);
    assert_eq!(plan.evict, vec![0, 1, 2]);
    assert_eq!(plan.cleanup.protected_bytes, 0);
}

#[test]
fn trim_steps_over_leased_entries() {
    let mut cache = PhotoCache::new("/cache", 10);
    let _lease = cache.lease("aa", SOURCE).unwrap();
    let entries = vec![entry(&cache, "aa", 10, 1), entry(&cache, "bb", 10, 2), entry(&cache, "cc", 10, 3)];
    let plan = cache.trim(&entries);
    assert_eq!(plan.evict, vec![1, 2]);
    assert_eq!(plan.cleanup.remaining_bytes, 10);
}

#[test]
fn a_second_lease_keeps_the_entry_after_the_first_is_released() {
    let mut cache = PhotoCache::new("/cache", DEFAULT_LIMIT);
    let first = cache.lease("aa", SOURCE).unwrap();
    let second = cache.lease("aa", SOURCE).unwrap();
    assert_eq!(first.path(), second.path());
    let entries = vec![entry(&cache, "aa", 5, 1)];
    cache.release(first);
    assert_eq!(cache.status(&entries).in_use_bytes, 5);
    cache.release(second);
    assert_eq!(cache.status(&entries).in_use_bytes, 0);
}

#[test]
fn status_reports_size_limit_and_use() {
    let mut cache = PhotoCache::new("/cache", 3 * GIB);
    let _lease = cache.lease("cc", "previews").unwrap();
    let entries = vec![
        entry(&cache, "aa", 7, 1),
        CacheEntry { path: cache.entry_path("cc", "previews").unwrap(), bytes: 5, used: 2 },
    ];
    let status = cache.status(&entries);
    assert_eq!(status.size_bytes, 12);
    assert_eq!(status.limit_bytes, 3 * GIB);
    assert_eq!(status.in_use_bytes, 5);
}

#[test]
fn rejects_unsafe_entry_names() {
    let mut cache = PhotoCache::new("/cache", DEFAULT_LIMIT);
    assert!(cache.entry_path("../outside", SOURCE).is_err());
    assert!(cache.entry_path("aa", "../outside").is_err());
    assert!(cache.lease("a", SOURCE).is_err());
    assert!(cache.lease("aa", "source-1").is_err());
    let expected = std::path::Path::new("/cache").join("aa").join("previews");
    assert_eq!(cache.entry_path("aa", "previews").unwrap(), expected.to_string_lossy());
}

#[test]
fn names_are_checked_like_the_directories_they_become() {
    assert!(valid_asset("0aF9"));
    assert!(!valid_asset(""));
    assert!(!valid_asset("abc"));
    assert!(!valid_asset("zz"));
    assert!(valid_asset(&"ab".repeat(512)));
    assert!(!valid_asset(&"ab".repeat(513)));
    assert!(valid_group("previews"));
    assert!(valid_group("source-0123456789abcdef"));
    assert!(!valid_group("source-0123456789abcdeg"));
    assert!(!valid_group("source-0123"));
    assert!(!valid_group("preview"));
}

#[test]
fn the_limit_can_be_changed() {
    let mut cache = PhotoCache::new("/cache", DEFAULT_LIMIT);
    assert_eq!(cache.get_limit(), 4 * GIB);
    cache.set_limit(GIB);
    assert_eq!(cache.get_limit(), GIB);
}

fn file(name: &str, bytes: u64, modified: u64) -> CachedFile {
    CachedFile { name: name.to_string(), bytes, modified }
}

#[test]
fn an_entry_is_used_when_its_marker_says() {
    let files = vec![file("working.tiff", 10, 50), file(".last-used", 0, 20), file("source.json", 2, 60)];
    let e = summarize_entry("/cache/aa/previews".to_string(), &files);
    assert_eq!(e.path, "/cache/aa/previews");
    assert_eq!(e.bytes, 12);
    assert_eq!(e.used, 20);
}

#[test]
fn without_a_marker_an_entry_was_used_at_its_newest_write() {
    let files = vec![file("working.tiff", 10, 50), file("source.json", 2, 60), file("original.dng", 5, 40)];
    let e = summarize_entry("p".to_string(), &files);
    assert_eq!(e.bytes, 17);
    assert_eq!(e.used, 60);
    let empty = summarize_entry("p".to_string(), &Vec::new());
    assert_eq!((empty.bytes, empty.used), (0, 0));
}

#[test]
fn lease_counts_follow_leases_and_releases() {
    let mut cache = PhotoCache::new("/cache", DEFAULT_LIMIT);
    let path = cache.entry_path("ab", "previews").unwrap();
    assert_eq!(cache.lease_count(&path), 0);
    let first = cache.lease("ab", "previews").unwrap();
    let _second = cache.lease("ab", "previews").unwrap();
    assert_eq!(cache.lease_count(&path), 2);
    cache.release(first);
    assert_eq!(cache.lease_count(&path), 1);
}
