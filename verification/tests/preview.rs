use reveal_lib::preview::{
    cache_name_for_key, current_publish_generation, cache_prefix_for_key, companion_jpeg_candidates,
    developed_preview_cache_name, developed_preview_source_key, newest_matching, next_publish_generation,
    pack_developed_frame, persists_as_sidecar, plan_preview_prune, preview_sidecar_path, prune_group_key,
    DURABLE_PREVIEW_EDGE, GRID_PREVIEW_EDGE, PREVIEW_CACHE_BUDGET_BYTES,
    publish_generation_is_current,
    PruneEntry, PublishGenerations, ThumbSemaphore,
};

#[test]
fn the_header_is_four_little_endian_u32_then_pixels() {
    let rgba = vec![7u8, 8, 9, 10, 11, 12, 13, 14];
    let packed = pack_developed_frame(2, 1, 24, 950, &rgba);

    assert_eq!(packed.len(), 16 + rgba.len());
    assert_eq!(u32::from_le_bytes(packed[0..4].try_into().unwrap()), 2);
    assert_eq!(u32::from_le_bytes(packed[4..8].try_into().unwrap()), 1);
    assert_eq!(u32::from_le_bytes(packed[8..12].try_into().unwrap()), 24);
    assert_eq!(u32::from_le_bytes(packed[12..16].try_into().unwrap()), 950);
    assert_eq!(&packed[16..], &rgba[..]);
}

#[test]
fn a_full_frame_costs_its_pixels_plus_a_header() {
    let (w, h) = (2048u32, 1365u32);
    let rgba = vec![128u8; (w * h * 4) as usize];
    let packed = pack_developed_frame(w, h, 24, 0, &rgba);
    assert_eq!(packed.len(), 16 + (w * h * 4) as usize);
    assert!(packed.len() < 12_000_000, "{} bytes", packed.len());
}

#[test]
fn frame_timings_are_cut_to_32_bits() {
    let packed = pack_developed_frame(1, 1, (1u128 << 32) + 5, u128::MAX, &[]);
    assert_eq!(packed.len(), 16);
    assert_eq!(u32::from_le_bytes(packed[8..12].try_into().unwrap()), 5);
    assert_eq!(u32::from_le_bytes(packed[12..16].try_into().unwrap()), u32::MAX);
}

#[test]
fn only_the_newest_claim_may_publish() {
    let mut gens = PublishGenerations::new();
    let path = "/nas/1/DSCF0001.RAF";

    let first = next_publish_generation(&mut gens, path);
    assert!(publish_generation_is_current(&gens, path, first));

    let second = next_publish_generation(&mut gens, path);
    assert!(second > first, "each claim supersedes the last");
    assert!(!publish_generation_is_current(&gens, path, first), "the older render must not publish");
    assert!(publish_generation_is_current(&gens, path, second));
}

#[test]
fn a_claim_on_one_photo_leaves_others_alone() {
    let mut gens = PublishGenerations::new();
    let a = "/nas/1/A.RAF";
    let b = "/nas/1/B.RAF";
    let claim_a = next_publish_generation(&mut gens, a);
    next_publish_generation(&mut gens, b);
    next_publish_generation(&mut gens, b);
    assert!(
        publish_generation_is_current(&gens, a, claim_a),
        "B's edits must not invalidate A's pending publish"
    );
}

#[test]
fn claims_count_up_from_one_and_unclaimed_photos_may_publish() {
    let mut gens = PublishGenerations::new();
    assert!(publish_generation_is_current(&gens, "/x.RAF", 17));
    assert_eq!(next_publish_generation(&mut gens, "/x.RAF"), 1);
    assert_eq!(next_publish_generation(&mut gens, "/x.RAF"), 2);
    assert_eq!(next_publish_generation(&mut gens, "/y.RAF"), 1);
    assert!(!publish_generation_is_current(&gens, "/x.RAF", 17));
}

#[test]
fn the_semaphore_hands_out_at_most_its_permits() {
    let mut sem = ThumbSemaphore::new(2);
    assert!(sem.acquire());
    assert!(sem.acquire());
    assert!(!sem.acquire());
    sem.release();
    assert!(sem.acquire());
    assert!(!sem.acquire());
}

#[test]
fn cache_names_spell_key_size_and_version() {
    assert_eq!(cache_name_for_key(0x1f, 768, 0x9a), "000000000000001f-768-9a.jpg");
    assert_eq!(cache_name_for_key(u64::MAX, 2048, 0), "ffffffffffffffff-2048-0.jpg");
    assert_eq!(cache_prefix_for_key(0x1f, 768), "000000000000001f-768-");
}

#[test]
fn cache_names_round_trip_through_the_prune_grouping() {
    let photo = "/nas/2026/DSCF0001.RAF";
    let grid = developed_preview_cache_name(photo, 768, 0x1f2e);
    let full = developed_preview_cache_name(photo, 2048, 0x1f2e);
    let newer = developed_preview_cache_name(photo, 768, 0x9a9a);

    let group = |name: &str| {
        let mut parts = name.splitn(3, '-');
        format!("{}-{}", parts.next().unwrap(), parts.next().unwrap())
    };
    assert_ne!(group(&grid), group(&full), "two sizes are two groups");
    assert_eq!(group(&grid), group(&newer), "two versions of one size are one group, so the older is pruned");
    assert_eq!(prune_group_key(&grid), group(&grid));
    assert_eq!(prune_group_key(&full), group(&full));
}

#[test]
fn a_photos_names_share_the_prefix_of_its_key() {
    let photo = "/nas/2026/DSCF0002.RAF";
    let key = developed_preview_source_key(photo);
    assert_eq!(key, developed_preview_source_key(photo));
    let name = developed_preview_cache_name(photo, 768, 0x9a);
    assert_eq!(name, cache_name_for_key(key, 768, 0x9a));
    assert!(name.starts_with(&cache_prefix_for_key(key, 768)));
}

#[test]
fn the_group_of_a_name_is_its_photo_and_size() {
    assert_eq!(prune_group_key("aaaa-768-1f.jpg"), "aaaa-768");
    assert_eq!(prune_group_key("aaaa-2048-.jpg"), "aaaa-2048");
    assert_eq!(prune_group_key("aaaa-2048"), "aaaa-2048");
    assert_eq!(prune_group_key("nodash.jpg"), "nodash.jpg");
}

fn entry(group: usize, mtime: u64, size: u64) -> PruneEntry {
    PruneEntry { group, mtime, size }
}

#[test]
fn only_the_newest_render_of_a_photo_survives() {
    // aaaa: old1, old2, current (newest); bbbb: only
    let entries = vec![entry(0, 700, 10), entry(0, 800, 10), entry(0, 999, 10), entry(1, 950, 10)];
    let plan = plan_preview_prune(&entries, 2, 2000);
    assert_eq!(plan.stale, vec![0, 1], "each photo keeps exactly its most recent render");
    assert!(plan.evicted.is_empty());
}

#[test]
fn stale_renders_are_cleaned_even_far_below_the_photo_limit() {
    let entries: Vec<PruneEntry> = (0..40u64).map(|i| entry(0, 1000 - i, 10)).collect();
    let plan = plan_preview_prune(&entries, 1, 2000);
    assert_eq!(plan.stale.len(), 39, "40 renders of one photo collapse to 1");
    assert!(!plan.stale.contains(&0));
}

#[test]
fn two_sizes_of_one_photo_do_not_evict_each_other() {
    let entries = vec![entry(0, 5, 4), entry(1, 5, 4)];
    let plan = plan_preview_prune(&entries, 2, 10_000);
    assert!(plan.stale.is_empty() && plan.evicted.is_empty(), "both sizes survive");
}

#[test]
fn the_budget_evicts_the_least_recently_touched_first() {
    // 100 bytes each: old, mid, new
    let entries = vec![entry(0, 100, 100), entry(1, 400, 100), entry(2, 990, 100)];
    let plan = plan_preview_prune(&entries, 3, 250);
    assert!(plan.stale.is_empty());
    assert_eq!(plan.evicted, vec![0], "the oldest goes, the two most recent stay");
}

#[test]
fn a_budget_with_room_to_spare_evicts_nothing() {
    let entries = vec![entry(0, 1, 100), entry(1, 1, 100), entry(2, 1, 100)];
    let plan = plan_preview_prune(&entries, 3, 10_000);
    assert!(plan.stale.is_empty() && plan.evicted.is_empty());
}

#[test]
fn a_render_too_big_for_what_is_left_does_not_stop_smaller_older_ones() {
    let entries = vec![entry(0, 30, 100), entry(1, 20, 300), entry(2, 10, 50)];
    let plan = plan_preview_prune(&entries, 3, 200);
    assert_eq!(plan.evicted, vec![1]);
}

#[test]
fn on_equal_times_the_render_listed_first_survives() {
    let entries = vec![entry(0, 5, 1), entry(0, 5, 1)];
    let plan = plan_preview_prune(&entries, 1, 100);
    assert_eq!(plan.stale, vec![1]);
}

#[test]
fn an_empty_cache_plans_nothing() {
    let plan = plan_preview_prune(&Vec::new(), 0, 0);
    assert!(plan.stale.is_empty() && plan.evicted.is_empty());
}

#[test]
fn companion_jpegs_are_looked_for_beside_the_raw() {
    let raw = "/photos/2026/DSCF0001.RAF";
    let dir = std::path::Path::new(raw);
    let expected: Vec<String> = ["JPG", "jpg", "JPEG", "jpeg"]
        .iter()
        .map(|ext| dir.with_file_name(format!("DSCF0001.{ext}")).to_string_lossy().into_owned())
        .collect();
    assert_eq!(companion_jpeg_candidates(raw), expected);
    assert_eq!(companion_jpeg_candidates(raw)[0], "/photos/2026/DSCF0001.JPG");
}

#[test]
fn a_path_without_a_file_name_has_no_companion() {
    assert!(companion_jpeg_candidates("/").is_empty());
    assert!(companion_jpeg_candidates("/photos/..").is_empty());
}

#[test]
fn only_the_last_extension_is_replaced() {
    assert_eq!(companion_jpeg_candidates("/p/a.b.dng")[1], "/p/a.b.jpg");
    assert_eq!(companion_jpeg_candidates("/p/.hidden")[1], "/p/.hidden.jpg");
}

fn files(list: &[(&str, Option<u64>)]) -> Vec<(String, Option<u64>)> {
    list.iter().map(|(n, t)| (n.to_string(), *t)).collect()
}

#[test]
fn the_offline_fallback_picks_the_newest_version_on_disk() {
    let dir = files(&[("aaaa-2048-.jpg", Some(100)), ("aaaa-2048-9a.jpg", Some(1000))]);
    assert_eq!(newest_matching(&dir, "aaaa-2048-"), Some(1));
    let reversed = files(&[("aaaa-2048-9a.jpg", Some(1000)), ("aaaa-2048-.jpg", Some(100))]);
    assert_eq!(newest_matching(&reversed, "aaaa-2048-"), Some(0), "the older one was there to be chosen wrongly");
}

#[test]
fn the_offline_fallback_never_crosses_photos_or_sizes() {
    let dir = files(&[
        ("aaaa-768-1f.jpg", Some(5)),
        ("aaaa-2048-1f.jpg", Some(5)),
        ("bbbb-2048-1f.jpg", Some(5)),
    ]);
    assert_eq!(newest_matching(&dir, "aaaa-2048-"), Some(1));
    assert_eq!(newest_matching(&dir, "aaaa-768-"), Some(0));
    assert_eq!(newest_matching(&dir, "bbbb-2048-"), Some(2));
    assert_eq!(newest_matching(&dir, "cccc-2048-"), None);
}

#[test]
fn the_offline_fallback_takes_the_last_of_equal_times_and_skips_other_files() {
    let dir = files(&[
        ("aaaa-768-1.jpg", Some(7)),
        ("aaaa-768-2.jpg", None),
        ("aaaa-768-3.jpg", Some(7)),
        ("aaaa-768-4.part", Some(99)),
    ]);
    assert_eq!(newest_matching(&dir, "aaaa-768-"), Some(2));
    let unreadable = files(&[("aaaa-768-1.jpg", None), ("aaaa-768-2.jpg", None)]);
    assert_eq!(newest_matching(&unreadable, "aaaa-768-"), Some(1));
}

#[test]
fn the_durable_preview_sits_beside_its_photo() {
    assert_eq!(preview_sidecar_path("/nas/DSCF3098.RAF", "/edits").as_deref(), Some("/nas/DSCF3098.preview.jpg"));
    let expected = std::path::Path::new("/edits").join("ab").join("photo.preview.jpg");
    assert_eq!(
        preview_sidecar_path("apple-photos://ab/IMG_1.HEIC", "/edits").as_deref(),
        Some(&*expected.to_string_lossy())
    );
    assert_eq!(preview_sidecar_path("apple-photos://zz/IMG_1.HEIC", "/edits"), None);
    assert_eq!(preview_sidecar_path("/", "/edits"), None);
}

#[test]
fn a_prefix_never_matches_another_photo_or_size() {
    let name = cache_name_for_key(0x1f, 2048, 0x9a);
    assert!(name.starts_with(&cache_prefix_for_key(0x1f, 2048)));
    assert!(!name.starts_with(&cache_prefix_for_key(0x1f, 204)));
    assert!(!name.starts_with(&cache_prefix_for_key(0x1f, 20480)));
    assert!(!name.starts_with(&cache_prefix_for_key(0x2f, 2048)));
    assert!(!cache_name_for_key(0x1f, 20, 0).starts_with(&cache_prefix_for_key(0x1f, 2)));
}

#[test]
fn only_a_full_size_render_becomes_the_durable_preview() {
    assert!(persists_as_sidecar(DURABLE_PREVIEW_EDGE));
    assert!(persists_as_sidecar(4096));
    assert!(!persists_as_sidecar(GRID_PREVIEW_EDGE));
    assert!(!persists_as_sidecar(640));
    assert_eq!(PREVIEW_CACHE_BUDGET_BYTES, 4 * 1024 * 1024 * 1024);
}

#[test]
fn the_current_claim_of_a_photo_is_its_latest() {
    let mut gens = PublishGenerations::new();
    assert_eq!(current_publish_generation(&gens, "/a.RAF"), None);
    next_publish_generation(&mut gens, "/a.RAF");
    next_publish_generation(&mut gens, "/a.RAF");
    next_publish_generation(&mut gens, "/b.RAF");
    assert_eq!(current_publish_generation(&gens, "/a.RAF"), Some(2));
    assert_eq!(current_publish_generation(&gens, "/b.RAF"), Some(1));
}
