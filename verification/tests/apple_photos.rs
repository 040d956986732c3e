use reveal_lib::apple_photos::{
    asset_key, cache_limit, encode_id, identifier, is_asset, metadata_path, require_file,
    safe_name, set_cache_limit, source_step, SourceStep, source_group, validate_cache_filename, working_filenames,
    CacheLimitSetting, Source,
};
use reveal_lib::photo_cache::{valid_group, PhotoCache, DEFAULT_LIMIT, GIB};

const PREFIX: &str = "apple-photos://";

fn raw_extensions() -> Vec<String> {
    ["dng", "raf", "cr2", "cr3", "nef", "arw", "orf", "rw2"].iter().map(|s| s.to_string()).collect()
}

#[test]
fn asset_identity_round_trips_without_filename_collisions() {
    for id in ["ABC/L0/001", "another/L0/001", "photo-\u{e9}"] {
        let uri = format!("{PREFIX}{}/IMG_0001.HEIC", encode_id(id));
        assert_eq!(identifier(&uri).unwrap(), id);
    }
    assert_ne!(encode_id("ABC/L0/001"), encode_id("DEF/L0/001"));
}

#[test]
fn rejects_traversal_and_malformed_identifiers() {
    for path in [
        "apple-photos://../file",
        "apple-photos://ab/../x",
        "apple-photos://ab/..",
        "apple-photos://zz/file",
        "apple-photos://a/file",
        "apple-photos:///file",
    ] {
        assert!(asset_key(path).is_err(), "{path}");
    }
    let exts = raw_extensions();
    assert!(validate_cache_filename("../../outside", &exts).is_err());
    assert!(validate_cache_filename("original.dng", &exts).is_ok());
    assert!(validate_cache_filename("working.tiff", &exts).is_ok());
}

#[test]
fn file_sources_remain_unchanged_and_virtual_assets_cannot_move() {
    let path = "/photos/IMG_0001.raf";
    assert_eq!(Source::plain(path).path(), path);
    assert_eq!(metadata_path(path, "/edits").unwrap(), path);
    assert!(require_file(path).is_ok());
    assert!(require_file("apple-photos://ab/photo").is_err());
    assert_eq!(safe_name("../bad:name"), ".._bad_name");
}

#[test]
fn cache_preference_accepts_only_bounded_integer_limits() {
    assert_eq!(cache_limit(CacheLimitSetting::Unset).unwrap(), DEFAULT_LIMIT);
    for limit in [1u64, 4, 64] {
        assert_eq!(cache_limit(CacheLimitSetting::Whole(limit)).unwrap(), limit * GIB);
    }
    // 0 and 65 are whole numbers out of range; -1, 1.5, "4" and null are not
    // whole numbers at all.
    for setting in [
        CacheLimitSetting::Whole(0),
        CacheLimitSetting::Whole(65),
        CacheLimitSetting::Other,
        CacheLimitSetting::Other,
        CacheLimitSetting::Other,
        CacheLimitSetting::Other,
    ] {
        assert!(cache_limit(setting).is_err());
    }
}

#[test]
fn cache_limit_errors_name_the_accepted_range() {
    assert_eq!(
        cache_limit(CacheLimitSetting::Whole(65)).unwrap_err(),
        "Apple Photos cache limit must be a whole number from 1 to 64 GiB"
    );
    assert_eq!(cache_limit(CacheLimitSetting::Whole(64)).unwrap(), 68_719_476_736);
}

#[test]
fn encode_id_is_lower_case_hex_of_utf8() {
    assert_eq!(encode_id("AB"), "4142");
    assert_eq!(encode_id("\u{e9}"), "c3a9");
    assert_eq!(encode_id(""), "");
}

#[test]
fn identifier_reads_upper_case_hex_too() {
    assert_eq!(identifier("apple-photos://4142/x.heic").unwrap(), "AB");
    assert_eq!(identifier("apple-photos://C3A9/x.heic").unwrap(), "\u{e9}");
}

#[test]
fn identifier_refuses_bytes_that_are_not_utf8() {
    assert!(identifier("apple-photos://ff/x.heic").is_err());
    assert!(identifier("apple-photos://c3/x.heic").is_err());
}

#[test]
fn asset_key_errors_tell_the_cases_apart() {
    assert_eq!(asset_key("/photos/a.raf").unwrap_err(), "Not an Apple Photos asset");
    assert_eq!(asset_key("apple-photos://abcd").unwrap_err(), "Invalid Apple Photos asset");
    assert_eq!(
        asset_key("apple-photos://abc/file").unwrap_err(),
        "Invalid Apple Photos asset identifier"
    );
    assert_eq!(
        asset_key("apple-photos://ab/a\\b").unwrap_err(),
        "Invalid Apple Photos asset identifier"
    );
    assert_eq!(asset_key("apple-photos://aB/IMG_1.HEIC").unwrap(), "aB");
}

#[test]
fn asset_key_bounds_the_key_length() {
    let longest = "ab".repeat(512);
    assert_eq!(asset_key(&format!("{PREFIX}{longest}/f")).unwrap(), longest);
    let too_long = "ab".repeat(513);
    assert!(asset_key(&format!("{PREFIX}{too_long}/f")).is_err());
}

#[test]
fn is_asset_tests_the_scheme() {
    assert!(is_asset("apple-photos://ab/x"));
    assert!(!is_asset("apple-photos:/ab/x"));
    assert!(!is_asset("/Users/me/apple-photos://ab/x"));
}

#[test]
fn metadata_of_an_asset_lives_under_the_edits_directory() {
    let expected = std::path::Path::new("/edits").join("ab12").join("photo");
    assert_eq!(
        metadata_path("apple-photos://ab12/IMG_1.HEIC", "/edits").unwrap(),
        expected.to_string_lossy()
    );
    assert!(metadata_path("apple-photos://xyz/IMG_1.HEIC", "/edits").is_err());
}

#[test]
fn require_file_explains_the_refusal() {
    assert_eq!(
        require_file("apple-photos://ab/photo").unwrap_err(),
        "Apple Photos is read-only. Export this photo before using filesystem actions."
    );
}

#[test]
fn safe_name_falls_back_for_names_that_are_not_names() {
    assert_eq!(safe_name(""), "Photo");
    assert_eq!(safe_name("."), "Photo");
    assert_eq!(safe_name(".."), "Photo");
    assert_eq!(safe_name("a/b\\c\0d:e"), "a_b_c_d_e");
    assert_eq!(safe_name("..."), "...");
}

#[test]
fn cache_filenames_are_the_working_copy_or_an_original() {
    let exts = raw_extensions();
    assert!(validate_cache_filename("original.raf", &exts).is_ok());
    assert!(validate_cache_filename("original.heic", &exts).is_err());
    assert_eq!(
        validate_cache_filename("working.tif", &exts).unwrap_err(),
        "Invalid Apple Photos cache filename"
    );
    assert!(validate_cache_filename("original.dng", &Vec::new()).is_err());
}

#[test]
fn set_cache_limit_changes_only_the_limit() {
    let mut storage = Some(PhotoCache::new("/cache", DEFAULT_LIMIT));
    assert_eq!(set_cache_limit(&mut storage, 2 * GIB), Ok(()));
    let mut cache = storage.unwrap();
    assert_eq!(cache.get_limit(), 2 * GIB);
    assert!(cache.lease("ab", "source-0000000000000001").is_ok());
}

#[test]
fn an_uninitialized_storage_refuses_a_new_limit() {
    let mut storage: Option<PhotoCache> = None;
    assert_eq!(set_cache_limit(&mut storage, 2 * GIB), Err("Apple Photos is not initialized".to_string()));
    assert!(storage.is_none());
}

#[test]
fn each_revision_has_its_own_source_group() {
    let revision = 3.5f64;
    let group = source_group(revision.to_bits());
    assert_eq!(group, format!("source-{:016x}", revision.to_bits()));
    assert_eq!(source_group(1), "source-0000000000000001");
    assert!(valid_group(&group));
    assert!(valid_group(&source_group(u64::MAX)));
}

#[test]
fn the_recoverable_working_files_are_the_valid_ones() {
    let exts = raw_extensions();
    let names = working_filenames(&exts);
    assert_eq!(names.len(), exts.len() + 1);
    assert_eq!(names[0], "working.tiff");
    assert_eq!(names[1], "original.dng");
    for name in &names {
        assert!(validate_cache_filename(name, &exts).is_ok(), "{name}");
    }
    assert_eq!(working_filenames(&Vec::new()), vec!["working.tiff"]);
}

#[test]
fn the_manifest_decides_whether_the_working_copy_is_reused() {
    let exts = vec!["raf".to_string(), "dng".to_string()];
    assert!(matches!(source_step(None, &exts, false, false, false), Ok(SourceStep::Download { remove_stale: false, recover: true })));
    assert!(matches!(source_step(Some(None), &exts, true, true, true), Ok(SourceStep::Download { remove_stale: false, recover: false })));
    assert!(matches!(source_step(Some(Some("original.raf")), &exts, true, true, true), Ok(SourceStep::Reuse)));
    assert!(matches!(source_step(Some(Some("working.tiff")), &exts, false, true, true), Ok(SourceStep::Download { remove_stale: true, recover: false })));
    assert!(matches!(source_step(Some(Some("working.tiff")), &exts, true, false, false), Ok(SourceStep::Download { remove_stale: false, recover: false })));
    assert!(matches!(source_step(Some(Some("../etc/passwd")), &exts, true, true, true), Err(ref m) if m == "Invalid Apple Photos cache filename"));
}
