use reveal_lib::thumb_request::thumb_request;

#[test]
fn a_full_request_is_read_pair_by_pair() {
    let r = thumb_request("p=%2FVolumes%2Fphotos%2FA001.RAF&size=1024&v=3&priority=1").unwrap();
    assert_eq!(r.size, 1024);
    assert_eq!(r.version, 3);
    assert!(r.priority);
    assert_eq!(r.path, "/Volumes/photos/A001.RAF");
}

#[test]
fn the_size_defaults_to_the_grid_edge_and_is_clamped() {
    assert_eq!(thumb_request("p=a").unwrap().size, 768);
    assert_eq!(thumb_request("p=a&size=50").unwrap().size, 256);
    assert_eq!(thumb_request("p=a&size=9999").unwrap().size, 2560);
    assert_eq!(thumb_request("p=a&size=abc").unwrap().size, 768);
    assert_eq!(thumb_request("p=a&size=").unwrap().size, 768);
    assert_eq!(thumb_request("p=a&size=+300").unwrap().size, 300);
    assert_eq!(thumb_request("p=a&size=4294967296").unwrap().size, 768);
    assert_eq!(thumb_request("size=2000&size=300").unwrap().size, 2000);
}

#[test]
fn the_version_defaults_to_zero() {
    assert_eq!(thumb_request("p=a").unwrap().version, 0);
    assert_eq!(thumb_request("p=a&v=-1").unwrap().version, 0);
    assert_eq!(thumb_request("p=a&v=18446744073709551615").unwrap().version, u64::MAX);
    assert_eq!(thumb_request("p=a&v=18446744073709551616").unwrap().version, 0);
}

#[test]
fn only_an_exact_priority_pair_skips_the_queue() {
    assert!(!thumb_request("p=a").unwrap().priority);
    assert!(!thumb_request("p=a&priority=10").unwrap().priority);
    assert!(!thumb_request("p=a&priority=0").unwrap().priority);
    assert!(thumb_request("priority=1&p=a").unwrap().priority);
}

#[test]
fn a_missing_path_is_empty_and_a_cut_escape_is_refused() {
    assert_eq!(thumb_request("").unwrap().path, "");
    assert_eq!(thumb_request("size=512").unwrap().path, "");
    assert_eq!(thumb_request("p=").unwrap().path, "");
    assert_eq!(thumb_request("p=a+b%20c").unwrap().path, "a b c");
    assert!(thumb_request("p=%a\u{e9}").is_none());
}

use reveal_lib::thumb_request::{thumb_step, ThumbAction, ThumbEvent, ThumbStage, ThumbStore};

#[test]
fn a_cache_hit_is_served_and_an_empty_entry_is_dropped() {
    let (s, a) = thumb_step("/p/a.RAF", 768, ThumbStage::Cache, ThumbEvent::Cached(Some(vec![1, 2])));
    assert!(matches!(s, ThumbStage::Finished));
    assert!(matches!(a, ThumbAction::Serve { ref bytes, shrink: false, store: ThumbStore::Nowhere, max_age: true } if *bytes == vec![1, 2]));
    let (s, a) = thumb_step("/p/a.RAF", 768, ThumbStage::Cache, ThumbEvent::Cached(Some(Vec::new())));
    assert!(matches!(s, ThumbStage::Mount));
    assert!(matches!(a, ThumbAction::CheckMount { drop_entry: true }));
    let (_, a) = thumb_step("/p/a.RAF", 768, ThumbStage::Cache, ThumbEvent::Cached(None));
    assert!(matches!(a, ThumbAction::CheckMount { drop_entry: false }));
}

#[test]
fn offline_photos_fall_back_to_the_newest_render() {
    let (s, a) = thumb_step("/p/a.RAF", 768, ThumbStage::Mount, ThumbEvent::Mounted(false));
    assert!(matches!(s, ThumbStage::Offline));
    assert!(matches!(a, ThumbAction::ReadNewestRender));
    let (_, a) = thumb_step("/p/a.RAF", 768, ThumbStage::Offline, ThumbEvent::Source(None));
    assert!(matches!(a, ThumbAction::Respond { status: 404, ref body } if body.is_empty()));
    let (_, a) = thumb_step("/p/a.RAF", 768, ThumbStage::Offline, ThumbEvent::Source(Some(Ok(vec![5]))));
    assert!(matches!(a, ThumbAction::Serve { shrink: false, max_age: true, .. }));
}

#[test]
fn the_sources_are_tried_sidecar_embedded_companion_then_a_render() {
    let (s, a) = thumb_step("/p/a.RAF", 768, ThumbStage::Mount, ThumbEvent::Mounted(true));
    assert!(matches!(s, ThumbStage::Sidecar));
    assert!(matches!(a, ThumbAction::ReadSidecar));
    let (_, a) = thumb_step("/p/a.RAF", 768, ThumbStage::Sidecar, ThumbEvent::Source(Some(Ok(vec![1]))));
    assert!(matches!(a, ThumbAction::Serve { shrink: true, store: ThumbStore::DevelopedCache, .. }));
    let (_, a) = thumb_step("/p/a.RAF", 768, ThumbStage::Sidecar, ThumbEvent::Source(Some(Err("io".to_string()))));
    assert!(matches!(a, ThumbAction::Respond { status: 404, .. }));
    let (s, a) = thumb_step("/p/a.RAF", 768, ThumbStage::Sidecar, ThumbEvent::Source(None));
    assert!(matches!(s, ThumbStage::Embedded));
    assert!(matches!(a, ThumbAction::ExtractEmbedded));
    let (_, a) = thumb_step("/p/a.RAF", 768, ThumbStage::Embedded, ThumbEvent::Source(Some(Ok(vec![1]))));
    assert!(matches!(a, ThumbAction::Serve { shrink: true, store: ThumbStore::ThumbCache, .. }));
    let (s, a) = thumb_step("/p/a.RAF", 768, ThumbStage::Embedded, ThumbEvent::Source(Some(Err("none".to_string()))));
    assert!(matches!(s, ThumbStage::Companion));
    assert!(matches!(a, ThumbAction::ReadCompanion));
    let (_, a) = thumb_step("/p/a.RAF", 768, ThumbStage::Companion, ThumbEvent::Source(None));
    assert!(matches!(a, ThumbAction::RenderFallback));
    let (_, a) = thumb_step("/p/a.RAF", 768, ThumbStage::Companion, ThumbEvent::Source(Some(Ok(vec![2]))));
    assert!(matches!(a, ThumbAction::Serve { shrink: true, store: ThumbStore::ThumbCache, .. }));
}

#[test]
fn apple_photos_thumbnails_are_shrunk_only_at_grid_sizes() {
    let asset = "apple-photos://ABCDEF01-2345-6789-ABCD-EF0123456789";
    let (s, a) = thumb_step(asset, 768, ThumbStage::Mount, ThumbEvent::Mounted(true));
    assert!(matches!(s, ThumbStage::Apple));
    assert!(matches!(a, ThumbAction::FetchAppleThumb));
    let (_, a) = thumb_step(asset, 768, ThumbStage::Apple, ThumbEvent::Source(Some(Ok(vec![1]))));
    assert!(matches!(a, ThumbAction::Serve { shrink: true, max_age: false, .. }));
    let (_, a) = thumb_step(asset, 1024, ThumbStage::Apple, ThumbEvent::Source(Some(Ok(vec![1]))));
    assert!(matches!(a, ThumbAction::Serve { shrink: false, .. }));
    let (_, a) = thumb_step(asset, 1024, ThumbStage::Apple, ThumbEvent::Source(Some(Err("denied".to_string()))));
    assert!(matches!(a, ThumbAction::Respond { status: 503, ref body } if body == b"denied"));
}

#[test]
fn an_event_out_of_place_is_ignored() {
    let (s, a) = thumb_step("/p/a.RAF", 768, ThumbStage::Finished, ThumbEvent::Mounted(true));
    assert!(matches!(s, ThumbStage::Finished));
    assert!(matches!(a, ThumbAction::Ignore));
}

use reveal_lib::thumb_request::{reveal_route, thumb_start, RevealRoute};

#[test]
fn a_request_without_a_path_is_answered_404() {
    let (s, a) = thumb_start("");
    assert!(matches!(s, ThumbStage::Finished));
    assert!(matches!(a, ThumbAction::Respond { status: 404, ref body } if body.is_empty()));
    let (s, a) = thumb_start("/p/a.RAF");
    assert!(matches!(s, ThumbStage::Cache));
    assert!(matches!(a, ThumbAction::ReadCache));
}

#[test]
fn unknown_hosts_are_not_found() {
    assert!(matches!(reveal_route("thumb"), RevealRoute::Thumb));
    assert!(matches!(reveal_route("ping"), RevealRoute::Ping));
    assert!(matches!(reveal_route("log"), RevealRoute::Log));
    assert!(matches!(reveal_route("preview"), RevealRoute::NotFound));
    assert!(matches!(reveal_route(""), RevealRoute::NotFound));
}
