use reveal_lib::publish_flow::{
    check_story_photos, dry_run_summary, publish_candidates, publish_start, publish_step, PublishAction, PublishEvent,
    PublishStage,
};

fn join(dir: &str, name: &str) -> String {
    std::path::Path::new(dir).join(name).to_string_lossy().into_owned()
}

#[test]
fn candidates_come_in_their_order() {
    assert_eq!(
        publish_candidates("/s", "A001"),
        vec![join("/s", "A001.preview.jpg"), join("/s", "A001.jpg"), join("/s", "A001.JPG"), join("/s", "A001.jpeg")]
    );
}

#[test]
fn the_first_usable_candidate_is_compared_with_the_jpeg_beside_the_raw() {
    let (stage, action) = publish_start("/s", "A001");
    assert!(matches!(stage, PublishStage::Looking(0)));
    assert!(matches!(&action, PublishAction::Read(p) if *p == join("/s", "A001.preview.jpg")));

    let (stage, action) = publish_step("/s", "A001", false, stage, PublishEvent::Read(None));
    assert!(matches!(stage, PublishStage::Looking(1)));
    assert!(matches!(&action, PublishAction::Read(p) if *p == join("/s", "A001.jpg")));

    // An empty file is not a JPEG to publish.
    let (stage, action) = publish_step("/s", "A001", false, stage, PublishEvent::Read(Some(Vec::new())));
    assert!(matches!(stage, PublishStage::Looking(2)));
    assert!(matches!(&action, PublishAction::Read(p) if *p == join("/s", "A001.JPG")));

    let (stage, action) = publish_step("/s", "A001", false, stage, PublishEvent::Read(Some(vec![1, 2, 3])));
    assert!(matches!(&stage, PublishStage::Comparing(b) if *b == vec![1, 2, 3]));
    assert!(matches!(&action, PublishAction::Read(p) if *p == join("/s", "A001.jpg")));
}

#[test]
fn without_candidates_the_cached_render_then_the_raw_are_used() {
    let (stage, action) = publish_step("/s", "B", false, PublishStage::Looking(3), PublishEvent::Read(None));
    assert!(matches!(stage, PublishStage::Cached));
    assert!(matches!(action, PublishAction::ReadCachedRender));

    let (s, a) = publish_step("/s", "B", false, PublishStage::Cached, PublishEvent::CachedRender { raw_found: false, bytes: None });
    assert!(matches!(&s, PublishStage::Failed(m) if m == "RAW not found for B"));
    assert!(matches!(&a, PublishAction::Fail(m) if m == "RAW not found for B"));

    let (s, a) = publish_step("/s", "B", false, PublishStage::Cached, PublishEvent::CachedRender { raw_found: true, bytes: Some(Vec::new()) });
    assert!(matches!(s, PublishStage::Developing));
    assert!(matches!(a, PublishAction::Develop));

    let (s, _) = publish_step("/s", "B", false, PublishStage::Cached, PublishEvent::CachedRender { raw_found: true, bytes: Some(vec![9]) });
    assert!(matches!(&s, PublishStage::Comparing(b) if *b == vec![9]));

    let (s, a) = publish_step("/s", "B", false, PublishStage::Developing, PublishEvent::Developed(Err("no engine".to_string())));
    assert!(matches!(&s, PublishStage::Failed(m) if m == "develop B: no engine"));
    assert!(matches!(&a, PublishAction::Fail(m) if m == "develop B: no engine"));
}

#[test]
fn the_jpeg_is_written_only_when_it_changed_then_uploaded() {
    let jpeg = vec![7u8, 8, 9];
    let (s, a) = publish_step("/s", "C", false, PublishStage::Comparing(jpeg.clone()), PublishEvent::Read(Some(jpeg.clone())));
    assert!(matches!(s, PublishStage::Uploading));
    match a {
        PublishAction::SaveAndUpload { path, bytes, write, name } => {
            assert_eq!(path, join("/s", "C.jpg"));
            assert_eq!(bytes, jpeg);
            assert!(!write);
            assert_eq!(name, "C.jpg");
        }
        _ => panic!("expected an upload"),
    }
    let (_, a) = publish_step("/s", "C", false, PublishStage::Comparing(jpeg.clone()), PublishEvent::Read(Some(vec![7u8])));
    assert!(matches!(a, PublishAction::SaveAndUpload { write: true, .. }));
    let (_, a) = publish_step("/s", "C", false, PublishStage::Comparing(jpeg.clone()), PublishEvent::Read(None));
    assert!(matches!(a, PublishAction::SaveAndUpload { write: true, .. }));

    let (s, a) = publish_step("/s", "C", false, PublishStage::Uploading, PublishEvent::Uploaded(Ok("https://cdn/c.jpg".to_string())));
    assert!(matches!(&s, PublishStage::Done(u) if u == "https://cdn/c.jpg"));
    assert!(matches!(&a, PublishAction::Finish(u) if u == "https://cdn/c.jpg"));
    let (s, _) = publish_step("/s", "C", false, PublishStage::Uploading, PublishEvent::Uploaded(Err("403".to_string())));
    assert!(matches!(&s, PublishStage::Failed(m) if m == "403"));
}

#[test]
fn a_dry_run_names_the_photo_instead_of_uploading() {
    let (s, a) = publish_step("/s", "D", true, PublishStage::Comparing(vec![1]), PublishEvent::Read(None));
    assert!(matches!(&s, PublishStage::Done(u) if u == "dry-run://D.jpg"));
    assert!(matches!(a, PublishAction::Save { write: true, .. }));
}

#[test]
fn an_event_that_does_not_fit_the_stage_changes_nothing() {
    let (s, a) = publish_step("/s", "E", false, PublishStage::Developing, PublishEvent::Read(None));
    assert!(matches!(s, PublishStage::Developing));
    assert!(matches!(a, PublishAction::Ignore));
    let (s, a) = publish_step("/s", "E", false, PublishStage::Done("u".to_string()), PublishEvent::Uploaded(Ok("v".to_string())));
    assert!(matches!(&s, PublishStage::Done(u) if u == "u"));
    assert!(matches!(a, PublishAction::Ignore));
}

#[test]
fn a_story_needs_a_photo_and_a_dry_run_reports_its_slug() {
    assert_eq!(check_story_photos(&Vec::new()), Err("no photos in the story".to_string()));
    assert_eq!(check_story_photos(&vec!["A".to_string()]), Ok(()));
    assert_eq!(dry_run_summary("iceland", 12), "dry-run \u{2014} slug iceland, 12 photos ready");
}
