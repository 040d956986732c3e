use reveal_lib::thumbnail::{downscale_grid_thumb, grid_thumb_orientation, is_plain_image, thumb_plan};

/// A landscape JPEG with no EXIF at all, like a raw's embedded preview.
fn silent_landscape() -> Vec<u8> {
    let img = image::DynamicImage::new_rgb8(40, 20);
    let mut out = std::io::Cursor::new(Vec::new());
    img.write_to(&mut out, image::ImageFormat::Jpeg).unwrap();
    out.into_inner()
}

fn dims(bytes: &[u8]) -> (u32, u32) {
    let img = image::load_from_memory(bytes).unwrap();
    (img.width(), img.height())
}

#[test]
fn a_silent_preview_takes_the_source_orientation() {
    assert_eq!(dims(&downscale_grid_thumb(silent_landscape(), 768, 6)), (20, 40));
    assert_eq!(dims(&downscale_grid_thumb(silent_landscape(), 768, 8)), (20, 40));
}

#[test]
fn an_upright_source_leaves_it_alone() {
    assert_eq!(dims(&downscale_grid_thumb(silent_landscape(), 768, 1)), (40, 20));
    assert_eq!(dims(&downscale_grid_thumb(silent_landscape(), 768, 3)), (40, 20));
}

#[test]
fn every_quarter_turn_swaps_the_sides_and_flips_keep_them() {
    for o in [5u32, 6, 7, 8] {
        assert_eq!(dims(&downscale_grid_thumb(silent_landscape(), 768, o)), (20, 40), "{o}");
    }
    for o in [0u32, 1, 2, 3, 4, 9, 100] {
        assert_eq!(dims(&downscale_grid_thumb(silent_landscape(), 768, o)), (40, 20), "{o}");
    }
}

#[test]
fn a_large_preview_is_shrunk_to_the_edge() {
    let img = image::DynamicImage::new_rgb8(100, 50);
    let mut out = std::io::Cursor::new(Vec::new());
    img.write_to(&mut out, image::ImageFormat::Jpeg).unwrap();
    assert_eq!(dims(&downscale_grid_thumb(out.into_inner(), 20, 1)), (20, 10));
}

#[test]
fn bytes_that_are_not_an_image_come_back_unchanged() {
    let junk = b"not an image at all".to_vec();
    assert_eq!(downscale_grid_thumb(junk.clone(), 768, 6), junk);
    assert_eq!(downscale_grid_thumb(Vec::new(), 768, 1), Vec::<u8>::new());
    assert!(!is_plain_image(&junk));
    assert!(is_plain_image(&silent_landscape()));
}

#[test]
fn a_silent_preview_reports_the_source_orientation() {
    assert_eq!(grid_thumb_orientation(&silent_landscape(), 6), 6);
    assert_eq!(grid_thumb_orientation(b"junk", 0), 0);
}

#[test]
fn the_plan_swaps_sides_only_for_quarter_turns() {
    assert_eq!(thumb_plan(40, 20, 6, 768), (20, 40, false));
    assert_eq!(thumb_plan(40, 20, 8, 768), (20, 40, false));
    assert_eq!(thumb_plan(40, 20, 3, 768), (40, 20, false));
    assert_eq!(thumb_plan(40, 20, 1, 768), (40, 20, false));
    assert_eq!(thumb_plan(40, 20, 9, 768), (40, 20, false));
}

#[test]
fn the_plan_shrinks_when_either_side_is_over_the_edge() {
    assert_eq!(thumb_plan(2000, 500, 1, 768), (2000, 500, true));
    assert_eq!(thumb_plan(500, 2000, 5, 768), (2000, 500, true));
    assert_eq!(thumb_plan(768, 768, 1, 768), (768, 768, false));
    assert_eq!(thumb_plan(769, 10, 7, 768), (10, 769, true));
}
