use reveal_lib::export::{export_candidate, export_parent, EXPORT_ATTEMPTS};

#[test]
fn an_export_tries_its_own_name_first_then_numbered_siblings() {
    let dest = std::path::Path::new("/exports").join("IMG_0001.jpg");
    let requested = dest.to_string_lossy().into_owned();
    assert_eq!(export_candidate(&requested, 0).unwrap(), requested);
    let first = std::path::Path::new("/exports").join("IMG_0001-1.jpg");
    assert_eq!(export_candidate(&requested, 1).unwrap(), first.to_string_lossy());
    let last = std::path::Path::new("/exports").join("IMG_0001-9999.jpg");
    assert_eq!(export_candidate(&requested, EXPORT_ATTEMPTS - 1).unwrap(), last.to_string_lossy());
    assert_eq!(
        export_candidate(&requested, EXPORT_ATTEMPTS).unwrap_err(),
        "Too many exports with this name; choose another destination"
    );
}

#[test]
fn numbered_siblings_drop_the_requested_extension() {
    assert_eq!(export_candidate("/e/photo.jpeg", 2).unwrap(), "/e/photo-2.jpg");
    assert_eq!(export_candidate("/e/a.b.jpg", 3).unwrap(), "/e/a.b-3.jpg");
}

#[test]
fn an_export_needs_a_directory_and_a_name() {
    assert_eq!(export_parent("/").unwrap_err(), "Export destination has no parent");
    assert_eq!(export_candidate("/", 0).unwrap_err(), "Export destination has no parent");
    assert_eq!(export_candidate("/e/..", 1).unwrap_err(), "Export filename is missing");
    assert_eq!(export_parent("/e/x.jpg").unwrap(), "/e");
}
