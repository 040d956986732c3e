use reveal_lib::import_cards::{check_destination, date_folder_format, ImportRegistry};

#[test]
fn a_card_is_imported_once_at_a_time() {
    let mut reg = ImportRegistry::new();
    assert!(reg.begin("/Volumes/CARD/DCIM").is_ok());
    assert!(reg.is_running("/Volumes/CARD/DCIM"));
    assert_eq!(
        reg.begin("/Volumes/CARD/DCIM").unwrap_err(),
        "import already in progress for this card"
    );
    assert!(reg.begin("/Volumes/OTHER/DCIM").is_ok());
    reg.finish("/Volumes/CARD/DCIM");
    assert!(!reg.is_running("/Volumes/CARD/DCIM"));
    assert!(reg.is_running("/Volumes/OTHER/DCIM"));
    assert!(reg.begin("/Volumes/CARD/DCIM").is_ok());
}

#[test]
fn finishing_an_unknown_card_changes_nothing() {
    let mut reg = ImportRegistry::new();
    reg.finish("/nothing");
    assert!(!reg.is_running("/nothing"));
    assert!(reg.begin("/a").is_ok());
    reg.finish("/b");
    assert!(reg.is_running("/a"));
}

#[test]
fn an_unreachable_archive_is_refused_by_name() {
    assert_eq!(check_destination("/Volumes/NAS/Photos", true), Ok(()));
    assert_eq!(
        check_destination("/Volumes/NAS/Photos", false),
        Err("Destination not found: \u{201c}/Volumes/NAS/Photos\u{201d}. Mount the volume or choose an import folder.".to_string())
    );
}

#[test]
fn a_blank_date_folder_setting_falls_back_to_the_default() {
    assert_eq!(date_folder_format(Some("%Y/%m"), "%Y-%m-%d"), "%Y/%m");
    assert_eq!(date_folder_format(Some("   "), "%Y-%m-%d"), "%Y-%m-%d");
    assert_eq!(date_folder_format(Some(""), "%Y-%m-%d"), "%Y-%m-%d");
    assert_eq!(date_folder_format(None, "%Y-%m-%d"), "%Y-%m-%d");
}
