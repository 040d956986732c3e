use reveal_lib::cull::{cull_destination, cull_gate, cull_notice, cull_outcome, picks_to_mark, CullRegistry};

fn strings(v: &[&str]) -> Vec<String> {
    v.iter().map(|s| s.to_string()).collect()
}

#[test]
fn a_run_needs_an_outcome_before_a_key() {
    assert_eq!(cull_gate(false, false, &None), Err("AI culling disabled".to_string()));
    assert_eq!(cull_gate(false, false, &Some("k".to_string())), Err("AI culling disabled".to_string()));
    assert_eq!(cull_gate(true, false, &None), Err("no vision API key configured".to_string()));
    assert_eq!(cull_gate(false, true, &Some(String::new())), Err("no vision API key configured".to_string()));
    assert_eq!(cull_gate(true, true, &Some("sk".to_string())), Ok(()));
    assert_eq!(cull_gate(false, true, &Some("sk".to_string())), Ok(()));
}

#[test]
fn marking_only_adds_picks_the_story_lacks() {
    let existing = strings(&["A001", "B002"]);
    let picked = strings(&["/p/A001.RAF", "/p/C003.RAF", "/p/B002.jpg", "/p/D004.dng"]);
    assert_eq!(picks_to_mark(&existing, &picked), strings(&["/p/C003.RAF", "/p/D004.dng"]));
    assert!(picks_to_mark(&existing, &Vec::new()).is_empty());
    assert_eq!(picks_to_mark(&Vec::new(), &picked), picked);
}

#[test]
fn exports_land_on_the_desktop_under_the_folder_name() {
    assert_eq!(cull_destination("/Users/me", "/Photos/2026-03-01"), "/Users/me/Desktop/2026-03-01");
    assert_eq!(cull_destination("/Users/me", "/"), "/Users/me/Desktop/culled");
}

#[test]
fn the_outcome_names_what_was_done() {
    let dest = Some("/Users/me/Desktop/x".to_string());
    assert_eq!(cull_outcome(&dest, 3), "added to story, exported to /Users/me/Desktop/x");
    assert_eq!(cull_outcome(&dest, 0), "exported to /Users/me/Desktop/x");
    assert_eq!(cull_outcome(&None, 2), "added to story");
    assert_eq!(cull_outcome(&None, 0), "kept");
}

#[test]
fn the_notice_counts_the_picks() {
    assert_eq!(cull_notice("/Photos/Iceland", 24, 310, "kept"), "Iceland: 24 of 310 kept, kept");
    assert_eq!(cull_notice("/", 0, 0, "added to story"), ": 0 of 0 kept, added to story");
}

#[test]
fn one_run_per_folder() {
    let mut r = CullRegistry::new();
    assert_eq!(r.begin("/p/a"), Ok(()));
    assert_eq!(r.begin("/p/a"), Err("culling already in progress for this folder".to_string()));
    assert_eq!(r.begin("/p/b"), Ok(()));
    r.finish("/p/a");
    assert_eq!(r.begin("/p/a"), Ok(()));
}

#[test]
fn a_raw_and_its_jpeg_are_marked_once() {
    let existing = strings(&["A001"]);
    let picked = strings(&["/p/B002.RAF", "/p/B002.JPG", "/p/A001.JPG", "/p/C003.dng", "/p/B002.RAF"]);
    assert_eq!(picks_to_mark(&existing, &picked), strings(&["/p/B002.RAF", "/p/C003.dng"]));
}
