use reveal_lib::story::{derive_foreground, parse_stems, StoryNote, ThemeTokens};

#[test]
fn parse_and_rewrite() {
    let c = "---\npublish: true\n---\n\n![[A001.jpg]]\n![[B002.jpg|légende]]\ntexte\n";
    assert_eq!(parse_stems(c), vec!["A001", "B002"]);
}

#[test]
fn parse_splits_frontmatter_and_body() {
    let raw = "---\npublish: true\ntitle: \"X\"\n---\n\n![[A.jpg]]\n";
    let n = StoryNote::parse(raw, "/tmp/n.md");
    assert_eq!(n.frontmatter_value("publish"), Some("true".to_string()));
    assert_eq!(n.frontmatter_value("title"), Some("X".to_string()));
    assert!(n.body.contains("![[A.jpg]]"));
}

#[test]
fn parse_no_frontmatter_treats_all_as_body() {
    let raw = "![[A.jpg]]\ntext\n";
    let n = StoryNote::parse(raw, "/tmp/n.md");
    assert!(n.frontmatter.is_empty());
    assert_eq!(n.body, raw);
}

#[test]
fn set_frontmatter_adds_key() {
    let mut n = StoryNote::parse("---\npublish: true\n---\n\nbody\n", "/tmp/n.md");
    n.set_frontmatter("color-dark-background", Some("#15110D"));
    assert_eq!(n.frontmatter_value("color-dark-background"), Some("#15110D".to_string()));
    // existing key untouched
    assert_eq!(n.frontmatter_value("publish"), Some("true".to_string()));
}

#[test]
fn set_frontmatter_replaces_in_place() {
    let mut n = StoryNote::parse("---\ncolor-dark-background: #000000\n---\n\nbody\n", "/tmp/n.md");
    n.set_frontmatter("color-dark-background", Some("#15110D"));
    assert_eq!(n.frontmatter.len(), 1); // still one line, not two
    assert_eq!(n.frontmatter_value("color-dark-background"), Some("#15110D".to_string()));
}

#[test]
fn set_frontmatter_none_deletes_key() {
    let mut n = StoryNote::parse("---\ncolor-dark-background: #15110D\npublish: true\n---\n\nbody\n", "/tmp/n.md");
    n.set_frontmatter("color-dark-background", None);
    assert_eq!(n.frontmatter_value("color-dark-background"), None);
    assert_eq!(n.frontmatter_value("publish"), Some("true".to_string()));
}

#[test]
fn set_frontmatter_none_on_absent_key_is_noop() {
    let mut n = StoryNote::parse("---\npublish: true\n---\n\nbody\n", "/tmp/n.md");
    n.set_frontmatter("color-dark-background", None);
    assert_eq!(n.frontmatter.len(), 1);
}

#[test]
fn save_round_trips_untouched_keys_byte_identical() {
    let raw = "---\npublish: true\nauthor: \"francis\"\nrating: 5\n---\n\n![[A.jpg]]\nprose here\n";
    let mut n = StoryNote::parse(raw, "/tmp/n.md");
    n.set_frontmatter("color-dark-background", Some("#15110D"));
    // author and rating must survive verbatim
    assert_eq!(n.frontmatter_value("author"), Some("francis".to_string()));
    assert_eq!(n.frontmatter_value("rating"), Some("5".to_string()));
    assert!(n.body.contains("prose here"));
}

#[test]
fn derive_foreground_dark_bg_yields_light_ink() {
    assert_eq!(derive_foreground("#15110D"), "#F5F1EA");
}

#[test]
fn derive_foreground_light_bg_yields_dark_ink() {
    assert_eq!(derive_foreground("#F5F1EA"), "#15110D");
}

#[test]
fn derive_foreground_mid_tone_threshold() {
    // pure red, luminance 0.2126 < 0.5 → light ink
    assert_eq!(derive_foreground("#FF0000"), "#F5F1EA");
    // pure green, luminance 0.7152 >= 0.5 → dark ink
    assert_eq!(derive_foreground("#00FF00"), "#15110D");
}

#[test]
fn derive_foreground_strips_hash_prefix() {
    assert_eq!(derive_foreground("15110D"), "#F5F1EA");
}

#[test]
fn theme_tokens_empty_on_fresh_note() {
    let n = StoryNote::parse("---\npublish: true\n---\n\nbody\n", "/tmp/n.md");
    let t = n.theme_tokens();
    assert!(t.dark_background.is_none());
    assert!(t.dark_accent.is_none());
    assert!(t.font_header.is_none());
}

#[test]
fn set_theme_writes_all_keys_derives_light_and_fg() {
    let mut n = StoryNote::parse("---\npublish: true\n---\n\nbody\n", "/tmp/n.md");
    let tokens = ThemeTokens {
        dark_background: Some("#15110D".to_string()),
        dark_foreground: None, // derived
        light_background: None, // derived
        light_foreground: None, // derived
        dark_accent: Some("#D6202C".to_string()),
        light_accent: None, // mirrors dark_accent
        font_header: Some("Sohne".to_string()),
        font_text: None,
    };
    n.set_theme(&tokens);
    // user-picked
    assert_eq!(n.frontmatter_value("color-dark-background"), Some("#15110D".to_string()));
    assert_eq!(n.frontmatter_value("color-dark-accent"), Some("#D6202C".to_string()));
    assert_eq!(n.frontmatter_value("font-header"), Some("Sohne".to_string()));
    // derived foreground
    assert_eq!(n.frontmatter_value("color-dark-foreground"), Some("#F5F1EA".to_string()));
    // derived light side (swap of dark)
    assert_eq!(n.frontmatter_value("color-light-background"), Some("#F5F1EA".to_string()));
    assert_eq!(n.frontmatter_value("color-light-foreground"), Some("#15110D".to_string()));
    // accent mirrors to light
    assert_eq!(n.frontmatter_value("color-light-accent"), Some("#D6202C".to_string()));
}

#[test]
fn set_theme_none_deletes_keys() {
    let raw = "---\ncolor-dark-background: #15110D\ncolor-dark-foreground: #F5F1EA\ncolor-light-background: #F5F1EA\ncolor-light-foreground: #15110D\ncolor-dark-accent: #D6202C\ncolor-light-accent: #D6202C\nfont-header: Sohne\n---\n\nbody\n";
    let mut n = StoryNote::parse(raw, "/tmp/n.md");
    let tokens = ThemeTokens {
        dark_background: None, dark_foreground: None, light_background: None,
        light_foreground: None, dark_accent: None, light_accent: None,
        font_header: None, font_text: None,
    };
    n.set_theme(&tokens);
    assert!(n.frontmatter_value("color-dark-background").is_none());
    assert!(n.frontmatter_value("color-light-accent").is_none());
    assert!(n.frontmatter_value("font-header").is_none());
}

#[test]
fn theme_tokens_reads_back_set_values() {
    let mut n = StoryNote::parse("---\npublish: true\n---\n\nbody\n", "/tmp/n.md");
    let tokens = ThemeTokens {
        dark_background: Some("#15110D".to_string()), dark_foreground: None,
        light_background: None, light_foreground: None,
        dark_accent: Some("#D6202C".to_string()), light_accent: None,
        font_header: Some("Sohne".to_string()), font_text: None,
    };
    n.set_theme(&tokens);
    let read = n.theme_tokens();
    assert_eq!(read.dark_background, Some("#15110D".to_string()));
    assert_eq!(read.dark_accent, Some("#D6202C".to_string()));
    assert_eq!(read.font_header, Some("Sohne".to_string()));
}

#[test]
fn pinned_false_on_fresh_note() {
    let n = StoryNote::parse("---\npublish: true\n---\n\nbody\n", "/tmp/n.md");
    assert!(!n.pinned());
}

#[test]
fn set_pinned_true_writes_pinned_and_pinned_at() {
    let mut n = StoryNote::parse("---\npublish: true\n---\n\nbody\n", "/tmp/n.md");
    n.set_pinned(true, Some("2026-07-23T14:03:00Z"));
    assert!(n.pinned());
    assert_eq!(n.frontmatter_value("pinned"), Some("true".to_string()));
    assert_eq!(n.frontmatter_value("pinned-at"), Some("2026-07-23T14:03:00Z".to_string()));
}

#[test]
fn set_pinned_false_removes_both_keys() {
    let raw = "---\npinned: true\npinned-at: 2026-07-23T14:03:00Z\n---\n\nbody\n";
    let mut n = StoryNote::parse(raw, "/tmp/n.md");
    n.set_pinned(false, None);
    assert!(!n.pinned());
    assert!(n.frontmatter_value("pinned").is_none());
    assert!(n.frontmatter_value("pinned-at").is_none());
}

#[test]
fn set_pinned_true_without_timestamp_omits_pinned_at() {
    let mut n = StoryNote::parse("---\npublish: true\n---\n\nbody\n", "/tmp/n.md");
    n.set_pinned(true, None);
    assert!(n.pinned());
    assert!(n.frontmatter_value("pinned-at").is_none());
}


#[test]
fn body_save_preserves_disk_frontmatter() {
    let note_path = "/vault/Stories/Iceland/Iceland.md";
    // The note as stored: theme and pin keys written by a recent edit.
    let disk = "---\npublish: true\ncolor-dark-background: #15110D\npinned: true\n---\n\n![[old.jpg]]\n";
    // The composer's content: stale frontmatter and a new body.
    let incoming = "---\npublish: true\n---\n\n![[new.jpg]]\n![[newer.jpg]]\n";

    let incoming_note = StoryNote::parse(incoming, note_path);
    let mut note = StoryNote::parse(disk, note_path);
    note.body = incoming_note.body;
    let saved = note.to_markdown();

    let reloaded = StoryNote::parse(&saved, note_path);
    assert!(reloaded.body.contains("![[new.jpg]]"));
    assert!(reloaded.body.contains("![[newer.jpg]]"));
    assert!(!reloaded.body.contains("![[old.jpg]]"));
    assert_eq!(reloaded.frontmatter_value("color-dark-background"), Some("#15110D".to_string()));
    assert_eq!(reloaded.frontmatter_value("pinned"), Some("true".to_string()));
    assert_eq!(reloaded.frontmatter, note.frontmatter);
}

#[test]
fn a_saved_note_reads_back_even_with_a_stray_carriage_return() {
    let mut note = StoryNote::parse("---\ntitle: T\n---\n\nold\n", "/n.md");
    note.body = "\n\nline\rwith a return\nlast".to_string();
    let reloaded = StoryNote::parse(&note.to_markdown(), "/n.md");
    assert_eq!(reloaded.frontmatter, note.frontmatter);
    assert_eq!(reloaded.body, "\nline\rwith a return\nlast\n");
}
