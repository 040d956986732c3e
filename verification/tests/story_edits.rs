use reveal_lib::story::{
    content_for_publish, derive_foreground, link_exec, note_path, parse_stems, stamp_garden_url, story_summary, toggle,
    StoryNote,
};

fn float_ink(hex: &str) -> &'static str {
    let s = hex.trim_start_matches('#');
    if s.len() != 6 {
        return "#15110D";
    }
    let Ok(v) = u64::from_str_radix(s, 16) else {
        return "#15110D";
    };
    let r = ((v >> 16) & 0xFF) as f64 / 255.0;
    let g = ((v >> 8) & 0xFF) as f64 / 255.0;
    let b = (v & 0xFF) as f64 / 255.0;
    let lum = 0.2126 * r + 0.7152 * g + 0.0722 * b;
    if lum < 0.5 { "#F5F1EA" } else { "#15110D" }
}

#[test]
fn derive_foreground_agrees_with_the_luminance_formula() {
    let mut v = 0u32;
    while v < 256 {
        let mut w = 0u32;
        while w < 256 {
            let mut x = 0u32;
            while x < 256 {
                let hex = format!("#{v:02X}{w:02x}{x:02X}");
                assert_eq!(derive_foreground(&hex), float_ink(&hex), "{hex}");
                x += 17;
            }
            w += 3;
        }
        v += 5;
    }
}

#[test]
fn derive_foreground_rounds_at_the_midpoint_as_doubles_do() {
    for (r, g, b) in [(13u32, 163u32, 113u32), (30, 153, 162), (78, 146, 90), (126, 139, 18), (143, 129, 67), (208, 112, 44), (225, 102, 93)] {
        let hex = format!("#{r:02X}{g:02X}{b:02X}");
        assert_eq!(derive_foreground(&hex), "#F5F1EA", "{hex}");
        assert_eq!(derive_foreground(&hex), float_ink(&hex), "{hex}");
    }
    // exactly one half, and the doubles say so too
    assert_eq!(derive_foreground("#FF0000"), float_ink("#FF0000"));
}

#[test]
fn derive_foreground_falls_back_to_dark_ink() {
    assert_eq!(derive_foreground("#12345"), "#15110D");
    assert_eq!(derive_foreground("#GGGGGG"), "#15110D");
    assert_eq!(derive_foreground(""), "#15110D");
    assert_eq!(derive_foreground("-00000"), "#15110D");
    // a sign is a number to from_str_radix: +00000 is black
    assert_eq!(derive_foreground("+00000"), "#F5F1EA");
    assert_eq!(derive_foreground("##000000"), "#F5F1EA");
}

#[test]
fn toggle_seeds_publish_on_an_empty_note_and_appends_the_embed() {
    let mut n = StoryNote::parse("", "/tmp/n.md");
    let stems = toggle(&mut n, "A001");
    assert_eq!(stems, vec!["A001"]);
    assert_eq!(n.frontmatter, vec!["publish: true"]);
    assert_eq!(n.body, "\n![[A001.jpg]]\n");
    assert_eq!(n.to_markdown(), "---\npublish: true\n---\n\n![[A001.jpg]]\n");
}

#[test]
fn toggle_twice_takes_the_embed_out_again() {
    let mut n = StoryNote::parse("---\npublish: true\n---\n\nintro\n", "/tmp/n.md");
    assert_eq!(toggle(&mut n, "B002"), vec!["B002"]);
    assert_eq!(n.body, "\nintro\n![[B002.jpg]]\n");
    assert!(toggle(&mut n, "B002").is_empty());
    assert_eq!(n.body, "\nintro\n");
    assert_eq!(n.frontmatter, vec!["publish: true"]);
}

#[test]
fn toggle_keeps_a_note_with_text_unseeded() {
    let mut n = StoryNote::parse("some words", "/tmp/n.md");
    toggle(&mut n, "C");
    assert!(n.frontmatter.is_empty());
    assert_eq!(n.body, "some words\n![[C.jpg]]\n");
}

#[test]
fn toggle_matches_an_indented_embed_line() {
    let mut n = StoryNote::parse("a\n  ![[D.jpg]]  \nb", "/tmp/n.md");
    assert!(toggle(&mut n, "D").is_empty());
    assert_eq!(n.body, "a\nb\n");
}

#[test]
fn markdown_without_frontmatter_is_the_body() {
    let n = StoryNote::parse("\n\nbody", "/tmp/n.md");
    assert_eq!(n.to_markdown(), "body\n");
}

#[test]
fn parse_normalises_line_endings_and_reads_an_unclosed_fence_as_body() {
    let n = StoryNote::parse("---\r\npublish: true\r\n---\r\nbody\r\n", "/tmp/n.md");
    assert_eq!(n.frontmatter, vec!["publish: true"]);
    assert_eq!(n.body, "body\n");
    let open = StoryNote::parse("---\npublish: true\nbody\n", "/tmp/n.md");
    assert!(open.frontmatter.is_empty());
    assert_eq!(open.body, "---\npublish: true\nbody\n");
}

#[test]
fn publish_content_links_each_embedded_photo() {
    let content = "![[A.jpg]]\ntext ![[B.jpg]] and ![[A.jpg]]\n![[C.jpg]]\n";
    let urls = vec![
        ("A".to_string(), "https://cdn/a.jpg".to_string()),
        ("B".to_string(), "https://cdn/b.jpg".to_string()),
    ];
    assert_eq!(
        content_for_publish(content, &urls),
        "---\npublish: true\n---\n\n![A](https://cdn/a.jpg)\ntext ![B](https://cdn/b.jpg) and ![A](https://cdn/a.jpg)\n![[C.jpg]]\n"
    );
    assert_eq!(content_for_publish(content, &Vec::new()), format!("---\npublish: true\n---\n\n{content}"));
}

#[test]
fn publish_content_keeps_a_note_already_marked_published() {
    let content = "---\ntitle: T\npublish: true\n---\n\n![[A.jpg]]\n";
    let urls = vec![("A".to_string(), "u".to_string())];
    assert_eq!(content_for_publish(content, &urls), "---\ntitle: T\npublish: true\n---\n\n![A](u)\n");
    assert_eq!(content_for_publish(content, &Vec::new()), content);
}

#[test]
fn publish_content_turns_a_false_flag_true() {
    let content = "---\ntitle: T\npublish: false\n---\n\nbody\n";
    let out = content_for_publish(content, &Vec::new());
    assert_eq!(out, "---\ntitle: T\npublish: true\n---\n\nbody\n");
    assert_eq!(StoryNote::parse(&out, "/tmp/n.md").frontmatter_value("publish"), Some("true".to_string()));
}

#[test]
fn stamping_the_garden_url_adds_publish_when_missing() {
    let mut n = StoryNote::parse("---\ntitle: T\n---\n\nbody\n", "/tmp/n.md");
    stamp_garden_url(&mut n, "https://garden/x");
    assert_eq!(n.frontmatter, vec!["title: T", "garden-url: https://garden/x", "publish: true"]);
    assert_eq!(n.body, "\nbody\n");

    let mut m = StoryNote::parse("---\ngarden-url: old\npublish: false\n---\n\nbody\n", "/tmp/n.md");
    stamp_garden_url(&mut m, "new");
    assert_eq!(m.frontmatter, vec!["garden-url: new", "publish: false"]);
}

#[test]
fn the_note_of_a_folder_is_named_after_it() {
    let expected = std::path::Path::new("/vault/Stories/Iceland").join("Iceland.md");
    assert_eq!(note_path("/vault/Stories/Iceland"), expected.to_string_lossy());
}

#[test]
fn stems_take_jpg_and_jpeg_embeds_with_captions() {
    let c = "![[a.jpg]] ![[ b.jpeg | cap ]] ![[c.png]] ![[d.jpg";
    assert_eq!(parse_stems(c), vec!["a", "b"]);
    assert!(parse_stems("no embeds").is_empty());
}

#[test]
fn a_link_is_what_precedes_the_caption_bar() {
    let inner: Vec<char> = " x.jpg |caption".chars().collect();
    let link: String = link_exec(&inner).into_iter().collect();
    assert_eq!(link, "x.jpg");
}

#[test]
fn a_story_lists_its_pin_and_first_three_photos() {
    let n = StoryNote::parse(
        "---\npinned: true\npinned-at: 2026-07-23T10:00:00Z\n---\n\n![[a.jpg]]\n![[b.jpg]]\n![[c.jpg]]\n![[d.jpg]]\n",
        "/tmp/n.md",
    );
    let s = story_summary(&n).unwrap();
    assert!(s.pinned);
    assert_eq!(s.pinned_at.as_deref(), Some("2026-07-23T10:00:00Z"));
    assert_eq!(s.thumb_stems, vec!["a", "b", "c"]);
}

#[test]
fn a_note_without_photos_is_not_a_story() {
    assert!(story_summary(&StoryNote::parse("---\npinned: true\n---\n\ntext only\n", "/tmp/n.md")).is_none());
    let one = story_summary(&StoryNote::parse("![[b1.jpg]]", "/tmp/n.md")).unwrap();
    assert!(!one.pinned);
    assert_eq!(one.pinned_at, None);
    assert_eq!(one.thumb_stems, vec!["b1"]);
}

#[test]
fn toggling_a_photo_twice_gives_the_body_back() {
    let mut n = StoryNote::parse("---\ntitle: T\n---\n\nintro\n![[A.jpg]]\n", "/tmp/n.md");
    let before = n.body.clone();
    let stems = toggle(&mut n, "B");
    assert_eq!(stems, vec!["A", "B"]);
    assert_eq!(n.body, "\nintro\n![[A.jpg]]\n![[B.jpg]]\n");
    let stems = toggle(&mut n, "B");
    assert_eq!(stems, vec!["A"]);
    assert_eq!(n.body, before);
}

#[test]
fn pinning_and_theming_leave_other_keys_alone() {
    let mut n = StoryNote::parse("---\ntitle: Iceland\ngarden-url: https://g/x\n---\n\nbody\n", "/tmp/n.md");
    n.set_pinned(true, Some("2026-03-01T10:00:00Z"));
    assert_eq!(n.frontmatter_value("title"), Some("Iceland".to_string()));
    assert_eq!(n.frontmatter_value("garden-url"), Some("https://g/x".to_string()));
    n.set_pinned(false, None);
    assert_eq!(n.frontmatter_value("title"), Some("Iceland".to_string()));
    assert_eq!(n.frontmatter_value("pinned"), None);
}

#[test]
fn publish_content_of_a_crlf_note_gets_the_flag_too() {
    let content = "---\r\ntitle: T\r\n---\r\n\r\nbody\r\n";
    let out = content_for_publish(content, &Vec::new());
    assert_eq!(out, "---\ntitle: T\npublish: true\n---\n\nbody\n");
    assert_eq!(StoryNote::parse(&out, "/tmp/n.md").frontmatter_value("publish"), Some("true".to_string()));
}

#[test]
fn publish_content_with_a_stray_carriage_return_still_gets_the_flag() {
    let content = "---\ntitle: a\rb\n---\n\nbody\rtext\n";
    let out = content_for_publish(content, &Vec::new());
    assert_eq!(out, "---\ntitle: a\rb\npublish: true\n---\n\nbody\rtext\n");
    assert_eq!(StoryNote::parse(&out, "/tmp/n.md").frontmatter_value("publish"), Some("true".to_string()));
}

#[test]
fn publish_content_ending_in_a_carriage_return_gets_the_flag_and_plain_endings() {
    let content = "---\ntitle: T\n---\n\nbody\r";
    let out = content_for_publish(content, &Vec::new());
    assert_eq!(out, "---\ntitle: T\npublish: true\n---\n\nbody\n");
    assert_eq!(StoryNote::parse(&out, "/tmp/n.md").frontmatter_value("publish"), Some("true".to_string()));
}

#[test]
fn toggling_a_present_photo_out_removes_every_copy_and_keeps_the_rest_in_order() {
    let mut n = StoryNote::parse("---\ntitle: T\n---\n\nintro ![[A.jpg]]\n![[B.jpg]]\n  ![[B.jpg]] \n![[C.jpg|cap]]\n", "/tmp/n.md");
    assert_eq!(parse_stems(&n.body), vec!["A", "B", "B", "C"]);
    let stems = toggle(&mut n, "B");
    assert_eq!(stems, vec!["A", "C"]);
    assert_eq!(n.body, "\nintro ![[A.jpg]]\n![[C.jpg|cap]]\n");
}
