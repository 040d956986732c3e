use reveal_lib::catalog::validate_dir_name;
use reveal_lib::daily_note::{
    append_entry, check_exported, check_obsidian_enabled, daily_attachment_name, require_attachments, DailyNote, DayStamp,
};
use reveal_lib::preset::{preset_file_name, preset_order, presets_dir, saved_name, slugify};
use reveal_lib::publishing::{attachment_dir, markdown_to_html, parse_markdown_story};
use reveal_lib::xmp_preset::{attr, check_preset, element, preset_name, seq_items, setting_text};

const SAMPLE: &str = r#"<x:xmpmeta xmlns:x="adobe:ns:meta/">
 <rdf:RDF xmlns:rdf="http://www.w3.org/1999/02/22-rdf-syntax-ns#">
  <rdf:Description rdf:about=""
    xmlns:crs="http://ns.adobe.com/camera-raw-settings/1.0/"
    crs:Exposure2012="+0.45"
    crs:Contrast2012="+25"
    crs:Tint="+15"
    crs:IncrementalTint="+90">
   <crs:Name>
    <rdf:Alt>
     <rdf:li xml:lang="x-default">Faded Summer</rdf:li>
    </rdf:Alt>
   </crs:Name>
   <crs:ToneCurvePV2012>
    <rdf:Seq>
     <rdf:li>0, 12</rdf:li>
     <rdf:li>128, 140</rdf:li>
     <rdf:li>255, 240</rdf:li>
    </rdf:Seq>
   </crs:ToneCurvePV2012>
  </rdf:Description>
 </rdf:RDF>
</x:xmpmeta>"#;

#[test]
fn reads_the_name_of_an_xmp_preset() {
    assert_eq!(preset_name(SAMPLE).as_deref(), Some("Faded Summer"));
    assert_eq!(preset_name("<crs:Name><rdf:Alt><rdf:li> </rdf:li><rdf:li>B</rdf:li></rdf:Alt></crs:Name>").as_deref(), Some("B"));
    assert_eq!(preset_name("<crs:Name><rdf:Alt></rdf:Alt></crs:Name>"), None);
    assert_eq!(preset_name("no name here"), None);
}

#[test]
fn attributes_are_read_by_their_whole_key() {
    assert_eq!(attr(SAMPLE, "Exposure2012").as_deref(), Some("+0.45"));
    assert_eq!(attr(SAMPLE, "Tint").as_deref(), Some("+15"));
    assert_eq!(attr(SAMPLE, "IncrementalTint").as_deref(), Some("+90"));
    assert_eq!(attr(r#"<rdf:Description crs:IncrementalTint="+90" crs:Exposure2012="0"/>"#, "Tint"), None);
    assert_eq!(attr(SAMPLE, "Saturation"), None);
    assert_eq!(attr(r#"crs:Open="unterminated"#, "Open"), None);
}

#[test]
fn elements_are_read_between_their_tags() {
    let xmp = "<rdf:Description crs:Version=\"15.0\">\n  <crs:Exposure2012>-1.25</crs:Exposure2012>\n</rdf:Description>";
    assert_eq!(element(xmp, "Exposure2012").as_deref(), Some("-1.25"));
    assert_eq!(element(xmp, "Version"), None);
    assert_eq!(element("<crs:A>open", "A"), None);
}

#[test]
fn list_items_come_out_trimmed_and_in_order() {
    let block = element(SAMPLE, "ToneCurvePV2012").unwrap();
    assert_eq!(seq_items(&block), vec!["0, 12", "128, 140", "255, 240"]);
    assert!(seq_items("nothing").is_empty());
    assert_eq!(seq_items("<rdf:li>a</rdf:li><rdf:li>b"), vec!["a"]);
}

#[test]
fn slugs_keep_lower_case_alphanumerics_and_single_dashes() {
    assert_eq!(slugify("  Faded Summer!! 2026 "), "faded-summer-2026");
    assert_eq!(slugify("FF — Portra Fade"), "ff-portra-fade");
    assert_eq!(slugify("--Ciné--"), "cin");
    assert_eq!(slugify(""), "preset");
    assert_eq!(slugify("¡¿!"), "preset");
}

#[test]
fn presets_live_in_their_own_directory() {
    let expected = std::path::Path::new("/data").join("presets");
    assert_eq!(presets_dir("/data"), expected.to_string_lossy());
    assert_eq!(preset_file_name("Faded Summer"), "faded-summer.json");
    assert_eq!(preset_file_name("   "), "preset.json");
}

#[test]
fn a_preset_needs_a_name() {
    assert_eq!(saved_name("  Portra  ").unwrap(), "Portra");
    assert_eq!(saved_name(" \t\n").unwrap_err(), "preset name is empty");
}

#[test]
fn folder_names_are_trimmed_and_checked() {
    assert_eq!(validate_dir_name("  Iceland 2026 ").unwrap(), "Iceland 2026");
    assert_eq!(validate_dir_name("   ").unwrap_err(), "the name cannot be empty");
    assert_eq!(validate_dir_name("a/b").unwrap_err(), "invalid folder name");
    assert_eq!(validate_dir_name(" .. ").unwrap_err(), "invalid folder name");
    assert_eq!(validate_dir_name(".").unwrap_err(), "invalid folder name");
    assert_eq!(validate_dir_name("...").unwrap(), "...");
}

#[test]
fn a_story_title_comes_from_its_frontmatter() {
    let (title, body) = parse_markdown_story("---\ntitle: \"Islande\"\npublish: true\n---\n\n![[A.jpg]]\n", "/vault/Iceland");
    assert_eq!(title, "Islande");
    assert_eq!(body, "\n\n![[A.jpg]]\n");
}

#[test]
fn the_last_title_line_wins_and_quotes_go() {
    let (title, _) = parse_markdown_story("---\ntitle: 'One'\ntitle:  Two \n---\nx", "/v/F");
    assert_eq!(title, "Two");
}

#[test]
fn without_frontmatter_the_folder_names_the_story() {
    let (title, body) = parse_markdown_story("just text\r\nmore", "/vault/Iceland");
    assert_eq!(title, "Iceland");
    assert_eq!(body, "just text\nmore");
    let (title, body) = parse_markdown_story("---\ntitle: X\nno closing fence", "/vault/Iceland");
    assert_eq!(title, "Iceland");
    assert_eq!(body, "---\ntitle: X\nno closing fence");
}

#[test]
fn markdown_renders_headings_paragraphs_and_photo_rows() {
    let urls = vec![("A".to_string(), "https://cdn/a.jpg".to_string())];
    let body = "# Title\n\n## Sub\n\n### Small\n\nline one\nline two\n\n![[A.jpg|cap]] ![[B.jpg]]\n\n\n\n";
    assert_eq!(
        markdown_to_html(body, &urls),
        "<h1>Title</h1>\n<h2>Sub</h2>\n<h3>Small</h3>\n<p>line one<br>line two</p>\n<div class=\"photo-row\">\n<img src=\"https://cdn/a.jpg\" alt=\"A\" />\n</div>\n"
    );
}

#[test]
fn an_embed_without_a_url_still_makes_a_photo_row() {
    assert_eq!(markdown_to_html("![[Z.jpg]]", &Vec::new()), "<div class=\"photo-row\">\n</div>\n");
    assert_eq!(markdown_to_html("", &Vec::new()), "");
}

fn day() -> DayStamp {
    DayStamp { year: 2026, month: 8, day: 16, hour: 9, minute: 5 }
}

#[test]
fn the_daily_note_is_named_by_date() {
    let n = DailyNote::new("/vault".to_string(), None);
    assert_eq!(n.logs_folder, "Logs");
    let expected = std::path::Path::new("/vault").join("Logs").join("260816.md");
    assert_eq!(n.note_path(&day()), expected.to_string_lossy());
    let m = DailyNote::new("/vault".to_string(), Some("  ".to_string()));
    assert_eq!(m.logs_folder, "Logs");
    let k = DailyNote::new("/vault".to_string(), Some("Journal".to_string()));
    assert_eq!(k.logs_folder, "Journal");
}

#[test]
fn a_new_daily_note_starts_from_the_template() {
    assert_eq!(
        DailyNote::template(&day()),
        "---\ntitle:\naliases:\ncreated: 2026-08-16\nmodified: 2026-08-16\ntags: [log]\ntype: note\npublish: false\nvisibility: private\n---\n# 16 août\n\n"
    );
    let jan = DayStamp { year: 2027, month: 1, day: 3, hour: 0, minute: 0 };
    assert!(DailyNote::template(&jan).ends_with("# 3 janvier\n\n"));
}

#[test]
fn entries_stack_under_their_time_with_a_caption_callout() {
    let names = vec!["A.jpg".to_string(), "B.jpg".to_string()];
    let out = append_entry("# 16 août\n\n\n", &names, Some("  first line\nsecond  "), &day());
    assert_eq!(
        out,
        "# 16 août\n\n## 09:05\n\n![[A.jpg]]\n![[B.jpg]]\n\n> [!caption]\n> first line\n> second\n\n"
    );
    let plain = append_entry("x", &names[..1].to_vec(), Some("   "), &day());
    assert_eq!(plain, "x\n\n## 09:05\n\n![[A.jpg]]\n\n");
    let none = append_entry("x", &names[..1].to_vec(), None, &day());
    assert_eq!(none, plain);
}

#[test]
fn an_entry_needs_a_photo() {
    assert_eq!(require_attachments(&Vec::new()).unwrap_err(), "No attachment names provided");
    assert!(require_attachments(&vec!["A.jpg".to_string()]).is_ok());
}

#[test]
fn presets_are_listed_by_name_ignoring_case() {
    let names: Vec<String> = ["beta", "Alpha", "alpha", "Gamma", "ALPHA"].iter().map(|s| s.to_string()).collect();
    assert_eq!(preset_order(&names), vec![1, 2, 4, 0, 3]);
    let accents: Vec<String> = ["Éclair", "Zeta", "eclair"].iter().map(|s| s.to_string()).collect();
    assert_eq!(preset_order(&accents), vec![2, 1, 0]);
    assert!(preset_order(&Vec::new()).is_empty());
}

#[test]
fn the_listing_order_is_the_one_sort_by_gives() {
    let names: Vec<String> = ["b", "B", "a", "ä", "A", "ab", "Ab", "", "a b"].iter().map(|s| s.to_string()).collect();
    let mut expected: Vec<usize> = (0..names.len()).collect();
    expected.sort_by(|&x, &y| names[x].to_lowercase().cmp(&names[y].to_lowercase()));
    assert_eq!(preset_order(&names), expected);
}

#[test]
fn a_setting_reads_from_either_form_without_its_sign() {
    assert_eq!(setting_text(SAMPLE, "Exposure2012").as_deref(), Some("0.45"));
    assert_eq!(setting_text(SAMPLE, "Contrast2012").as_deref(), Some("25"));
    let element_form = "<crs:Exposure2012>  -1.25 </crs:Exposure2012>";
    assert_eq!(setting_text(element_form, "Exposure2012").as_deref(), Some("-1.25"));
    assert_eq!(setting_text(r#"crs:A="++5" <crs:A>7</crs:A>"#, "A").as_deref(), Some("5"));
    let prefixed = r#"<rdf:Description crs:IncrementalTint="+90" crs:Exposure2012="0"/>"#;
    assert_eq!(setting_text(prefixed, "Tint"), None);
    assert_eq!(setting_text(prefixed, "IncrementalTint").as_deref(), Some("90"));
}

#[test]
fn vault_attachments_go_where_obsidian_is_told() {
    assert_eq!(attachment_dir("/vault", ""), "/vault");
    assert_eq!(attachment_dir("/vault", "/"), "/vault");
    assert_eq!(attachment_dir("/vault", "./assets"), "/vault");
    let expected = std::path::Path::new("/vault").join("Attachments/Photos");
    assert_eq!(attachment_dir("/vault", "//Attachments/Photos"), expected.to_string_lossy());
    assert_eq!(attachment_dir("/vault", "Attachments/Photos"), expected.to_string_lossy());
}

#[test]
fn reads_the_preset_name() {
    assert!(check_preset(SAMPLE).is_ok());
    assert_eq!(preset_name(SAMPLE).as_deref(), Some("Faded Summer"));
}

#[test]
fn element_form_is_read_too() {
    let xmp = r#"<rdf:Description crs:Version="15.0">
          <crs:Exposure2012>-1.25</crs:Exposure2012>
        </rdf:Description>"#;
    assert!(check_preset(xmp).is_ok());
    assert_eq!(setting_text(xmp, "Exposure2012").as_deref(), Some("-1.25"));
    let ev: f32 = setting_text(xmp, "Exposure2012").unwrap().parse().unwrap();
    assert!((ev + 1.25).abs() < 1e-4);
}

#[test]
fn a_longer_key_sharing_a_prefix_does_not_match() {
    let xmp = r#"<rdf:Description crs:IncrementalTint="+90" crs:Exposure2012="0"/>"#;
    assert_eq!(setting_text(xmp, "Tint"), None);
    assert_eq!(setting_text(xmp, "IncrementalTint").as_deref(), Some("90"));
    assert_eq!(setting_text(xmp, "Exposure2012").as_deref(), Some("0"));
}

#[test]
fn a_non_preset_file_is_refused() {
    assert_eq!(
        check_preset("<x:xmpmeta><dc:title>hello</dc:title></x:xmpmeta>"),
        Err("Not a Camera Raw / Lightroom preset (no crs: settings found).".to_string())
    );
}

#[test]
fn daily_note_exports_need_obsidian_and_name_photos_by_stem() {
    assert_eq!(check_obsidian_enabled(true), Ok(()));
    assert_eq!(check_obsidian_enabled(false), Err("Obsidian integration is disabled in Settings.".to_string()));
    assert_eq!(daily_attachment_name("/Volumes/p/DSCF0001.RAF"), "DSCF0001.jpg");
    assert_eq!(daily_attachment_name("/Volumes/p/.hidden"), ".hidden.jpg");
    assert_eq!(daily_attachment_name("/"), ".jpg");
    assert_eq!(check_exported(0), Err("No photos could be exported to daily note".to_string()));
    assert_eq!(check_exported(2), Ok(()));
}
