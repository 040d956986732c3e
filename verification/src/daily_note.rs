//! The vault's daily note (`<vault>/<logs>/yymmdd.md`): created from the
//! standard template when missing, entries stacked under `## HH:MM`, photos
//! as Obsidian embeds, captions as a `> [!caption]` callout.
use vstd::prelude::*;
use crate::paths::{file_stem_of, join_path, path_file_name, path_join, stem_of_name};
use crate::preview::{digit_char, digit_exec, push_radix, radix_digits};
use crate::text::{
    append, chars_of, copy_range, join, join_exec, lines, lines_exec, str_views, string_of, trim,
    trim_end, trim_exec, views,
};

verus! {

/// The moment an entry is written, in local time, as the application reads
/// it off the clock.
pub struct DayStamp {
    pub year: i32,
    pub month: u32,
    pub day: u32,
    pub hour: u32,
    pub minute: u32,
}

/// Two digits, zero-padded (chrono's `%m`, `%d`, `%H`, `%M`, `%y`).
pub open spec fn two_digits(v: int) -> Seq<char> {
    seq![digit_char(v / 10), digit_char(v % 10)]
}

/// Four digits, zero-padded.
pub open spec fn four_digits(v: int) -> Seq<char> {
    seq![digit_char(v / 1000), digit_char((v / 100) % 10), digit_char((v / 10) % 10), digit_char(v % 10)]
}

/// chrono's `%Y`: the year in four digits, zero-padded; outside 0..=9999 a
/// sign and at least four digits.
pub open spec fn year_text(y: int) -> Seq<char> {
    if 0 <= y <= 9999 {
        four_digits(y)
    } else {
        let a = if y < 0 { -y } else { y };
        let sign = if y < 0 { seq!['-'] } else { seq!['+'] };
        sign + if a < 10000 { four_digits(a) } else { radix_digits(a as nat, 10) }
    }
}

/// `yymmdd`.
pub open spec fn stamp_of(d: DayStamp) -> Seq<char> {
    two_digits((d.year as int) % 100) + two_digits(d.month as int) + two_digits(d.day as int)
}

pub open spec fn month_name(i: int) -> Seq<char> {
    if i == 0 { "janvier"@ }
    else if i == 1 { "février"@ }
    else if i == 2 { "mars"@ }
    else if i == 3 { "avril"@ }
    else if i == 4 { "mai"@ }
    else if i == 5 { "juin"@ }
    else if i == 6 { "juillet"@ }
    else if i == 7 { "août"@ }
    else if i == 8 { "septembre"@ }
    else if i == 9 { "octobre"@ }
    else if i == 10 { "novembre"@ }
    else { "décembre"@ }
}

/// The month's index, clamped to the twelve months.
pub open spec fn month_index(m: u32) -> int {
    if m == 0 { 0 } else if m > 12 { 11 } else { m - 1 }
}

/// The standard template for a day's note.
pub open spec fn template_of(d: DayStamp) -> Seq<char> {
    let iso = year_text(d.year as int) + seq!['-'] + two_digits(d.month as int) + seq!['-']
        + two_digits(d.day as int);
    "---\ntitle:\naliases:\ncreated: "@ + iso + "\nmodified: "@ + iso
        + "\ntags: [log]\ntype: note\npublish: false\nvisibility: private\n---\n# "@
        + radix_digits(d.day as nat, 10) + seq![' '] + month_name(month_index(d.month)) + "\n\n"@
}

pub open spec fn embed_line(name: Seq<char>) -> Seq<char> {
    "![["@ + name + "]]"@
}

pub open spec fn quote_line(line: Seq<char>) -> Seq<char> {
    "> "@ + line
}

/// The callout a caption becomes; nothing for a blank one.
pub open spec fn caption_block(caption: Option<Seq<char>>) -> Seq<char> {
    match caption {
        Some(c) => if trim(c).len() == 0 {
            Seq::empty()
        } else {
            "\n> [!caption]\n"@ + join(lines(trim(c)).map_values(|l: Seq<char>| quote_line(l)), "\n"@) + "\n"@
        },
        None => Seq::empty(),
    }
}

/// One entry: `## HH:MM`, the embeds one per line, the caption callout.
pub open spec fn entry_of(names: Seq<Seq<char>>, caption: Option<Seq<char>>, d: DayStamp) -> Seq<char> {
    "## "@ + two_digits(d.hour as int) + seq![':'] + two_digits(d.minute as int) + "\n\n"@
        + join(names.map_values(|n: Seq<char>| embed_line(n)), "\n"@) + "\n"@ + caption_block(caption)
}

/// The note with an entry appended after its trailing whitespace and a
/// blank line.
pub open spec fn appended_note(content: Seq<char>, names: Seq<Seq<char>>, caption: Option<Seq<char>>, d: DayStamp) -> Seq<char> {
    trim_end(content) + "\n\n"@ + entry_of(names, caption, d) + "\n"@
}

pub struct DailyNote {
    pub vault_path: String,
    pub logs_folder: String,
}

fn push_text(out: &mut Vec<char>, s: &str)
    ensures
        final(out)@ == old(out)@ + s@,
{
    let c = chars_of(s);
    append(out, &c);
}

fn push_two(out: &mut Vec<char>, v: u32)
    requires
        v < 100,
    ensures
        final(out)@ == old(out)@ + two_digits(v as int),
{
    out.push(digit_exec((v / 10) as u64));
    out.push(digit_exec((v % 10) as u64));
    assert(final(out)@ =~= old(out)@ + two_digits(v as int));
}

fn push_four(out: &mut Vec<char>, v: u32)
    requires
        v < 10000,
    ensures
        final(out)@ == old(out)@ + four_digits(v as int),
{
    out.push(digit_exec((v / 1000) as u64));
    out.push(digit_exec(((v / 100) % 10) as u64));
    out.push(digit_exec(((v / 10) % 10) as u64));
    out.push(digit_exec((v % 10) as u64));
    assert(final(out)@ =~= old(out)@ + four_digits(v as int));
}

fn push_year(out: &mut Vec<char>, y: i32)
    ensures
        final(out)@ == old(out)@ + year_text(y as int),
{
    if 0 <= y && y <= 9999 {
        push_four(out, y as u32);
    } else {
        let a: u32 = if y < 0 {
            (0i64 - (y as i64)) as u32
        } else {
            y as u32
        };
        if y < 0 {
            out.push('-');
        } else {
            out.push('+');
        }
        let ghost mid = out@;
        if a < 10000 {
            push_four(out, a);
        } else {
            push_radix(out, a as u64, 10);
        }
        assert(final(out)@ =~= old(out)@ + year_text(y as int));
    }
}

impl DailyNote {
    /// A daily note in `vault_path`; a missing or blank logs folder means
    /// `Logs`.
    pub fn new(vault_path: String, logs_folder: Option<String>) -> (r: DailyNote)
        ensures
            r.vault_path == vault_path,
            r.logs_folder@ == match logs_folder {
                Some(s) => if trim(s@).len() > 0 {
                    s@
                } else {
                    "Logs"@
                },
                None => "Logs"@,
            },
    {
        let logs = match logs_folder {
            Some(s) => {
                let t = trim_exec(&chars_of(s.as_str()));
                if t.len() > 0 {
                    s
                } else {
                    "Logs".to_string()
                }
            },
            None => "Logs".to_string(),
        };
        DailyNote { vault_path, logs_folder: logs }
    }

    /// `<vault>/<logs>/yymmdd.md`.
    pub fn note_path(&self, d: &DayStamp) -> (r: String)
        requires
            d.month < 100,
            d.day < 100,
        ensures
            r@ == path_join(path_join(self.vault_path@, self.logs_folder@), stamp_of(*d) + ".md"@),
    {
        let dir = join_path(self.vault_path.as_str(), self.logs_folder.as_str());
        let mut name: Vec<char> = Vec::new();
        let yy: i32 = ((d.year % 100) + 100) % 100;
        assert(yy == (d.year as int) % 100);
        push_two(&mut name, yy as u32);
        push_two(&mut name, d.month);
        push_two(&mut name, d.day);
        push_text(&mut name, ".md");
        let file = string_of(&name);
        join_path(dir.as_str(), file.as_str())
    }

    /// Initial note template when the day file does not exist yet.
    pub fn template(d: &DayStamp) -> (r: String)
        requires
            d.month < 100,
            d.day < 100,
        ensures
            r@ == template_of(*d),
    {
        let mut out: Vec<char> = Vec::new();
        let mut iso: Vec<char> = Vec::new();
        push_year(&mut iso, d.year);
        iso.push('-');
        push_two(&mut iso, d.month);
        iso.push('-');
        push_two(&mut iso, d.day);
        push_text(&mut out, "---\ntitle:\naliases:\ncreated: ");
        append(&mut out, &iso);
        push_text(&mut out, "\nmodified: ");
        append(&mut out, &iso);
        push_text(&mut out, "\ntags: [log]\ntype: note\npublish: false\nvisibility: private\n---\n# ");
        push_radix(&mut out, d.day as u64, 10);
        out.push(' ');
        let idx: u32 = if d.month == 0 {
            0
        } else if d.month > 12 {
            11
        } else {
            d.month - 1
        };
        let name = if idx == 0 { "janvier" }
            else if idx == 1 { "février" }
            else if idx == 2 { "mars" }
            else if idx == 3 { "avril" }
            else if idx == 4 { "mai" }
            else if idx == 5 { "juin" }
            else if idx == 6 { "juillet" }
            else if idx == 7 { "août" }
            else if idx == 8 { "septembre" }
            else if idx == 9 { "octobre" }
            else if idx == 10 { "novembre" }
            else { "décembre" };
        push_text(&mut out, name);
        push_text(&mut out, "\n\n");
        assert(out@ =~= template_of(*d));
        string_of(&out)
    }
}

/// The daily note's text after appending one entry for the given photo
/// attachments and optional caption.
#[verifier::spinoff_prover]
#[verifier::rlimit(40)]
pub fn append_entry(content: &str, attachment_names: &Vec<String>, caption: Option<&str>, d: &DayStamp) -> (r: String)
    requires
        d.hour < 100,
        d.minute < 100,
    ensures
        r@ == appended_note(content@, str_views(attachment_names@), match caption {
            Some(c) => Some(c@),
            None => None,
        }, *d),
{
    let nl = chars_of("\n");
    // the embeds, one per line
    let mut embeds: Vec<Vec<char>> = Vec::new();
    let ghost nv = str_views(attachment_names@);
    let mut i: usize = 0;
    while i < attachment_names.len()
        invariant
            i <= attachment_names@.len(),
            nv == str_views(attachment_names@),
            views(embeds@) == nv.take(i as int).map_values(|n: Seq<char>| embed_line(n)),
        decreases attachment_names@.len() - i,
    {
        let mut e: Vec<char> = Vec::new();
        push_text(&mut e, "![[");
        append(&mut e, &chars_of(attachment_names[i].as_str()));
        push_text(&mut e, "]]");
        let ghost prev = views(embeds@);
        embeds.push(e);
        assert(views(embeds@) =~= prev.push(embed_line(nv[i as int])));
        assert(nv.take(i + 1).map_values(|n: Seq<char>| embed_line(n)) =~= nv.take(i as int).map_values(
            |n: Seq<char>| embed_line(n),
        ).push(embed_line(nv[i as int])));
        i += 1;
    }
    assert(nv.take(attachment_names@.len() as int) =~= nv);
    let mut out: Vec<char> = Vec::new();
    // the note so far, without its trailing whitespace
    let c = chars_of(content);
    let mut hi = c.len();
    assert(c@.subrange(0, c@.len() as int) =~= c@);
    while hi > 0 && crate::text::is_ws_exec(c[hi - 1])
        invariant
            hi <= c@.len(),
            trim_end(c@) == trim_end(c@.subrange(0, hi as int)),
        decreases hi,
    {
        assert(c@.subrange(0, hi as int).drop_last() =~= c@.subrange(0, hi - 1));
        hi -= 1;
    }
    append(&mut out, &copy_range(&c, 0, hi));
    push_text(&mut out, "\n\n");
    push_text(&mut out, "## ");
    push_two(&mut out, d.hour);
    out.push(':');
    push_two(&mut out, d.minute);
    push_text(&mut out, "\n\n");
    append(&mut out, &join_exec(&embeds, &nl));
    push_text(&mut out, "\n");
    match caption {
        Some(cap) => {
            let t = trim_exec(&chars_of(cap));
            if t.len() > 0 {
                let ls = lines_exec(&t);
                let mut quoted: Vec<Vec<char>> = Vec::new();
                let ghost lv = views(ls@);
                let mut k: usize = 0;
                while k < ls.len()
                    invariant
                        k <= ls@.len(),
                        lv == views(ls@),
                        views(quoted@) == lv.take(k as int).map_values(|l: Seq<char>| quote_line(l)),
                    decreases ls@.len() - k,
                {
                    let mut q: Vec<char> = Vec::new();
                    push_text(&mut q, "> ");
                    append(&mut q, ls[k].as_slice());
                    let ghost prev = views(quoted@);
                    quoted.push(q);
                    assert(views(quoted@) =~= prev.push(quote_line(lv[k as int])));
                    assert(lv.take(k + 1).map_values(|l: Seq<char>| quote_line(l)) =~= lv.take(k as int).map_values(
                        |l: Seq<char>| quote_line(l),
                    ).push(quote_line(lv[k as int])));
                    k += 1;
                }
                assert(lv.take(ls@.len() as int) =~= lv);
                push_text(&mut out, "\n> [!caption]\n");
                append(&mut out, &join_exec(&quoted, &nl));
                push_text(&mut out, "\n");
            }
        },
        None => {},
    }
    push_text(&mut out, "\n");
    assert(out@ =~= appended_note(content@, nv, match caption {
        Some(c) => Some(c@),
        None => None,
    }, *d));
    string_of(&out)
}

/// An entry needs at least one photo: `Err` names the refusal when the
/// list is empty.
pub fn require_attachments(attachment_names: &Vec<String>) -> (r: Result<(), String>)
    ensures
        r is Ok <==> attachment_names@.len() > 0,
        r matches Err(m) ==> m@ == "No attachment names provided"@,
{
    if attachment_names.len() == 0 {
        Err("No attachment names provided".to_string())
    } else {
        Ok(())
    }
}

/// Photos go to the daily note only with the Obsidian integration switched
/// on in the settings.
pub fn check_obsidian_enabled(enabled: bool) -> (r: Result<(), String>)
    ensures
        r is Ok <==> enabled,
        r matches Err(m) ==> m@ == "Obsidian integration is disabled in Settings."@,
{
    if enabled {
        Ok(())
    } else {
        Err("Obsidian integration is disabled in Settings.".to_string())
    }
}

/// The attachment name a photo is exported under for the daily note: its
/// file stem (nothing where it has none), with `.jpg`.
pub open spec fn daily_attachment_name_of(path: Seq<char>) -> Seq<char> {
    (match stem_of_name(path_file_name(path)) {
        Some(s) => s,
        None => Seq::empty(),
    }) + ".jpg"@
}

/// The attachment name of a photo exported to the daily note.
pub fn daily_attachment_name(path: &str) -> (r: String)
    ensures
        r@ == daily_attachment_name_of(path@),
{
    let mut out = match file_stem_of(path) {
        Some(s) => chars_of(s.as_str()),
        None => Vec::new(),
    };
    append(&mut out, &chars_of(".jpg"));
    string_of(&out)
}

/// A batch export to the daily note that exported nothing is refused.
pub fn check_exported(count: usize) -> (r: Result<(), String>)
    ensures
        r is Ok <==> count > 0,
        r matches Err(m) ==> m@ == "No photos could be exported to daily note"@,
{
    if count > 0 {
        Ok(())
    } else {
        Err("No photos could be exported to daily note".to_string())
    }
}

/// A day's note is headed with the day and the French name of its month:
/// the template for month `m` (1 to 12) ends with a blank, the `m`-th of
/// janvier, février, mars, avril, mai, juin, juillet, août, septembre,
/// octobre, novembre, décembre, and a blank line.
pub proof fn law_template_names_the_month(d: DayStamp)
    requires
        1 <= d.month <= 12,
    ensures
        ({
            let names = seq![
                "janvier"@,
                "février"@,
                "mars"@,
                "avril"@,
                "mai"@,
                "juin"@,
                "juillet"@,
                "août"@,
                "septembre"@,
                "octobre"@,
                "novembre"@,
                "décembre"@,
            ];
            let tail = seq![' '] + names[d.month - 1] + "\n\n"@;
            &&& tail.len() <= template_of(d).len()
            &&& template_of(d).subrange(template_of(d).len() - tail.len(), template_of(d).len() as int) == tail
        }),
{
    let names = seq![
        "janvier"@,
        "février"@,
        "mars"@,
        "avril"@,
        "mai"@,
        "juin"@,
        "juillet"@,
        "août"@,
        "septembre"@,
        "octobre"@,
        "novembre"@,
        "décembre"@,
    ];
    let m = d.month;
    assert(month_name(month_index(m)) == names[m - 1]);
    let iso = year_text(d.year as int) + seq!['-'] + two_digits(d.month as int) + seq!['-'] + two_digits(
        d.day as int,
    );
    let head = "---\ntitle:\naliases:\ncreated: "@ + iso + "\nmodified: "@ + iso
        + "\ntags: [log]\ntype: note\npublish: false\nvisibility: private\n---\n# "@ + radix_digits(
        d.day as nat,
        10,
    );
    let tail = seq![' '] + names[m - 1] + "\n\n"@;
    assert(template_of(d) =~= head + tail);
    assert((head + tail).subrange(head.len() as int, (head + tail).len() as int) =~= tail);
}

} // verus!
