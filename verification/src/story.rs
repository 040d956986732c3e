//! Story notes: the story of a folder is a Markdown note sitting in it
//! (`<folder>/<folder-name>.md`), with optional YAML frontmatter between
//! `---` fences and a body of `![[stem.jpg]]` embeds, prose and captions.
//! Only the keys the application touches are rewritten; every other
//! frontmatter line is kept verbatim.
use vstd::prelude::*;
use crate::paths::{file_name_of, join_path, path_file_name, path_join};
use crate::text::{
    drop_cr, is_ws, lemma_trim_at, lemma_trim_bounds,
    append, chars_of, copy_range, ends_with, ends_with_exec, eq_exec, find, find_exec,
    find_from_exec, index_of, occurs_at, join, join_exec, lemma_find_from_bounds, lemma_find_from_shift, lines,
    lines_exec, replace, replace_exec, starts_with, starts_with_exec, str_views, string_of,
    strip_prefix, strip_suffix, terminated, terminated_exec, trim, trim_exec, views,
};

verus! {

// ---------------------------------------------------------------------------
// Specifications
// ---------------------------------------------------------------------------

/// The opening fence, with its newline.
pub open spec fn open_fence() -> Seq<char> {
    seq!['-', '-', '-', '\n']
}

/// A closing fence line, once trimmed.
pub open spec fn fence() -> Seq<char> {
    seq!['-', '-', '-']
}

pub open spec fn crlf() -> Seq<char> {
    seq!['\r', '\n']
}

pub open spec fn lf() -> Seq<char> {
    seq!['\n']
}

pub open spec fn is_fence(line: Seq<char>) -> bool {
    trim(line) == fence()
}

/// The first closing fence among `ls`, searching from `i`.
pub open spec fn first_fence_from(ls: Seq<Seq<char>>, i: int) -> Option<int>
    decreases ls.len() - i,
{
    if i < 0 || i >= ls.len() {
        None
    } else if is_fence(ls[i]) {
        Some(i)
    } else {
        first_fence_from(ls, i + 1)
    }
}

/// The note text with Windows line endings folded to `'\n'`.
pub open spec fn normalized(raw: Seq<char>) -> Seq<char> {
    replace(raw, crlf(), lf())
}

/// What `StoryNote::parse` makes of a text: the frontmatter lines between
/// the fences, and the body, each later line followed by `'\n'`. Without an
/// opening fence, or without a closing one, the whole text is body.
pub open spec fn parsed(raw: Seq<char>) -> (Seq<Seq<char>>, Seq<char>) {
    let text = normalized(raw);
    if !starts_with(text, open_fence()) {
        (Seq::empty(), text)
    } else {
        let ls = lines(text.skip(4));
        match first_fence_from(ls, 0) {
            Some(k) => (ls.take(k), terminated(ls.skip(k + 1), lf())),
            None => (Seq::empty(), text),
        }
    }
}

/// A value with one pair of surrounding double quotes removed.
pub open spec fn unquote(v: Seq<char>) -> Seq<char> {
    if v.len() >= 2 && v[0] == '"' && v.last() == '"' {
        v.subrange(1, v.len() - 1)
    } else {
        v
    }
}

/// `key` followed by a colon.
pub open spec fn key_colon(key: Seq<char>) -> Seq<char> {
    key.push(':')
}

/// The scalar a frontmatter line gives `key`: the trimmed line must start
/// with `key:`; the rest, trimmed and unquoted, is the value.
pub open spec fn fm_value_of(line: Seq<char>, key: Seq<char>) -> Option<Seq<char>> {
    match strip_prefix(trim(line), key_colon(key)) {
        Some(rest) => Some(unquote(trim(rest))),
        None => None,
    }
}

pub open spec fn fm_matches(line: Seq<char>, key: Seq<char>) -> bool {
    starts_with(trim(line), key_colon(key))
}

/// The first line, from `i` on, that sets `key`.
pub open spec fn first_match_from(lines: Seq<Seq<char>>, key: Seq<char>, i: int) -> Option<int>
    decreases lines.len() - i,
{
    if i < 0 || i >= lines.len() {
        None
    } else if fm_matches(lines[i], key) {
        Some(i)
    } else {
        first_match_from(lines, key, i + 1)
    }
}

pub open spec fn first_match(lines: Seq<Seq<char>>, key: Seq<char>) -> Option<int> {
    first_match_from(lines, key, 0)
}

/// The value of `key`: that of the first line setting it.
pub open spec fn fm_lookup(lines: Seq<Seq<char>>, key: Seq<char>) -> Option<Seq<char>> {
    match first_match(lines, key) {
        Some(i) => fm_value_of(lines[i], key),
        None => None,
    }
}

/// The line `key: value`.
pub open spec fn fm_line(key: Seq<char>, value: Seq<char>) -> Seq<char> {
    key + seq![':', ' '] + value
}

/// Frontmatter after setting `key`: the first line setting it is replaced
/// (or removed, for `None`); without one, a new line is appended (nothing
/// happens for `None`). Every other line stays as it was.
pub open spec fn fm_set(lines: Seq<Seq<char>>, key: Seq<char>, value: Option<Seq<char>>) -> Seq<
    Seq<char>,
> {
    match first_match(lines, key) {
        Some(i) => match value {
            Some(v) => lines.update(i, fm_line(key, v)),
            None => lines.remove(i),
        },
        None => match value {
            Some(v) => lines.push(fm_line(key, v)),
            None => lines,
        },
    }
}

pub open spec fn opt_view(o: Option<String>) -> Option<Seq<char>> {
    match o {
        Some(s) => Some(s@),
        None => None,
    }
}

pub open spec fn opt_str_view(o: Option<&str>) -> Option<Seq<char>> {
    match o {
        Some(s) => Some(s@),
        None => None,
    }
}

// ---------------------------------------------------------------------------
// The note
// ---------------------------------------------------------------------------

/// A folder's story note — a Markdown file (`<folder>.md`) with optional YAML
/// frontmatter and a body of `![[stem.jpg]]` embeds, prose, and caption
/// callouts. Frontmatter is preserved verbatim except the keys we touch.
pub struct StoryNote {
    pub url: String,
    /// Raw lines between the fences, verbatim.
    pub frontmatter: Vec<String>,
    /// Everything after the closing fence.
    pub body: String,
}

/// Whether a line, once trimmed, is a closing fence.
fn is_fence_exec(line: &[char]) -> (r: bool)
    ensures
        r == is_fence(line@),
{
    let f: [char; 3] = ['-', '-', '-'];
    let t = trim_exec(line);
    eq_exec(&t, &f)
}

/// Lines `lo..hi`, each copied into a string.
fn strings_of(ls: &Vec<Vec<char>>, lo: usize, hi: usize) -> (r: Vec<String>)
    requires
        lo <= hi <= ls@.len(),
    ensures
        str_views(r@) == views(ls@).subrange(lo as int, hi as int),
{
    let mut out: Vec<String> = Vec::new();
    let mut i = lo;
    while i < hi
        invariant
            lo <= i <= hi <= ls@.len(),
            str_views(out@) == views(ls@).subrange(lo as int, i as int),
        decreases hi - i,
    {
        let ghost prev = out@;
        out.push(string_of(ls[i].as_slice()));
        assert(str_views(out@) =~= str_views(prev).push(ls@[i as int]@));
        assert(views(ls@).subrange(lo as int, i + 1) =~= views(ls@).subrange(lo as int, i as int).push(
            ls@[i as int]@,
        ));
        i += 1;
    }
    out
}

/// Lines `lo..hi`, copied.
fn lines_range(ls: &Vec<Vec<char>>, lo: usize, hi: usize) -> (r: Vec<Vec<char>>)
    requires
        lo <= hi <= ls@.len(),
    ensures
        views(r@) == views(ls@).subrange(lo as int, hi as int),
{
    let mut out: Vec<Vec<char>> = Vec::new();
    let mut i = lo;
    while i < hi
        invariant
            lo <= i <= hi <= ls@.len(),
            views(out@) == views(ls@).subrange(lo as int, i as int),
        decreases hi - i,
    {
        let ghost prev = out@;
        let l = copy_range(ls[i].as_slice(), 0, ls[i].len());
        assert(ls@[i as int]@.subrange(0, ls@[i as int]@.len() as int) =~= ls@[i as int]@);
        out.push(l);
        assert(views(out@) =~= views(prev).push(ls@[i as int]@));
        assert(views(ls@).subrange(lo as int, i + 1) =~= views(ls@).subrange(lo as int, i as int).push(
            ls@[i as int]@,
        ));
        i += 1;
    }
    out
}

/// The scalar a frontmatter line gives `key` (quotes stripped), or `None`.
fn fm_value(line: &[char], key: &[char]) -> (r: Option<Vec<char>>)
    ensures
        match r {
            Some(v) => fm_value_of(line@, key@) == Some(v@),
            None => fm_value_of(line@, key@) is None,
        },
{
    let t = trim_exec(line);
    let mut prefix = copy_range(key, 0, key.len());
    assert(key@.subrange(0, key@.len() as int) =~= key@);
    prefix.push(':');
    if !starts_with_exec(&t, &prefix) {
        return None;
    }
    let rest = copy_range(&t, prefix.len(), t.len());
    let v = trim_exec(&rest);
    if v.len() >= 2 && v[0] == '"' && v[v.len() - 1] == '"' {
        Some(copy_range(&v, 1, v.len() - 1))
    } else {
        Some(v)
    }
}

impl StoryNote {
    /// Parse raw markdown into frontmatter lines + body. If there's no closing
    /// `---` fence, the whole text is treated as body (frontmatter empty).
    pub fn parse(raw: &str, url: &str) -> (r: StoryNote)
        ensures
            r.url@ == url@,
            str_views(r.frontmatter@) == parsed(raw@).0,
            r.body@ == parsed(raw@).1,
    {
        let crlf_c: [char; 2] = ['\r', '\n'];
        let lf_c: [char; 1] = ['\n'];
        let open_c: [char; 4] = ['-', '-', '-', '\n'];
        assert(crlf_c@ =~= crlf());
        assert(lf_c@ =~= lf());
        assert(open_c@ =~= open_fence());
        let raw_c = chars_of(raw);
        let text = replace_exec(&raw_c, &crlf_c, &lf_c);
        let url_s = string_of(&chars_of(url));
        if !starts_with_exec(&text, &open_c) {
            return StoryNote { url: url_s, frontmatter: Vec::new(), body: string_of(&text) };
        }
        let rest = copy_range(&text, 4, text.len());
        assert(rest@ =~= text@.skip(4));
        let ls = lines_exec(&rest);
        let mut k: usize = 0;
        while k < ls.len() && !is_fence_exec(ls[k].as_slice())
            invariant
                k <= ls@.len(),
                first_fence_from(views(ls@), 0) == first_fence_from(views(ls@), k as int),
            decreases ls@.len() - k,
        {
            k += 1;
        }
        if k == ls.len() {
            return StoryNote { url: url_s, frontmatter: Vec::new(), body: string_of(&text) };
        }
        let fm = strings_of(&ls, 0, k);
        let tail = lines_range(&ls, k + 1, ls.len());
        let body = terminated_exec(&tail, &lf_c);
        assert(views(ls@).subrange(0, k as int) =~= views(ls@).take(k as int));
        assert(views(ls@).subrange(k + 1, ls@.len() as int) =~= views(ls@).skip(k + 1));
        StoryNote { url: url_s, frontmatter: fm, body: string_of(&body) }
    }

    /// Read a frontmatter scalar (quotes stripped), or None.
    pub fn frontmatter_value(&self, key: &str) -> (r: Option<String>)
        ensures
            opt_view(r) == fm_lookup(str_views(self.frontmatter@), key@),
    {
        let key_c = chars_of(key);
        match first_key_line(&self.frontmatter, &key_c) {
            Some(i) => {
                let line = chars_of(self.frontmatter[i].as_str());
                match fm_value(&line, &key_c) {
                    Some(v) => Some(string_of(&v)),
                    None => None,
                }
            },
            None => None,
        }
    }

    /// Set a frontmatter key surgically (replace in place, append if new).
    /// `value = None` deletes the key. Preserves every other line verbatim.
    pub fn set_frontmatter(&mut self, key: &str, value: Option<&str>)
        ensures
            final(self).url == old(self).url,
            final(self).body == old(self).body,
            str_views(final(self).frontmatter@) == fm_set(
                str_views(old(self).frontmatter@),
                key@,
                opt_str_view(value),
            ),
    {
        let key_c = chars_of(key);
        let ghost lines = str_views(self.frontmatter@);
        let pos = first_key_line(&self.frontmatter, &key_c);
        if let Some(i) = pos {
            match value {
                Some(v) => {
                    let line = make_line(&key_c, v);
                    let ghost prev = self.frontmatter@;
                    self.frontmatter.set(i, line);
                    assert(str_views(self.frontmatter@) =~= lines.update(
                        i as int,
                        fm_line(key@, v@),
                    ));
                },
                None => {
                    self.frontmatter.remove(i);
                    assert(str_views(self.frontmatter@) =~= lines.remove(i as int));
                },
            }
        } else {
            match value {
                Some(v) => {
                    let line = make_line(&key_c, v);
                    self.frontmatter.push(line);
                    assert(str_views(self.frontmatter@) =~= lines.push(fm_line(key@, v@)));
                },
                None => {},
            }
        }
    }
}

/// The index of the first line that sets `key`.
fn first_key_line(lines: &Vec<String>, key: &[char]) -> (r: Option<usize>)
    ensures
        match r {
            Some(i) => first_match(str_views(lines@), key@) == Some(i as int) && i < lines@.len(),
            None => first_match(str_views(lines@), key@) is None,
        },
{
    let ghost ls = str_views(lines@);
    let mut i: usize = 0;
    while i < lines.len()
        invariant
            i <= lines@.len(),
            ls == str_views(lines@),
            first_match(ls, key@) == first_match_from(ls, key@, i as int),
        decreases lines@.len() - i,
    {
        let line = chars_of(lines[i].as_str());
        if fm_value(&line, key).is_some() {
            return Some(i);
        }
        i += 1;
    }
    None
}

/// The line `key: value`.
fn make_line(key: &[char], value: &str) -> (r: String)
    ensures
        r@ == fm_line(key@, value@),
{
    let mut out = copy_range(key, 0, key.len());
    assert(key@.subrange(0, key@.len() as int) =~= key@);
    out.push(':');
    out.push(' ');
    let v = chars_of(value);
    append(&mut out, &v);
    assert(out@ =~= fm_line(key@, value@));
    string_of(&out)
}


// ---------------------------------------------------------------------------
// Theme tokens and pinning
// ---------------------------------------------------------------------------

pub open spec fn k_dark_bg() -> Seq<char> {
    "color-dark-background"@
}

pub open spec fn k_dark_fg() -> Seq<char> {
    "color-dark-foreground"@
}

pub open spec fn k_light_bg() -> Seq<char> {
    "color-light-background"@
}

pub open spec fn k_light_fg() -> Seq<char> {
    "color-light-foreground"@
}

pub open spec fn k_dark_accent() -> Seq<char> {
    "color-dark-accent"@
}

pub open spec fn k_light_accent() -> Seq<char> {
    "color-light-accent"@
}

pub open spec fn k_font_header() -> Seq<char> {
    "font-header"@
}

pub open spec fn k_font_text() -> Seq<char> {
    "font-text"@
}

pub open spec fn k_pinned() -> Seq<char> {
    "pinned"@
}

pub open spec fn k_pinned_at() -> Seq<char> {
    "pinned-at"@
}

pub open spec fn k_publish() -> Seq<char> {
    "publish"@
}

pub open spec fn k_garden_url() -> Seq<char> {
    "garden-url"@
}

pub open spec fn v_true() -> Seq<char> {
    "true"@
}

/// The 8 Garden theme frontmatter tokens, all optional (None = unspecified,
/// inherits default). The user picks dark_background + dark_accent + fonts;
/// the rest are derived on write.
#[derive(Debug, Clone)]
pub struct ThemeTokens {
    pub dark_background: Option<String>,
    pub dark_foreground: Option<String>,
    pub light_background: Option<String>,
    pub light_foreground: Option<String>,
    pub dark_accent: Option<String>,
    pub light_accent: Option<String>,
    pub font_header: Option<String>,
    pub font_text: Option<String>,
}

impl Default for ThemeTokens {
    fn default() -> (r: ThemeTokens)
        ensures
            r.dark_background is None,
            r.dark_foreground is None,
            r.light_background is None,
            r.light_foreground is None,
            r.dark_accent is None,
            r.light_accent is None,
            r.font_header is None,
            r.font_text is None,
    {
        ThemeTokens {
            dark_background: None,
            dark_foreground: None,
            light_background: None,
            light_foreground: None,
            dark_accent: None,
            light_accent: None,
            font_header: None,
            font_text: None,
        }
    }
}

/// The derived foreground, where there is a background.
pub open spec fn derived_fg(bg: Option<Seq<char>>) -> Option<Seq<char>> {
    match bg {
        Some(b) => Some(derive_fg(b)),
        None => None,
    }
}

/// Frontmatter after `set_theme`: the dark background and accent as picked,
/// the dark foreground derived from the background, the light scheme the
/// dark one swapped, the accent mirrored, and both fonts.
pub open spec fn theme_set(
    lines: Seq<Seq<char>>,
    bg: Option<Seq<char>>,
    accent: Option<Seq<char>>,
    header: Option<Seq<char>>,
    text: Option<Seq<char>>,
) -> Seq<Seq<char>> {
    let fg = derived_fg(bg);
    let l1 = fm_set(lines, k_dark_bg(), bg);
    let l2 = fm_set(l1, k_dark_fg(), fg);
    let l3 = fm_set(l2, k_light_bg(), fg);
    let l4 = fm_set(l3, k_light_fg(), bg);
    let l5 = fm_set(l4, k_dark_accent(), accent);
    let l6 = fm_set(l5, k_light_accent(), accent);
    let l7 = fm_set(l6, k_font_header(), header);
    fm_set(l7, k_font_text(), text)
}

/// Frontmatter after `set_pinned`.
pub open spec fn pin_set(lines: Seq<Seq<char>>, pinned: bool, at: Option<Seq<char>>) -> Seq<
    Seq<char>,
> {
    if pinned {
        fm_set(fm_set(lines, k_pinned(), Some(v_true())), k_pinned_at(), at)
    } else {
        fm_set(fm_set(lines, k_pinned(), None), k_pinned_at(), None)
    }
}

impl StoryNote {
    /// Read all theme tokens from frontmatter (None for absent keys).
    pub fn theme_tokens(&self) -> (r: ThemeTokens)
        ensures
            opt_view(r.dark_background) == fm_lookup(str_views(self.frontmatter@), k_dark_bg()),
            opt_view(r.dark_foreground) == fm_lookup(str_views(self.frontmatter@), k_dark_fg()),
            opt_view(r.light_background) == fm_lookup(str_views(self.frontmatter@), k_light_bg()),
            opt_view(r.light_foreground) == fm_lookup(str_views(self.frontmatter@), k_light_fg()),
            opt_view(r.dark_accent) == fm_lookup(str_views(self.frontmatter@), k_dark_accent()),
            opt_view(r.light_accent) == fm_lookup(
                str_views(self.frontmatter@),
                k_light_accent(),
            ),
            opt_view(r.font_header) == fm_lookup(str_views(self.frontmatter@), k_font_header()),
            opt_view(r.font_text) == fm_lookup(str_views(self.frontmatter@), k_font_text()),
    {
        ThemeTokens {
            dark_background: self.frontmatter_value("color-dark-background"),
            dark_foreground: self.frontmatter_value("color-dark-foreground"),
            light_background: self.frontmatter_value("color-light-background"),
            light_foreground: self.frontmatter_value("color-light-foreground"),
            dark_accent: self.frontmatter_value("color-dark-accent"),
            light_accent: self.frontmatter_value("color-light-accent"),
            font_header: self.frontmatter_value("font-header"),
            font_text: self.frontmatter_value("font-text"),
        }
    }

    /// Write all 8 theme tokens to frontmatter, deriving the unspecified ones:
    /// dark_fg = derive_foreground(dark_bg); light_bg = dark_fg and
    /// light_fg = dark_bg (the swap); light_accent = dark_accent (mirror).
    /// None values delete the key (returns to "inherits default").
    pub fn set_theme(&mut self, tokens: &ThemeTokens)
        ensures
            final(self).url == old(self).url,
            final(self).body == old(self).body,
            str_views(final(self).frontmatter@) == theme_set(
                str_views(old(self).frontmatter@),
                opt_view(tokens.dark_background),
                opt_view(tokens.dark_accent),
                opt_view(tokens.font_header),
                opt_view(tokens.font_text),
            ),
    {
        let dark_bg: Option<&str> = match &tokens.dark_background {
            Some(s) => Some(s.as_str()),
            None => None,
        };
        let accent: Option<&str> = match &tokens.dark_accent {
            Some(s) => Some(s.as_str()),
            None => None,
        };
        let header: Option<&str> = match &tokens.font_header {
            Some(s) => Some(s.as_str()),
            None => None,
        };
        let text: Option<&str> = match &tokens.font_text {
            Some(s) => Some(s.as_str()),
            None => None,
        };
        let dark_fg: Option<String> = match dark_bg {
            Some(b) => Some(derive_foreground(b)),
            None => None,
        };
        let fg: Option<&str> = match &dark_fg {
            Some(s) => Some(s.as_str()),
            None => None,
        };
        assert(opt_str_view(fg) == derived_fg(opt_view(tokens.dark_background)));
        self.set_frontmatter("color-dark-background", dark_bg);
        self.set_frontmatter("color-dark-foreground", fg);
        self.set_frontmatter("color-light-background", fg);
        self.set_frontmatter("color-light-foreground", dark_bg);
        self.set_frontmatter("color-dark-accent", accent);
        self.set_frontmatter("color-light-accent", accent);
        self.set_frontmatter("font-header", header);
        self.set_frontmatter("font-text", text);
    }

    /// Whether this note is pinned (frontmatter `pinned: true`).
    pub fn pinned(&self) -> (r: bool)
        ensures
            r == (fm_lookup(str_views(self.frontmatter@), k_pinned()) == Some(v_true())),
    {
        let t: [char; 4] = ['t', 'r', 'u', 'e'];
        proof {
            reveal_strlit("true");
        }
        assert(t@ =~= v_true());
        match self.frontmatter_value("pinned") {
            Some(v) => {
                let vc = chars_of(v.as_str());
                eq_exec(&vc, &t)
            },
            None => false,
        }
    }

    /// Set or clear pin state. `pinned = true` writes `pinned: true` plus an
    /// optional ISO `pinned-at` timestamp (for stable ordering). `pinned = false`
    /// removes both keys.
    pub fn set_pinned(&mut self, pinned: bool, pinned_at: Option<&str>)
        ensures
            final(self).url == old(self).url,
            final(self).body == old(self).body,
            str_views(final(self).frontmatter@) == pin_set(
                str_views(old(self).frontmatter@),
                pinned,
                opt_str_view(pinned_at),
            ),
    {
        if pinned {
            self.set_frontmatter("pinned", Some("true"));
            self.set_frontmatter("pinned-at", pinned_at);
        } else {
            self.set_frontmatter("pinned", None);
            self.set_frontmatter("pinned-at", None);
        }
    }
}

// ---------------------------------------------------------------------------
// Foreground ink
// ---------------------------------------------------------------------------

/// The light ink, for dark backgrounds.
pub open spec fn light_ink() -> Seq<char> {
    seq!['#', 'F', '5', 'F', '1', 'E', 'A']
}

/// The dark ink, for light backgrounds and unreadable colours.
pub open spec fn dark_ink() -> Seq<char> {
    seq!['#', '1', '5', '1', '1', '0', 'D']
}

/// The value of a hexadecimal digit.
pub open spec fn hex_digit(c: char) -> Option<int> {
    let u = c as u32;
    if 48 <= u <= 57 {
        Some(u - 48)
    } else if 65 <= u <= 70 {
        Some(u - 55)
    } else if 97 <= u <= 102 {
        Some(u - 87)
    } else {
        None
    }
}

pub open spec fn all_hex(s: Seq<char>) -> bool {
    forall|i: int| 0 <= i < s.len() ==> (#[trigger] hex_digit(s[i])) is Some
}

pub open spec fn hx(s: Seq<char>, i: int) -> int {
    hex_digit(s[i])->0
}

/// `str::trim_start_matches('#')`.
pub open spec fn strip_hashes(s: Seq<char>) -> Seq<char>
    decreases s.len(),
{
    if s.len() > 0 && s[0] == '#' {
        strip_hashes(s.drop_first())
    } else {
        s
    }
}

/// The red, green and blue bytes of a six-character hex colour, as
/// `u64::from_str_radix(s, 16)` reads it: six hex digits, or a `+` sign
/// and five.
pub open spec fn rgb_of(s: Seq<char>) -> Option<(int, int, int)> {
    if s.len() == 6 && all_hex(s) {
        Some((hx(s, 0) * 16 + hx(s, 1), hx(s, 2) * 16 + hx(s, 3), hx(s, 4) * 16 + hx(s, 5)))
    } else if s.len() == 6 && s[0] == '+' && all_hex(s.skip(1)) {
        Some((hx(s, 1), hx(s, 2) * 16 + hx(s, 3), hx(s, 4) * 16 + hx(s, 5)))
    } else {
        None
    }
}

/// The colours whose Rec. 709 luminance is exactly one half, yet evaluates
/// below it in double precision: `0.2126 * r + 0.7152 * g + 0.0722 * b`
/// over `byte / 255.0`, summed left to right, rounds down for exactly these.
pub open spec fn rounds_below_half(r: int, g: int, b: int) -> bool {
    ||| (r == 13 && g == 163 && b == 113)
    ||| (r == 30 && g == 153 && b == 162)
    ||| (r == 78 && g == 146 && b == 90)
    ||| (r == 126 && g == 139 && b == 18)
    ||| (r == 143 && g == 129 && b == 67)
    ||| (r == 208 && g == 112 && b == 44)
    ||| (r == 225 && g == 102 && b == 93)
}

/// Luminance under one half: `2126 r + 7152 g + 722 b < 0.5 * 255 * 10000`,
/// the exact form of the weighted sum, with the double-precision rounding at
/// the midpoint.
pub open spec fn wants_light_ink(r: int, g: int, b: int) -> bool {
    2126 * r + 7152 * g + 722 * b < 1275000 || rounds_below_half(r, g, b)
}

/// Contrast-derived ink for a background colour.
pub open spec fn derive_fg(bg: Seq<char>) -> Seq<char> {
    match rgb_of(strip_hashes(bg)) {
        Some((r, g, b)) => if wants_light_ink(r, g, b) {
            light_ink()
        } else {
            dark_ink()
        },
        None => dark_ink(),
    }
}

fn hex_digit_exec(c: char) -> (r: Option<u32>)
    ensures
        match r {
            Some(v) => hex_digit(c) == Some(v as int) && v < 16,
            None => hex_digit(c) is None,
        },
{
    let u = c as u32;
    if 48 <= u && u <= 57 {
        Some(u - 48)
    } else if 65 <= u && u <= 70 {
        Some(u - 55)
    } else if 97 <= u && u <= 102 {
        Some(u - 87)
    } else {
        None
    }
}

fn midpoint_rounds_down(r: u32, g: u32, b: u32) -> (res: bool)
    ensures
        res == rounds_below_half(r as int, g as int, b as int),
{
    (r == 13 && g == 163 && b == 113) || (r == 30 && g == 153 && b == 162) || (r == 78 && g
        == 146 && b == 90) || (r == 126 && g == 139 && b == 18) || (r == 143 && g == 129 && b
        == 67) || (r == 208 && g == 112 && b == 44) || (r == 225 && g == 102 && b == 93)
}

/// Contrast-derived ink from a background hex — two warm ink tones, not flat
/// black/white: luminance < 0.5 gives `#F5F1EA`, else `#15110D`, which is
/// also the answer for anything that is not a six-digit hex colour.
pub fn derive_foreground(bg_hex: &str) -> (r: String)
    ensures
        r@ == derive_fg(bg_hex@),
        r@ == light_ink() || r@ == dark_ink(),
{
    let light: [char; 7] = ['#', 'F', '5', 'F', '1', 'E', 'A'];
    let dark: [char; 7] = ['#', '1', '5', '1', '1', '0', 'D'];
    assert(light@ =~= light_ink());
    assert(dark@ =~= dark_ink());
    let c = chars_of(bg_hex);
    let mut i: usize = 0;
    assert(c@.skip(0) =~= c@);
    while i < c.len() && c[i] == '#'
        invariant
            i <= c@.len(),
            strip_hashes(c@) == strip_hashes(c@.skip(i as int)),
        decreases c@.len() - i,
    {
        assert(c@.skip(i as int).drop_first() =~= c@.skip(i + 1));
        i += 1;
    }
    let s = copy_range(&c, i, c.len());
    assert(s@ =~= c@.skip(i as int));
    assert(strip_hashes(s@) == s@);
    if s.len() != 6 {
        return string_of(&dark);
    }
    let first = if s[0] == '+' {
        0u32
    } else {
        match hex_digit_exec(s[0]) {
            Some(v) => v,
            None => {
                assert(!all_hex(s@));
                return string_of(&dark);
            },
        }
    };
    let mut digits: [u32; 6] = [first, 0, 0, 0, 0, 0];
    let mut k: usize = 1;
    while k < 6
        invariant
            1 <= k <= 6,
            s@.len() == 6,
            strip_hashes(bg_hex@) == s@,
            dark@ == dark_ink(),
            digits@.len() == 6,
            s@[0] != '+' ==> hex_digit(s@[0]) == Some(digits@[0] as int),
            forall|j: int| 1 <= j < k ==> hex_digit(s@[j]) == Some(#[trigger] digits@[j] as int)
                && digits@[j] < 16,
            digits@[0] < 16,
        decreases 6 - k,
    {
        match hex_digit_exec(s[k]) {
            Some(v) => {
                digits[k] = v;
            },
            None => {
                assert(hex_digit(s@[k as int]) is None);
                assert(!all_hex(s@));
                assert(s@.skip(1)[k - 1] == s@[k as int]);
                assert(hex_digit(s@.skip(1)[k - 1]) is None);
                assert(!all_hex(s@.skip(1)));
                if s[0] == '+' {
                    assert(hex_digit(s@[0]) is None);
                }
                assert(rgb_of(s@) is None);
                return string_of(&dark);
            },
        }
        k += 1;
    }
    let (r, g, b) = if s[0] == '+' {
        assert(hex_digit(s@[0]) is None);
        assert forall|j: int| 0 <= j < 5 implies (#[trigger] hex_digit(s@.skip(1)[j])) is Some by {
            assert(s@.skip(1)[j] == s@[j + 1]);
            assert(hex_digit(s@[j + 1]) == Some(digits@[j + 1] as int));
        }
        assert(!all_hex(s@));
        assert(all_hex(s@.skip(1)));
        (digits[1], digits[2] * 16 + digits[3], digits[4] * 16 + digits[5])
    } else {
        assert forall|j: int| 0 <= j < 6 implies (#[trigger] hex_digit(s@[j])) is Some by {
            assert(hex_digit(s@[j]) == Some(digits@[j] as int));
        }
        assert(all_hex(s@));
        (digits[0] * 16 + digits[1], digits[2] * 16 + digits[3], digits[4] * 16 + digits[5])
    };
    assert(rgb_of(s@) == Some((r as int, g as int, b as int)));
    if 2126 * r + 7152 * g + 722 * b < 1275000 || midpoint_rounds_down(r, g, b) {
        string_of(&light)
    } else {
        string_of(&dark)
    }
}


// ---------------------------------------------------------------------------
// Embeds
// ---------------------------------------------------------------------------

pub open spec fn embed_open() -> Seq<char> {
    seq!['!', '[', '[']
}

pub open spec fn embed_close() -> Seq<char> {
    seq![']', ']']
}

pub open spec fn jpg_ext() -> Seq<char> {
    seq!['.', 'j', 'p', 'g']
}

pub open spec fn jpeg_ext() -> Seq<char> {
    seq!['.', 'j', 'p', 'e', 'g']
}

/// The link of an embed: the text before any `|` caption, trimmed.
pub open spec fn link_of(inner: Seq<char>) -> Seq<char> {
    match index_of(inner, '|') {
        Some(i) => if 0 <= i <= inner.len() {
            trim(inner.take(i))
        } else {
            trim(inner)
        },
        None => trim(inner),
    }
}

/// The stem of a `.jpg` / `.jpeg` link.
pub open spec fn stem_of(link: Seq<char>) -> Option<Seq<char>> {
    match strip_suffix(link, jpg_ext()) {
        Some(s) => Some(s),
        None => strip_suffix(link, jpeg_ext()),
    }
}

/// The embedded stems of a text, in order: each `![[…]]` whose link names a
/// `.jpg` or `.jpeg` file; scanning stops at an embed that is never closed.
pub open spec fn stems_in(rest: Seq<char>) -> Seq<Seq<char>>
    decreases rest.len(),
{
    match find(rest, embed_open()) {
        Some(st) => if 0 <= st && st + 3 <= rest.len() {
            let r2 = rest.skip(st + 3);
            match find(r2, embed_close()) {
                Some(e) => if 0 <= e && e + 2 <= r2.len() {
                    let tail = stems_in(r2.skip(e + 2));
                    match stem_of(link_of(r2.take(e))) {
                        Some(x) => seq![x] + tail,
                        None => tail,
                    }
                } else {
                    Seq::empty()
                },
                None => Seq::empty(),
            }
        } else {
            Seq::empty()
        },
        None => Seq::empty(),
    }
}

pub fn link_exec(inner: &[char]) -> (r: Vec<char>)
    ensures
        r@ == link_of(inner@),
{
    let bar: [char; 1] = ['|'];
    assert(bar@ =~= seq!['|']);
    match find_exec(inner, &bar) {
        Some(i) => {
            proof {
                lemma_find_from_bounds(inner@, bar@, 0);
            }
            let head = copy_range(inner, 0, i);
            assert(head@ =~= inner@.take(i as int));
            trim_exec(&head)
        },
        None => trim_exec(inner),
    }
}

fn stem_exec(link: &[char]) -> (r: Option<Vec<char>>)
    ensures
        match r {
            Some(v) => stem_of(link@) == Some(v@),
            None => stem_of(link@) is None,
        },
{
    let jpg: [char; 4] = ['.', 'j', 'p', 'g'];
    let jpeg: [char; 5] = ['.', 'j', 'p', 'e', 'g'];
    assert(jpg@ =~= jpg_ext());
    assert(jpeg@ =~= jpeg_ext());
    if ends_with_exec(link, &jpg) {
        let v = copy_range(link, 0, link.len() - 4);
        assert(v@ =~= link@.take(link@.len() - 4));
        Some(v)
    } else if ends_with_exec(link, &jpeg) {
        let v = copy_range(link, 0, link.len() - 5);
        assert(v@ =~= link@.take(link@.len() - 5));
        Some(v)
    } else {
        None
    }
}

/// The embedded stems of a text, in order.
pub fn parse_stems(content: &str) -> (r: Vec<String>)
    ensures
        str_views(r@) == stems_in(content@),
{
    let open: [char; 3] = ['!', '[', '['];
    let close: [char; 2] = [']', ']'];
    assert(open@ =~= embed_open());
    assert(close@ =~= embed_close());
    let c = chars_of(content);
    let mut out: Vec<String> = Vec::new();
    let mut pos: usize = 0;
    assert(c@.skip(0) =~= c@);
    assert(str_views(out@) =~= Seq::<Seq<char>>::empty());
    loop
        invariant
            pos <= c@.len(),
            open@ == embed_open(),
            close@ == embed_close(),
            c@ == content@,
            stems_in(content@) == str_views(out@) + stems_in(c@.skip(pos as int)),
        decreases c@.len() - pos,
    {
        let ghost rest = c@.skip(pos as int);
        proof {
            lemma_find_from_shift(c@, open@, pos as int, pos as int);
            lemma_find_from_bounds(c@, open@, pos as int);
        }
        let a = match find_from_exec(&c, &open, pos) {
            Some(a) => a,
            None => {
                assert(str_views(out@) + Seq::<Seq<char>>::empty() =~= str_views(out@));
                return out;
            },
        };
        assert(occurs_at(c@, open@, a as int));
        assert(a + 3 <= c.len());
        let p2 = a + 3;
        let ghost r2 = rest.skip(a - pos + 3);
        assert(r2 =~= c@.skip(p2 as int));
        proof {
            lemma_find_from_shift(c@, close@, p2 as int, p2 as int);
            lemma_find_from_bounds(c@, close@, p2 as int);
        }
        let b = match find_from_exec(&c, &close, p2) {
            Some(b) => b,
            None => {
                assert(str_views(out@) + Seq::<Seq<char>>::empty() =~= str_views(out@));
                return out;
            },
        };
        let inner = copy_range(&c, p2, b);
        assert(inner@ =~= r2.take(b - p2));
        let link = link_exec(&inner);
        assert(r2.skip(b - p2 + 2) =~= c@.skip(b + 2));
        let ghost prev = str_views(out@);
        match stem_exec(&link) {
            Some(st) => {
                out.push(string_of(&st));
                assert(str_views(out@) =~= prev.push(st@));
                assert(str_views(out@) + stems_in(c@.skip(b + 2)) =~= prev + (seq![st@]
                    + stems_in(c@.skip(b + 2))));
            },
            None => {},
        }
        assert(occurs_at(c@, close@, b as int));
        assert(b + 2 <= c.len());
        pos = b + 2;
    }
}

/// The embed line for a stem: `![[stem.jpg]]`.
pub open spec fn embed_of(stem: Seq<char>) -> Seq<char> {
    embed_open() + stem + jpg_ext() + embed_close()
}

pub open spec fn not_embed(e: Seq<char>) -> spec_fn(Seq<char>) -> bool {
    |l: Seq<char>| trim(l) != e
}

/// The body after toggling `stem`: with an embed line for it present, every
/// such line is removed (the rest rejoined, ending in a newline); otherwise
/// the embed is appended on a line of its own.
pub open spec fn toggled_body(body: Seq<char>, stem: Seq<char>) -> Seq<char> {
    let e = embed_of(stem);
    let ls = lines(body);
    if exists|i: int| 0 <= i < ls.len() && trim(#[trigger] ls[i]) == e {
        let b = join(ls.filter(not_embed(e)), lf());
        if ends_with(b, lf()) {
            b
        } else {
            b.push('\n')
        }
    } else {
        let b = if ends_with(body, lf()) {
            body
        } else {
            body.push('\n')
        };
        b + e + lf()
    }
}

/// The frontmatter after a toggle: a note with neither frontmatter nor
/// any body text gets `publish: true` on its first mark.
pub open spec fn toggled_fm(lines: Seq<Seq<char>>, body: Seq<char>) -> Seq<Seq<char>> {
    if lines.len() == 0 && trim(body).len() == 0 {
        fm_set(lines, k_publish(), Some(v_true()))
    } else {
        lines
    }
}

/// The embed line for a stem.
fn embed_exec(stem: &[char]) -> (r: Vec<char>)
    ensures
        r@ == embed_of(stem@),
{
    let mut e: Vec<char> = Vec::new();
    e.push('!');
    e.push('[');
    e.push('[');
    append(&mut e, stem);
    e.push('.');
    e.push('j');
    e.push('p');
    e.push('g');
    e.push(']');
    e.push(']');
    assert(e@ =~= embed_of(stem@));
    e
}

/// Toggle a photo's presence in the story: remove its embed line if the body
/// has one, else append it. A note with no frontmatter and an empty body is
/// seeded with `publish: true` on its first mark. Returns the new stems.
pub fn toggle(note: &mut StoryNote, stem: &str) -> (r: Vec<String>)
    ensures
        final(note).url == old(note).url,
        str_views(final(note).frontmatter@) == toggled_fm(
            str_views(old(note).frontmatter@),
            old(note).body@,
        ),
        final(note).body@ == toggled_body(old(note).body@, stem@),
        str_views(r@) == stems_in(final(note).body@),
{
    let body = chars_of(note.body.as_str());
    let t = trim_exec(&body);
    if note.frontmatter.len() == 0 && t.len() == 0 {
        note.set_frontmatter("publish", Some("true"));
    }
    let lf_c: [char; 1] = ['\n'];
    assert(lf_c@ =~= lf());
    let stem_c = chars_of(stem);
    let e = embed_exec(&stem_c);
    let ls = lines_exec(&body);
    let ghost lsv = views(ls@);
    let mut kept: Vec<Vec<char>> = Vec::new();
    let mut has = false;
    let mut i: usize = 0;
    assert(lsv.take(0).filter(not_embed(e@)) =~= Seq::<Seq<char>>::empty()) by {
        reveal_with_fuel(Seq::filter, 1);
    }
    while i < ls.len()
        invariant
            i <= ls@.len(),
            lsv == views(ls@),
            views(kept@) == lsv.take(i as int).filter(not_embed(e@)),
            has == exists|j: int| 0 <= j < i && trim(#[trigger] lsv[j]) == e@,
        decreases ls@.len() - i,
    {
        let tl = trim_exec(ls[i].as_slice());
        assert(lsv.take(i + 1) =~= lsv.take(i as int).push(lsv[i as int]));
        proof {
            lsv.take(i as int).lemma_filter_push(lsv[i as int], not_embed(e@));
        }
        if eq_exec(&tl, &e) {
            has = true;
        } else {
            let ghost prev = views(kept@);
            kept.push(copy_range(ls[i].as_slice(), 0, ls[i].len()));
            assert(ls@[i as int]@.subrange(0, ls@[i as int]@.len() as int) =~= ls@[i as int]@);
            assert(views(kept@) =~= prev.push(lsv[i as int]));
        }
        i += 1;
    }
    assert(lsv.take(ls@.len() as int) =~= lsv);
    let mut nb: Vec<char>;
    if has {
        nb = join_exec(&kept, &lf_c);
        if !ends_with_exec(&nb, &lf_c) {
            nb.push('\n');
        }
    } else {
        nb = copy_range(&body, 0, body.len());
        assert(body@.subrange(0, body@.len() as int) =~= body@);
        if !ends_with_exec(&nb, &lf_c) {
            nb.push('\n');
        }
        append(&mut nb, &e);
        nb.push('\n');
        assert(nb@ =~= toggled_body(body@, stem@));
    }
    note.body = string_of(&nb);
    parse_stems(note.body.as_str())
}

// ---------------------------------------------------------------------------
// The sidebar's story list
// ---------------------------------------------------------------------------

/// What the story list shows of a note, beside its paths and time.
pub struct StorySummary {
    pub pinned: bool,
    pub pinned_at: Option<String>,
    /// The first three embedded stems, for the row's thumbnail strip.
    pub thumb_stems: Vec<String>,
}

/// The first `n` items of `s` (all of them where it is shorter).
pub open spec fn first_n(s: Seq<Seq<char>>, n: int) -> Seq<Seq<char>> {
    if s.len() <= n {
        s
    } else {
        s.take(n)
    }
}

/// A note's entry in the story list: none for a note without a photo embed
/// (it is not a story yet).
pub fn story_summary(note: &StoryNote) -> (r: Option<StorySummary>)
    ensures
        r is None <==> stems_in(note.body@).len() == 0,
        r matches Some(s) ==> {
            &&& s.pinned == (fm_lookup(str_views(note.frontmatter@), k_pinned()) == Some(v_true()))
            &&& opt_view(s.pinned_at) == fm_lookup(str_views(note.frontmatter@), k_pinned_at())
            &&& str_views(s.thumb_stems@) == first_n(stems_in(note.body@), 3)
        },
{
    let stems = parse_stems(note.body.as_str());
    if stems.len() == 0 {
        return None;
    }
    let mut thumbs: Vec<String> = Vec::new();
    let mut i: usize = 0;
    while i < stems.len() && i < 3
        invariant
            i <= stems@.len(),
            i <= 3,
            str_views(thumbs@) =~= str_views(stems@).take(i as int),
        decreases stems@.len() - i,
    {
        let c = chars_of(stems[i].as_str());
        let t = string_of(&c);
        let ghost prev = thumbs@;
        thumbs.push(t);
        assert(str_views(thumbs@) =~= str_views(prev).push(stems@[i as int]@));
        assert(str_views(stems@).take(i + 1) =~= str_views(stems@).take(i as int).push(stems@[i as int]@));
        i += 1;
    }
    assert(str_views(thumbs@) =~= first_n(str_views(stems@), 3));
    Some(StorySummary {
        pinned: note.pinned(),
        pinned_at: note.frontmatter_value("pinned-at"),
        thumb_stems: thumbs,
    })
}

// ---------------------------------------------------------------------------
// Serialisation and publishing
// ---------------------------------------------------------------------------

/// `str::trim_start_matches('\n')`.
pub open spec fn drop_leading_newlines(s: Seq<char>) -> Seq<char>
    decreases s.len(),
{
    if s.len() > 0 && s[0] == '\n' {
        drop_leading_newlines(s.drop_first())
    } else {
        s
    }
}

/// The text a note is saved as: frontmatter (if any) between fences and a
/// blank line, then the body without its leading newlines, ending in a
/// newline.
pub open spec fn rendered(lines: Seq<Seq<char>>, body: Seq<char>) -> Seq<char> {
    let head = if lines.len() == 0 {
        Seq::empty()
    } else {
        open_fence() + join(lines, lf()) + seq!['\n', '-', '-', '-', '\n', '\n']
    };
    let out = head + drop_leading_newlines(body);
    if ends_with(out, lf()) {
        out
    } else {
        out.push('\n')
    }
}

impl StoryNote {
    /// The text `save` writes for this note.
    pub fn to_markdown(&self) -> (r: String)
        ensures
            r@ == rendered(str_views(self.frontmatter@), self.body@),
    {
        let lf_c: [char; 1] = ['\n'];
        assert(lf_c@ =~= lf());
        let mut out: Vec<char> = Vec::new();
        let ghost fm = str_views(self.frontmatter@);
        if self.frontmatter.len() > 0 {
            let mut ls: Vec<Vec<char>> = Vec::new();
            let mut i: usize = 0;
            while i < self.frontmatter.len()
                invariant
                    i <= self.frontmatter@.len(),
                    fm == str_views(self.frontmatter@),
                    views(ls@) == fm.take(i as int),
                decreases self.frontmatter@.len() - i,
            {
                let ghost prev = views(ls@);
                ls.push(chars_of(self.frontmatter[i].as_str()));
                assert(views(ls@) =~= prev.push(fm[i as int]));
                assert(fm.take(i + 1) =~= fm.take(i as int).push(fm[i as int]));
                i += 1;
            }
            assert(fm.take(fm.len() as int) =~= fm);
            out.push('-');
            out.push('-');
            out.push('-');
            out.push('\n');
            let joined = join_exec(&ls, &lf_c);
            append(&mut out, &joined);
            out.push('\n');
            out.push('-');
            out.push('-');
            out.push('-');
            out.push('\n');
            out.push('\n');
            assert(out@ =~= open_fence() + join(fm, lf()) + seq!['\n', '-', '-', '-', '\n', '\n']);
        }
        let body = chars_of(self.body.as_str());
        let mut k: usize = 0;
        assert(body@.skip(0) =~= body@);
        while k < body.len() && body[k] == '\n'
            invariant
                k <= body@.len(),
                drop_leading_newlines(body@) == drop_leading_newlines(body@.skip(k as int)),
            decreases body@.len() - k,
        {
            assert(body@.skip(k as int).drop_first() =~= body@.skip(k + 1));
            k += 1;
        }
        let rest = copy_range(&body, k, body.len());
        assert(rest@ =~= body@.skip(k as int));
        append(&mut out, &rest);
        if !ends_with_exec(&out, &lf_c) {
            out.push('\n');
        }
        string_of(&out)
    }
}

/// The publish rewrite: each `(stem, url)` in turn replaces every
/// `![[stem.jpg]]` in the text with `![stem](url)`.
pub open spec fn publish_rewrite(content: Seq<char>, urls: Seq<(Seq<char>, Seq<char>)>) -> Seq<
    char,
>
    decreases urls.len(),
{
    if urls.len() == 0 {
        content
    } else {
        let (stem, url) = urls.last();
        replace(
            publish_rewrite(content, urls.drop_last()),
            embed_of(stem),
            seq!['!', '['] + stem + seq![']', '('] + url + seq![')'],
        )
    }
}

pub open spec fn pair_views(v: Seq<(String, String)>) -> Seq<(Seq<char>, Seq<char>)> {
    Seq::new(v.len(), |i: int| (v[i].0@, v[i].1@))
}

/// A text ready to publish: as it is where its frontmatter already sets
/// `publish: true`; otherwise the note it reads as, with `publish: true`
/// written into its frontmatter, saved anew.
pub open spec fn publish_ready(c: Seq<char>) -> Seq<char> {
    let (fm, body) = parsed(c);
    if fm_lookup(fm, k_publish()) == Some(v_true()) {
        c
    } else {
        rendered(fm_set(clean_lines(fm), k_publish(), Some(v_true())), clean_body(body))
    }
}

/// A line without the carriage returns at its end.
pub open spec fn strip_cr_end(l: Seq<char>) -> Seq<char>
    decreases l.len(),
{
    if l.len() > 0 && l.last() == '\r' {
        strip_cr_end(l.drop_last())
    } else {
        l
    }
}

/// Each line without the carriage returns at its end.
pub open spec fn clean_lines(ls: Seq<Seq<char>>) -> Seq<Seq<char>> {
    ls.map_values(|l: Seq<char>| strip_cr_end(l))
}

/// A body with every line ending a plain newline: each of its lines
/// without the carriage returns at its end, followed by a newline. (A body
/// read from a note with plain line endings is left as it is.)
pub open spec fn clean_body(b: Seq<char>) -> Seq<char> {
    terminated(clean_lines(lines(b)), lf())
}

/// The note content with `publish: true` guaranteed in its frontmatter and
/// each `![[stem.jpg]]` rewritten to its CDN url. A note already marked is
/// published as it is; another is written out again with the flag in its
/// frontmatter and plain newline line endings.
pub fn content_for_publish(content: &str, urls: &Vec<(String, String)>) -> (r: String)
    ensures
        r@ == publish_ready(publish_rewrite(content@, pair_views(urls@))),
        fm_lookup(parsed(r@).0, k_publish()) == Some(v_true()),
{
    let rewritten = rewrite_embeds(content, urls);
    let mut note = StoryNote::parse(rewritten.as_str(), "");
    let flag = note.frontmatter_value("publish");
    let t: [char; 4] = ['t', 'r', 'u', 'e'];
    proof {
        reveal_strlit("true");
    }
    assert(t@ =~= v_true());
    let has_flag = match flag {
        Some(v) => eq_exec(&chars_of(v.as_str()), &t),
        None => false,
    };
    if has_flag {
        return rewritten;
    }
    let ghost fm0 = str_views(note.frontmatter@);
    let ghost body0 = note.body@;
    let mut cleaned: Vec<String> = Vec::new();
    let mut i: usize = 0;
    while i < note.frontmatter.len()
        invariant
            i <= note.frontmatter@.len(),
            str_views(note.frontmatter@) == fm0,
            str_views(cleaned@) == clean_lines(fm0.take(i as int)),
        decreases note.frontmatter@.len() - i,
    {
        let l = strip_cr_end_exec(&chars_of(note.frontmatter[i].as_str()));
        let ghost before = str_views(cleaned@);
        cleaned.push(string_of(&l));
        assert(str_views(cleaned@) =~= before.push(strip_cr_end(fm0[i as int])));
        assert(clean_lines(fm0.take(i + 1)) =~= clean_lines(fm0.take(i as int)).push(strip_cr_end(fm0[i as int])));
        i += 1;
    }
    assert(fm0.take(fm0.len() as int) =~= fm0);
    let ls = lines_exec(&chars_of(note.body.as_str()));
    let mut cl: Vec<Vec<char>> = Vec::new();
    let mut j: usize = 0;
    while j < ls.len()
        invariant
            j <= ls@.len(),
            views(cl@) == clean_lines(views(ls@).take(j as int)),
        decreases ls@.len() - j,
    {
        let l = strip_cr_end_exec(&ls[j]);
        let ghost before = views(cl@);
        cl.push(l);
        assert(views(cl@) =~= before.push(strip_cr_end(views(ls@)[j as int])));
        assert(clean_lines(views(ls@).take(j + 1)) =~= clean_lines(views(ls@).take(j as int)).push(
            strip_cr_end(views(ls@)[j as int]),
        ));
        j += 1;
    }
    assert(views(ls@).take(ls@.len() as int) =~= views(ls@));
    let nl: [char; 1] = ['\n'];
    assert(nl@ =~= lf());
    note.frontmatter = cleaned;
    note.body = string_of(&terminated_exec(&cl, &nl));
    assert(note.body@ == clean_body(body0));
    note.set_frontmatter("publish", Some("true"));
    proof {
        lemma_publish_ready_flag(rewritten@);
    }
    note.to_markdown()
}

/// A line without the carriage returns at its end.
fn strip_cr_end_exec(l: &[char]) -> (r: Vec<char>)
    ensures
        r@ == strip_cr_end(l@),
{
    let mut k: usize = l.len();
    assert(l@.take(k as int) =~= l@);
    while k > 0 && l[k - 1] == '\r'
        invariant
            k <= l@.len(),
            strip_cr_end(l@) == strip_cr_end(l@.take(k as int)),
        decreases k,
    {
        assert(l@.take(k as int).drop_last() =~= l@.take(k - 1));
        k -= 1;
    }
    let r = copy_range(l, 0, k);
    assert(r@ =~= l@.take(k as int));
    r
}

/// Whatever the text, the frontmatter of what is published reads
/// `publish: true`.
proof fn lemma_publish_ready_flag(c: Seq<char>)
    ensures
        fm_lookup(parsed(publish_ready(c)).0, k_publish()) == Some(v_true()),
{
    let (fm, body) = parsed(c);
    if fm_lookup(fm, k_publish()) != Some(v_true()) {
        reveal_strlit("publish");
        reveal_strlit("true");
        let cl = clean_lines(fm);
        let fm2 = fm_set(cl, k_publish(), Some(v_true()));
        let b2 = clean_body(body);
        // every cleaned frontmatter line survives a save, and so does the
        // line written
        assert forall|i: int| 0 <= i < cl.len() implies savable_line(#[trigger] cl[i]) by {
            lemma_parsed_line_unfenced(c, i);
            lemma_strip_cr_end(fm[i]);
        }
        assert(savable_line(fm_line(k_publish(), v_true()))) by {
            let l = fm_line(k_publish(), v_true());
            assert(l =~= "publish: true"@) by {
                reveal_strlit("publish: true");
            }
            reveal_strlit("publish: true");
            assert(l[0] == 'p');
            assert(trim(l) == l);
        }
        lemma_first_match_from(cl, k_publish(), 0);
        assert forall|i: int| 0 <= i < fm2.len() implies savable_line(#[trigger] fm2[i]) by {
            match first_match(cl, k_publish()) {
                Some(m) => {
                    if i != m {
                        assert(fm2[i] == cl[i]);
                    }
                },
                None => {
                    if i < cl.len() {
                        assert(fm2[i] == cl[i]);
                    }
                },
            }
        }
        let ls = clean_lines(lines(body));
        assert forall|i: int| 0 <= i < ls.len() implies one_line(#[trigger] ls[i]) by {
            lemma_lines_no_lf(body, i);
            lemma_strip_cr_end(lines(body)[i]);
        }
        lemma_terminated_endings(ls);
        law_saved_note_reads_back(fm2, b2);
        law_write_then_read(cl, k_publish(), Some(v_true()));
        assert(unquote(trim(v_true())) == v_true()) by {
            assert(trim(v_true()) == v_true());
        }
    }
}

/// Stripping a line's final carriage returns leaves it one line (where it
/// had no newline) and a fence exactly where it was one.
proof fn lemma_strip_cr_end(l: Seq<char>)
    ensures
        lacks(l, '\n') ==> one_line(strip_cr_end(l)),
        is_fence(strip_cr_end(l)) == is_fence(l),
    decreases l.len(),
{
    if l.len() > 0 && l.last() == '\r' {
        let d = l.drop_last();
        lemma_strip_cr_end(d);
        assert(lacks(l, '\n') ==> lacks(d, '\n')) by {
            assert forall|k: int| 0 <= k < d.len() implies d[k] == l[k] by {}
        }
        lemma_trim_drop_ws_last(l);
    }
}

/// Whitespace at the end does not change what `trim` gives.
proof fn lemma_trim_drop_ws_last(s: Seq<char>)
    requires
        s.len() > 0,
        is_ws(s.last()),
    ensures
        trim(s) == trim(s.drop_last()),
{
    let d = s.drop_last();
    let (lo, hi) = lemma_trim_bounds(d);
    assert forall|i: int| 0 <= i < lo implies is_ws(s[i]) by {
        assert(s[i] == d[i]);
    }
    assert forall|i: int| hi <= i < s.len() implies is_ws(s[i]) by {
        if i < d.len() {
            assert(s[i] == d[i]);
        }
    }
    if lo < hi {
        assert(s[lo] == d[lo] && s[hi - 1] == d[hi - 1]);
    } else {
        assert forall|i: int| 0 <= i < s.len() implies is_ws(s[i]) by {
            if i < d.len() {
                assert(s[i] == d[i]);
            }
        }
    }
    lemma_trim_at(s, lo, hi);
    assert(s.subrange(lo, hi) =~= d.subrange(lo, hi));
}

/// No line of any text holds a newline.
proof fn lemma_lines_no_lf(s: Seq<char>, i: int)
    requires
        0 <= i < lines(s).len(),
    ensures
        lacks(lines(s)[i], '\n'),
    decreases s.len(),
{
    lemma_find_from_bounds(s, seq!['\n'], 0);
    match index_of(s, '\n') {
        Some(n) => {
            if 0 <= n < s.len() {
                let head = s.take(n);
                if i == 0 {
                    assert forall|k: int| 0 <= k < head.len() implies head[k] != '\n' by {
                        assert(!occurs_at(s, seq!['\n'], k));
                        if head[k] == '\n' {
                            assert(s.subrange(k, k + 1) =~= seq!['\n']);
                        }
                    }
                    assert forall|k: int| 0 <= k < drop_cr(head).len() implies drop_cr(head)[k] != '\n' by {
                        assert(drop_cr(head)[k] == head[k]);
                    }
                } else {
                    lemma_lines_no_lf(s.skip(n + 1), i - 1);
                }
            }
        },
        None => {
            assert forall|k: int| 0 <= k < s.len() implies s[k] != '\n' by {
                assert(!occurs_at(s, seq!['\n'], k));
                if s[k] == '\n' {
                    assert(s.subrange(k, k + 1) =~= seq!['\n']);
                }
            }
            assert(lines(s)[0] == s);
        },
    }
}

/// A frontmatter line holds no newline and is not a fence.
proof fn lemma_parsed_line_unfenced(c: Seq<char>, i: int)
    requires
        0 <= i < parsed(c).0.len(),
    ensures
        lacks(parsed(c).0[i], '\n'),
        !is_fence(parsed(c).0[i]),
{
    let text = normalized(c);
    let ls = lines(text.skip(4));
    lemma_first_fence_from_bounds(ls, 0);
    if starts_with(text, open_fence()) {
        if let Some(k) = first_fence_from(ls, 0) {
            assert(parsed(c).0 == ls.take(k));
            assert(parsed(c).0[i] == ls[i]);
            lemma_first_fence_from_before(ls, 0, i);
            lemma_lines_no_lf(text.skip(4), i);
        }
    }
}

proof fn lemma_skip_lf_endings(s: Seq<char>, n: int)
    requires
        lf_endings(s),
        0 <= n <= s.len(),
    ensures
        lf_endings(s.skip(n)),
{
    let t = s.skip(n);
    assert forall|k: int| 0 <= k < t.len() - 1 implies !(#[trigger] t[k] == '\r' && t[k + 1] == '\n') by {
        assert(t[k] == s[n + k] && t[k + 1] == s[n + k + 1]);
        assert(!(s[n + k] == '\r' && s[n + k + 1] == '\n'));
    }
}

/// Each line of a text with plain line endings, but its last, is a single
/// line.
proof fn lemma_lines_clean(s: Seq<char>, i: int)
    requires
        lf_endings(s),
        0 <= i < lines(s).len(),
        i + 1 < lines(s).len() || s.len() == 0 || s.last() != '\r',
    ensures
        one_line(lines(s)[i]),
    decreases s.len(),
{
    lemma_find_from_bounds(s, seq!['\n'], 0);
    match index_of(s, '\n') {
        Some(n) => {
            if 0 <= n < s.len() {
                let head = s.take(n);
                if i == 0 {
                    assert forall|k: int| 0 <= k < head.len() implies head[k] != '\n' by {
                        assert(!occurs_at(s, seq!['\n'], k));
                        if head[k] == '\n' {
                            assert(s.subrange(k, k + 1) =~= seq!['\n']);
                        }
                    }
                    assert(s.subrange(n, n + 1)[0] == s[n]);
                    if head.len() > 0 {
                        assert(head.last() == s[n - 1]);
                        assert(!(s[n - 1] == '\r' && s[n - 1 + 1] == '\n'));
                    }
                    assert(drop_cr(head) == head);
                } else {
                    lemma_skip_lf_endings(s, n + 1);
                    let tail = s.skip(n + 1);
                    if tail.len() > 0 {
                        assert(tail.last() == s.last());
                    }
                    lemma_lines_clean(tail, i - 1);
                }
            }
        },
        None => {
            assert forall|k: int| 0 <= k < s.len() implies s[k] != '\n' by {
                assert(!occurs_at(s, seq!['\n'], k));
                if s[k] == '\n' {
                    assert(s.subrange(k, k + 1) =~= seq!['\n']);
                }
            }
            assert(lines(s)[0] == s);
        },
    }
}

proof fn lemma_first_fence_from_before(ls: Seq<Seq<char>>, from: int, i: int)
    requires
        0 <= from <= i,
        first_fence_from(ls, from) matches Some(k) && i < k,
    ensures
        !is_fence(ls[i]),
        i < ls.len(),
    decreases i - from,
{
    if from < i {
        lemma_first_fence_from_before(ls, from + 1, i);
    }
}

/// Lines each followed by a newline have plain line endings.
proof fn lemma_terminated_endings(ps: Seq<Seq<char>>)
    requires
        forall|i: int| 0 <= i < ps.len() ==> one_line(#[trigger] ps[i]),
    ensures
        plain_endings(terminated(ps, lf())),
        ps.len() > 0 ==> terminated(ps, lf()).last() == '\n',
    decreases ps.len(),
{
    if ps.len() > 0 {
        let init = ps.drop_last();
        assert forall|i: int| 0 <= i < init.len() implies one_line(#[trigger] init[i]) by {
            assert(init[i] == ps[i]);
        }
        lemma_terminated_endings(init);
        let t = terminated(ps, lf());
        let a = terminated(init, lf());
        let l = ps.last();
        assert(one_line(l)) by {
            assert(l == ps[ps.len() - 1]);
        }
        assert(t == a + l + lf());
        assert forall|k: int| 0 <= k < t.len() - 1 implies !(#[trigger] t[k] == '\r' && t[k + 1] == '\n') by {
            if k + 1 < a.len() {
                assert(t[k] == a[k] && t[k + 1] == a[k + 1]);
            } else if k + 1 == a.len() {
                assert(t[k] == a.last());
            } else if k + 1 < a.len() + l.len() {
                assert(t[k + 1] == l[k + 1 - a.len()]);
            } else {
                assert(t[k] == l.last());
            }
        }
    } else {
        assert(terminated(ps, lf()) =~= Seq::<char>::empty());
    }
}

proof fn lemma_first_fence_from_bounds(ls: Seq<Seq<char>>, from: int)
    requires
        0 <= from,
    ensures
        first_fence_from(ls, from) matches Some(k) ==> from <= k < ls.len(),
    decreases ls.len() - from,
{
    if from < ls.len() && !is_fence(ls[from]) {
        lemma_first_fence_from_bounds(ls, from + 1);
    }
}

/// Each `![[stem.jpg]]` rewritten to its CDN url, in the order given.
fn rewrite_embeds(content: &str, urls: &Vec<(String, String)>) -> (r: String)
    ensures
        r@ == publish_rewrite(content@, pair_views(urls@)),
{
    let mut cur = chars_of(content);
    let mut i: usize = 0;
    while i < urls.len()
        invariant
            i <= urls@.len(),
            cur@ == publish_rewrite(content@, pair_views(urls@).take(i as int)),
        decreases urls@.len() - i,
    {
        let stem = chars_of(urls[i].0.as_str());
        let url = chars_of(urls[i].1.as_str());
        let from = embed_exec(&stem);
        let mut to: Vec<char> = Vec::new();
        to.push('!');
        to.push('[');
        append(&mut to, &stem);
        to.push(']');
        to.push('(');
        append(&mut to, &url);
        to.push(')');
        assert(to@ =~= seq!['!', '['] + stem@ + seq![']', '('] + url@ + seq![')']);
        cur = replace_exec(&cur, &from, &to);
        assert(pair_views(urls@).take(i + 1).drop_last() =~= pair_views(urls@).take(i as int));
        i += 1;
    }
    assert(pair_views(urls@).take(urls@.len() as int) =~= pair_views(urls@));
    string_of(&cur)
}

/// Frontmatter after stamping a live url: `garden-url` set, and
/// `publish: true` added where no line sets `publish`.
pub open spec fn stamped(lines: Seq<Seq<char>>, url: Seq<char>) -> Seq<Seq<char>> {
    let l1 = fm_set(lines, k_garden_url(), Some(url));
    if fm_lookup(l1, k_publish()) is None {
        fm_set(l1, k_publish(), Some(v_true()))
    } else {
        l1
    }
}

/// Stamp `garden-url` into the note's frontmatter after a publish, making
/// sure `publish: true` is present.
pub fn stamp_garden_url(note: &mut StoryNote, live_url: &str)
    ensures
        final(note).url == old(note).url,
        final(note).body == old(note).body,
        str_views(final(note).frontmatter@) == stamped(str_views(old(note).frontmatter@), live_url@),
{
    note.set_frontmatter("garden-url", Some(live_url));
    if note.frontmatter_value("publish").is_none() {
        note.set_frontmatter("publish", Some("true"));
    }
}

/// `<folder>/<folder-name>.md`.
pub open spec fn note_path_of(dir: Seq<char>) -> Seq<char> {
    path_join(dir, path_file_name(dir) + seq!['.', 'm', 'd'])
}

/// The story note's path for a folder.
pub fn note_path(dir: &str) -> (r: String)
    ensures
        r@ == note_path_of(dir@),
{
    let name = file_name_of(dir);
    let mut n = chars_of(name.as_str());
    n.push('.');
    n.push('m');
    n.push('d');
    let file = string_of(&n);
    assert(file@ =~= path_file_name(dir@) + seq!['.', 'm', 'd']);
    join_path(dir, file.as_str())
}


// ---------------------------------------------------------------------------
// Laws
// ---------------------------------------------------------------------------

/// A key the frontmatter can be addressed by: no colon in it, and not
/// starting with whitespace.
pub open spec fn key_ok(key: Seq<char>) -> bool {
    &&& forall|i: int| 0 <= i < key.len() ==> key[i] != ':'
    &&& (key.len() == 0 || !is_ws(key[0]))
}

/// At most one frontmatter line sets `key`.
pub open spec fn unique_key(lines: Seq<Seq<char>>, key: Seq<char>) -> bool {
    forall|i: int, j: int|
        0 <= i < j < lines.len() ==> !(fm_matches(lines[i], key) && fm_matches(lines[j], key))
}

/// The value a written scalar reads back as: trimmed, one pair of quotes
/// removed.
pub open spec fn norm_opt(v: Option<Seq<char>>) -> Option<Seq<char>> {
    match v {
        Some(x) => Some(unquote(trim(x))),
        None => None,
    }
}

proof fn lemma_keys_literal()
    ensures
        key_ok(k_dark_bg()),
        key_ok(k_dark_fg()),
        key_ok(k_light_bg()),
        key_ok(k_light_fg()),
        key_ok(k_dark_accent()),
        key_ok(k_light_accent()),
        key_ok(k_font_header()),
        key_ok(k_font_text()),
        key_ok(k_pinned()),
        key_ok(k_pinned_at()),
{
    reveal_strlit("color-dark-background");
    reveal_strlit("color-dark-foreground");
    reveal_strlit("color-light-background");
    reveal_strlit("color-light-foreground");
    reveal_strlit("color-dark-accent");
    reveal_strlit("color-light-accent");
    reveal_strlit("font-header");
    reveal_strlit("font-text");
    reveal_strlit("pinned");
    reveal_strlit("pinned-at");
}


/// A written line reads back as the trimmed, unquoted value.
#[verifier::spinoff_prover]
#[verifier::rlimit(40)]
pub proof fn lemma_fm_line_value(key: Seq<char>, v: Seq<char>)
    requires
        key.len() == 0 || !is_ws(key[0]),
    ensures
        fm_value_of(fm_line(key, v), key) == Some(unquote(trim(v))),
        fm_matches(fm_line(key, v), key),
{
    let l = fm_line(key, v);
    let k = key.len() as int;
    let (a, b) = lemma_trim_bounds(v);
    assert(l[k] == ':');
    assert(l[k + 1] == ' ');
    assert(forall|i: int| 0 <= i < v.len() ==> l[k + 2 + i] == v[i]);
    assert(forall|i: int| 0 <= i < k ==> l[i] == key[i]);
    if a < b {
        lemma_trim_at(l, 0, k + 2 + b);
        let t = l.subrange(0, k + 2 + b);
        assert(t.subrange(0, k + 1) =~= key_colon(key));
        let rest = t.skip(k + 1);
        assert(rest =~= seq![' '] + v.take(b));
        assert forall|i: int| 0 <= i < 1 + a implies is_ws(rest[i]) by {
            if i > 0 {
                assert(rest[i] == v[i - 1]);
            }
        }
        lemma_trim_at(rest, 1 + a, 1 + b);
        assert(rest.subrange(1 + a, 1 + b) =~= v.subrange(a, b));
        assert(trim(l) == t);
        assert(starts_with(t, key_colon(key)));
        assert(strip_prefix(t, key_colon(key)) == Some(rest));
        assert(trim(rest) == trim(v));
    } else {
        lemma_trim_at(l, 0, k + 1);
        let t = l.subrange(0, k + 1);
        assert(t =~= key_colon(key));
        assert(t.subrange(0, k + 1) =~= t);
        let rest = t.skip(k + 1);
        assert(rest =~= Seq::<char>::empty());
        lemma_trim_at(rest, 0, 0);
        assert(v.subrange(a, b) =~= Seq::<char>::empty());
        assert(trim(l) == t);
        assert(starts_with(t, key_colon(key)));
        assert(strip_prefix(t, key_colon(key)) == Some(rest));
        assert(trim(rest) == trim(v));
    }
}

/// No line sets two different colon-free keys.
pub proof fn lemma_keys_exclusive(line: Seq<char>, k1: Seq<char>, k2: Seq<char>)
    requires
        key_ok(k1),
        key_ok(k2),
        k1 != k2,
    ensures
        !(fm_matches(line, k1) && fm_matches(line, k2)),
{
    if fm_matches(line, k1) && fm_matches(line, k2) {
        let t = trim(line);
        assert(t.subrange(0, k1.len() + 1 as int) == key_colon(k1));
        assert(t.subrange(0, k2.len() + 1 as int) == key_colon(k2));
        if k1.len() < k2.len() {
            assert(t[k1.len() as int] == key_colon(k1)[k1.len() as int]);
            assert(t[k1.len() as int] == key_colon(k2)[k1.len() as int]);
        } else if k2.len() < k1.len() {
            assert(t[k2.len() as int] == key_colon(k2)[k2.len() as int]);
            assert(t[k2.len() as int] == key_colon(k1)[k2.len() as int]);
        } else {
            assert forall|i: int| 0 <= i < k1.len() implies k1[i] == k2[i] by {
                assert(t[i] == key_colon(k1)[i]);
                assert(t[i] == key_colon(k2)[i]);
            }
            assert(k1 =~= k2);
        }
    }
}

pub proof fn lemma_first_match_from(lines: Seq<Seq<char>>, key: Seq<char>, i: int)
    requires
        0 <= i,
    ensures
        match first_match_from(lines, key, i) {
            Some(k) => i <= k < lines.len() && fm_matches(lines[k], key) && forall|j: int|
                i <= j < k ==> !fm_matches(lines[j], key),
            None => forall|j: int| i <= j < lines.len() ==> !fm_matches(lines[j], key),
        },
    decreases lines.len() - i,
{
    if i < lines.len() && !fm_matches(lines[i], key) {
        lemma_first_match_from(lines, key, i + 1);
    }
}

/// The first line setting `key` is the one that is first.
pub proof fn lemma_first_match_is(lines: Seq<Seq<char>>, key: Seq<char>, k: int)
    requires
        0 <= k < lines.len(),
        fm_matches(lines[k], key),
        forall|j: int| 0 <= j < k ==> !fm_matches(lines[j], key),
    ensures
        first_match(lines, key) == Some(k),
{
    lemma_first_match_from(lines, key, 0);
}

pub proof fn lemma_first_match_none(lines: Seq<Seq<char>>, key: Seq<char>)
    requires
        forall|j: int| 0 <= j < lines.len() ==> !fm_matches(lines[j], key),
    ensures
        first_match(lines, key) is None,
{
    lemma_first_match_from(lines, key, 0);
}

/// Writing `key` and then reading it gives back what was written (trimmed
/// and unquoted); deleting it leaves it unset, where at most one line set
/// it. Either way no second line for `key` appears.
pub proof fn law_write_then_read(lines: Seq<Seq<char>>, key: Seq<char>, value: Option<Seq<char>>)
    requires
        key.len() == 0 || !is_ws(key[0]),
        value is None ==> unique_key(lines, key),
    ensures
        fm_lookup(fm_set(lines, key, value), key) == norm_opt(value),
        unique_key(lines, key) ==> unique_key(fm_set(lines, key, value), key),
{
    lemma_first_match_from(lines, key, 0);
    let l2 = fm_set(lines, key, value);
    match value {
        Some(v) => {
            lemma_fm_line_value(key, v);
            match first_match(lines, key) {
                Some(i) => {
                    lemma_first_match_is(l2, key, i);
                },
                None => {
                    lemma_first_match_is(l2, key, lines.len() as int);
                },
            }
        },
        None => {
            match first_match(lines, key) {
                Some(i) => {
                    assert forall|j: int| 0 <= j < l2.len() implies !fm_matches(l2[j], key) by {
                        if j >= i {
                            assert(l2[j] == lines[j + 1]);
                        }
                    }
                    lemma_first_match_none(l2, key);
                },
                None => {},
            }
        },
    }
}

/// Writing one key leaves every other key reading as it did, and a key set
/// by at most one line stays so.
pub proof fn law_write_keeps_other_keys(
    lines: Seq<Seq<char>>,
    k1: Seq<char>,
    k2: Seq<char>,
    value: Option<Seq<char>>,
)
    requires
        key_ok(k1),
        key_ok(k2),
        k1 != k2,
    ensures
        fm_lookup(fm_set(lines, k1, value), k2) == fm_lookup(lines, k2),
        unique_key(lines, k2) ==> unique_key(fm_set(lines, k1, value), k2),
{
    lemma_first_match_from(lines, k1, 0);
    lemma_first_match_from(lines, k2, 0);
    let l2 = fm_set(lines, k1, value);
    if let Some(v) = value {
        lemma_fm_line_value(k1, v);
        lemma_keys_exclusive(fm_line(k1, v), k1, k2);
    }
    match first_match(lines, k1) {
        Some(i) => {
            lemma_keys_exclusive(lines[i], k1, k2);
            match value {
                Some(v) => {
                    assert forall|j: int| 0 <= j < l2.len() implies fm_matches(l2[j], k2)
                        == fm_matches(lines[j], k2) by {}
                    match first_match(lines, k2) {
                        Some(m) => lemma_first_match_is(l2, k2, m),
                        None => lemma_first_match_none(l2, k2),
                    }
                },
                None => {
                    assert forall|j: int| 0 <= j < l2.len() implies l2[j] == (if j < i {
                        lines[j]
                    } else {
                        lines[j + 1]
                    }) by {}
                    match first_match(lines, k2) {
                        Some(m) => {
                            if m < i {
                                lemma_first_match_is(l2, k2, m);
                            } else {
                                assert(m != i);
                                assert forall|j: int| 0 <= j < m - 1 implies !fm_matches(
                                    l2[j],
                                    k2,
                                ) by {
                                    if j >= i {
                                        assert(l2[j] == lines[j + 1]);
                                    }
                                }
                                lemma_first_match_is(l2, k2, m - 1);
                            }
                        },
                        None => {
                            assert forall|j: int| 0 <= j < l2.len() implies !fm_matches(
                                l2[j],
                                k2,
                            ) by {
                                if j >= i {
                                    assert(l2[j] == lines[j + 1]);
                                }
                            }
                            lemma_first_match_none(l2, k2);
                        },
                    }
                    if unique_key(lines, k2) {
                        assert forall|a: int, b: int|
                            0 <= a < b < l2.len() implies !(fm_matches(l2[a], k2) && fm_matches(
                            l2[b],
                            k2,
                        )) by {
                            let a2 = if a < i {
                                a
                            } else {
                                a + 1
                            };
                            let b2 = if b < i {
                                b
                            } else {
                                b + 1
                            };
                            assert(l2[a] == lines[a2]);
                            assert(l2[b] == lines[b2]);
                        }
                    }
                },
            }
        },
        None => {
            match value {
                Some(v) => {
                    match first_match(lines, k2) {
                        Some(m) => lemma_first_match_is(l2, k2, m),
                        None => lemma_first_match_none(l2, k2),
                    }
                },
                None => {},
            }
        },
    }
}


/// A sequence of frontmatter writes, applied in order.
pub open spec fn apply_writes(
    lines: Seq<Seq<char>>,
    ks: Seq<Seq<char>>,
    vs: Seq<Option<Seq<char>>>,
) -> Seq<Seq<char>>
    decreases ks.len(),
{
    if ks.len() == 0 || vs.len() != ks.len() {
        lines
    } else {
        fm_set(apply_writes(lines, ks.drop_last(), vs.drop_last()), ks.last(), vs.last())
    }
}

pub open spec fn distinct_keys(ks: Seq<Seq<char>>) -> bool {
    &&& forall|i: int| 0 <= i < ks.len() ==> key_ok(#[trigger] ks[i])
    &&& forall|i: int, j: int| 0 <= i < j < ks.len() ==> ks[i] != ks[j]
}

/// Writes to distinct keys each read back as written, where every key was
/// set by at most one line beforehand; keys set by at most one line stay so.
pub proof fn law_writes_read_back(
    lines: Seq<Seq<char>>,
    ks: Seq<Seq<char>>,
    vs: Seq<Option<Seq<char>>>,
)
    requires
        vs.len() == ks.len(),
        distinct_keys(ks),
        forall|i: int| 0 <= i < ks.len() ==> unique_key(lines, #[trigger] ks[i]),
    ensures
        forall|i: int|
            0 <= i < ks.len() ==> fm_lookup(apply_writes(lines, ks, vs), #[trigger] ks[i])
                == norm_opt(vs[i]),
        forall|k: Seq<char>|
            key_ok(k) && unique_key(lines, k) ==> unique_key(
                #[trigger] apply_writes(lines, ks, vs),
                k,
            ),
    decreases ks.len(),
{
    if ks.len() > 0 {
        let n = ks.len() - 1;
        let pk = ks.drop_last();
        let pv = vs.drop_last();
        assert forall|i: int| 0 <= i < pk.len() implies unique_key(lines, #[trigger] pk[i]) by {
            assert(pk[i] == ks[i]);
        }
        assert(distinct_keys(pk)) by {
            assert forall|i: int| 0 <= i < pk.len() implies key_ok(#[trigger] pk[i]) by {
                assert(pk[i] == ks[i]);
            }
        }
        law_writes_read_back(lines, pk, pv);
        let prev = apply_writes(lines, pk, pv);
        let k1 = ks[n];
        assert(key_ok(k1));
        assert(unique_key(prev, k1));
        law_write_then_read(prev, k1, vs[n]);
        assert forall|i: int| 0 <= i < ks.len() implies fm_lookup(
            apply_writes(lines, ks, vs),
            #[trigger] ks[i],
        ) == norm_opt(vs[i]) by {
            if i < n {
                assert(ks[i] == pk[i]);
                assert(key_ok(ks[i]));
                law_write_keeps_other_keys(prev, k1, ks[i], vs[n]);
            }
        }
        assert forall|k: Seq<char>| key_ok(k) && unique_key(lines, k) implies unique_key(
            #[trigger] apply_writes(lines, ks, vs),
            k,
        ) by {
            assert(unique_key(prev, k));
            if k == k1 {
                law_write_then_read(prev, k1, vs[n]);
            } else {
                law_write_keeps_other_keys(prev, k1, k, vs[n]);
            }
        }
    }
}

pub open spec fn theme_keys() -> Seq<Seq<char>> {
    seq![
        k_dark_bg(),
        k_dark_fg(),
        k_light_bg(),
        k_light_fg(),
        k_dark_accent(),
        k_light_accent(),
        k_font_header(),
        k_font_text(),
    ]
}

proof fn lemma_theme_keys_distinct()
    ensures
        distinct_keys(theme_keys()),
{
    lemma_keys_literal();
    reveal_strlit("color-dark-background");
    reveal_strlit("color-dark-foreground");
    reveal_strlit("color-light-background");
    reveal_strlit("color-light-foreground");
    reveal_strlit("color-dark-accent");
    reveal_strlit("color-light-accent");
    reveal_strlit("font-header");
    reveal_strlit("font-text");
    let ks = theme_keys();
    assert(k_dark_bg()[11] != k_dark_fg()[11]);
    assert(k_light_bg()[12] != k_light_fg()[12]);
    assert forall|i: int| 0 <= i < ks.len() implies key_ok(#[trigger] ks[i]) by {}
}

/// A derived ink reads back unchanged.
proof fn lemma_ink_clean(b: Seq<char>)
    ensures
        norm_opt(derived_fg(Some(b))) == derived_fg(Some(b)),
{
    let x = derive_fg(b);
    assert(x.len() == 7);
    lemma_trim_at(x, 0, 7);
    assert(x.subrange(0, 7) =~= x);
}

/// Setting a theme reads back through `theme_tokens`: the picked background,
/// accent and fonts as written, the dark foreground derived from the
/// background, the light scheme the swap of the dark one, the accent
/// mirrored — for a note where each theme key was set by at most one line.
pub proof fn law_theme_reads_back(
    lines: Seq<Seq<char>>,
    bg: Option<Seq<char>>,
    accent: Option<Seq<char>>,
    header: Option<Seq<char>>,
    text: Option<Seq<char>>,
)
    requires
        forall|i: int| 0 <= i < 8 ==> unique_key(lines, #[trigger] theme_keys()[i]),
    ensures
        ({
            let l = theme_set(lines, bg, accent, header, text);
            &&& fm_lookup(l, k_dark_bg()) == norm_opt(bg)
            &&& fm_lookup(l, k_dark_fg()) == derived_fg(bg)
            &&& fm_lookup(l, k_light_bg()) == derived_fg(bg)
            &&& fm_lookup(l, k_light_fg()) == norm_opt(bg)
            &&& fm_lookup(l, k_dark_accent()) == norm_opt(accent)
            &&& fm_lookup(l, k_light_accent()) == norm_opt(accent)
            &&& fm_lookup(l, k_font_header()) == norm_opt(header)
            &&& fm_lookup(l, k_font_text()) == norm_opt(text)
        }),
{
    lemma_theme_keys_distinct();
    let fg = derived_fg(bg);
    let ks = theme_keys();
    let vs = seq![bg, fg, fg, bg, accent, accent, header, text];
    law_writes_read_back(lines, ks, vs);
    reveal_with_fuel(apply_writes, 9);
    assert(ks.drop_last().drop_last().drop_last().drop_last().drop_last().drop_last().drop_last().drop_last() =~= Seq::<Seq<char>>::empty());
    assert(apply_writes(lines, ks, vs) == theme_set(lines, bg, accent, header, text)) by {
        assert(ks.drop_last() =~= seq![
            k_dark_bg(),
            k_dark_fg(),
            k_light_bg(),
            k_light_fg(),
            k_dark_accent(),
            k_light_accent(),
            k_font_header(),
        ]);
    }
    if let Some(b) = bg {
        lemma_ink_clean(b);
    }
    assert(fm_lookup(apply_writes(lines, ks, vs), ks[0]) == norm_opt(vs[0]));
    assert(fm_lookup(apply_writes(lines, ks, vs), ks[1]) == norm_opt(vs[1]));
    assert(fm_lookup(apply_writes(lines, ks, vs), ks[2]) == norm_opt(vs[2]));
    assert(fm_lookup(apply_writes(lines, ks, vs), ks[3]) == norm_opt(vs[3]));
    assert(fm_lookup(apply_writes(lines, ks, vs), ks[4]) == norm_opt(vs[4]));
    assert(fm_lookup(apply_writes(lines, ks, vs), ks[5]) == norm_opt(vs[5]));
    assert(fm_lookup(apply_writes(lines, ks, vs), ks[6]) == norm_opt(vs[6]));
    assert(fm_lookup(apply_writes(lines, ks, vs), ks[7]) == norm_opt(vs[7]));
}


/// Pinning reads back through `pinned` and `pinned-at`; unpinning clears
/// both — for a note where each was set by at most one line.
pub proof fn law_pin_reads_back(lines: Seq<Seq<char>>, pinned: bool, at: Option<Seq<char>>)
    requires
        unique_key(lines, k_pinned()),
        unique_key(lines, k_pinned_at()),
    ensures
        pinned ==> fm_lookup(pin_set(lines, pinned, at), k_pinned()) == Some(v_true()),
        pinned ==> fm_lookup(pin_set(lines, pinned, at), k_pinned_at()) == norm_opt(at),
        !pinned ==> fm_lookup(pin_set(lines, pinned, at), k_pinned()) is None,
        !pinned ==> fm_lookup(pin_set(lines, pinned, at), k_pinned_at()) is None,
{
    lemma_keys_literal();
    reveal_strlit("pinned");
    reveal_strlit("pinned-at");
    reveal_strlit("true");
    assert(k_pinned().len() != k_pinned_at().len());
    let ks = seq![k_pinned(), k_pinned_at()];
    let vs = if pinned {
        seq![Some(v_true()), at]
    } else {
        seq![None, None]
    };
    assert(distinct_keys(ks)) by {
        assert forall|i: int| 0 <= i < ks.len() implies key_ok(#[trigger] ks[i]) by {}
    }
    law_writes_read_back(lines, ks, vs);
    reveal_with_fuel(apply_writes, 3);
    assert(ks.drop_last() =~= seq![k_pinned()]);
    assert(ks.drop_last().drop_last() =~= Seq::<Seq<char>>::empty());
    assert(apply_writes(lines, ks, vs) == pin_set(lines, pinned, at));
    let t = v_true();
    lemma_trim_at(t, 0, 4);
    assert(t.subrange(0, 4) =~= t);
    assert(fm_lookup(apply_writes(lines, ks, vs), ks[0]) == norm_opt(vs[0]));
    assert(fm_lookup(apply_writes(lines, ks, vs), ks[1]) == norm_opt(vs[1]));
}

// ---------------------------------------------------------------------------
// What a saved note reads back as
// ---------------------------------------------------------------------------

/// `c` occurs nowhere in `s`.
pub open spec fn lacks(s: Seq<char>, c: char) -> bool {
    forall|i: int| 0 <= i < s.len() ==> s[i] != c
}

/// A single line: no newline in it, and no carriage return at its end
/// (which a newline written after it would turn into a line ending).
pub open spec fn one_line(l: Seq<char>) -> bool {
    lacks(l, '\n') && (l.len() == 0 || l.last() != '\r')
}

/// A frontmatter line that survives a save and a read: one line, not a
/// fence.
pub open spec fn savable_line(l: Seq<char>) -> bool {
    one_line(l) && !is_fence(l)
}

/// The text with a final newline, unless it is empty or has one.
pub open spec fn with_final_newline(b: Seq<char>) -> Seq<char> {
    if b.len() == 0 || ends_with(b, lf()) {
        b
    } else {
        b.push('\n')
    }
}

/// The body a saved note reads back with: the blank line after the fence,
/// then the body without its leading newlines, ending in a newline.
pub open spec fn reread_body(body: Seq<char>) -> Seq<char> {
    lf() + with_final_newline(drop_leading_newlines(body))
}

/// No carriage return stands right before a newline: line endings are
/// already plain newlines.
pub open spec fn lf_endings(s: Seq<char>) -> bool {
    forall|i: int| 0 <= i < s.len() - 1 ==> !(#[trigger] s[i] == '\r' && s[i + 1] == '\n')
}

/// Plain newline line endings, and no carriage return at the very end
/// (where a final newline would make one).
pub open spec fn plain_endings(s: Seq<char>) -> bool {
    lf_endings(s) && (s.len() == 0 || s.last() != '\r')
}

pub(crate) proof fn lemma_no_crlf(s: Seq<char>)
    requires
        lf_endings(s),
    ensures
        normalized(s) == s,
{
    lemma_find_from_bounds(s, crlf(), 0);
    if let Some(k) = find(s, crlf()) {
        assert(s.subrange(k, k + 2)[0] == s[k]);
        assert(s.subrange(k, k + 2)[1] == s[k + 1]);
    }
}

/// The line up to the first newline, then the rest.
proof fn lemma_lines_cons(l: Seq<char>, r: Seq<char>)
    requires
        one_line(l),
    ensures
        lines(l + lf() + r) == seq![l] + lines(r),
{
    let s = l + lf() + r;
    let n = l.len() as int;
    assert forall|k: int| 0 <= k < n implies !occurs_at(s, seq!['\n'], k) by {
        assert(s.subrange(k, k + 1)[0] == l[k]);
    }
    crate::text::lemma_find_from_skip(s, seq!['\n'], 0, n);
    assert(s.subrange(n, n + 1) =~= seq!['\n']);
    assert(index_of(s, '\n') == Some(n));
    assert(s.take(n) =~= l);
    assert(s.skip(n + 1) =~= r);
}

proof fn lemma_lines_join(ls: Seq<Seq<char>>, r: Seq<char>)
    requires
        ls.len() > 0,
        forall|i: int| 0 <= i < ls.len() ==> one_line(#[trigger] ls[i]),
    ensures
        lines(join(ls, lf()) + lf() + r) == ls + lines(r),
    decreases ls.len(),
{
    let last = ls.last();
    if ls.len() == 1 {
        assert(join(ls, lf()) == ls[0]);
        lemma_lines_cons(ls[0], r);
        assert(seq![ls[0]] + lines(r) =~= ls + lines(r));
    } else {
        let init = ls.drop_last();
        let r2 = last + lf() + r;
        assert forall|i: int| 0 <= i < init.len() implies one_line(#[trigger] init[i]) by {
            assert(init[i] == ls[i]);
        }
        lemma_lines_join(init, r2);
        lemma_lines_cons(last, r);
        assert(join(ls, lf()) + lf() + r =~= join(init, lf()) + lf() + r2);
        assert(init + (seq![last] + lines(r)) =~= ls + lines(r));
    }
}

proof fn lemma_terminated_cons(a: Seq<char>, rest: Seq<Seq<char>>, sep: Seq<char>)
    ensures
        terminated(seq![a] + rest, sep) == a + sep + terminated(rest, sep),
    decreases rest.len(),
{
    let whole = seq![a] + rest;
    if rest.len() == 0 {
        assert(whole =~= seq![a]);
        assert(whole.drop_last() =~= Seq::<Seq<char>>::empty());
        assert(terminated(whole, sep) == terminated(whole.drop_last(), sep) + whole.last() + sep);
        assert(terminated(whole, sep) =~= a + sep);
        assert(a + sep + terminated(rest, sep) =~= a + sep);
    } else {
        assert(whole.drop_last() =~= seq![a] + rest.drop_last());
        lemma_terminated_cons(a, rest.drop_last(), sep);
        assert(whole.last() == rest.last());
        assert(terminated(whole, sep) == terminated(whole.drop_last(), sep) + whole.last() + sep);
        assert(terminated(rest, sep) == terminated(rest.drop_last(), sep) + rest.last() + sep);
        assert(a + sep + terminated(rest, sep) =~= a + sep + terminated(rest.drop_last(), sep) + rest.last()
            + sep);
    }
}

/// Splitting a newline-terminated text into lines and terminating each
/// again gives the text back.
proof fn lemma_terminated_lines(s: Seq<char>)
    requires
        lf_endings(s),
        s.len() == 0 || s.last() == '\n',
    ensures
        terminated(lines(s), lf()) == s,
    decreases s.len(),
{
    if s.len() > 0 {
        lemma_find_from_bounds(s, seq!['\n'], 0);
        assert(occurs_at(s, seq!['\n'], s.len() - 1)) by {
            assert(s.subrange(s.len() - 1, s.len() as int) =~= seq!['\n']);
        }
        let i = index_of(s, '\n')->0;
        assert(s.subrange(i, i + 1)[0] == s[i]);
        let head = s.take(i);
        let tail = s.skip(i + 1);
        assert(drop_cr(head) == head) by {
            if head.len() > 0 {
                assert(head.last() == s[i - 1]);
                assert(!(s[i - 1] == '\r' && s[i] == '\n'));
            }
        }
        assert(lf_endings(tail)) by {
            assert forall|k: int| 0 <= k < tail.len() - 1 implies !(#[trigger] tail[k] == '\r' && tail[k + 1]
                == '\n') by {
                assert(tail[k] == s[i + 1 + k]);
                assert(tail[k + 1] == s[i + 2 + k]);
                assert(!(s[i + 1 + k] == '\r' && s[i + 1 + k + 1] == '\n'));
            }
        }
        if tail.len() > 0 {
            assert(tail.last() == s.last());
        }
        lemma_terminated_lines(tail);
        lemma_terminated_cons(head, lines(tail), lf());
        assert(s =~= head + lf() + tail);
    }
}

proof fn lemma_first_fence_at(ls: Seq<Seq<char>>, i: int, k: int)
    requires
        0 <= i <= k < ls.len(),
        forall|j: int| i <= j < k ==> !is_fence(#[trigger] ls[j]),
        is_fence(ls[k]),
    ensures
        first_fence_from(ls, i) == Some(k),
    decreases k - i,
{
    if i < k {
        lemma_first_fence_at(ls, i + 1, k);
    }
}

proof fn lemma_drop_leading_newlines_endings(s: Seq<char>)
    requires
        lf_endings(s),
    ensures
        lf_endings(drop_leading_newlines(s)),
        drop_leading_newlines(s).len() > 0 ==> drop_leading_newlines(s).last() == s.last(),
    decreases s.len(),
{
    if s.len() > 0 && s[0] == '\n' {
        let t = s.drop_first();
        assert forall|k: int| 0 <= k < t.len() - 1 implies !(#[trigger] t[k] == '\r' && t[k + 1] == '\n') by {
            assert(t[k] == s[k + 1] && t[k + 1] == s[k + 2]);
            assert(!(s[k + 1] == '\r' && s[k + 1 + 1] == '\n'));
        }
        lemma_drop_leading_newlines_endings(t);
        if t.len() > 0 {
            assert(t.last() == s.last());
        }
    }
}

/// A saved note reads back as it was: parsing the text `save` writes for
/// frontmatter lines (one or more, each a single line not ending in a
/// carriage return, none a fence) and a body whose line endings are plain
/// newlines (and that does not end in a carriage return) gives the same
/// lines, and the body after the blank line the writer puts below the
/// fence, without its leading newlines and ending in a newline.
pub proof fn law_saved_note_reads_back(fm: Seq<Seq<char>>, body: Seq<char>)
    requires
        fm.len() > 0,
        forall|i: int| 0 <= i < fm.len() ==> savable_line(#[trigger] fm[i]),
        plain_endings(body),
    ensures
        parsed(rendered(fm, body)) == (fm, reread_body(body)),
{
    let d = drop_leading_newlines(body);
    lemma_drop_leading_newlines_endings(body);
    let b2 = with_final_newline(d);
    let j = join(fm, lf());
    let fence_l = seq!['-', '-', '-'];
    let head = open_fence() + j + seq!['\n', '-', '-', '-', '\n', '\n'];
    let text = rendered(fm, body);
    // the text the writer produces is the head and the body with a final newline
    assert(text == head + b2) by {
        let out = head + d;
        assert(head.last() == '\n');
        if d.len() == 0 {
            assert(out =~= head);
            assert(out.subrange(out.len() - 1, out.len() as int) =~= lf());
        } else {
            assert(out.subrange(out.len() - 1, out.len() as int) =~= seq![out.last()]);
            assert(d.subrange(d.len() - 1, d.len() as int) =~= seq![d.last()]);
            assert(out.last() == d.last());
            if ends_with(d, lf()) {
                assert(ends_with(out, lf()));
            } else {
                assert(d.last() != '\n');
                assert(!ends_with(out, lf()));
                assert(out.push('\n') =~= head + d.push('\n'));
            }
        }
    }
    // the frontmatter has no carriage return, and the body no carriage
    // return before a newline, so nothing is folded
    lemma_join_endings(fm);
    assert(lf_endings(b2)) by {
        assert forall|k: int| 0 <= k < b2.len() - 1 implies !(#[trigger] b2[k] == '\r' && b2[k + 1] == '\n') by {
            if k + 1 < d.len() {
                assert(b2[k] == d[k] && b2[k + 1] == d[k + 1]);
            } else {
                assert(b2[k] == d[k]);
                assert(d[k] == d.last());
            }
        }
    }
    assert(lf_endings(text)) by {
        assert forall|k: int| 0 <= k < text.len() - 1 implies !(#[trigger] text[k] == '\r' && text[k + 1] == '\n') by {
            if k >= head.len() {
                assert(text[k] == b2[k - head.len()]);
                assert(text[k + 1] == b2[k + 1 - head.len()]);
            } else if 4 <= k < 4 + j.len() {
                assert(text[k] == j[k - 4]);
                if k + 1 < 4 + j.len() {
                    assert(text[k + 1] == j[k + 1 - 4]);
                } else {
                    assert(j[k - 4] == j.last());
                }
            }
        }
    }
    lemma_no_crlf(text);
    assert(text.subrange(0, 4) =~= open_fence());
    let rest = lf() + b2;
    assert(text.skip(4) =~= j + lf() + (fence_l + lf() + rest));
    assert forall|i: int| 0 <= i < fm.len() implies one_line(#[trigger] fm[i]) by {
        assert(savable_line(fm[i]));
    }
    lemma_lines_join(fm, fence_l + lf() + rest);
    lemma_lines_cons(fence_l, rest);
    let ls = lines(text.skip(4));
    assert(ls =~= fm + (seq![fence_l] + lines(rest)));
    assert(is_fence(fence_l));
    assert forall|i: int| 0 <= i < fm.len() implies !is_fence(#[trigger] ls[i]) by {
        assert(ls[i] == fm[i]);
        assert(savable_line(fm[i]));
    }
    lemma_first_fence_at(ls, 0, fm.len() as int);
    assert(ls.take(fm.len() as int) =~= fm);
    assert(ls.skip(fm.len() as int + 1) =~= lines(rest));
    assert(lf_endings(rest)) by {
        assert forall|k: int| 0 <= k < rest.len() - 1 implies !(#[trigger] rest[k] == '\r' && rest[k + 1] == '\n') by {
            if k > 0 {
                assert(rest[k] == b2[k - 1]);
                assert(rest[k + 1] == b2[k]);
            }
        }
    }
    assert(rest.last() == '\n') by {
        if b2.len() > 0 {
            assert(rest.last() == b2.last());
            if d.len() == 0 {
            } else if ends_with(d, lf()) {
                assert(d.subrange(d.len() - 1, d.len() as int)[0] == d.last());
            }
        }
    }
    lemma_terminated_lines(rest);
}

/// Lines joined by newlines have plain line endings, and do not end in a
/// carriage return.
proof fn lemma_join_endings(ls: Seq<Seq<char>>)
    requires
        forall|i: int| 0 <= i < ls.len() ==> savable_line(#[trigger] ls[i]),
    ensures
        lf_endings(join(ls, lf())),
        join(ls, lf()).len() == 0 || join(ls, lf()).last() != '\r',
    decreases ls.len(),
{
    if ls.len() == 1 {
        assert(savable_line(ls[0]));
        assert(join(ls, lf()) == ls[0]);
        let l = ls[0];
        assert forall|k: int| 0 <= k < l.len() - 1 implies !(#[trigger] l[k] == '\r' && l[k + 1] == '\n') by {}
    } else if ls.len() > 1 {
        let init = ls.drop_last();
        let a = join(init, lf());
        let l = ls.last();
        assert(savable_line(ls[ls.len() - 1]));
        assert forall|i: int| 0 <= i < init.len() implies savable_line(#[trigger] init[i]) by {
            assert(init[i] == ls[i]);
        }
        lemma_join_endings(init);
        let t = join(ls, lf());
        assert(t == a + lf() + l);
        assert forall|k: int| 0 <= k < t.len() - 1 implies !(#[trigger] t[k] == '\r' && t[k + 1] == '\n') by {
            if k + 1 < a.len() {
                assert(t[k] == a[k] && t[k + 1] == a[k + 1]);
            } else if k + 1 == a.len() {
                assert(t[k] == a.last());
            } else if k == a.len() {
                assert(t[k] == '\n');
            } else {
                assert(t[k + 1] == l[k + 1 - a.len() - 1]);
            }
        }
        if l.len() > 0 {
            assert(t.last() == l.last());
        } else {
            assert(t.last() == '\n');
        }
    }
}

proof fn lemma_lines_terminated(ps: Seq<Seq<char>>)
    requires
        forall|i: int| 0 <= i < ps.len() ==> one_line(#[trigger] ps[i]),
    ensures
        lines(terminated(ps, lf())) == ps,
    decreases ps.len(),
{
    if ps.len() > 0 {
        let rest = ps.skip(1);
        assert(ps =~= seq![ps[0]] + rest);
        assert(forall|i: int| 0 <= i < rest.len() ==> rest[i] == ps[i + 1]);
        lemma_lines_terminated(rest);
        lemma_terminated_cons(ps[0], rest, lf());
        assert(one_line(ps[0]));
        lemma_lines_cons(ps[0], terminated(rest, lf()));
    } else {
        assert(terminated(ps, lf()) =~= Seq::<char>::empty());
    }
}

proof fn lemma_terminated_is_join(ps: Seq<Seq<char>>)
    requires
        ps.len() > 0,
    ensures
        terminated(ps, lf()) == join(ps, lf()) + lf(),
    decreases ps.len(),
{
    if ps.len() == 1 {
        assert(ps.drop_last() =~= Seq::<Seq<char>>::empty());
        assert(terminated(ps.drop_last(), lf()) =~= Seq::<char>::empty());
        assert(ps.last() == ps[0]);
        assert(terminated(ps, lf()) =~= ps[0] + lf());
    } else {
        lemma_terminated_is_join(ps.drop_last());
        assert(terminated(ps, lf()) =~= join(ps, lf()) + lf());
    }
}

proof fn lemma_filter_keeps_all(ls: Seq<Seq<char>>, p: spec_fn(Seq<char>) -> bool)
    requires
        forall|i: int| 0 <= i < ls.len() ==> #[trigger] p(ls[i]),
    ensures
        ls.filter(p) == ls,
    decreases ls.len(),
{
    reveal(Seq::filter);
    if ls.len() > 0 {
        assert(forall|i: int| 0 <= i < ls.drop_last().len() ==> ls.drop_last()[i] == ls[i]);
        lemma_filter_keeps_all(ls.drop_last(), p);
        assert(p(ls[ls.len() - 1]));
        assert(ls.drop_last().push(ls.last()) =~= ls);
    }
}

proof fn lemma_embed_clean(stem: Seq<char>)
    requires
        lacks(stem, '\n'),
        lacks(stem, '\r'),
    ensures
        lacks(embed_of(stem), '\n'),
        lacks(embed_of(stem), '\r'),
        trim(embed_of(stem)) == embed_of(stem),
{
    let e = embed_of(stem);
    let n = stem.len() as int;
    assert forall|k: int| 0 <= k < e.len() implies e[k] != '\n' && e[k] != '\r' by {
        if 3 <= k < 3 + n {
            assert(e[k] == stem[k - 3]);
        }
    }
    assert(!is_ws(e[0]));
    assert(!is_ws(e[e.len() - 1]));
    lemma_trim_at(e, 0, e.len() as int);
    assert(e.subrange(0, e.len() as int) =~= e);
}

/// The lines of a body with the photo's embed appended: its own lines, then
/// the embed.
proof fn lemma_toggle_in(body: Seq<char>, stem: Seq<char>)
    requires
        lf_endings(body),
        body.len() > 0,
        body.last() == '\n',
        lacks(stem, '\n'),
        lacks(stem, '\r'),
        forall|i: int| 0 <= i < lines(body).len() ==> trim(#[trigger] lines(body)[i]) != embed_of(stem),
    ensures
        toggled_body(body, stem) == body + embed_of(stem) + lf(),
        lines(body + embed_of(stem) + lf()) == lines(body).push(embed_of(stem)),
        terminated(lines(body), lf()) == body,
{
    let e = embed_of(stem);
    let ls = lines(body);
    assert(ends_with(body, lf())) by {
        assert(body.subrange(body.len() - 1, body.len() as int) =~= lf());
    }
    lemma_terminated_lines(body);
    lemma_embed_clean(stem);
    assert(ls.push(e).drop_last() =~= ls);
    assert(terminated(ls.push(e), lf()) == body + e + lf());
    assert forall|i: int| 0 <= i < ls.push(e).len() implies one_line(#[trigger] ls.push(e)[i]) by {
        let l = ls.push(e)[i];
        if i < ls.len() {
            lemma_lines_clean(body, i);
        }
    }
    lemma_lines_terminated(ls.push(e));
}

/// A body with an embed line of the photo loses every such line.
proof fn lemma_toggle_out(b: Seq<char>, stem: Seq<char>, i: int)
    requires
        0 <= i < lines(b).len(),
        trim(lines(b)[i]) == embed_of(stem),
    ensures
        toggled_body(b, stem) == (if ends_with(join(lines(b).filter(not_embed(embed_of(stem))), lf()), lf()) {
            join(lines(b).filter(not_embed(embed_of(stem))), lf())
        } else {
            join(lines(b).filter(not_embed(embed_of(stem))), lf()).push('\n')
        }),
{
}

/// The lines kept when the embed just appended is toggled out again.
proof fn lemma_kept_lines(ls: Seq<Seq<char>>, e: Seq<char>)
    requires
        trim(e) == e,
        forall|i: int| 0 <= i < ls.len() ==> trim(#[trigger] ls[i]) != e,
    ensures
        ls.push(e).filter(not_embed(e)) == ls,
{
    reveal(Seq::filter);
    assert(ls.push(e).drop_last() =~= ls);
    assert(!not_embed(e)(ls.push(e).last()));
    assert forall|i: int| 0 <= i < ls.len() implies #[trigger] not_embed(e)(ls[i]) by {}
    lemma_filter_keeps_all(ls, not_embed(e));
}

/// Toggling a photo into a story and out again gives the body back. This
/// holds of a body that has no embed line of the photo yet, ends in a
/// newline but not in a blank line, and has plain line endings, for a stem
/// on one line.
#[verifier::spinoff_prover]
#[verifier::rlimit(30)]
pub proof fn law_toggle_twice_restores(body: Seq<char>, stem: Seq<char>)
    requires
        lf_endings(body),
        body.len() > 0,
        body.last() == '\n',
        body.len() >= 2 ==> body[body.len() - 2] != '\n',
        lacks(stem, '\n'),
        lacks(stem, '\r'),
        forall|i: int| 0 <= i < lines(body).len() ==> trim(#[trigger] lines(body)[i]) != embed_of(stem),
    ensures
        toggled_body(toggled_body(body, stem), stem) == body,
{
    let e = embed_of(stem);
    let ls = lines(body);
    lemma_toggle_in(body, stem);
    lemma_embed_clean(stem);
    let b2 = body + e + lf();
    assert(lines(b2)[ls.len() as int] == e);
    lemma_toggle_out(b2, stem, ls.len() as int);
    lemma_kept_lines(ls, e);
    assert(ls.len() > 0) by {
        if ls.len() == 0 {
            assert(terminated(ls, lf()) =~= Seq::<char>::empty());
        }
    }
    lemma_terminated_is_join(ls);
    let j = join(ls, lf());
    if ends_with(j, lf()) {
        assert(j[j.len() - 1] == j.subrange(j.len() - 1, j.len() as int)[0]);
        assert(body[body.len() - 2] == j[j.len() - 1]);
    } else {
        assert(j.push('\n') =~= j + lf());
    }
}

/// Pinning or unpinning a story changes no other key: every key but
/// `pinned` and `pinned-at` reads as it did.
pub proof fn law_pin_keeps_other_keys(lines: Seq<Seq<char>>, pinned: bool, at: Option<Seq<char>>, key: Seq<char>)
    requires
        key_ok(key),
        key != k_pinned(),
        key != k_pinned_at(),
    ensures
        fm_lookup(pin_set(lines, pinned, at), key) == fm_lookup(lines, key),
{
    lemma_keys_literal();
    let v1: Option<Seq<char>> = if pinned {
        Some(v_true())
    } else {
        None
    };
    let v2: Option<Seq<char>> = if pinned {
        at
    } else {
        None
    };
    law_write_keeps_other_keys(lines, k_pinned(), key, v1);
    law_write_keeps_other_keys(fm_set(lines, k_pinned(), v1), k_pinned_at(), key, v2);
}

/// Setting a story's theme changes no other key: every key outside the
/// eight theme keys reads as it did.
pub proof fn law_theme_keeps_other_keys(
    lines: Seq<Seq<char>>,
    bg: Option<Seq<char>>,
    accent: Option<Seq<char>>,
    header: Option<Seq<char>>,
    text: Option<Seq<char>>,
    key: Seq<char>,
)
    requires
        key_ok(key),
        !theme_keys().contains(key),
    ensures
        fm_lookup(theme_set(lines, bg, accent, header, text), key) == fm_lookup(lines, key),
{
    lemma_keys_literal();
    assert(theme_keys()[0] == k_dark_bg() && theme_keys()[1] == k_dark_fg() && theme_keys()[2] == k_light_bg()
        && theme_keys()[3] == k_light_fg() && theme_keys()[4] == k_dark_accent() && theme_keys()[5]
        == k_light_accent() && theme_keys()[6] == k_font_header() && theme_keys()[7] == k_font_text());
    let fg = derived_fg(bg);
    let l1 = fm_set(lines, k_dark_bg(), bg);
    let l2 = fm_set(l1, k_dark_fg(), fg);
    let l3 = fm_set(l2, k_light_bg(), fg);
    let l4 = fm_set(l3, k_light_fg(), bg);
    let l5 = fm_set(l4, k_dark_accent(), accent);
    let l6 = fm_set(l5, k_light_accent(), accent);
    let l7 = fm_set(l6, k_font_header(), header);
    law_write_keeps_other_keys(lines, k_dark_bg(), key, bg);
    law_write_keeps_other_keys(l1, k_dark_fg(), key, fg);
    law_write_keeps_other_keys(l2, k_light_bg(), key, fg);
    law_write_keeps_other_keys(l3, k_light_fg(), key, bg);
    law_write_keeps_other_keys(l4, k_dark_accent(), key, accent);
    law_write_keeps_other_keys(l5, k_light_accent(), key, accent);
    law_write_keeps_other_keys(l6, k_font_header(), key, header);
    law_write_keeps_other_keys(l7, k_font_text(), key, text);
}

/// Every embed the scan for stems meets is closed: reading a text's stems
/// runs to its end.
pub open spec fn embeds_closed(rest: Seq<char>) -> bool
    decreases rest.len(),
{
    match find(rest, embed_open()) {
        Some(st) => if 0 <= st && st + 3 <= rest.len() {
            let r2 = rest.skip(st + 3);
            match find(r2, embed_close()) {
                Some(e) => if 0 <= e && e + 2 <= r2.len() {
                    embeds_closed(r2.skip(e + 2))
                } else {
                    false
                },
                None => false,
            }
        } else {
            false
        },
        None => true,
    }
}

/// The first occurrence of `p` in `x`, where there is one, is its first in
/// `x` followed by anything.
proof fn lemma_find_in_prefix(x: Seq<char>, y: Seq<char>, p: Seq<char>)
    requires
        find(x, p) is Some,
    ensures
        find(x + y, p) == find(x, p),
{
    lemma_find_from_bounds(x, p, 0);
    let k = find(x, p)->0;
    let s = x + y;
    assert forall|j: int| 0 <= j < k implies !occurs_at(s, p, j) by {
        assert(!occurs_at(x, p, j));
        if occurs_at(s, p, j) {
            assert(s.subrange(j, j + p.len()) =~= x.subrange(j, j + p.len()));
        }
    }
    assert(s.subrange(k, k + p.len()) =~= x.subrange(k, k + p.len()));
    crate::text::lemma_find_from_skip(s, p, 0, k);
}

/// Where `x` holds no embed opening and `y` does not start with `[`, the
/// first embed opening in `x` followed by `y` is the first in `y`.
proof fn lemma_find_open_after(x: Seq<char>, y: Seq<char>)
    requires
        find(x, embed_open()) is None,
        y.len() == 0 || y[0] != '[',
    ensures
        find(x + y, embed_open()) == (match find(y, embed_open()) {
            Some(k) => Some(k + x.len()),
            None => None,
        }),
{
    let p = embed_open();
    let s = x + y;
    lemma_find_from_bounds(x, p, 0);
    assert forall|j: int| 0 <= j < x.len() implies !occurs_at(s, p, j) by {
        if occurs_at(s, p, j) {
            if j + 3 <= x.len() {
                assert(s.subrange(j, j + 3) =~= x.subrange(j, j + 3));
                assert(!occurs_at(x, p, j));
            } else {
                let q = s.subrange(j, j + 3);
                assert(q == p);
                assert(q[x.len() - j] == s[x.len() as int]);
                assert(s[x.len() as int] == y[0]);
                assert(p[1] == '[' && p[2] == '[');
                assert(q[x.len() - j] == '[');
                assert(false);
            }
        }
    }
    crate::text::lemma_find_from_skip(s, p, 0, x.len() as int);
    crate::text::lemma_find_from_shift(s, p, x.len() as int, x.len() as int);
    assert(s.skip(x.len() as int) =~= y);
}

/// Reading the stems of a text whose embeds are all closed, then of what
/// follows it (where that does not start with `[`), reads them in turn.
proof fn lemma_stems_concat(b: Seq<char>, t: Seq<char>)
    requires
        embeds_closed(b),
        t.len() == 0 || t[0] != '[',
    ensures
        stems_in(b + t) == stems_in(b) + stems_in(t),
    decreases b.len(),
{
    let s = b + t;
    match find(b, embed_open()) {
        Some(st) => {
            lemma_find_from_bounds(b, embed_open(), 0);
            lemma_find_in_prefix(b, t, embed_open());
            let r2 = b.skip(st + 3);
            assert(s.skip(st + 3) =~= r2 + t);
            let e = find(r2, embed_close())->0;
            lemma_find_from_bounds(r2, embed_close(), 0);
            lemma_find_in_prefix(r2, t, embed_close());
            assert((r2 + t).take(e) =~= r2.take(e));
            assert((r2 + t).skip(e + 2) =~= r2.skip(e + 2) + t);
            lemma_stems_concat(r2.skip(e + 2), t);
            match stem_of(link_of(r2.take(e))) {
                Some(x) => {
                    assert(seq![x] + (stems_in(r2.skip(e + 2)) + stems_in(t)) =~= seq![x] + stems_in(
                        r2.skip(e + 2),
                    ) + stems_in(t));
                },
                None => {},
            }
        },
        None => {
            lemma_find_open_after(b, t);
            assert(stems_in(b) =~= Seq::<Seq<char>>::empty());
            match find(t, embed_open()) {
                Some(k) => {
                    lemma_find_from_bounds(t, embed_open(), 0);
                    assert(s.skip(k + b.len() + 3) =~= t.skip(k + 3));
                },
                None => {},
            }
            assert(stems_in(b) + stems_in(t) =~= stems_in(t));
        },
    }
}

/// The stems of an embed of a one-name stem followed by any text: its own,
/// then the text's.
proof fn lemma_stems_embed_then(stem: Seq<char>, t: Seq<char>)
    requires
        lacks(stem, ']'),
        lacks(stem, '|'),
        stem.len() == 0 || !is_ws(stem[0]),
    ensures
        stems_in(embed_of(stem) + t) == seq![stem] + stems_in(t),
{
    let e = embed_of(stem);
    let whole = e + t;
    let n = stem.len() as int;
    assert(occurs_at(whole, embed_open(), 0)) by {
        assert(whole.subrange(0, 3) =~= embed_open());
    }
    assert(find(whole, embed_open()) == Some(0int));
    let r2 = whole.skip(3);
    let link = stem + jpg_ext();
    assert(r2 =~= link + embed_close() + t);
    assert forall|j: int| 0 <= j < n + 4 implies !occurs_at(r2, embed_close(), j) by {
        if occurs_at(r2, embed_close(), j) {
            assert(r2.subrange(j, j + 2)[0] == r2[j]);
            if j < n {
                assert(r2[j] == stem[j]);
            }
        }
    }
    assert(occurs_at(r2, embed_close(), n + 4)) by {
        assert(r2.subrange(n + 4, n + 6) =~= embed_close());
    }
    crate::text::lemma_find_from_skip(r2, embed_close(), 0, n + 4);
    assert(find(r2, embed_close()) == Some(n + 4));
    assert(r2.take(n + 4) =~= link);
    // the link has no caption and nothing to trim
    lemma_find_from_bounds(link, seq!['|'], 0);
    assert forall|j: int| 0 <= j < link.len() implies !occurs_at(link, seq!['|'], j) by {
        if occurs_at(link, seq!['|'], j) {
            assert(link.subrange(j, j + 1)[0] == link[j]);
            if j < n {
                assert(link[j] == stem[j]);
            }
        }
    }
    crate::text::lemma_find_from_skip(link, seq!['|'], 0, link.len() as int);
    assert(index_of(link, '|') is None);
    assert(!is_ws(link[link.len() - 1]));
    if n > 0 {
        assert(link[0] == stem[0]);
    } else {
        assert(!is_ws(link[0]));
    }
    lemma_trim_at(link, 0, link.len() as int);
    assert(link.subrange(0, link.len() as int) =~= link);
    assert(link_of(link) == link);
    assert(link.subrange(link.len() - 4, link.len() as int) =~= jpg_ext());
    assert(link.take(link.len() - 4) =~= stem);
    assert(stem_of(link) == Some(stem));
    assert(r2.skip(n + 4 + 2) =~= t);
}

/// The stems of a lone embed line: its own.
proof fn lemma_stems_of_embed_line(stem: Seq<char>)
    requires
        lacks(stem, ']'),
        lacks(stem, '|'),
        stem.len() == 0 || !is_ws(stem[0]),
    ensures
        stems_in(embed_of(stem) + lf()) == seq![stem],
{
    lemma_stems_embed_then(stem, lf());
    assert(find(lf(), embed_open()) is None) by {
        lemma_find_from_bounds(lf(), embed_open(), 0);
    }
    assert(stems_in(lf()) =~= Seq::<Seq<char>>::empty());
    assert(seq![stem] + Seq::<Seq<char>>::empty() =~= seq![stem]);
}

/// Text without a `!` before another text adds no stems to it.
proof fn lemma_stems_skip_plain(w: Seq<char>, t: Seq<char>)
    requires
        forall|i: int| 0 <= i < w.len() ==> w[i] != '!',
    ensures
        stems_in(w + t) == stems_in(t),
{
    let s = w + t;
    let p = embed_open();
    assert forall|j: int| 0 <= j < w.len() implies !occurs_at(s, p, j) by {
        if occurs_at(s, p, j) {
            assert(s.subrange(j, j + 3)[0] == s[j]);
            assert(s[j] == w[j]);
        }
    }
    crate::text::lemma_find_from_skip(s, p, 0, w.len() as int);
    crate::text::lemma_find_from_shift(s, p, w.len() as int, w.len() as int);
    assert(s.skip(w.len() as int) =~= t);
    match find(t, p) {
        Some(k) => {
            lemma_find_from_bounds(t, p, 0);
            assert(s.skip(k + w.len() + 3) =~= t.skip(k + 3));
        },
        None => {},
    }
}

/// The stems of a text's lines, read line by line.
pub open spec fn stems_of_lines(ls: Seq<Seq<char>>) -> Seq<Seq<char>>
    decreases ls.len(),
{
    if ls.len() == 0 {
        Seq::empty()
    } else {
        stems_in(ls[0]) + stems_of_lines(ls.skip(1))
    }
}

proof fn lemma_stems_of_lines_push(ls: Seq<Seq<char>>, l: Seq<char>)
    ensures
        stems_of_lines(ls.push(l)) == stems_of_lines(ls) + stems_in(l),
    decreases ls.len(),
{
    if ls.len() == 0 {
        assert(ls.push(l).skip(1) =~= Seq::<Seq<char>>::empty());
        assert(stems_of_lines(Seq::<Seq<char>>::empty()) =~= Seq::<Seq<char>>::empty());
        assert(stems_in(l) + Seq::<Seq<char>>::empty() =~= stems_in(l));
    } else {
        lemma_stems_of_lines_push(ls.skip(1), l);
        assert(ls.push(l).skip(1) =~= ls.skip(1).push(l));
        assert(ls.push(l)[0] == ls[0]);
    }
}

/// Reading a text made of closed lines, each ending in a newline, reads
/// each line's stems in turn.
proof fn lemma_stems_terminated(ls: Seq<Seq<char>>)
    requires
        forall|i: int| 0 <= i < ls.len() ==> embeds_closed(#[trigger] ls[i]),
    ensures
        stems_in(terminated(ls, lf())) == stems_of_lines(ls),
    decreases ls.len(),
{
    if ls.len() == 0 {
        assert(terminated(ls, lf()) =~= Seq::<char>::empty());
        assert(find(Seq::<char>::empty(), embed_open()) is None);
    } else {
        let rest = ls.skip(1);
        assert(ls =~= seq![ls[0]] + rest);
        assert forall|i: int| 0 <= i < rest.len() implies embeds_closed(#[trigger] rest[i]) by {
            assert(rest[i] == ls[i + 1]);
        }
        lemma_stems_terminated(rest);
        lemma_terminated_cons(ls[0], rest, lf());
        let t = terminated(rest, lf());
        assert(ls[0] + lf() + t =~= ls[0] + (lf() + t));
        lemma_stems_concat(ls[0], lf() + t);
        lemma_stems_skip_plain(lf(), t);
    }
}

/// A line that trims to a one-name stem's embed has that stem alone.
proof fn lemma_embed_line_stems(l: Seq<char>, stem: Seq<char>)
    requires
        trim(l) == embed_of(stem),
        lacks(stem, ']'),
        lacks(stem, '|'),
        stem.len() == 0 || !is_ws(stem[0]),
    ensures
        stems_in(l) == seq![stem],
{
    let (lo, hi) = lemma_trim_bounds(l);
    let e = embed_of(stem);
    let lead = l.take(lo);
    let trail = l.skip(hi);
    assert(l =~= lead + (e + trail));
    assert forall|i: int| 0 <= i < lead.len() implies lead[i] != '!' by {
        assert(is_ws(l[i]));
    }
    assert forall|i: int| 0 <= i < trail.len() implies trail[i] != '!' by {
        assert(is_ws(l[hi + i]));
    }
    lemma_stems_skip_plain(lead, e + trail);
    lemma_stems_embed_then(stem, trail);
    lemma_stems_skip_plain(trail, Seq::empty());
    assert(trail + Seq::<char>::empty() =~= trail);
    assert(find(Seq::<char>::empty(), embed_open()) is None);
    assert(seq![stem] + Seq::<Seq<char>>::empty() =~= seq![stem]);
}

proof fn lemma_filter_single(a: Seq<char>, p: spec_fn(Seq<char>) -> bool)
    ensures
        seq![a].filter(p) == (if p(a) {
            seq![a]
        } else {
            Seq::<Seq<char>>::empty()
        }),
{
    reveal(Seq::filter);
    let none = Seq::<Seq<char>>::empty();
    assert(none.filter(p) =~= none);
    assert(seq![a].drop_last() == none);
    assert(seq![a].last() == a);
    assert(none.push(a) =~= seq![a]);
}

/// Dropping a stem's embed lines from the lines drops that stem, and only
/// it, from their stems.
#[verifier::spinoff_prover]
proof fn lemma_stems_filtered(ls: Seq<Seq<char>>, stem: Seq<char>)
    requires
        lacks(stem, ']'),
        lacks(stem, '|'),
        stem.len() == 0 || !is_ws(stem[0]),
        forall|i: int|
            0 <= i < ls.len() && trim(#[trigger] ls[i]) != embed_of(stem) ==> !stems_in(ls[i]).contains(stem),
    ensures
        stems_of_lines(ls.filter(not_embed(embed_of(stem)))) == stems_of_lines(ls).filter(
            |x: Seq<char>| x != stem,
        ),
    decreases ls.len(),
{
    let e = embed_of(stem);
    let q = |x: Seq<char>| x != stem;
    if ls.len() == 0 {
        reveal(Seq::filter);
        assert(ls.filter(not_embed(e)) =~= ls);
        assert(stems_of_lines(ls) =~= Seq::<Seq<char>>::empty());
        assert(stems_of_lines(ls).filter(q) =~= stems_of_lines(ls));
    } else {
        let l = ls[0];
        let rest = ls.skip(1);
        assert(ls =~= seq![l] + rest);
        assert forall|i: int| 0 <= i < rest.len() && trim(#[trigger] rest[i]) != e implies !stems_in(rest[i]).contains(stem) by {
            assert(rest[i] == ls[i + 1]);
        }
        lemma_stems_filtered(rest, stem);
        Seq::filter_distributes_over_add(seq![l], rest, not_embed(e));
        Seq::filter_distributes_over_add(stems_in(l), stems_of_lines(rest), q);
        lemma_filter_single(l, not_embed(e));
        if trim(l) == e {
            lemma_embed_line_stems(l, stem);
            lemma_filter_single(stem, q);
            assert(!not_embed(e)(l));
            assert(!q(stem));
            assert(Seq::<Seq<char>>::empty() + rest.filter(not_embed(e)) =~= rest.filter(not_embed(e)));
        } else {
            assert(not_embed(e)(l));
            assert forall|i: int| 0 <= i < stems_in(l).len() implies #[trigger] q(stems_in(l)[i]) by {
                assert(stems_in(l).contains(stems_in(l)[i]));
            }
            lemma_filter_keeps_all(stems_in(l), q);
            let f = rest.filter(not_embed(e));
            assert((seq![l] + f)[0] == l);
            assert((seq![l] + f).skip(1) =~= f);
        }
        assert(stems_of_lines(seq![l] + rest) == stems_in(l) + stems_of_lines(rest)) by {
            assert((seq![l] + rest).skip(1) =~= rest);
        }
    }
}

/// Toggling a photo out of a story removes its stem, every copy of it, and
/// keeps the other stems in their order: for a body with plain line
/// endings, ending in a newline, whose lines each close their embeds and
/// name the photo only in lines that are its embed, and a stem that is one
/// name (no `]`, `|`, not starting with whitespace).
pub proof fn law_toggle_out_removes_stem(body: Seq<char>, stem: Seq<char>)
    requires
        lf_endings(body),
        body.len() > 0,
        body.last() == '\n',
        lacks(stem, ']'),
        lacks(stem, '|'),
        stem.len() == 0 || !is_ws(stem[0]),
        forall|i: int| 0 <= i < lines(body).len() ==> embeds_closed(#[trigger] lines(body)[i]),
        forall|i: int|
            0 <= i < lines(body).len() && trim(#[trigger] lines(body)[i]) != embed_of(stem) ==> !stems_in(
                lines(body)[i],
            ).contains(stem),
        exists|i: int| 0 <= i < lines(body).len() && trim(#[trigger] lines(body)[i]) == embed_of(stem),
    ensures
        stems_in(toggled_body(body, stem)) == stems_in(body).filter(|x: Seq<char>| x != stem),
{
    let e = embed_of(stem);
    let ls = lines(body);
    let f = ls.filter(not_embed(e));
    let i0 = choose|i: int| 0 <= i < ls.len() && trim(#[trigger] ls[i]) == e;
    lemma_toggle_out(body, stem, i0);
    lemma_terminated_lines(body);
    lemma_stems_terminated(ls);
    lemma_stems_filtered(ls, stem);
    // the kept lines are lines of the body: closed, without newlines
    assert forall|k: int| 0 <= k < f.len() implies embeds_closed(#[trigger] f[k]) && lacks(f[k], '\n') by {
        assert(f.contains(f[k]));
        ls.lemma_filter_contains_rev(not_embed(e), f[k]);
        let m = choose|m: int| 0 <= m < ls.len() && ls[m] == f[k];
        lemma_lines_no_lf(body, m);
    }
    let j = join(f, lf());
    if f.len() == 0 {
        assert(j =~= Seq::<char>::empty());
        assert(toggled_body(body, stem) =~= lf());
        assert(find(lf(), embed_open()) is None) by {
            lemma_find_from_bounds(lf(), embed_open(), 0);
        }
        assert(stems_of_lines(f) =~= Seq::<Seq<char>>::empty());
    } else {
        lemma_terminated_is_join(f);
        if ends_with(j, lf()) {
            let last = f.last();
            if f.len() == 1 {
                assert(j == f[0]);
                assert(j[j.len() - 1] == j.subrange(j.len() - 1, j.len() as int)[0]);
                assert(false);
            }
            let init = f.drop_last();
            assert(j == join(init, lf()) + lf() + last);
            if last.len() > 0 {
                assert(j[j.len() - 1] == last[last.len() - 1]);
                assert(j[j.len() - 1] == j.subrange(j.len() - 1, j.len() as int)[0]);
                assert(false);
            }
            assert(last =~= Seq::<char>::empty());
            lemma_terminated_is_join(init);
            assert(j =~= terminated(init, lf()));
            assert forall|k: int| 0 <= k < init.len() implies embeds_closed(#[trigger] init[k]) by {
                assert(init[k] == f[k]);
            }
            lemma_stems_terminated(init);
            assert(f =~= init.push(last));
            lemma_stems_of_lines_push(init, last);
            assert(find(Seq::<char>::empty(), embed_open()) is None);
            assert(stems_in(last) =~= Seq::<Seq<char>>::empty());
            assert(stems_of_lines(init) + Seq::<Seq<char>>::empty() =~= stems_of_lines(init));
        } else {
            assert(j.push('\n') =~= j + lf());
            lemma_stems_terminated(f);
        }
    }
}

/// Toggling a photo into a story adds its stem to the end of the story's
/// stems: for a body with no embed line of the photo yet, whose embeds are
/// all closed, and a stem that is one name (no `]`, `|` or newline, not
/// starting with whitespace).
pub proof fn law_toggle_in_appends_stem(body: Seq<char>, stem: Seq<char>)
    requires
        embeds_closed(body),
        lacks(stem, ']'),
        lacks(stem, '|'),
        stem.len() == 0 || !is_ws(stem[0]),
        forall|i: int| 0 <= i < lines(body).len() ==> trim(#[trigger] lines(body)[i]) != embed_of(stem),
    ensures
        stems_in(toggled_body(body, stem)) == stems_in(body).push(stem),
{
    let e = embed_of(stem);
    lemma_stems_of_embed_line(stem);
    if ends_with(body, lf()) {
        assert(toggled_body(body, stem) =~= body + (e + lf()));
        assert((e + lf())[0] == '!');
        lemma_stems_concat(body, e + lf());
    } else {
        let t = lf() + (e + lf());
        assert(toggled_body(body, stem) =~= body + t);
        lemma_stems_concat(lf(), e + lf());
        assert(find(lf(), embed_open()) is None);
        assert(embeds_closed(lf()));
        assert(stems_in(lf()) =~= Seq::<Seq<char>>::empty());
        assert(lf() + (e + lf()) =~= t);
        lemma_stems_concat(body, t);
    }
    assert(stems_in(body) + seq![stem] =~= stems_in(body).push(stem));
}

} // verus!
