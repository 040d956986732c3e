//! Publishing a story: the title and body of a story note, and the body
//! rendered as the HTML page a local export writes.
use vstd::prelude::*;
use crate::paths::{file_name_of, join_path, path_file_name, path_join};
use crate::story::{lacks, lemma_no_crlf, lf_endings, link_exec, link_of, normalized, open_fence};
use crate::text::{
    append, chars_of, copy_range, ends_with, find, is_ws, lemma_trim_at, find_exec, find_from_exec, lemma_find_from_bounds,
    lemma_find_from_shift, lines, lines_exec, occurs_at, eq_exec, replace, replace_exec, starts_with,
    starts_with_exec, str_views, strip_prefix, strip_suffix, string_of, trim, trim_exec, views,
    ends_with_exec,
};

verus! {

/// Appends the characters of a string slice.
fn push_text(out: &mut Vec<char>, s: &str)
    ensures
        final(out)@ == old(out)@ + s@,
{
    let c = chars_of(s);
    append(out, &c);
}

// ---------------------------------------------------------------------------
// Title and body
// ---------------------------------------------------------------------------

/// `str::trim_matches(c)`.
pub open spec fn trim_char(s: Seq<char>, c: char) -> Seq<char>
    decreases s.len(),
{
    if s.len() > 0 && s[0] == c {
        trim_char(s.drop_first(), c)
    } else if s.len() > 0 && s.last() == c {
        trim_char(s.drop_last(), c)
    } else {
        s
    }
}

/// A title value: trimmed, then double and single quotes stripped from
/// both ends.
pub open spec fn title_value(rest: Seq<char>) -> Seq<char> {
    trim_char(trim_char(trim(rest), '"'), '\'')
}

/// The title the frontmatter lines set (the last `title:` line wins), or
/// `default`.
pub open spec fn title_from(ls: Seq<Seq<char>>, default: Seq<char>) -> Seq<char>
    decreases ls.len(),
{
    if ls.len() == 0 {
        default
    } else {
        match strip_prefix(ls.last(), "title:"@) {
            Some(rest) => title_value(rest),
            None => title_from(ls.drop_last(), default),
        }
    }
}

/// A story note's title and body: the frontmatter runs from after the
/// opening `---` to the first `\n---`; the body starts after that closing
/// fence. Without frontmatter the whole text is body and the title is the
/// folder's name.
pub open spec fn story_parts(raw: Seq<char>, folder: Seq<char>) -> (Seq<char>, Seq<char>) {
    let text = normalized(raw);
    if starts_with(text, open_fence()) {
        let after = text.skip(4);
        match find(after, "\n---"@) {
            Some(e) => if 0 <= e && 4 + e + 4 <= text.len() {
                (title_from(lines(after.take(e)), folder), text.skip(4 + e + 4))
            } else {
                (folder, text)
            },
            None => (folder, text),
        }
    } else {
        (folder, text)
    }
}

fn trim_char_exec(s: &[char], c: char) -> (r: Vec<char>)
    ensures
        r@ == trim_char(s@, c),
{
    let mut lo: usize = 0;
    let mut hi: usize = s.len();
    assert(s@.subrange(0, s@.len() as int) =~= s@);
    while lo < hi && (s[lo] == c || s[hi - 1] == c)
        invariant
            lo <= hi <= s@.len(),
            trim_char(s@, c) == trim_char(s@.subrange(lo as int, hi as int), c),
        decreases hi - lo,
    {
        if s[lo] == c {
            assert(s@.subrange(lo as int, hi as int).drop_first() =~= s@.subrange(lo + 1, hi as int));
            lo += 1;
        } else {
            assert(s@.subrange(lo as int, hi as int).drop_last() =~= s@.subrange(lo as int, hi - 1));
            hi -= 1;
        }
    }
    copy_range(s, lo, hi)
}

/// The title and body of a story note in `dir`.
pub fn parse_markdown_story(raw: &str, dir: &str) -> (r: (String, String))
    ensures
        (r.0@, r.1@) == story_parts(raw@, path_file_name(dir@)),
{
    let folder = file_name_of(dir);
    let raw_c = chars_of(raw);
    let crlf: [char; 2] = ['\r', '\n'];
    let lf: [char; 1] = ['\n'];
    let open: [char; 4] = ['-', '-', '-', '\n'];
    assert(crlf@ =~= seq!['\r', '\n']);
    assert(lf@ =~= seq!['\n']);
    assert(open@ =~= open_fence());
    let text = replace_exec(&raw_c, &crlf, &lf);
    if !starts_with_exec(&text, &open) {
        return (folder, string_of(&text));
    }
    let after = copy_range(&text, 4, text.len());
    assert(after@ =~= text@.skip(4));
    let close = chars_of("\n---");
    let e = match find_exec(&after, &close) {
        Some(e) => e,
        None => {
            return (folder, string_of(&text));
        },
    };
    proof {
        lemma_find_from_bounds(after@, close@, 0);
    }
    assert(occurs_at(after@, close@, e as int));
    let fm = copy_range(&after, 0, e);
    assert(fm@ =~= after@.take(e as int));
    let ls = lines_exec(&fm);
    let ghost lv = views(ls@);
    let mut title: Vec<char> = chars_of(folder.as_str());
    let mut k: usize = 0;
    let prefix = chars_of("title:");
    assert(lv.take(0) =~= Seq::<Seq<char>>::empty());
    while k < ls.len()
        invariant
            k <= ls@.len(),
            lv == views(ls@),
            prefix@ == "title:"@,
            title@ == title_from(lv.take(k as int), folder@),
        decreases ls@.len() - k,
    {
        let line = ls[k].as_slice();
        assert(lv.take(k + 1).drop_last() =~= lv.take(k as int));
        assert(lv.take(k + 1).last() == line@);
        if starts_with_exec(line, &prefix) {
            let rest = copy_range(line, prefix.len(), line.len());
            assert(rest@ =~= line@.skip(prefix@.len() as int));
            let t = trim_exec(&rest);
            let t2 = trim_char_exec(&t, '"');
            title = trim_char_exec(&t2, '\'');
        }
        k += 1;
    }
    assert(lv.take(ls@.len() as int) =~= lv);
    assert(close@.len() == 4) by {
        reveal_strlit("\n---");
    }
    let body = copy_range(&text, 4 + e + 4, text.len());
    assert(body@ =~= text@.skip(4 + e + 4));
    (string_of(&title), string_of(&body))
}

/// A value wrapped in `c` on both sides loses exactly that wrapping, when
/// its own ends are not `c`.
proof fn lemma_trim_char_wrapped(t: Seq<char>, c: char)
    requires
        t.len() == 0 || (t[0] != c && t.last() != c),
    ensures
        trim_char(seq![c] + t + seq![c], c) == t,
        trim_char(t, c) == t,
{
    let w = seq![c] + t + seq![c];
    assert(w[0] == c);
    assert(w.drop_first() =~= t + seq![c]);
    let u = t + seq![c];
    assert(u.last() == c);
    assert(u.drop_last() =~= t);
    assert(trim_char(t, c) == t);
    if t.len() > 0 {
        assert(u[0] == t[0]);
        assert(trim_char(u, c) == trim_char(t, c));
    } else {
        assert(u.drop_first() =~= t);
        assert(trim_char(u, c) == trim_char(t, c));
    }
    assert(trim_char(w, c) == trim_char(u, c));
}

/// The value of a `title:` line holding `'t'` (or `"t"`) after one space.
proof fn lemma_quoted_value(t: Seq<char>, q: char)
    requires
        q == '\'' || q == '"',
        t.len() == 0 || (t[0] != '\'' && t[0] != '"' && t.last() != '\'' && t.last() != '"'),
    ensures
        title_value(seq![' ', q] + t + seq![q]) == t,
{
    let v = seq![' ', q] + t + seq![q];
    assert(is_ws(v[0]));
    assert(v[1] == q);
    assert(v[v.len() - 1] == q);
    lemma_trim_at(v, 1, v.len() as int);
    assert(v.subrange(1, v.len() as int) =~= seq![q] + t + seq![q]);
    lemma_trim_char_wrapped(t, '"');
    lemma_trim_char_wrapped(t, '\'');
    let w = seq![q] + t + seq![q];
    if q == '\'' {
        assert(w[0] != '"' && w.last() != '"');
        assert(trim_char(w, '"') == w);
    }
}

/// A `title:` line whose value is wrapped in single quotes gives that value
/// without them, and one wrapped in double quotes likewise; being the last
/// `title:` line, it wins over every line before it. For every value whose
/// own ends are not quotes.
pub proof fn law_quoted_title_read_without_quotes(ls: Seq<Seq<char>>, t: Seq<char>, default: Seq<char>)
    requires
        t.len() == 0 || (t[0] != '\'' && t[0] != '"' && t.last() != '\'' && t.last() != '"'),
    ensures
        title_from(ls.push("title: '"@ + t + "'"@), default) == t,
        title_from(ls.push("title: \""@ + t + "\""@), default) == t,
{
    reveal_strlit("title:");
    reveal_strlit("title: '");
    reveal_strlit("'");
    reveal_strlit("title: \"");
    reveal_strlit("\"");
    let l1 = "title: '"@ + t + "'"@;
    assert(l1.subrange(0, 6) =~= "title:"@);
    assert(l1.skip(6) =~= seq![' ', '\''] + t + seq!['\'']);
    assert(ls.push(l1).last() == l1);
    lemma_quoted_value(t, '\'');
    let l2 = "title: \""@ + t + "\""@;
    assert(l2.subrange(0, 6) =~= "title:"@);
    assert(l2.skip(6) =~= seq![' ', '"'] + t + seq!['"']);
    assert(ls.push(l2).last() == l2);
    lemma_quoted_value(t, '"');
}

/// A line with no newline in it is one line.
proof fn lemma_lines_single(l: Seq<char>)
    requires
        l.len() > 0,
        lacks(l, '\n'),
    ensures
        lines(l) == seq![l],
{
    lemma_find_from_bounds(l, seq!['\n'], 0);
    if let Some(k) = find(l, seq!['\n']) {
        assert(l.subrange(k, k + 1)[0] == l[k]);
    }
}

/// A story note whose frontmatter is the one line `title: 'T'` is read with
/// title T, without the quotes, and with the text after the closing fence
/// as its body: for every one-line value whose own ends are not quotes,
/// every body with plain newline endings, and every folder.
#[verifier::spinoff_prover]
pub proof fn law_story_quoted_title(t: Seq<char>, body: Seq<char>, folder: Seq<char>)
    requires
        lacks(t, '\n'),
        lacks(t, '\r'),
        t.len() == 0 || (t[0] != '\'' && t[0] != '"' && t.last() != '\'' && t.last() != '"'),
        lf_endings(body),
    ensures
        story_parts("---\ntitle: '"@ + t + "'\n---"@ + body, folder) == (t, body),
{
    reveal_strlit("---\ntitle: '");
    reveal_strlit("'\n---");
    reveal_strlit("\n---");
    reveal_strlit("title: '");
    reveal_strlit("'");
    let n = t.len() as int;
    let raw = "---\ntitle: '"@ + t + "'\n---"@ + body;
    assert forall|i: int| 0 <= i < raw.len() - 1 implies !(#[trigger] raw[i] == '\r' && raw[i + 1] == '\n') by {
        if 12 <= i < 12 + n {
            assert(raw[i] == t[i - 12]);
        } else if i >= 17 + n {
            assert(raw[i] == body[i - 17 - n]);
            assert(raw[i + 1] == body[i + 1 - 17 - n]);
        }
    }
    assert(lf_endings(raw));
    lemma_no_crlf(raw);
    assert(raw.subrange(0, 4) =~= open_fence());
    let after = raw.skip(4);
    let l1 = "title: '"@ + t + "'"@;
    assert(after =~= l1 + "\n---"@ + body);
    assert forall|j: int| 0 <= j < 9 + n implies !occurs_at(after, "\n---"@, j) by {
        if occurs_at(after, "\n---"@, j) {
            assert(after.subrange(j, j + 4)[0] == after[j]);
            if 8 <= j < 8 + n {
                assert(after[j] == t[j - 8]);
            }
        }
    }
    assert(occurs_at(after, "\n---"@, 9 + n)) by {
        assert(after.subrange(9 + n, 13 + n) =~= "\n---"@);
    }
    crate::text::lemma_find_from_skip(after, "\n---"@, 0, 9 + n);
    assert(find(after, "\n---"@) == Some(9 + n));
    assert(after.take(9 + n) =~= l1);
    assert forall|i: int| 0 <= i < l1.len() implies l1[i] != '\n' by {
        if 8 <= i < 8 + n {
            assert(l1[i] == t[i - 8]);
        }
    }
    lemma_lines_single(l1);
    law_quoted_title_read_without_quotes(Seq::empty(), t, folder);
    assert(Seq::<Seq<char>>::empty().push(l1) =~= seq![l1]);
    assert(raw.skip(4 + (9 + n) + 4) =~= body);
}

// ---------------------------------------------------------------------------
// HTML
// ---------------------------------------------------------------------------

/// `str::split` on a non-empty pattern.
pub open spec fn split_on(s: Seq<char>, sep: Seq<char>) -> Seq<Seq<char>>
    decreases s.len(),
{
    if sep.len() == 0 {
        seq![s]
    } else {
        match find(s, sep) {
            Some(i) => if 0 <= i && i + sep.len() <= s.len() {
                seq![s.take(i)] + split_on(s.skip(i + sep.len()), sep)
            } else {
                seq![s]
            },
            None => seq![s],
        }
    }
}

/// The url listed for a stem: the first pair naming it.
pub open spec fn url_for(urls: Seq<(Seq<char>, Seq<char>)>, stem: Seq<char>) -> Option<Seq<char>>
    decreases urls.len(),
{
    if urls.len() == 0 {
        None
    } else if urls[0].0 == stem {
        Some(urls[0].1)
    } else {
        url_for(urls.drop_first(), stem)
    }
}

/// An embed's stem: its link without `.jpg` / `.jpeg`, or the link itself.
pub open spec fn embed_stem(link: Seq<char>) -> Seq<char> {
    match strip_suffix(link, ".jpg"@) {
        Some(s) => s,
        None => match strip_suffix(link, ".jpeg"@) {
            Some(s) => s,
            None => link,
        },
    }
}

pub open spec fn img_tag(url: Seq<char>, stem: Seq<char>) -> Seq<char> {
    "<img src=\""@ + url + "\" alt=\""@ + stem + "\" />\n"@
}

/// The images a paragraph's embeds render to (embeds without a url render
/// to nothing), and whether it opens any embed at all.
pub open spec fn embed_scan(rest: Seq<char>, urls: Seq<(Seq<char>, Seq<char>)>) -> (bool, Seq<char>)
    decreases rest.len(),
{
    match find(rest, "![["@) {
        None => (false, Seq::empty()),
        Some(st) => if 0 <= st && st + 3 <= rest.len() {
            let r2 = rest.skip(st + 3);
            match find(r2, "]]"@) {
                None => (true, Seq::empty()),
                Some(e) => if 0 <= e && e + 2 <= r2.len() {
                    let stem = embed_stem(link_of(r2.take(e)));
                    let img = match url_for(urls, stem) {
                        Some(u) => img_tag(u, stem),
                        None => Seq::empty(),
                    };
                    (true, img + embed_scan(r2.skip(e + 2), urls).1)
                } else {
                    (true, Seq::empty())
                },
            }
        } else {
            (false, Seq::empty())
        },
    }
}

/// One paragraph's HTML.
pub open spec fn paragraph_html(p: Seq<char>, urls: Seq<(Seq<char>, Seq<char>)>) -> Seq<char> {
    let t = trim(p);
    if t.len() == 0 {
        Seq::empty()
    } else if starts_with(t, "# "@) {
        "<h1>"@ + t.skip(2) + "</h1>\n"@
    } else if starts_with(t, "## "@) {
        "<h2>"@ + t.skip(3) + "</h2>\n"@
    } else if starts_with(t, "### "@) {
        "<h3>"@ + t.skip(4) + "</h3>\n"@
    } else {
        let (has, imgs) = embed_scan(t, urls);
        if has {
            "<div class=\"photo-row\">\n"@ + imgs + "</div>\n"@
        } else {
            "<p>"@ + replace(t, "\n"@, "<br>"@) + "</p>\n"@
        }
    }
}

pub open spec fn html_of(ps: Seq<Seq<char>>, urls: Seq<(Seq<char>, Seq<char>)>) -> Seq<char>
    decreases ps.len(),
{
    if ps.len() == 0 {
        Seq::empty()
    } else {
        html_of(ps.drop_last(), urls) + paragraph_html(ps.last(), urls)
    }
}

proof fn lemma_photo_stems(stem: Seq<char>)
    ensures
        embed_stem(stem + ".jpeg"@) == stem,
        embed_stem(stem + ".jpg"@) == stem,
{
    reveal_strlit(".jpeg");
    reveal_strlit(".jpg");
    let link = stem + ".jpeg"@;
    assert(!ends_with(link, ".jpg"@)) by {
        if ends_with(link, ".jpg"@) {
            assert(link.subrange(link.len() - 4, link.len() as int)[2] == link[link.len() - 2]);
        }
    }
    assert(link.subrange(link.len() - 5, link.len() as int) =~= ".jpeg"@);
    assert(link.take(link.len() - 5) =~= stem);
    let l2 = stem + ".jpg"@;
    assert(l2.subrange(l2.len() - 4, l2.len() as int) =~= ".jpg"@);
    assert(l2.take(l2.len() - 4) =~= stem);
}

#[verifier::spinoff_prover]
proof fn lemma_link_is_plain(stem: Seq<char>)
    requires
        lacks(stem, '|'),
        stem.len() == 0 || !is_ws(stem[0]),
    ensures
        link_of(stem + ".jpeg"@) == stem + ".jpeg"@,
{
    reveal_strlit(".jpeg");
    let n = stem.len() as int;
    let link = stem + ".jpeg"@;
    lemma_find_from_bounds(link, seq!['|'], 0);
    assert forall|j: int| 0 <= j < link.len() implies !occurs_at(link, seq!['|'], j) by {
        if occurs_at(link, seq!['|'], j) {
            assert(link.subrange(j, j + 1)[0] == link[j]);
            if j < n {
                assert(link[j] == stem[j]);
            }
        }
    }
    crate::text::lemma_find_from_skip(link, seq!['|'], 0, link.len() as int);
    assert(!is_ws(link[link.len() - 1]));
    if n > 0 {
        assert(link[0] == stem[0]);
    } else {
        assert(!is_ws(link[0]));
    }
    lemma_trim_at(link, 0, link.len() as int);
    assert(link.subrange(0, link.len() as int) =~= link);
}

#[verifier::spinoff_prover]
proof fn lemma_scan_one_jpeg(stem: Seq<char>, url: Seq<char>)
    requires
        lacks(stem, ']'),
        lacks(stem, '|'),
        stem.len() == 0 || !is_ws(stem[0]),
    ensures
        embed_scan("![["@ + stem + ".jpeg]]"@, seq![(stem, url)]) == (true, img_tag(url, stem)),
{
    reveal_strlit(".jpeg");
    reveal_strlit("![[");
    reveal_strlit("]]");
    reveal_strlit(".jpeg]]");
    let n = stem.len() as int;
    let link = stem + ".jpeg"@;
    let p = "![["@ + stem + ".jpeg]]"@;
    assert(p =~= "![["@ + link + "]]"@);
    assert(occurs_at(p, "![["@, 0)) by {
        assert(p.subrange(0, 3) =~= "![["@);
    }
    assert(find(p, "![["@) == Some(0int));
    let r2 = p.skip(3);
    assert(r2 =~= link + "]]"@);
    assert forall|j: int| 0 <= j < n + 5 implies !occurs_at(r2, "]]"@, j) by {
        if occurs_at(r2, "]]"@, j) {
            assert(r2.subrange(j, j + 2)[0] == r2[j]);
            if j < n {
                assert(r2[j] == stem[j]);
            }
        }
    }
    assert(occurs_at(r2, "]]"@, n + 5)) by {
        assert(r2.subrange(n + 5, n + 7) =~= "]]"@);
    }
    crate::text::lemma_find_from_skip(r2, "]]"@, 0, n + 5);
    assert(find(r2, "]]"@) == Some(n + 5));
    assert(r2.take(n + 5) =~= link);
    lemma_link_is_plain(stem);
    lemma_photo_stems(stem);
    let urls = seq![(stem, url)];
    assert(url_for(urls, stem) == Some(url));
    let rest = r2.skip(n + 5 + 2);
    assert(rest =~= Seq::<char>::empty());
    lemma_find_from_bounds(rest, "![["@, 0);
    assert(find(rest, "![["@) is None);
    assert(embed_scan(rest, urls).1 =~= Seq::<char>::empty());
    assert(embed_stem(link_of(r2.take(n + 5))) == stem);
    assert(embed_scan(p, urls).1 == img_tag(url, stem) + embed_scan(rest, urls).1);
    assert(img_tag(url, stem) + Seq::<char>::empty() =~= img_tag(url, stem));
}

/// A paragraph that is one embed of a `.jpeg` photo with a url renders as a
/// photo row holding that photo, under the stem without the suffix (as a
/// `.jpg` embed does): for every one-name stem (no `]` or `|`, not starting
/// with whitespace) and url.
#[verifier::spinoff_prover]
pub proof fn law_jpeg_embed_renders(stem: Seq<char>, url: Seq<char>)
    requires
        lacks(stem, ']'),
        lacks(stem, '|'),
        stem.len() == 0 || !is_ws(stem[0]),
    ensures
        embed_stem(stem + ".jpeg"@) == stem,
        embed_stem(stem + ".jpg"@) == stem,
        paragraph_html("![["@ + stem + ".jpeg]]"@, seq![(stem, url)]) == "<div class=\"photo-row\">\n"@ + (
        "<img src=\""@ + url + "\" alt=\""@ + stem + "\" />\n"@) + "</div>\n"@,
{
    reveal_strlit("![[");
    reveal_strlit(".jpeg]]");
    reveal_strlit("# ");
    reveal_strlit("## ");
    reveal_strlit("### ");
    lemma_photo_stems(stem);
    lemma_scan_one_jpeg(stem, url);
    let p = "![["@ + stem + ".jpeg]]"@;
    assert(p[0] == '!');
    assert(p[p.len() - 1] == ']');
    assert(!is_ws(p[0]) && !is_ws(p[p.len() - 1]));
    lemma_trim_at(p, 0, p.len() as int);
    assert(p.subrange(0, p.len() as int) =~= p);
    assert(!starts_with(p, "# "@)) by {
        if starts_with(p, "# "@) {
            assert(p.subrange(0, 2)[0] == p[0]);
        }
    }
    assert(!starts_with(p, "## "@)) by {
        if starts_with(p, "## "@) {
            assert(p.subrange(0, 3)[0] == p[0]);
        }
    }
    assert(!starts_with(p, "### "@)) by {
        if starts_with(p, "### "@) {
            assert(p.subrange(0, 4)[0] == p[0]);
        }
    }
}

/// The body as HTML: paragraphs split on blank lines; `#`, `##`, `###`
/// headings; a paragraph of embeds one photo row; any other paragraph
/// text, line breaks kept.
pub open spec fn markdown_html(body: Seq<char>, urls: Seq<(Seq<char>, Seq<char>)>) -> Seq<char> {
    html_of(split_on(body, "\n\n"@), urls)
}

pub open spec fn url_views(v: Seq<(String, String)>) -> Seq<(Seq<char>, Seq<char>)> {
    Seq::new(v.len(), |i: int| (v[i].0@, v[i].1@))
}

pub(crate) fn split_exec(s: &[char], sep: &[char]) -> (r: Vec<Vec<char>>)
    requires
        sep@.len() > 0,
    ensures
        views(r@) == split_on(s@, sep@),
{
    let mut out: Vec<Vec<char>> = Vec::new();
    let mut pos: usize = 0;
    assert(s@.skip(0) =~= s@);
    assert(views(out@) =~= Seq::<Seq<char>>::empty());
    loop
        invariant
            pos <= s@.len(),
            sep@.len() > 0,
            split_on(s@, sep@) == views(out@) + split_on(s@.skip(pos as int), sep@),
        decreases s@.len() - pos,
    {
        let ghost rest = s@.skip(pos as int);
        proof {
            lemma_find_from_shift(s@, sep@, pos as int, pos as int);
            lemma_find_from_bounds(s@, sep@, pos as int);
        }
        match find_from_exec(s, sep, pos) {
            Some(k) => {
                assert(occurs_at(s@, sep@, k as int));
                let piece = copy_range(s, pos, k);
                assert(piece@ =~= rest.take(k - pos));
                let ghost prev = views(out@);
                out.push(piece);
                assert(views(out@) =~= prev.push(rest.take(k - pos)));
                assert(rest.skip(k - pos + sep@.len()) =~= s@.skip(k + sep@.len()));
                assert(views(out@) + split_on(s@.skip(k + sep@.len()), sep@) =~= prev + (seq![
                    rest.take(k - pos),
                ] + split_on(rest.skip(k - pos + sep@.len()), sep@)));
                assert(k + sep@.len() <= s.len());
                pos = k + sep.len();
            },
            None => {
                let piece = copy_range(s, pos, s.len());
                assert(piece@ =~= rest);
                let ghost prev = views(out@);
                out.push(piece);
                assert(views(out@) =~= prev + seq![rest]);
                return out;
            },
        }
    }
}

fn url_lookup(urls: &Vec<(String, String)>, stem: &[char]) -> (r: Option<Vec<char>>)
    ensures
        match r {
            Some(u) => url_for(url_views(urls@), stem@) == Some(u@),
            None => url_for(url_views(urls@), stem@) is None,
        },
{
    let ghost uv = url_views(urls@);
    let mut i: usize = 0;
    assert(uv.skip(0) =~= uv);
    while i < urls.len()
        invariant
            i <= urls@.len(),
            uv == url_views(urls@),
            url_for(uv, stem@) == url_for(uv.skip(i as int), stem@),
        decreases urls@.len() - i,
    {
        let s = chars_of(urls[i].0.as_str());
        assert(uv.skip(i as int)[0] == uv[i as int]);
        if crate::text::eq_exec(&s, stem) {
            return Some(chars_of(urls[i].1.as_str()));
        }
        assert(uv.skip(i as int).drop_first() =~= uv.skip(i + 1));
        i += 1;
    }
    assert(uv.skip(i as int) =~= Seq::<(Seq<char>, Seq<char>)>::empty());
    None
}

fn embed_stem_exec(link: &[char]) -> (r: Vec<char>)
    ensures
        r@ == embed_stem(link@),
{
    let jpg = chars_of(".jpg");
    let jpeg = chars_of(".jpeg");
    if ends_with_exec(link, &jpg) {
        let v = copy_range(link, 0, link.len() - jpg.len());
        assert(v@ =~= link@.take(link@.len() - jpg@.len()));
        v
    } else if ends_with_exec(link, &jpeg) {
        let v = copy_range(link, 0, link.len() - jpeg.len());
        assert(v@ =~= link@.take(link@.len() - jpeg@.len()));
        v
    } else {
        copy_range(link, 0, link.len())
    }
}

fn embed_scan_exec(t: &[char], urls: &Vec<(String, String)>) -> (r: (bool, Vec<char>))
    ensures
        (r.0, r.1@) == embed_scan(t@, url_views(urls@)),
{
    let open = chars_of("![[");
    let close = chars_of("]]");
    proof {
        reveal_strlit("![[");
        reveal_strlit("]]");
    }
    let mut has = false;
    let mut imgs: Vec<char> = Vec::new();
    let mut pos: usize = 0;
    assert(t@.skip(0) =~= t@);
    loop
        invariant
            pos <= t@.len(),
            open@ == "![["@,
            close@ == "]]"@,
            open@.len() == 3,
            close@.len() == 2,
            ({
                let whole = embed_scan(t@, url_views(urls@));
                let tail = embed_scan(t@.skip(pos as int), url_views(urls@));
                &&& whole.0 == (has || tail.0)
                &&& whole.1 == imgs@ + tail.1
            }),
        decreases t@.len() - pos,
    {
        let ghost rest = t@.skip(pos as int);
        proof {
            lemma_find_from_shift(t@, open@, pos as int, pos as int);
            lemma_find_from_bounds(t@, open@, pos as int);
        }
        let a = match find_from_exec(t, &open, pos) {
            Some(a) => a,
            None => {
                assert(imgs@ + Seq::<char>::empty() =~= imgs@);
                return (has, imgs);
            },
        };
        assert(occurs_at(t@, open@, a as int));
        has = true;
        assert(a + 3 <= t.len());
        let p2 = a + 3;
        let ghost r2 = rest.skip(a - pos + 3);
        assert(r2 =~= t@.skip(p2 as int));
        proof {
            lemma_find_from_shift(t@, close@, p2 as int, p2 as int);
            lemma_find_from_bounds(t@, close@, p2 as int);
        }
        let b = match find_from_exec(t, &close, p2) {
            Some(b) => b,
            None => {
                assert(imgs@ + Seq::<char>::empty() =~= imgs@);
                return (has, imgs);
            },
        };
        assert(occurs_at(t@, close@, b as int));
        let inner = copy_range(t, p2, b);
        assert(inner@ =~= r2.take(b - p2));
        let link = link_exec(&inner);
        let stem = embed_stem_exec(&link);
        let ghost prev = imgs@;
        match url_lookup(urls, &stem) {
            Some(u) => {
                let mut tag: Vec<char> = Vec::new();
                push_text(&mut tag, "<img src=\"");
                append(&mut tag, &u);
                push_text(&mut tag, "\" alt=\"");
                append(&mut tag, &stem);
                push_text(&mut tag, "\" />\n");
                assert(tag@ =~= img_tag(u@, stem@));
                append(&mut imgs, &tag);
            },
            None => {},
        }
        assert(r2.skip(b - p2 + 2) =~= t@.skip(b + 2));
        proof {
            let img = imgs@.subrange(prev.len() as int, imgs@.len() as int);
            assert(imgs@ =~= prev + img);
            assert(imgs@ + embed_scan(t@.skip(b + 2), url_views(urls@)).1 =~= prev + (img
                + embed_scan(t@.skip(b + 2), url_views(urls@)).1));
        }
        assert(b + 2 <= t.len());
        pos = b + 2;
    }
}

fn paragraph_exec(p: &[char], urls: &Vec<(String, String)>, out: &mut Vec<char>)
    ensures
        final(out)@ == old(out)@ + paragraph_html(p@, url_views(urls@)),
{
    let t = trim_exec(p);
    if t.len() == 0 {
        assert(old(out)@ + Seq::<char>::empty() =~= old(out)@);
        return;
    }
    let h1 = chars_of("# ");
    let h2 = chars_of("## ");
    let h3 = chars_of("### ");
    proof {
        reveal_strlit("# ");
        reveal_strlit("## ");
        reveal_strlit("### ");
    }
    if starts_with_exec(&t, &h1) {
        push_text(out, "<h1>");
        append(out, &copy_range(&t, 2, t.len()));
        push_text(out, "</h1>\n");
        assert(t@.subrange(2, t@.len() as int) =~= t@.skip(2));
    } else if starts_with_exec(&t, &h2) {
        push_text(out, "<h2>");
        append(out, &copy_range(&t, 3, t.len()));
        push_text(out, "</h2>\n");
        assert(t@.subrange(3, t@.len() as int) =~= t@.skip(3));
    } else if starts_with_exec(&t, &h3) {
        push_text(out, "<h3>");
        append(out, &copy_range(&t, 4, t.len()));
        push_text(out, "</h3>\n");
        assert(t@.subrange(4, t@.len() as int) =~= t@.skip(4));
    } else {
        let (has, imgs) = embed_scan_exec(&t, urls);
        if has {
            push_text(out, "<div class=\"photo-row\">\n");
            append(out, &imgs);
            push_text(out, "</div>\n");
        } else {
            let nl = chars_of("\n");
            let br = chars_of("<br>");
            proof {
                reveal_strlit("\n");
            }
            push_text(out, "<p>");
            append(out, &replace_exec(&t, &nl, &br));
            push_text(out, "</p>\n");
        }
    }
}

/// Render a story body to HTML, each `![[stem.jpg]]` embed becoming the
/// `<img>` of its url.
pub fn markdown_to_html(body: &str, urls: &Vec<(String, String)>) -> (r: String)
    ensures
        r@ == markdown_html(body@, url_views(urls@)),
{
    let b = chars_of(body);
    let sep = chars_of("\n\n");
    proof {
        reveal_strlit("\n\n");
    }
    let ps = split_exec(&b, &sep);
    let ghost pv = views(ps@);
    let mut out: Vec<char> = Vec::new();
    let mut i: usize = 0;
    while i < ps.len()
        invariant
            i <= ps@.len(),
            pv == views(ps@),
            out@ == html_of(pv.take(i as int), url_views(urls@)),
        decreases ps@.len() - i,
    {
        paragraph_exec(ps[i].as_slice(), urls, &mut out);
        assert(pv.take(i + 1).drop_last() =~= pv.take(i as int));
        i += 1;
    }
    assert(pv.take(ps@.len() as int) =~= pv);
    string_of(&out)
}

// ---------------------------------------------------------------------------
// Where the vault keeps attachments
// ---------------------------------------------------------------------------

/// `str::trim_start_matches('/')`.
pub open spec fn strip_slashes(s: Seq<char>) -> Seq<char>
    decreases s.len(),
{
    if s.len() > 0 && s[0] == '/' {
        strip_slashes(s.drop_first())
    } else {
        s
    }
}

/// The attachment directory an Obsidian vault's `attachmentFolderPath`
/// names: the vault root for an empty setting, `/`, or a note-relative
/// `./…` (which has no single path); otherwise the setting under the vault.
pub open spec fn attachment_dir_of(vault: Seq<char>, setting: Seq<char>) -> Seq<char> {
    if setting.len() == 0 || setting == seq!['/'] || starts_with(setting, seq!['.', '/']) {
        vault
    } else {
        path_join(vault, strip_slashes(setting))
    }
}

/// Where photos exported to the vault go.
pub fn attachment_dir(vault: &str, setting: &str) -> (r: String)
    ensures
        r@ == attachment_dir_of(vault@, setting@),
{
    let s = chars_of(setting);
    let slash: [char; 1] = ['/'];
    let dot_slash: [char; 2] = ['.', '/'];
    assert(slash@ =~= seq!['/']);
    assert(dot_slash@ =~= seq!['.', '/']);
    if s.len() == 0 || eq_exec(&s, &slash) || starts_with_exec(&s, &dot_slash) {
        return string_of(&chars_of(vault));
    }
    let mut k: usize = 0;
    assert(s@.skip(0) =~= s@);
    while k < s.len() && s[k] == '/'
        invariant
            k <= s@.len(),
            strip_slashes(s@) == strip_slashes(s@.skip(k as int)),
        decreases s@.len() - k,
    {
        assert(s@.skip(k as int).drop_first() =~= s@.skip(k + 1));
        k += 1;
    }
    let rest = copy_range(&s, k, s.len());
    assert(rest@ =~= s@.skip(k as int));
    let rest_s = string_of(&rest);
    join_path(vault, rest_s.as_str())
}

} // verus!
