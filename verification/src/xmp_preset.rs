//! Reading an Adobe XMP preset (`.xmp` out of Lightroom / Camera Raw): the
//! `crs:` settings in either attribute or element form, the `rdf:li` items of
//! a block, and the preset's display name.
use vstd::prelude::*;
use crate::text::{
    append, chars_of, contains, copy_range, find, find_exec, find_from_exec, lemma_find_from_bounds,
    lemma_find_from_shift, occurs_at, str_views, string_of, trim, trim_exec,
};

verus! {

/// What an import managed to carry over, for the UI to show.
pub struct ImportReport {
    pub name: String,
    /// Recipe fields this preset actually set.
    pub applied: Vec<String>,
    /// Recognized Lightroom settings Reveal has no equivalent for.
    pub skipped: Vec<String>,
}

pub open spec fn crs() -> Seq<char> {
    seq!['c', 'r', 's', ':']
}

/// `crs:<key>="` — the trailing `="` is part of the needle, so a longer key
/// sharing this one's prefix cannot match by accident.
pub open spec fn attr_needle(key: Seq<char>) -> Seq<char> {
    crs() + key + seq!['=', '"']
}

pub open spec fn open_tag(key: Seq<char>) -> Seq<char> {
    seq!['<'] + crs() + key + seq!['>']
}

pub open spec fn close_tag(key: Seq<char>) -> Seq<char> {
    seq!['<', '/'] + crs() + key + seq!['>']
}

/// The text between the first `open` and the first `close` after it.
pub open spec fn between(s: Seq<char>, open: Seq<char>, close: Seq<char>) -> Option<Seq<char>> {
    match find(s, open) {
        Some(i) => if 0 <= i && i + open.len() <= s.len() {
            let rest = s.skip(i + open.len());
            match find(rest, close) {
                Some(e) => if 0 <= e <= rest.len() {
                    Some(rest.take(e))
                } else {
                    None
                },
                None => None,
            }
        } else {
            None
        },
        None => None,
    }
}

/// `crs:<key>="value"`.
pub open spec fn attr_of(xmp: Seq<char>, key: Seq<char>) -> Option<Seq<char>> {
    between(xmp, attr_needle(key), seq!['"'])
}

/// `<crs:key>value</crs:key>`.
pub open spec fn element_of(xmp: Seq<char>, key: Seq<char>) -> Option<Seq<char>> {
    between(xmp, open_tag(key), close_tag(key))
}

pub open spec fn li_open() -> Seq<char> {
    seq!['<', 'r', 'd', 'f', ':', 'l', 'i']
}

pub open spec fn li_close() -> Seq<char> {
    seq!['<', '/', 'r', 'd', 'f', ':', 'l', 'i', '>']
}

/// Every `<rdf:li …>…</rdf:li>` inside a block, trimmed; the scan stops at
/// an item that never opens or never closes.
pub open spec fn seq_items_of(rest: Seq<char>) -> Seq<Seq<char>>
    decreases rest.len(),
{
    match find(rest, li_open()) {
        Some(o) => if 0 <= o < rest.len() {
            let r1 = rest.skip(o);
            match find(r1, seq!['>']) {
                Some(g) => if 0 <= g < r1.len() {
                    let r2 = r1.skip(g + 1);
                    match find(r2, li_close()) {
                        Some(c) => if 0 <= c && c + 9 <= r2.len() {
                            seq![trim(r2.take(c))] + seq_items_of(r2.skip(c + 9))
                        } else {
                            Seq::empty()
                        },
                        None => Seq::empty(),
                    }
                } else {
                    Seq::empty()
                },
                None => Seq::empty(),
            }
        } else {
            Seq::empty()
        },
        None => Seq::empty(),
    }
}

/// The first non-empty item, if any.
pub open spec fn first_nonempty(items: Seq<Seq<char>>) -> Option<Seq<char>>
    decreases items.len(),
{
    if items.len() == 0 {
        None
    } else if items[0].len() > 0 {
        Some(items[0])
    } else {
        first_nonempty(items.drop_first())
    }
}

/// The preset's display name, from `<crs:Name>`'s `rdf:Alt`.
pub open spec fn preset_name_of(xmp: Seq<char>) -> Option<Seq<char>> {
    match element_of(xmp, seq!['N', 'a', 'm', 'e']) {
        Some(block) => first_nonempty(seq_items_of(block)),
        None => None,
    }
}

pub open spec fn opt_string_view(o: Option<String>) -> Option<Seq<char>> {
    match o {
        Some(s) => Some(s@),
        None => None,
    }
}

fn between_exec(s: &[char], open: &[char], close: &[char]) -> (r: Option<Vec<char>>)
    ensures
        match r {
            Some(v) => between(s@, open@, close@) == Some(v@),
            None => between(s@, open@, close@) is None,
        },
{
    let i = match find_exec(s, open) {
        Some(i) => i,
        None => {
            return None;
        },
    };
    proof {
        lemma_find_from_bounds(s@, open@, 0);
    }
    assert(occurs_at(s@, open@, i as int));
    assert(i + open.len() <= s.len());
    let rest = copy_range(s, i + open.len(), s.len());
    assert(rest@ =~= s@.skip(i + open@.len()));
    match find_exec(&rest, close) {
        Some(e) => {
            proof {
                lemma_find_from_bounds(rest@, close@, 0);
            }
            let v = copy_range(&rest, 0, e);
            assert(v@ =~= rest@.take(e as int));
            Some(v)
        },
        None => None,
    }
}

/// Read `crs:<key>="value"`.
pub fn attr(xmp: &str, key: &str) -> (r: Option<String>)
    ensures
        opt_string_view(r) == attr_of(xmp@, key@),
{
    let x = chars_of(xmp);
    let mut needle: Vec<char> = Vec::new();
    needle.push('c');
    needle.push('r');
    needle.push('s');
    needle.push(':');
    append(&mut needle, &chars_of(key));
    needle.push('=');
    needle.push('"');
    assert(needle@ =~= attr_needle(key@));
    let q: [char; 1] = ['"'];
    assert(q@ =~= seq!['"']);
    match between_exec(&x, &needle, &q) {
        Some(v) => Some(string_of(&v)),
        None => None,
    }
}

/// Read `<crs:key>value</crs:key>` — the element form some writers use for
/// the same settings others put in attributes.
pub fn element(xmp: &str, key: &str) -> (r: Option<String>)
    ensures
        opt_string_view(r) == element_of(xmp@, key@),
{
    let x = chars_of(xmp);
    let k = chars_of(key);
    let mut open: Vec<char> = Vec::new();
    open.push('<');
    open.push('c');
    open.push('r');
    open.push('s');
    open.push(':');
    append(&mut open, &k);
    open.push('>');
    assert(open@ =~= open_tag(key@));
    let mut close: Vec<char> = Vec::new();
    close.push('<');
    close.push('/');
    close.push('c');
    close.push('r');
    close.push('s');
    close.push(':');
    append(&mut close, &k);
    close.push('>');
    assert(close@ =~= close_tag(key@));
    match between_exec(&x, &open, &close) {
        Some(v) => Some(string_of(&v)),
        None => None,
    }
}

/// Every `<rdf:li>…</rdf:li>` inside a block.
pub fn seq_items(block: &str) -> (r: Vec<String>)
    ensures
        str_views(r@) == seq_items_of(block@),
{
    let lo: [char; 7] = ['<', 'r', 'd', 'f', ':', 'l', 'i'];
    let gt: [char; 1] = ['>'];
    let lc: [char; 9] = ['<', '/', 'r', 'd', 'f', ':', 'l', 'i', '>'];
    assert(lo@ =~= li_open());
    assert(gt@ =~= seq!['>']);
    assert(lc@ =~= li_close());
    let c = chars_of(block);
    let mut out: Vec<String> = Vec::new();
    let mut pos: usize = 0;
    assert(c@.skip(0) =~= c@);
    assert(str_views(out@) =~= Seq::<Seq<char>>::empty());
    loop
        invariant
            pos <= c@.len(),
            lo@ == li_open(),
            gt@ == seq!['>'],
            lc@ == li_close(),
            c@ == block@,
            seq_items_of(block@) == str_views(out@) + seq_items_of(c@.skip(pos as int)),
        decreases c@.len() - pos,
    {
        let ghost rest = c@.skip(pos as int);
        proof {
            lemma_find_from_shift(c@, lo@, pos as int, pos as int);
            lemma_find_from_bounds(c@, lo@, pos as int);
        }
        let a = match find_from_exec(&c, &lo, pos) {
            Some(a) => a,
            None => {
                assert(str_views(out@) + Seq::<Seq<char>>::empty() =~= str_views(out@));
                return out;
            },
        };
        assert(occurs_at(c@, lo@, a as int));
        let ghost r1 = rest.skip(a - pos);
        assert(r1 =~= c@.skip(a as int));
        proof {
            lemma_find_from_shift(c@, gt@, a as int, a as int);
            lemma_find_from_bounds(c@, gt@, a as int);
        }
        let g = match find_from_exec(&c, &gt, a) {
            Some(g) => g,
            None => {
                assert(str_views(out@) + Seq::<Seq<char>>::empty() =~= str_views(out@));
                return out;
            },
        };
        assert(occurs_at(c@, gt@, g as int));
        assert(g + 1 <= c.len());
        let p2 = g + 1;
        let ghost r2 = r1.skip(g - a + 1);
        assert(r2 =~= c@.skip(p2 as int));
        proof {
            lemma_find_from_shift(c@, lc@, p2 as int, p2 as int);
            lemma_find_from_bounds(c@, lc@, p2 as int);
        }
        let e = match find_from_exec(&c, &lc, p2) {
            Some(e) => e,
            None => {
                assert(str_views(out@) + Seq::<Seq<char>>::empty() =~= str_views(out@));
                return out;
            },
        };
        assert(occurs_at(c@, lc@, e as int));
        let inner = copy_range(&c, p2, e);
        assert(inner@ =~= r2.take(e - p2));
        let item = trim_exec(&inner);
        let ghost prev = str_views(out@);
        out.push(string_of(&item));
        assert(str_views(out@) =~= prev.push(item@));
        assert(r2.skip(e - p2 + 9) =~= c@.skip(e + 9));
        assert(str_views(out@) + seq_items_of(c@.skip(e + 9)) =~= prev + (seq![item@]
            + seq_items_of(c@.skip(e + 9))));
        assert(e + 9 <= c.len());
        pos = e + 9;
    }
}

/// The preset's display name, from `<crs:Name>`'s `rdf:Alt`.
pub fn preset_name(xmp: &str) -> (r: Option<String>)
    ensures
        opt_string_view(r) == preset_name_of(xmp@),
{
    let name: [char; 4] = ['N', 'a', 'm', 'e'];
    assert(name@ =~= seq!['N', 'a', 'm', 'e']);
    let key = string_of(&name);
    let block = match element(xmp, key.as_str()) {
        Some(b) => b,
        None => {
            return None;
        },
    };
    let items = seq_items(block.as_str());
    let ghost iv = str_views(items@);
    let mut i: usize = 0;
    assert(iv.skip(0) =~= iv);
    while i < items.len()
        invariant
            i <= items@.len(),
            iv == str_views(items@),
            preset_name_of(xmp@) == first_nonempty(iv),
            first_nonempty(iv) == first_nonempty(iv.skip(i as int)),
        decreases items@.len() - i,
    {
        let s = chars_of(items[i].as_str());
        if s.len() > 0 {
            assert(iv.skip(i as int)[0] == s@);
            return Some(string_of(&s));
        }
        assert(iv.skip(i as int).drop_first() =~= iv.skip(i + 1));
        i += 1;
    }
    assert(iv.skip(i as int) =~= Seq::<Seq<char>>::empty());
    None
}

/// `str::trim_start_matches('+')`: Lightroom writes an explicit `+` on
/// positive values.
pub open spec fn strip_plus(s: Seq<char>) -> Seq<char>
    decreases s.len(),
{
    if s.len() > 0 && s[0] == '+' {
        strip_plus(s.drop_first())
    } else {
        s
    }
}

/// The text of a numeric setting, from whichever of the two forms carries
/// it (the attribute first), trimmed and without its `+` sign: what is then
/// read as a number.
pub open spec fn setting_text_of(xmp: Seq<char>, key: Seq<char>) -> Option<Seq<char>> {
    match attr_of(xmp, key) {
        Some(v) => Some(strip_plus(trim(v))),
        None => match element_of(xmp, key) {
            Some(v) => Some(strip_plus(trim(v))),
            None => None,
        },
    }
}

fn strip_plus_exec(s: &[char]) -> (r: Vec<char>)
    ensures
        r@ == strip_plus(s@),
{
    let mut k: usize = 0;
    assert(s@.skip(0) =~= s@);
    while k < s.len() && s[k] == '+'
        invariant
            k <= s@.len(),
            strip_plus(s@) == strip_plus(s@.skip(k as int)),
        decreases s@.len() - k,
    {
        assert(s@.skip(k as int).drop_first() =~= s@.skip(k + 1));
        k += 1;
    }
    let r = copy_range(s, k, s.len());
    assert(r@ =~= s@.skip(k as int));
    r
}

/// The text of the numeric setting `key`, ready to be read as a number.
pub fn setting_text(xmp: &str, key: &str) -> (r: Option<String>)
    ensures
        opt_string_view(r) == setting_text_of(xmp@, key@),
{
    let raw = match attr(xmp, key) {
        Some(v) => v,
        None => match element(xmp, key) {
            Some(v) => v,
            None => {
                return None;
            },
        },
    };
    let t = trim_exec(&chars_of(raw.as_str()));
    Some(string_of(&strip_plus_exec(&t)))
}

/// Whether a document is a Camera Raw / Lightroom preset at all: one that
/// names some `crs:` setting. Anything else is refused before any value is
/// read.
pub fn check_preset(xmp: &str) -> (r: Result<(), String>)
    ensures
        r is Ok <==> contains(xmp@, crs()),
        r matches Err(m) ==> m@ == "Not a Camera Raw / Lightroom preset (no crs: settings found)."@,
{
    let x = chars_of(xmp);
    let needle: [char; 4] = ['c', 'r', 's', ':'];
    assert(needle@ =~= crs());
    match find_exec(&x, &needle) {
        Some(_) => Ok(()),
        None => Err("Not a Camera Raw / Lightroom preset (no crs: settings found).".to_string()),
    }
}

/// A longer key sharing a prefix never answers for a shorter one: what
/// `attr` reads for `key` always stood right after `crs:key="`.
pub proof fn law_attr_reads_its_own_key(xmp: Seq<char>, key: Seq<char>)
    ensures
        attr_of(xmp, key) is Some ==> exists|i: int|
            #![trigger occurs_at(xmp, attr_needle(key), i)]
            occurs_at(xmp, attr_needle(key), i) && xmp.skip(i + attr_needle(key).len()).take(
                attr_of(xmp, key)->0.len() as int,
            ) == attr_of(xmp, key)->0,
{
    lemma_find_from_bounds(xmp, attr_needle(key), 0);
    if let Some(i) = find(xmp, attr_needle(key)) {
        let rest = xmp.skip(i + attr_needle(key).len());
        lemma_find_from_bounds(rest, seq!['"'], 0);
        if let Some(e) = find(rest, seq!['"']) {
            assert(rest.take(e).len() == e);
        }
    }
}

} // verus!
