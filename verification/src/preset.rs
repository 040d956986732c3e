//! Named develop presets, one file per preset under `<app_data>/presets/`.
use vstd::prelude::*;
use crate::paths::{join_path, path_join};
use crate::text::{chars_of, copy_range, string_of, trim, trim_exec};

verus! {

broadcast use vstd::string::group_string_axioms;

pub open spec fn is_ascii_alnum(c: char) -> bool {
    let u = c as u32;
    (48 <= u <= 57) || (65 <= u <= 90) || (97 <= u <= 122)
}

pub open spec fn ascii_lower(c: char) -> char {
    let u = c as u32;
    if 65 <= u <= 90 {
        (u + 32) as char
    } else {
        c
    }
}

/// Alphanumerics lower-cased, every run of anything else one `-`; with
/// whether the text so far ends in such a run.
pub open spec fn slug_runs(s: Seq<char>) -> (Seq<char>, bool)
    decreases s.len(),
{
    if s.len() == 0 {
        (Seq::empty(), false)
    } else {
        let (out, dash) = slug_runs(s.drop_last());
        let c = s.last();
        if is_ascii_alnum(c) {
            (out.push(ascii_lower(c)), false)
        } else if !dash {
            (out.push('-'), true)
        } else {
            (out, dash)
        }
    }
}

/// `str::trim_matches('-')`.
pub open spec fn trim_dashes(s: Seq<char>) -> Seq<char>
    decreases s.len(),
{
    if s.len() > 0 && s[0] == '-' {
        trim_dashes(s.drop_first())
    } else if s.len() > 0 && s.last() == '-' {
        trim_dashes(s.drop_last())
    } else {
        s
    }
}

pub open spec fn default_slug() -> Seq<char> {
    seq!['p', 'r', 'e', 's', 'e', 't']
}

/// The file stem for a preset's display name.
pub open spec fn slug_of(name: Seq<char>) -> Seq<char> {
    let s = trim_dashes(slug_runs(trim(name)).0);
    if s.len() == 0 {
        default_slug()
    } else {
        s
    }
}

/// Filesystem-safe stem for a preset's display name: keep ASCII
/// alphanumerics (lower-cased), map every other run to a single `-`, trim
/// the dashes at either end. Empty result → "preset".
pub fn slugify(name: &str) -> (r: String)
    ensures
        r@ == slug_of(name@),
{
    let c = chars_of(name);
    let t = trim_exec(&c);
    let mut out: Vec<char> = Vec::new();
    let mut last_dash = false;
    let mut i: usize = 0;
    while i < t.len()
        invariant
            i <= t@.len(),
            (out@, last_dash) == slug_runs(t@.take(i as int)),
        decreases t@.len() - i,
    {
        let ch = t[i];
        assert(t@.take(i + 1).drop_last() =~= t@.take(i as int));
        let u = ch as u32;
        if (48 <= u && u <= 57) || (65 <= u && u <= 90) || (97 <= u && u <= 122) {
            if 65 <= u && u <= 90 {
                out.push(((u + 32) as u8) as char);
            } else {
                out.push(ch);
            }
            last_dash = false;
        } else if !last_dash {
            out.push('-');
            last_dash = true;
        }
        i += 1;
    }
    assert(t@.take(t@.len() as int) =~= t@);
    let mut lo: usize = 0;
    let mut hi: usize = out.len();
    assert(out@.subrange(0, out@.len() as int) =~= out@);
    while lo < hi && (out[lo] == '-' || out[hi - 1] == '-')
        invariant
            lo <= hi <= out@.len(),
            trim_dashes(slug_runs(t@).0) == trim_dashes(out@.subrange(lo as int, hi as int)),
        decreases hi - lo,
    {
        if out[lo] == '-' {
            assert(out@.subrange(lo as int, hi as int).drop_first() =~= out@.subrange(lo + 1, hi as int));
            lo += 1;
        } else {
            assert(out@.subrange(lo as int, hi as int).drop_last() =~= out@.subrange(lo as int, hi - 1));
            hi -= 1;
        }
    }
    let s = copy_range(&out, lo, hi);
    if s.len() == 0 {
        let p: [char; 6] = ['p', 'r', 'e', 's', 'e', 't'];
        assert(p@ =~= default_slug());
        string_of(&p)
    } else {
        string_of(&s)
    }
}

/// A slug is never empty, holds only lower-case ASCII letters, digits and
/// dashes, and neither starts nor ends with a dash nor holds two in a row.
pub proof fn law_slug_shape(name: Seq<char>)
    ensures
        slug_of(name).len() > 0,
        forall|i: int| 0 <= i < slug_of(name).len() ==> slug_char(#[trigger] slug_of(name)[i]),
        slug_of(name)[0] != '-',
        slug_of(name).last() != '-',
        forall|i: int| 0 <= i < slug_of(name).len() - 1 ==> !(#[trigger] slug_of(name)[i] == '-' && slug_of(name)[i + 1] == '-'),
{
    let runs = slug_runs(trim(name)).0;
    lemma_slug_runs(trim(name));
    lemma_trim_dashes(runs);
    let s = trim_dashes(runs);
    if s.len() == 0 {
        assert(default_slug()[0] == 'p');
    }
}

pub open spec fn slug_char(c: char) -> bool {
    let u = c as u32;
    (48 <= u <= 57) || (97 <= u <= 122) || c == '-'
}

proof fn lemma_slug_runs(s: Seq<char>)
    ensures
        forall|i: int| 0 <= i < slug_runs(s).0.len() ==> slug_char(#[trigger] slug_runs(s).0[i]),
        forall|i: int| 0 <= i < slug_runs(s).0.len() - 1 ==> !(#[trigger] slug_runs(s).0[i] == '-' && slug_runs(s).0[i + 1] == '-'),
        slug_runs(s).1 <==> (slug_runs(s).0.len() > 0 && slug_runs(s).0.last() == '-'),
    decreases s.len(),
{
    if s.len() > 0 {
        lemma_slug_runs(s.drop_last());
        let (out, dash) = slug_runs(s.drop_last());
        let r = slug_runs(s).0;
        assert forall|i: int| 0 <= i < r.len() implies slug_char(#[trigger] r[i]) by {
            if i < out.len() {
                assert(r[i] == out[i]);
            }
        }
        assert forall|i: int| 0 <= i < r.len() - 1 implies !(#[trigger] r[i] == '-' && r[i + 1] == '-') by {
            if i + 1 < out.len() {
                assert(r[i] == out[i] && r[i + 1] == out[i + 1]);
            } else if i + 1 == out.len() && r.len() > out.len() {
                assert(r[i] == out[i]);
            }
        }
    }
}

proof fn lemma_trim_dashes(s: Seq<char>)
    requires
        forall|i: int| 0 <= i < s.len() ==> slug_char(#[trigger] s[i]),
        forall|i: int| 0 <= i < s.len() - 1 ==> !(#[trigger] s[i] == '-' && s[i + 1] == '-'),
    ensures
        forall|i: int| 0 <= i < trim_dashes(s).len() ==> slug_char(#[trigger] trim_dashes(s)[i]),
        forall|i: int| 0 <= i < trim_dashes(s).len() - 1 ==> !(#[trigger] trim_dashes(s)[i] == '-' && trim_dashes(s)[i + 1] == '-'),
        trim_dashes(s).len() > 0 ==> trim_dashes(s)[0] != '-' && trim_dashes(s).last() != '-',
    decreases s.len(),
{
    if s.len() > 0 && s[0] == '-' {
        let t = s.drop_first();
        assert forall|i: int| 0 <= i < t.len() implies slug_char(#[trigger] t[i]) by {
            assert(t[i] == s[i + 1]);
        }
        assert forall|i: int| 0 <= i < t.len() - 1 implies !(#[trigger] t[i] == '-' && t[i + 1] == '-') by {
            assert(t[i] == s[i + 1] && t[i + 1] == s[i + 2]);
        }
        lemma_trim_dashes(t);
    } else if s.len() > 0 && s.last() == '-' {
        let t = s.drop_last();
        assert forall|i: int| 0 <= i < t.len() implies slug_char(#[trigger] t[i]) by {
            assert(t[i] == s[i]);
        }
        assert forall|i: int| 0 <= i < t.len() - 1 implies !(#[trigger] t[i] == '-' && t[i + 1] == '-') by {
            assert(t[i] == s[i] && t[i + 1] == s[i + 1]);
        }
        lemma_trim_dashes(t);
    }
}

/// `<app_data>/presets`.
pub fn presets_dir(app_data: &str) -> (r: String)
    ensures
        r@ == path_join(app_data@, seq!['p', 'r', 'e', 's', 'e', 't', 's']),
{
    let p: [char; 7] = ['p', 'r', 'e', 's', 'e', 't', 's'];
    let s = string_of(&p);
    assert(s@ =~= seq!['p', 'r', 'e', 's', 'e', 't', 's']);
    join_path(app_data, s.as_str())
}

/// The file a preset is saved as: `<slug>.json`.
pub fn preset_file_name(name: &str) -> (r: String)
    ensures
        r@ == slug_of(name@) + seq!['.', 'j', 's', 'o', 'n'],
{
    let slug = slugify(name);
    let mut c = chars_of(slug.as_str());
    c.push('.');
    c.push('j');
    c.push('s');
    c.push('o');
    c.push('n');
    string_of(&c)
}

/// What a name given to `save` becomes: trimmed, and refused when nothing
/// is left.
pub open spec fn saved_name_of(name: Seq<char>) -> Result<Seq<char>, Seq<char>> {
    if trim(name).len() == 0 {
        Err("preset name is empty"@)
    } else {
        Ok(trim(name))
    }
}

/// The display name a preset is saved under: the given name trimmed; an
/// empty one is refused.
pub fn saved_name(name: &str) -> (r: Result<String, String>)
    ensures
        match r {
            Ok(s) => saved_name_of(name@) == Ok::<Seq<char>, Seq<char>>(s@),
            Err(e) => saved_name_of(name@) == Err::<Seq<char>, Seq<char>>(e@),
        },
{
    let t = trim_exec(&chars_of(name));
    if t.len() == 0 {
        Err("preset name is empty".to_string())
    } else {
        Ok(string_of(&t))
    }
}

// ---------------------------------------------------------------------------
// Listing order
// ---------------------------------------------------------------------------

/// What `str::to_lowercase` gives for `s` (Unicode's lower-case mapping).
pub uninterp spec fn lowercase_of(s: Seq<char>) -> Seq<char>;

/// std `str::to_lowercase`: the text with every character mapped to its
/// Unicode lower case. The text is named, not spelled out.
#[verifier::external_body]
fn lowercase(s: &str) -> (r: String)
    ensures
        r@ == lowercase_of(s@),
{
    s.to_lowercase()
}

/// The order `str`'s `Ord` gives: lexicographic by character (UTF-8 keeps
/// the order of code points, so this is the order of the bytes too).
pub open spec fn lex_lt(a: Seq<char>, b: Seq<char>) -> bool
    decreases a.len(),
{
    if a.len() == 0 {
        b.len() > 0
    } else if b.len() == 0 {
        false
    } else if a[0] != b[0] {
        (a[0] as u32) < (b[0] as u32)
    } else {
        lex_lt(a.drop_first(), b.drop_first())
    }
}

proof fn lemma_lex_transitive(a: Seq<char>, b: Seq<char>, c: Seq<char>)
    requires
        lex_lt(a, b),
        lex_lt(b, c),
    ensures
        lex_lt(a, c),
    decreases a.len(),
{
    if a.len() > 0 && b.len() > 0 && c.len() > 0 && a[0] == b[0] && b[0] == c[0] {
        lemma_lex_transitive(a.drop_first(), b.drop_first(), c.drop_first());
    }
}

proof fn lemma_lex_total(a: Seq<char>, b: Seq<char>)
    ensures
        lex_lt(a, b) || lex_lt(b, a) || a == b,
    decreases a.len(),
{
    if a.len() > 0 && b.len() > 0 && a[0] == b[0] {
        lemma_lex_total(a.drop_first(), b.drop_first());
        if a.drop_first() == b.drop_first() {
            assert(a =~= seq![a[0]] + a.drop_first());
            assert(b =~= seq![b[0]] + b.drop_first());
        }
    } else if a.len() == 0 && b.len() == 0 {
        assert(a =~= b);
    } else if a.len() > 0 && b.len() > 0 {
        vstd::utf8::char_u32_cast(a[0], a[0] as u32);
        vstd::utf8::char_u32_cast(b[0], b[0] as u32);
    }
}

/// `a` is listed before `b`: a smaller name, or the same name and an earlier
/// index (the order a stable sort leaves equal names in).
pub open spec fn name_before(keys: Seq<Seq<char>>, a: int, b: int) -> bool {
    lex_lt(keys[a], keys[b]) || (keys[a] == keys[b] && a < b)
}

/// `o` lists each of the first `n` indices once, in stable name order.
pub open spec fn is_name_order(keys: Seq<Seq<char>>, n: int, o: Seq<usize>) -> bool {
    &&& o.len() == n
    &&& forall|i: int| 0 <= i < o.len() ==> (#[trigger] o[i]) < n
    &&& forall|k: usize| k < n ==> #[trigger] o.contains(k)
    &&& forall|i: int, j: int|
        0 <= i < j < o.len() ==> name_before(keys, #[trigger] o[i] as int, #[trigger] o[j] as int)
}

fn lex_lt_exec(a: &[char], b: &[char]) -> (r: bool)
    ensures
        r == lex_lt(a@, b@),
{
    let mut k: usize = 0;
    assert(a@.skip(0) =~= a@);
    assert(b@.skip(0) =~= b@);
    while k < a.len() && k < b.len() && a[k] == b[k]
        invariant
            k <= a@.len(),
            k <= b@.len(),
            lex_lt(a@, b@) == lex_lt(a@.skip(k as int), b@.skip(k as int)),
        decreases a@.len() - k,
    {
        assert(a@.skip(k as int).drop_first() =~= a@.skip(k + 1));
        assert(b@.skip(k as int).drop_first() =~= b@.skip(k + 1));
        k += 1;
    }
    if k == a.len() {
        k < b.len()
    } else if k == b.len() {
        false
    } else {
        (a[k] as u32) < (b[k] as u32)
    }
}

/// The order a list of presets is shown in: by name, ignoring case, and
/// stable among equal names.
pub fn preset_order(names: &Vec<String>) -> (r: Vec<usize>)
    ensures
        is_name_order(
            names@.map_values(|s: String| lowercase_of(s@)),
            names@.len() as int,
            r@,
        ),
{
    let ghost keys = names@.map_values(|s: String| lowercase_of(s@));
    let mut lowered: Vec<Vec<char>> = Vec::new();
    let mut k: usize = 0;
    while k < names.len()
        invariant
            k <= names@.len(),
            keys == names@.map_values(|s: String| lowercase_of(s@)),
            lowered@.len() == k,
            forall|j: int| 0 <= j < k ==> (#[trigger] lowered@[j])@ == keys[j],
        decreases names@.len() - k,
    {
        let l = lowercase(names[k].as_str());
        lowered.push(chars_of(l.as_str()));
        k += 1;
    }
    let mut o: Vec<usize> = Vec::new();
    let mut i: usize = 0;
    while i < names.len()
        invariant
            i <= names@.len(),
            lowered@.len() == names@.len(),
            keys.len() == names@.len(),
            forall|j: int| 0 <= j < names@.len() ==> (#[trigger] lowered@[j])@ == keys[j],
            is_name_order(keys, i as int, o@),
        decreases names@.len() - i,
    {
        let mut p: usize = 0;
        while p < o.len() && !lex_lt_exec(lowered[i].as_slice(), lowered[o[p]].as_slice())
            invariant
                p <= o@.len(),
                i < names@.len(),
                lowered@.len() == names@.len(),
                forall|j: int| 0 <= j < names@.len() ==> (#[trigger] lowered@[j])@ == keys[j],
                is_name_order(keys, i as int, o@),
                forall|q: int| 0 <= q < p ==> !lex_lt(keys[i as int], keys[#[trigger] o@[q] as int]),
            decreases o@.len() - p,
        {
            p += 1;
        }
        let ghost before = o@;
        proof {
            assert forall|q: int| 0 <= q < p implies name_before(keys, #[trigger] before[q] as int, i as int) by {
                lemma_lex_total(keys[i as int], keys[before[q] as int]);
            }
            assert forall|q: int| p <= q < before.len() implies lex_lt(keys[i as int], keys[#[trigger] before[q] as int]) by {
                if q > p {
                    assert(name_before(keys, before[p as int] as int, before[q] as int));
                    if lex_lt(keys[before[p as int] as int], keys[before[q] as int]) {
                        lemma_lex_transitive(keys[i as int], keys[before[p as int] as int], keys[before[q] as int]);
                    }
                }
            }
        }
        o.insert(p, i);
        proof {
            let after = o@;
            assert(after =~= before.insert(p as int, i));
            assert forall|a: int, b: int| 0 <= a < b < after.len() implies name_before(
                keys,
                #[trigger] after[a] as int,
                #[trigger] after[b] as int,
            ) by {
                if a < p && b < p {
                    assert(after[a] == before[a] && after[b] == before[b]);
                } else if a < p && b == p {
                    assert(after[a] == before[a]);
                } else if a < p {
                    assert(after[a] == before[a] && after[b] == before[b - 1]);
                } else if a == p {
                    assert(after[b] == before[b - 1]);
                } else {
                    assert(after[a] == before[a - 1] && after[b] == before[b - 1]);
                }
            }
            assert forall|kk: usize| kk < i + 1 implies #[trigger] after.contains(kk) by {
                if kk == i {
                    assert(after[p as int] == i);
                } else {
                    assert(before.contains(kk));
                    let q = choose|q: int| 0 <= q < before.len() && before[q] == kk;
                    if q < p {
                        assert(after[q] == kk);
                    } else {
                        assert(after[q + 1] == kk);
                    }
                }
            }
            assert forall|a: int| 0 <= a < after.len() implies (#[trigger] after[a]) < i + 1 by {
                if a < p {
                    assert(after[a] == before[a]);
                } else if a > p {
                    assert(after[a] == before[a - 1]);
                }
            }
        }
        i += 1;
    }
    o
}

} // verus!
