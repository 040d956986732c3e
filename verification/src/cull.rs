//! AI-assisted culling: the checks before a folder is sent off to be
//! ranked, which of the picks are added to the story, where an export of
//! them lands, and what the user is told afterwards. The ranking itself is
//! a vision service's; running it, and the export, are the application's.
use vstd::prelude::*;
use crate::import_cards::ImportRegistry;
use crate::paths::{file_name_of, file_stem_of, path_file_name, stem_of_name};
use crate::preview::{push_radix, radix_digits};
use crate::text::{append, chars_of, eq_exec, str_views, string_of, views};

verus! {

broadcast use vstd::string::group_string_axioms;

/// The folders being culled right now, so a second run on the same folder
/// is refused instead of racing the first.
pub struct CullRegistry {
    folders: ImportRegistry,
}

impl CullRegistry {
    pub closed spec fn folders(&self) -> Set<Seq<char>> {
        self.folders.cards()
    }

    pub fn new() -> (r: CullRegistry)
        ensures
            r.folders() == Set::<Seq<char>>::empty(),
    {
        CullRegistry { folders: ImportRegistry::new() }
    }

    /// Register a run on `dir`; refused while one is already running.
    pub fn begin(&mut self, dir: &str) -> (r: Result<(), String>)
        ensures
            r is Ok <==> !old(self).folders().contains(dir@),
            r is Ok ==> final(self).folders() == old(self).folders().insert(dir@),
            r is Err ==> final(self).folders() == old(self).folders(),
            r matches Err(m) ==> m@ == "culling already in progress for this folder"@,
    {
        match self.folders.begin(dir) {
            Ok(()) => Ok(()),
            Err(_) => Err("culling already in progress for this folder".to_string()),
        }
    }

    /// The run on `dir` is over, however it ended.
    pub fn finish(&mut self, dir: &str)
        ensures
            final(self).folders() == old(self).folders().remove(dir@),
    {
        self.folders.finish(dir);
    }
}

pub open spec fn disabled_message() -> Seq<char> {
    "AI culling disabled"@
}

pub open spec fn no_key_message() -> Seq<char> {
    "no vision API key configured"@
}

/// Whether a run may start: at least one of its two outcomes (marking the
/// picks into the story, exporting them to the Desktop) must be on, and a
/// vision API key (an empty one counts as none) must be set, checked in
/// that order.
pub open spec fn cull_gate_of(mark_story: bool, export_desktop: bool, api_key: Option<Seq<char>>) -> Result<
    (),
    Seq<char>,
> {
    if !mark_story && !export_desktop {
        Err(disabled_message())
    } else if api_key is None || api_key->0.len() == 0 {
        Err(no_key_message())
    } else {
        Ok(())
    }
}

pub open spec fn opt_view(o: Option<String>) -> Option<Seq<char>> {
    match o {
        Some(s) => Some(s@),
        None => None,
    }
}

/// The checks a run passes before anything is ranked.
pub fn cull_gate(mark_story: bool, export_desktop: bool, api_key: &Option<String>) -> (r: Result<(), String>)
    ensures
        match r {
            Ok(()) => cull_gate_of(mark_story, export_desktop, opt_view(*api_key)) is Ok,
            Err(m) => cull_gate_of(mark_story, export_desktop, opt_view(*api_key)) == Err::<(), Seq<char>>(m@),
        },
{
    if !mark_story && !export_desktop {
        return Err("AI culling disabled".to_string());
    }
    let has_key = match api_key {
        Some(k) => chars_of(k.as_str()).len() > 0,
        None => false,
    };
    if !has_key {
        return Err("no vision API key configured".to_string());
    }
    Ok(())
}

/// The stem a picked photo is marked under: its file stem, or nothing.
pub open spec fn pick_stem(path: Seq<char>) -> Seq<char> {
    match stem_of_name(path_file_name(path)) {
        Some(s) => s,
        None => Seq::empty(),
    }
}

/// The stems of a sequence of picked photos.
pub open spec fn pick_stems(picked: Seq<Seq<char>>) -> Seq<Seq<char>> {
    picked.map_values(|p: Seq<char>| pick_stem(p))
}

/// The picks to add to the story, in the order they were picked: those
/// whose stem the story did not hold before the run, and of several picks
/// with one stem (a RAW and its JPEG) only the first. Marking only adds: a
/// photo already there is left alone, and none is toggled in and out again.
pub open spec fn picks_to_mark_of(existing: Seq<Seq<char>>, picked: Seq<Seq<char>>) -> Seq<Seq<char>>
    decreases picked.len(),
{
    if picked.len() == 0 {
        Seq::empty()
    } else {
        let before = picks_to_mark_of(existing, picked.drop_last());
        let st = pick_stem(picked.last());
        if existing.contains(st) || pick_stems(picked.drop_last()).contains(st) {
            before
        } else {
            before.push(picked.last())
        }
    }
}

fn listed_exec(v: &Vec<String>, s: &[char]) -> (r: bool)
    ensures
        r == str_views(v@).contains(s@),
{
    let mut i: usize = 0;
    while i < v.len()
        invariant
            i <= v@.len(),
            forall|j: int| 0 <= j < i ==> v@[j]@ != s@,
        decreases v@.len() - i,
    {
        if eq_exec(&chars_of(v[i].as_str()), s) {
            assert(str_views(v@)[i as int] == s@);
            return true;
        }
        i += 1;
    }
    assert forall|j: int| 0 <= j < str_views(v@).len() implies str_views(v@)[j] != s@ by {
        assert(str_views(v@)[j] == v@[j]@);
    }
    false
}

fn seen_exec(v: &Vec<Vec<char>>, s: &[char]) -> (r: bool)
    ensures
        r == views(v@).contains(s@),
{
    let mut i: usize = 0;
    while i < v.len()
        invariant
            i <= v@.len(),
            forall|j: int| 0 <= j < i ==> v@[j]@ != s@,
        decreases v@.len() - i,
    {
        if eq_exec(&v[i], s) {
            assert(views(v@)[i as int] == s@);
            return true;
        }
        i += 1;
    }
    assert forall|j: int| 0 <= j < views(v@).len() implies views(v@)[j] != s@ by {
        assert(views(v@)[j] == v@[j]@);
    }
    false
}

fn pick_stem_exec(path: &str) -> (r: Vec<char>)
    ensures
        r@ == pick_stem(path@),
{
    match file_stem_of(path) {
        Some(s) => chars_of(s.as_str()),
        None => Vec::new(),
    }
}

/// Of the picked photos' paths, those to mark into the story, given the
/// stems it held before the run.
pub fn picks_to_mark(existing: &Vec<String>, picked: &Vec<String>) -> (r: Vec<String>)
    ensures
        str_views(r@) == picks_to_mark_of(str_views(existing@), str_views(picked@)),
{
    let mut out: Vec<String> = Vec::new();
    let mut seen: Vec<Vec<char>> = Vec::new();
    let mut i: usize = 0;
    while i < picked.len()
        invariant
            i <= picked@.len(),
            str_views(out@) == picks_to_mark_of(str_views(existing@), str_views(picked@).take(i as int)),
            views(seen@) == pick_stems(str_views(picked@).take(i as int)),
        decreases picked@.len() - i,
    {
        let ghost ps = str_views(picked@);
        let ghost before = out@;
        let stem = pick_stem_exec(picked[i].as_str());
        let in_story = listed_exec(existing, &stem);
        let repeated = seen_exec(&seen, &stem);
        proof {
            assert(ps.take(i + 1).drop_last() =~= ps.take(i as int));
            assert(ps.take(i + 1).last() == picked@[i as int]@);
        }
        if !in_story && !repeated {
            let p = string_of(&chars_of(picked[i].as_str()));
            out.push(p);
            assert(str_views(out@) =~= str_views(before).push(picked@[i as int]@));
        }
        let ghost seen_before = views(seen@);
        seen.push(stem);
        assert(views(seen@) =~= seen_before.push(pick_stem(picked@[i as int]@)));
        assert(pick_stems(ps.take(i + 1)) =~= pick_stems(ps.take(i as int)).push(pick_stem(picked@[i as int]@)));
        i += 1;
    }
    assert(str_views(picked@).take(picked@.len() as int) =~= str_views(picked@));
    out
}

/// Marking a run's picks only adds to the story, once per photo: every
/// pick marked is one of the picks, with a stem the story did not hold,
/// no two with the same stem; and every picked stem ends up either already
/// in the story or marked.
pub proof fn law_marking_only_adds(existing: Seq<Seq<char>>, picked: Seq<Seq<char>>)
    ensures
        ({
            let r = picks_to_mark_of(existing, picked);
            &&& forall|i: int| 0 <= i < r.len() ==> !existing.contains(#[trigger] pick_stem(r[i]))
            &&& forall|i: int, j: int|
                0 <= i < j < r.len() ==> #[trigger] pick_stem(r[i]) != #[trigger] pick_stem(r[j])
            &&& forall|i: int| 0 <= i < r.len() ==> exists|k: int| 0 <= k < picked.len() && #[trigger] r[i] == picked[k]
            &&& forall|k: int|
                0 <= k < picked.len() ==> existing.contains(pick_stem(picked[k])) || pick_stems(r).contains(
                    #[trigger] pick_stem(picked[k]),
                )
        }),
    decreases picked.len(),
{
    if picked.len() > 0 {
        let init = picked.drop_last();
        let prev = picks_to_mark_of(existing, init);
        let last = picked.last();
        let st = pick_stem(last);
        let r = picks_to_mark_of(existing, picked);
        law_marking_only_adds(existing, init);
        assert forall|i: int| 0 <= i < prev.len() implies exists|k: int| 0 <= k < picked.len() && #[trigger] prev[i]
            == picked[k] by {
            let k = choose|k: int| 0 <= k < init.len() && prev[i] == init[k];
            assert(prev[i] == picked[k]);
        }
        if existing.contains(st) || pick_stems(init).contains(st) {
            assert(r == prev);
            assert forall|k: int| 0 <= k < picked.len() implies existing.contains(pick_stem(picked[k]))
                || pick_stems(r).contains(#[trigger] pick_stem(picked[k])) by {
                if k < init.len() {
                    assert(picked[k] == init[k]);
                } else if !existing.contains(st) {
                    let m = choose|m: int| 0 <= m < pick_stems(init).len() && pick_stems(init)[m] == st;
                    assert(init[m] == picked[m]);
                    assert(pick_stem(picked[m]) == st);
                }
            }
        } else {
            assert(r == prev.push(last));
            assert forall|i: int| 0 <= i < prev.len() implies #[trigger] pick_stem(prev[i]) != st by {
                let k = choose|k: int| 0 <= k < init.len() && prev[i] == init[k];
                assert(pick_stems(init)[k] == pick_stem(init[k]));
            }
            assert forall|i: int, j: int| 0 <= i < j < r.len() implies #[trigger] pick_stem(r[i])
                != #[trigger] pick_stem(r[j]) by {
                if j == prev.len() {
                    assert(r[j] == last);
                    assert(r[i] == prev[i]);
                } else {
                    assert(r[i] == prev[i] && r[j] == prev[j]);
                }
            }
            assert forall|i: int| 0 <= i < r.len() implies exists|k: int| 0 <= k < picked.len() && #[trigger] r[i]
                == picked[k] by {
                if i == prev.len() {
                    assert(r[i] == picked[picked.len() - 1]);
                } else {
                    assert(r[i] == prev[i]);
                }
            }
            assert forall|i: int| 0 <= i < r.len() implies !existing.contains(#[trigger] pick_stem(r[i])) by {
                if i < prev.len() {
                    assert(r[i] == prev[i]);
                }
            }
            assert forall|k: int| 0 <= k < picked.len() implies existing.contains(pick_stem(picked[k]))
                || pick_stems(r).contains(#[trigger] pick_stem(picked[k])) by {
                if k < init.len() {
                    assert(picked[k] == init[k]);
                    if !existing.contains(pick_stem(picked[k])) {
                        let m = choose|m: int| 0 <= m < pick_stems(prev).len() && pick_stems(prev)[m] == pick_stem(
                            init[k],
                        );
                        assert(pick_stems(r)[m] == pick_stems(prev)[m]);
                    }
                } else {
                    assert(pick_stems(r)[prev.len() as int] == st);
                }
            }
        }
    }
}

/// The Desktop folder the picks are exported to: named after the culled
/// folder, or `culled` where its path has no file name.
pub open spec fn cull_destination_of(home: Seq<char>, dir: Seq<char>) -> Seq<char> {
    let name = path_file_name(dir);
    home + "/Desktop/"@ + (if name.len() == 0 {
        "culled"@
    } else {
        name
    })
}

/// Where an export of the picks of `dir` lands, under the home folder
/// `home`.
pub fn cull_destination(home: &str, dir: &str) -> (r: String)
    ensures
        r@ == cull_destination_of(home@, dir@),
{
    let name = chars_of(file_name_of(dir).as_str());
    let mut out = chars_of(home);
    append(&mut out, &chars_of("/Desktop/"));
    if name.len() == 0 {
        append(&mut out, &chars_of("culled"));
    } else {
        append(&mut out, &name);
    }
    string_of(&out)
}

/// What became of the picks, as the closing notice says it.
pub open spec fn cull_outcome_of(exported_to: Option<Seq<char>>, marked: nat) -> Seq<char> {
    match exported_to {
        Some(dest) => if marked > 0 {
            "added to story, exported to "@ + dest
        } else {
            "exported to "@ + dest
        },
        None => if marked > 0 {
            "added to story"@
        } else {
            "kept"@
        },
    }
}

/// What became of the picks: added to the story, exported, both, or only
/// kept.
pub fn cull_outcome(exported_to: &Option<String>, marked: usize) -> (r: String)
    ensures
        r@ == cull_outcome_of(opt_view(*exported_to), marked as nat),
{
    match exported_to {
        Some(dest) => {
            let mut out = if marked > 0 {
                chars_of("added to story, exported to ")
            } else {
                chars_of("exported to ")
            };
            append(&mut out, &chars_of(dest.as_str()));
            string_of(&out)
        },
        None => if marked > 0 {
            "added to story".to_string()
        } else {
            "kept".to_string()
        },
    }
}

/// The closing notice: `{folder}: {picked} of {considered} kept, {outcome}`,
/// the folder being the culled folder's file name (empty where it has none).
pub open spec fn cull_notice_of(dir: Seq<char>, picked: nat, considered: nat, outcome: Seq<char>) -> Seq<
    char,
> {
    path_file_name(dir) + ": "@ + radix_digits(picked, 10) + " of "@ + radix_digits(considered, 10)
        + " kept, "@ + outcome
}

/// The notice the user gets when a run on `dir` ends.
pub fn cull_notice(dir: &str, picked: u64, considered: u64, outcome: &str) -> (r: String)
    ensures
        r@ == cull_notice_of(dir@, picked as nat, considered as nat, outcome@),
{
    let mut out = chars_of(file_name_of(dir).as_str());
    append(&mut out, &chars_of(": "));
    push_radix(&mut out, picked, 10);
    append(&mut out, &chars_of(" of "));
    push_radix(&mut out, considered, 10);
    append(&mut out, &chars_of(" kept, "));
    append(&mut out, &chars_of(outcome));
    string_of(&out)
}

} // verus!
