//! A photo's on-disk derivatives: the frame packed for the IPC bridge, the
//! naming of the local render cache and its pruning, who may publish a
//! render, and how many thumbnail decodes may run at once. The file system
//! is read and written by the caller.
use vstd::prelude::*;
use std::hash::{Hash, Hasher};
use crate::order::{is_order_of, key_before, sort_indices};
use crate::apple_photos::{is_asset, metadata_path, metadata_path_of, prefix};
use crate::paths::{file_stem_of, path_file_name, path_with_file_name, stem_of_name, with_file_name_of};
use crate::text::{append, chars_of, copy_range, ends_with, ends_with_exec, eq_exec, find, find_exec,
    index_of, lemma_find_from_bounds, lemma_find_from_skip, occurs_at, starts_with, starts_with_exec,
    str_views, string_of};

verus! {

// ---------------------------------------------------------------------------
// The developed frame
// ---------------------------------------------------------------------------

/// A 32-bit value as four little-endian bytes.
pub open spec fn le32(v: int) -> Seq<u8> {
    seq![(v % 256) as u8, ((v / 256) % 256) as u8, ((v / 65536) % 256) as u8, ((v / 16777216) % 256) as u8]
}

/// The packed frame: width, height, render and decode milliseconds (each
/// cut to 32 bits, as `as u32` does), little-endian, then the pixels.
pub open spec fn packed_frame(width: u32, height: u32, render_ms: u128, decode_ms: u128, rgba: Seq<u8>) -> Seq<u8> {
    le32(width as int) + le32(height as int) + le32(render_ms as int % 0x1_0000_0000)
        + le32(decode_ms as int % 0x1_0000_0000) + rgba
}

fn push_le32(out: &mut Vec<u8>, v: u32)
    ensures
        final(out)@ == old(out)@ + le32(v as int),
{
    out.push((v % 256) as u8);
    out.push(((v / 256) % 256) as u8);
    out.push(((v / 65536) % 256) as u8);
    out.push(((v / 16777216) % 256) as u8);
    assert(final(out)@ =~= old(out)@ + le32(v as int));
}

/// Pack a developed frame for the IPC bridge: four u32 of header, then the
/// RGBA bytes.
pub fn pack_developed_frame(width: u32, height: u32, render_ms: u128, decode_ms: u128, rgba: &[u8]) -> (r: Vec<u8>)
    ensures
        r@ == packed_frame(width, height, render_ms, decode_ms, rgba@),
{
    let mut out: Vec<u8> = Vec::new();
    push_le32(&mut out, width);
    push_le32(&mut out, height);
    push_le32(&mut out, (render_ms % 0x1_0000_0000) as u32);
    push_le32(&mut out, (decode_ms % 0x1_0000_0000) as u32);
    let mut i: usize = 0;
    let ghost head = out@;
    while i < rgba.len()
        invariant
            i <= rgba@.len(),
            out@ == head + rgba@.take(i as int),
        decreases rgba@.len() - i,
    {
        out.push(rgba[i]);
        assert(rgba@.take(i + 1) =~= rgba@.take(i as int).push(rgba@[i as int]));
        i += 1;
    }
    assert(rgba@.take(rgba@.len() as int) =~= rgba@);
    assert(out@ =~= packed_frame(width, height, render_ms, decode_ms, rgba@));
    out
}

// ---------------------------------------------------------------------------
// The camera's own JPEG
// ---------------------------------------------------------------------------

/// The extensions a camera gives the JPEG it writes beside a raw, in the
/// order they are tried.
pub open spec fn jpeg_extensions() -> Seq<Seq<char>> {
    seq![seq!['J', 'P', 'G'], seq!['j', 'p', 'g'], seq!['J', 'P', 'E', 'G'], seq!['j', 'p', 'e', 'g']]
}

/// The sibling `<stem>.<ext>` of `source`.
pub open spec fn sibling_with_ext(source: Seq<char>, stem: Seq<char>, ext: Seq<char>) -> Seq<char> {
    path_with_file_name(source, stem + seq!['.'] + ext)
}

/// Where the camera's JPEG of a raw may sit, in the order to look: one
/// sibling per extension, none where the path has no file stem.
pub open spec fn companion_jpeg_candidates_of(source: Seq<char>) -> Seq<Seq<char>> {
    match stem_of_name(path_file_name(source)) {
        None => Seq::empty(),
        Some(stem) => jpeg_extensions().map_values(|e: Seq<char>| sibling_with_ext(source, stem, e)),
    }
}

fn sibling_exec(source: &str, stem: &[char], ext: &[char]) -> (r: String)
    ensures
        r@ == sibling_with_ext(source@, stem@, ext@),
{
    let mut name = copy_range(stem, 0, stem.len());
    name.push('.');
    append(&mut name, ext);
    assert(name@ =~= stem@ + seq!['.'] + ext@);
    let name_s = string_of(&name);
    with_file_name_of(source, name_s.as_str())
}

/// The paths at which the camera's own JPEG of `source` may be found, in
/// the order the first existing one is to be taken.
pub fn companion_jpeg_candidates(source: &str) -> (r: Vec<String>)
    ensures
        r@.map_values(|s: String| s@) == companion_jpeg_candidates_of(source@),
{
    let stem_s = match file_stem_of(source) {
        Some(s) => s,
        None => {
            let r: Vec<String> = Vec::new();
            assert(r@.map_values(|s: String| s@) =~= Seq::<Seq<char>>::empty());
            return r;
        },
    };
    let stem = chars_of(stem_s.as_str());
    let e0: [char; 3] = ['J', 'P', 'G'];
    let e1: [char; 3] = ['j', 'p', 'g'];
    let e2: [char; 4] = ['J', 'P', 'E', 'G'];
    let e3: [char; 4] = ['j', 'p', 'e', 'g'];
    assert(e0@ =~= jpeg_extensions()[0]);
    assert(e1@ =~= jpeg_extensions()[1]);
    assert(e2@ =~= jpeg_extensions()[2]);
    assert(e3@ =~= jpeg_extensions()[3]);
    let mut r: Vec<String> = Vec::new();
    r.push(sibling_exec(source, &stem, &e0));
    r.push(sibling_exec(source, &stem, &e1));
    r.push(sibling_exec(source, &stem, &e2));
    r.push(sibling_exec(source, &stem, &e3));
    assert(r@.map_values(|s: String| s@) =~= companion_jpeg_candidates_of(source@));
    r
}

// ---------------------------------------------------------------------------
// The durable preview beside the photo
// ---------------------------------------------------------------------------

/// `<stem>.preview.jpg` beside `source`; none where it has no file stem.
pub open spec fn sidecar_beside(source: Seq<char>) -> Option<Seq<char>> {
    match stem_of_name(path_file_name(source)) {
        Some(stem) => Some(path_with_file_name(source, stem + ".preview.jpg"@)),
        None => None,
    }
}

/// Where a photo's durable developed preview lives: beside a file on disk;
/// beside an Apple Photos asset's metadata under the edits directory (none
/// for an asset path that is not valid).
pub open spec fn preview_sidecar_of(source: Seq<char>, edits: Seq<char>) -> Option<Seq<char>> {
    if starts_with(source, prefix()) {
        match metadata_path_of(source, edits) {
            Ok(p) => sidecar_beside(p),
            Err(_) => None,
        }
    } else {
        sidecar_beside(source)
    }
}

fn sidecar_beside_exec(source: &str) -> (r: Option<String>)
    ensures
        opt_str_view(r) == sidecar_beside(source@),
{
    let stem = match file_stem_of(source) {
        Some(s) => s,
        None => {
            return None;
        },
    };
    let mut name = chars_of(stem.as_str());
    let suffix = chars_of(".preview.jpg");
    append(&mut name, &suffix);
    let name_s = string_of(&name);
    Some(with_file_name_of(source, name_s.as_str()))
}

pub open spec fn opt_str_view(o: Option<String>) -> Option<Seq<char>> {
    match o {
        Some(s) => Some(s@),
        None => None,
    }
}

/// The durable `.preview.jpg` of a photo (`DSCF3098.RAF` →
/// `DSCF3098.preview.jpg`); an Apple Photos asset keeps it with its
/// metadata under `edits`.
pub fn preview_sidecar_path(source: &str, edits: &str) -> (r: Option<String>)
    ensures
        opt_str_view(r) == preview_sidecar_of(source@, edits@),
{
    if is_asset(source) {
        match metadata_path(source, edits) {
            Ok(p) => sidecar_beside_exec(p.as_str()),
            Err(_) => None,
        }
    } else {
        sidecar_beside_exec(source)
    }
}

/// The size the durable `.preview.jpg` is defined to hold.
pub const DURABLE_PREVIEW_EDGE: u32 = 2048;

/// The size grid cells are rendered and cached at.
pub const GRID_PREVIEW_EDGE: u32 = 768;

/// The disk allowance of the render cache.
pub const PREVIEW_CACHE_BUDGET_BYTES: u64 = 4294967296;

/// Whether a thumbnail rendered at `size` may be kept as the durable
/// preview: only one rendered at the size that file is defined to hold, so
/// the grid's small renders and the viewer's never overwrite each other.
pub fn persists_as_sidecar(size: u32) -> (r: bool)
    ensures
        r == (size >= DURABLE_PREVIEW_EDGE),
{
    size >= DURABLE_PREVIEW_EDGE
}

// ---------------------------------------------------------------------------
// The offline fallback
// ---------------------------------------------------------------------------

/// A file the offline lookup may serve: a `.jpg` whose name starts with the
/// photo-and-size prefix.
pub open spec fn is_candidate(name: Seq<char>, prefix: Seq<char>) -> bool {
    starts_with(name, prefix) && ends_with(name, seq!['.', 'j', 'p', 'g'])
}

/// Modification times as `max_by_key` orders them: an unreadable time
/// (none) below every readable one.
pub open spec fn time_le(a: Option<u64>, b: Option<u64>) -> bool {
    match (a, b) {
        (None, _) => true,
        (Some(_), None) => false,
        (Some(x), Some(y)) => x <= y,
    }
}

/// `i` is what `max_by_key` picks among the candidates: a candidate with the
/// greatest time, the last listed of those that share it.
pub open spec fn is_newest_match(files: Seq<(String, Option<u64>)>, prefix: Seq<char>, i: int) -> bool {
    &&& 0 <= i < files.len()
    &&& is_candidate(files[i].0@, prefix)
    &&& forall|j: int|
        0 <= j < files.len() && is_candidate(#[trigger] files[j].0@, prefix) ==> time_le(files[j].1, files[i].1)
    &&& forall|j: int|
        i < j < files.len() && is_candidate(#[trigger] files[j].0@, prefix) ==> !time_le(files[i].1, files[j].1)
}

/// Offline, the newest render of a photo at a size is the answer: among the
/// files of the cache directory (name, modification time), the newest whose
/// name carries `prefix` and ends in `.jpg`.
pub fn newest_matching(files: &Vec<(String, Option<u64>)>, prefix: &str) -> (r: Option<usize>)
    ensures
        match r {
            Some(i) => is_newest_match(files@, prefix@, i as int),
            None => forall|j: int| 0 <= j < files@.len() ==> !is_candidate(#[trigger] files@[j].0@, prefix@),
        },
{
    let p = chars_of(prefix);
    let jpg: [char; 4] = ['.', 'j', 'p', 'g'];
    assert(jpg@ =~= seq!['.', 'j', 'p', 'g']);
    let mut best: Option<usize> = None;
    let mut i: usize = 0;
    while i < files.len()
        invariant
            i <= files@.len(),
            p@ == prefix@,
            jpg@ == seq!['.', 'j', 'p', 'g'],
            match best {
                Some(b) => b < i && is_candidate(files@[b as int].0@, prefix@) && (forall|j: int|
                    0 <= j < i && is_candidate(#[trigger] files@[j].0@, prefix@) ==> time_le(
                        files@[j].1,
                        files@[b as int].1,
                    )) && (forall|j: int|
                    b < j < i && is_candidate(#[trigger] files@[j].0@, prefix@) ==> !time_le(
                        files@[b as int].1,
                        files@[j].1,
                    )),
                None => forall|j: int| 0 <= j < i ==> !is_candidate(#[trigger] files@[j].0@, prefix@),
            },
        decreases files@.len() - i,
    {
        let name = chars_of(files[i].0.as_str());
        if starts_with_exec(&name, &p) && ends_with_exec(&name, &jpg) {
            let take = match best {
                None => true,
                Some(b) => match (files[b].1, files[i].1) {
                    (None, _) => true,
                    (Some(_), None) => false,
                    (Some(x), Some(y)) => x <= y,
                },
            };
            if take {
                best = Some(i);
            }
        }
        i += 1;
    }
    best
}

// ---------------------------------------------------------------------------
// Publish generations
// ---------------------------------------------------------------------------

/// The latest publish claim of each photo, so that a slow render can tell it
/// has been superseded before it publishes.
pub struct PublishGenerations {
    slots: Vec<(String, u64)>,
}

pub open spec fn slot_of(slots: Seq<(String, u64)>, p: Seq<char>) -> Option<u64>
    decreases slots.len(),
{
    if slots.len() == 0 {
        None
    } else if slots.last().0@ == p {
        Some(slots.last().1)
    } else {
        slot_of(slots.drop_last(), p)
    }
}

impl PublishGenerations {
    /// Each photo has at most one slot.
    pub closed spec fn wf(&self) -> bool {
        forall|i: int, j: int|
            0 <= i < j < self.slots@.len() ==> (#[trigger] self.slots@[i]).0@ != (
            #[trigger] self.slots@[j]).0@
    }

    /// The latest claim of each photo that has one.
    pub closed spec fn claims(&self) -> Map<Seq<char>, u64> {
        Map::new(|p: Seq<char>| slot_of(self.slots@, p) is Some, |p: Seq<char>| slot_of(self.slots@, p)->0)
    }

    pub fn new() -> (r: PublishGenerations)
        ensures
            r.wf(),
            r.claims() == Map::<Seq<char>, u64>::empty(),
    {
        let r = PublishGenerations { slots: Vec::new() };
        assert(r.claims() =~= Map::<Seq<char>, u64>::empty());
        r
    }

    fn find(&self, p: &[char]) -> (r: Option<usize>)
        ensures
            match r {
                Some(i) => i < self.slots@.len() && self.slots@[i as int].0@ == p@,
                None => forall|i: int| 0 <= i < self.slots@.len() ==> self.slots@[i].0@ != p@,
            },
    {
        let mut i: usize = 0;
        while i < self.slots.len()
            invariant
                i <= self.slots@.len(),
                forall|j: int| 0 <= j < i ==> self.slots@[j].0@ != p@,
            decreases self.slots@.len() - i,
        {
            let q = chars_of(self.slots[i].0.as_str());
            if eq_exec(&q, p) {
                return Some(i);
            }
            i += 1;
        }
        None
    }
}

proof fn lemma_slot_of(slots: Seq<(String, u64)>, p: Seq<char>)
    requires
        forall|i: int, j: int|
            0 <= i < j < slots.len() ==> (#[trigger] slots[i]).0@ != (#[trigger] slots[j]).0@,
    ensures
        (forall|i: int| 0 <= i < slots.len() ==> slots[i].0@ != p) ==> slot_of(slots, p) is None,
        forall|i: int|
            0 <= i < slots.len() && slots[i].0@ == p ==> slot_of(slots, p) == Some(slots[i].1),
    decreases slots.len(),
{
    if slots.len() > 0 {
        let d = slots.drop_last();
        let n = slots.len() - 1;
        assert forall|i: int| 0 <= i < d.len() implies d[i] == slots[i] by {}
        lemma_slot_of(d, p);
        assert forall|i: int| 0 <= i < slots.len() && slots[i].0@ == p implies slot_of(slots, p)
            == Some(slots[i].1) by {
            if i < n {
                assert(slots[i].0@ != slots[n].0@);
                assert(d[i] == slots[i]);
            }
        }
    }
}

/// The claim that comes after `m`'s current one for `p`.
pub open spec fn next_claim(m: Map<Seq<char>, u64>, p: Seq<char>) -> int {
    if m.dom().contains(p) {
        m[p] + 1
    } else {
        1
    }
}

/// Claim the right to publish this photo, invalidating any in-flight publish.
pub fn next_publish_generation(gens: &mut PublishGenerations, path: &str) -> (r: u64)
    requires
        old(gens).wf(),
        next_claim(old(gens).claims(), path@) <= u64::MAX,
    ensures
        final(gens).wf(),
        r == next_claim(old(gens).claims(), path@),
        final(gens).claims() == old(gens).claims().insert(path@, r),
{
    let p = chars_of(path);
    let ghost before = gens.slots@;
    let ghost old_claims = gens.claims();
    proof {
        lemma_slot_of(before, path@);
    }
    match gens.find(&p) {
        Some(i) => {
            let name = gens.slots[i].0.clone();
            let g = gens.slots[i].1 + 1;
            gens.slots.set(i, (name, g));
            let ghost after = gens.slots@;
            assert forall|a: int| 0 <= a < after.len() implies (#[trigger] after[a]).0@ == before[a].0@ by {}
            assert forall|q: Seq<char>| slot_of(after, q) == (if q == path@ {
                Some(g)
            } else {
                slot_of(before, q)
            }) by {
                lemma_slot_of(before, q);
                assert forall|a: int, b: int| 0 <= a < b < after.len() implies (#[trigger] after[a]).0@
                    != (#[trigger] after[b]).0@ by {
                    assert(after[a].0@ == before[a].0@);
                    assert(after[b].0@ == before[b].0@);
                }
                lemma_slot_of(after, q);
                if q != path@ {
                    if exists|a: int| 0 <= a < before.len() && before[a].0@ == q {
                        let a = choose|a: int| 0 <= a < before.len() && before[a].0@ == q;
                        assert(after[a] == before[a]);
                    } else {
                        assert forall|b: int| 0 <= b < after.len() implies after[b].0@ != q by {
                            assert(after[b].0@ == before[b].0@);
                        }
                    }
                } else {
                    assert(after[i as int].0@ == q);
                }
            }
            assert(gens.claims() =~= old_claims.insert(path@, g));
            g
        },
        None => {
            gens.slots.push((string_of(&p), 1));
            let ghost after = gens.slots@;
            assert(after.drop_last() =~= before);
            assert(gens.claims() =~= old_claims.insert(path@, 1));
            1
        },
    }
}

/// The latest claim on this photo, none where it was never claimed.
pub fn current_publish_generation(gens: &PublishGenerations, path: &str) -> (r: Option<u64>)
    requires
        gens.wf(),
    ensures
        r == (if gens.claims().dom().contains(path@) {
            Some(gens.claims()[path@])
        } else {
            None
        }),
{
    let p = chars_of(path);
    proof {
        lemma_slot_of(gens.slots@, path@);
    }
    match gens.find(&p) {
        Some(i) => Some(gens.slots[i].1),
        None => None,
    }
}

/// Is this publish still the newest one claimed for the photo? (A photo
/// nobody has claimed may always publish.)
pub fn publish_generation_is_current(gens: &PublishGenerations, path: &str, generation: u64) -> (r: bool)
    requires
        gens.wf(),
    ensures
        r == (!gens.claims().dom().contains(path@) || gens.claims()[path@] == generation),
{
    let p = chars_of(path);
    proof {
        lemma_slot_of(gens.slots@, path@);
    }
    match gens.find(&p) {
        Some(i) => gens.slots[i].1 == generation,
        None => true,
    }
}

/// Only the newest claim may publish: right after a claim it is current and
/// every earlier claim on the photo is not; a claim on one photo leaves every
/// other photo's claims as they were.
pub proof fn law_newest_claim_publishes(m: Map<Seq<char>, u64>, p: Seq<char>, q: Seq<char>, earlier: u64)
    requires
        next_claim(m, p) <= u64::MAX,
        m.dom().contains(p) ==> earlier <= m[p],
        !m.dom().contains(p) ==> earlier == 0,
    ensures
        ({
            let g = next_claim(m, p) as u64;
            let m2 = m.insert(p, g);
            &&& m2.dom().contains(p) && m2[p] == g
            &&& m2[p] != earlier
            &&& q != p ==> (m2.dom().contains(q) == m.dom().contains(q) && (m.dom().contains(q) ==> m2[q] == m[q]))
        }),
{
}

/// The claims after claiming each path of `paths` in turn.
pub open spec fn claim_all(m: Map<Seq<char>, u64>, paths: Seq<Seq<char>>) -> Map<Seq<char>, u64>
    decreases paths.len(),
{
    if paths.len() == 0 {
        m
    } else {
        let m1 = claim_all(m, paths.drop_last());
        m1.insert(paths.last(), next_claim(m1, paths.last()) as u64)
    }
}

/// Whether a generation of `p` may publish under the claims `m`.
pub open spec fn is_current(m: Map<Seq<char>, u64>, p: Seq<char>, g: u64) -> bool {
    !m.dom().contains(p) || m[p] == g
}

/// Claims on other photos, any number of them, never change whether a
/// generation of `p` may publish; and the next claim on `p` after them is
/// larger than every earlier one, and the only one current.
pub proof fn law_claims_elsewhere(m: Map<Seq<char>, u64>, others: Seq<Seq<char>>, p: Seq<char>, g: u64)
    requires
        forall|i: int| 0 <= i < others.len() ==> others[i] != p,
    ensures
        claim_all(m, others).dom().contains(p) == m.dom().contains(p),
        m.dom().contains(p) ==> claim_all(m, others)[p] == m[p],
        is_current(claim_all(m, others), p, g) == is_current(m, p, g),
        next_claim(claim_all(m, others), p) <= u64::MAX ==> ({
            let g2 = next_claim(claim_all(m, others), p) as u64;
            let after = claim_all(m, others).insert(p, g2);
            &&& is_current(after, p, g2)
            &&& (m.dom().contains(p) ==> g2 > m[p] && !is_current(after, p, m[p]))
        }),
    decreases others.len(),
{
    if others.len() > 0 {
        law_claims_elsewhere(m, others.drop_last(), p, g);
        assert(others.last() == others[others.len() - 1]);
    }
}

// ---------------------------------------------------------------------------
// Thumbnail decode concurrency
// ---------------------------------------------------------------------------

/// Bounds how many thumbnail decodes run at once.
pub struct ThumbSemaphore {
    count: usize,
    max: usize,
}

impl ThumbSemaphore {
    pub closed spec fn count(&self) -> usize {
        self.count
    }

    pub closed spec fn max(&self) -> usize {
        self.max
    }

    pub fn new(max: usize) -> (r: ThumbSemaphore)
        ensures
            r.count() == 0,
            r.max() == max,
    {
        ThumbSemaphore { count: 0, max }
    }

    /// Take a permit if one is free; a caller that gets `false` waits for a
    /// release and tries again.
    pub fn acquire(&mut self) -> (r: bool)
        ensures
            final(self).max() == old(self).max(),
            r == (old(self).count() < old(self).max()),
            r ==> final(self).count() == old(self).count() + 1,
            !r ==> final(self).count() == old(self).count(),
            old(self).count() <= old(self).max() ==> final(self).count() <= final(self).max(),
    {
        if self.count < self.max {
            self.count = self.count + 1;
            true
        } else {
            false
        }
    }

    /// Give a permit back.
    pub fn release(&mut self)
        requires
            old(self).count() > 0,
        ensures
            final(self).max() == old(self).max(),
            final(self).count() == old(self).count() - 1,
    {
        self.count = self.count - 1;
    }
}

// ---------------------------------------------------------------------------
// Render cache names
// ---------------------------------------------------------------------------

/// The lower-case digit of a value below 16.
pub open spec fn digit_char(d: int) -> char {
    if d < 10 {
        (d + 48) as char
    } else {
        (d + 87) as char
    }
}

/// `n` hex digits of `v`, zero-padded (`{:0n$x}` for a value that fits).
pub open spec fn hex_fixed(v: nat, n: nat) -> Seq<char>
    decreases n,
{
    if n == 0 {
        Seq::empty()
    } else {
        hex_fixed(v / 16, (n - 1) as nat).push(digit_char((v % 16) as int))
    }
}

/// The digits of `v` in `base`, without leading zeros (`0` for zero).
pub open spec fn radix_digits(v: nat, base: nat) -> Seq<char>
    decreases v,
{
    if base < 2 || v < base {
        seq![digit_char(v as int)]
    } else {
        proof {
            assert(v / base < v) by (nonlinear_arith)
                requires
                    base >= 2,
                    v >= base,
            ;
        }
        radix_digits(v / base, base).push(digit_char((v % base) as int))
    }
}

pub open spec fn dash() -> Seq<char> {
    seq!['-']
}

/// `{key:016x}-{max_px}-{version:x}.jpg`.
pub open spec fn cache_name_of(key: u64, max_px: u32, version: u64) -> Seq<char> {
    hex_fixed(key as nat, 16) + dash() + radix_digits(max_px as nat, 10) + dash() + radix_digits(
        version as nat,
        16,
    ) + seq!['.', 'j', 'p', 'g']
}

/// The photo-and-size part of a cache file name — `{photo}-{size}` for
/// `{photo}-{size}-{version}.jpg` — that pruning groups renders by; a name
/// without a `-` is its own group.
pub open spec fn group_key_of(name: Seq<char>) -> Seq<char> {
    match index_of(name, '-') {
        Some(i) => if 0 <= i < name.len() {
            let rest = name.skip(i + 1);
            let size = match index_of(rest, '-') {
                Some(j) => if 0 <= j <= rest.len() {
                    rest.take(j)
                } else {
                    rest
                },
                None => rest,
            };
            name.take(i) + dash() + size
        } else {
            name
        },
        None => name,
    }
}

pub fn digit_exec(d: u64) -> (r: char)
    requires
        d < 16,
    ensures
        r == digit_char(d as int),
{
    let b = d as u8;
    if b < 10 {
        (b + 48) as char
    } else {
        (b + 87) as char
    }
}

pub(crate) fn push_hex_fixed(out: &mut Vec<char>, v: u64, n: usize)
    ensures
        final(out)@ == old(out)@ + hex_fixed(v as nat, n as nat),
    decreases n,
{
    if n > 0 {
        push_hex_fixed(out, v / 16, n - 1);
        out.push(digit_exec(v % 16));
        assert(final(out)@ =~= old(out)@ + hex_fixed(v as nat, n as nat));
    } else {
        assert(old(out)@ + hex_fixed(v as nat, 0) =~= old(out)@);
    }
}

pub fn push_radix(out: &mut Vec<char>, v: u64, base: u64)
    requires
        2 <= base <= 16,
    ensures
        final(out)@ == old(out)@ + radix_digits(v as nat, base as nat),
    decreases v,
{
    if v < base {
        out.push(digit_exec(v));
        assert(final(out)@ =~= old(out)@ + radix_digits(v as nat, base as nat));
    } else {
        assert(v / base < v) by (nonlinear_arith)
            requires
                base >= 2,
                v >= base,
        ;
        push_radix(out, v / base, base);
        out.push(digit_exec(v % base));
        assert(final(out)@ =~= old(out)@ + radix_digits(v as nat, base as nat));
    }
}

/// The name of a photo's render in the cache, from the photo's key.
pub fn cache_name_for_key(key: u64, max_px: u32, version: u64) -> (r: String)
    ensures
        r@ == cache_name_of(key, max_px, version),
{
    let mut out: Vec<char> = Vec::new();
    push_hex_fixed(&mut out, key, 16);
    out.push('-');
    push_radix(&mut out, max_px as u64, 10);
    out.push('-');
    push_radix(&mut out, version, 16);
    out.push('.');
    out.push('j');
    out.push('p');
    out.push('g');
    assert(out@ =~= cache_name_of(key, max_px, version));
    string_of(&out)
}

/// The 64-bit key std's `DefaultHasher::new()` gives a path hashed as a
/// `Path` (every `DefaultHasher::new()` starts from the same state, so the
/// key is a function of the path for a given build of std).
pub uninterp spec fn path_hash_key(path: Seq<char>) -> u64;

/// std's `DefaultHasher` over the photo's path: the key that gives each
/// photo its own cache names. Its value is named, not spelled out.
#[verifier::external_body]
pub fn developed_preview_source_key(path: &str) -> (r: u64)
    ensures
        r == path_hash_key(path@),
{
    let mut hasher = std::collections::hash_map::DefaultHasher::new();
    std::path::Path::new(path).hash(&mut hasher);
    hasher.finish()
}

/// `{photo}-{size}-{version}.jpg`: built here, taken apart by pruning, which
/// groups on the first two fields.
pub fn developed_preview_cache_name(path: &str, max_px: u32, version: u64) -> (r: String)
    ensures
        r@ == cache_name_of(path_hash_key(path@), max_px, version),
{
    let key = developed_preview_source_key(path);
    cache_name_for_key(key, max_px, version)
}

/// `{key:016x}-{max_px}-`: what every render of a photo at one size starts
/// with.
pub open spec fn cache_prefix_of(key: u64, max_px: u32) -> Seq<char> {
    hex_fixed(key as nat, 16) + dash() + radix_digits(max_px as nat, 10) + dash()
}

/// The prefix every render of a photo at one size starts with.
pub fn cache_prefix_for_key(key: u64, max_px: u32) -> (r: String)
    ensures
        r@ == cache_prefix_of(key, max_px),
{
    let mut out: Vec<char> = Vec::new();
    push_hex_fixed(&mut out, key, 16);
    out.push('-');
    push_radix(&mut out, max_px as u64, 10);
    out.push('-');
    assert(out@ =~= hex_fixed(key as nat, 16) + dash() + radix_digits(max_px as nat, 10) + dash());
    string_of(&out)
}

/// The group a cache file belongs to when pruning.
pub fn prune_group_key(name: &str) -> (r: String)
    ensures
        r@ == group_key_of(name@),
{
    let n = chars_of(name);
    let d: [char; 1] = ['-'];
    assert(d@ =~= seq!['-']);
    match find_exec(&n, &d) {
        None => string_of(&n),
        Some(i) => {
            proof {
                lemma_find_from_bounds(n@, d@, 0);
            }
            assert(occurs_at(n@, d@, i as int));
            assert(i < n.len());
            let rest = copy_range(&n, i + 1, n.len());
            assert(rest@ =~= n@.skip(i + 1));
            let size = match find_exec(&rest, &d) {
                Some(j) => {
                    proof {
                        lemma_find_from_bounds(rest@, d@, 0);
                    }
                    let s = copy_range(&rest, 0, j);
                    assert(s@ =~= rest@.take(j as int));
                    s
                },
                None => rest,
            };
            let mut out = copy_range(&n, 0, i);
            assert(out@ =~= n@.take(i as int));
            out.push('-');
            crate::text::append(&mut out, &size);
            assert(out@ =~= group_key_of(name@));
            string_of(&out)
        },
    }
}

proof fn lemma_digit(d: int)
    requires
        0 <= d < 16,
    ensures
        digit_char(d) != '-',
        digit_char(d) != '.',
        (digit_char(d) as u32) == (if d < 10 { d + 48 } else { d + 87 }),
{
}

proof fn lemma_hex_fixed(v: nat, n: nat)
    ensures
        hex_fixed(v, n).len() == n,
        forall|i: int| 0 <= i < n ==> #[trigger] hex_fixed(v, n)[i] != '-',
    decreases n,
{
    if n > 0 {
        lemma_hex_fixed(v / 16, (n - 1) as nat);
        lemma_digit((v % 16) as int);
        let h = hex_fixed(v, n);
        assert forall|i: int| 0 <= i < n implies #[trigger] h[i] != '-' by {
            if i < n - 1 {
                assert(h[i] == hex_fixed(v / 16, (n - 1) as nat)[i]);
            }
        }
    }
}

/// The numeric value of a digit string in `base`.
pub open spec fn digits_value(ds: Seq<char>, base: nat) -> int
    decreases ds.len(),
{
    if ds.len() == 0 {
        0
    } else {
        digits_value(ds.drop_last(), base) * base + (if (ds.last() as u32) < 58 {
            ds.last() as u32 - 48
        } else {
            ds.last() as u32 - 87
        })
    }
}

pub(crate) proof fn lemma_radix(v: nat, base: nat)
    requires
        2 <= base <= 16,
    ensures
        radix_digits(v, base).len() >= 1,
        forall|i: int| 0 <= i < radix_digits(v, base).len() ==> #[trigger] radix_digits(v, base)[i] != '-',
        digits_value(radix_digits(v, base), base) == v,
    decreases v,
{
    let r = radix_digits(v, base);
    if v < base {
        lemma_digit(v as int);
        assert(r.drop_last() =~= Seq::<char>::empty());
        assert(digits_value(r.drop_last(), base) == 0);
        assert(0 * base == 0);
    } else {
        assert(v / base < v) by (nonlinear_arith)
            requires
                base >= 2,
                v >= base,
        ;
        lemma_radix(v / base, base);
        lemma_digit((v % base) as int);
        let p = radix_digits(v / base, base);
        assert(r.drop_last() =~= p);
        assert forall|i: int| 0 <= i < r.len() implies #[trigger] r[i] != '-' by {
            if i < r.len() - 1 {
                assert(r[i] == p[i]);
            }
        }
        assert(v == (v / base) * base + v % base) by (nonlinear_arith)
            requires
                base >= 2,
        ;
        assert(digits_value(p, base) == v / base);
        assert(digits_value(r, base) == digits_value(p, base) * base + (v % base));
    }
}

/// Renders of one photo at one size share a pruning group whatever their
/// version, and the group names exactly the photo and the size: two sizes
/// of one photo are two groups.
pub proof fn law_cache_names_group_by_photo_and_size(key: u64, max_px: u32, version: u64, other_px: u32)
    ensures
        group_key_of(cache_name_of(key, max_px, version)) == hex_fixed(key as nat, 16) + dash()
            + radix_digits(max_px as nat, 10),
        other_px != max_px ==> group_key_of(cache_name_of(key, max_px, version)) != group_key_of(
            cache_name_of(key, other_px, version),
        ),
{
    lemma_group_of_name(key, max_px, version);
    lemma_group_of_name(key, other_px, version);
    if other_px != max_px {
        lemma_radix(max_px as nat, 10);
        lemma_radix(other_px as nat, 10);
        let h = hex_fixed(key as nat, 16);
        lemma_hex_fixed(key as nat, 16);
        let g1 = h + dash() + radix_digits(max_px as nat, 10);
        let g2 = h + dash() + radix_digits(other_px as nat, 10);
        assert(g1.skip(17) =~= radix_digits(max_px as nat, 10));
        assert(g2.skip(17) =~= radix_digits(other_px as nat, 10));
    }
}

proof fn lemma_group_of_name(key: u64, max_px: u32, version: u64)
    ensures
        group_key_of(cache_name_of(key, max_px, version)) == hex_fixed(key as nat, 16) + dash()
            + radix_digits(max_px as nat, 10),
{
    let h = hex_fixed(key as nat, 16);
    let d = radix_digits(max_px as nat, 10);
    let vv = radix_digits(version as nat, 16);
    lemma_hex_fixed(key as nat, 16);
    lemma_radix(max_px as nat, 10);
    lemma_radix(version as nat, 16);
    let name = cache_name_of(key, max_px, version);
    assert(name =~= h + dash() + (d + dash() + vv + seq!['.', 'j', 'p', 'g']));
    assert forall|j: int| 0 <= j < 16 implies !occurs_at(name, dash(), j) by {
        assert(name.subrange(j, j + 1)[0] == h[j]);
    }
    lemma_find_from_skip(name, dash(), 0, 16);
    assert(name.subrange(16, 17) =~= dash());
    assert(index_of(name, '-') == Some(16int)) by {
        assert(seq!['-'] =~= dash());
    }
    let rest = name.skip(17);
    assert(rest =~= d + dash() + vv + seq!['.', 'j', 'p', 'g']);
    let k = d.len() as int;
    assert forall|j: int| 0 <= j < k implies !occurs_at(rest, dash(), j) by {
        assert(rest.subrange(j, j + 1)[0] == d[j]);
    }
    lemma_find_from_skip(rest, dash(), 0, k);
    assert(rest.subrange(k, k + 1) =~= dash());
    assert(index_of(rest, '-') == Some(k)) by {
        assert(seq!['-'] =~= dash());
    }
    assert(rest.take(k) =~= d);
    assert(name.take(16) =~= h);
}

/// `16^n`.
pub open spec fn pow16(n: nat) -> nat
    decreases n,
{
    if n == 0 {
        1
    } else {
        16 * pow16((n - 1) as nat)
    }
}

proof fn lemma_digit_char_injective(x: int, y: int)
    requires
        0 <= x < 16,
        0 <= y < 16,
        digit_char(x) == digit_char(y),
    ensures
        x == y,
{
    lemma_digit(x);
    lemma_digit(y);
}

proof fn lemma_hex_fixed_injective(a: nat, b: nat, n: nat)
    requires
        a < pow16(n),
        b < pow16(n),
        hex_fixed(a, n) == hex_fixed(b, n),
    ensures
        a == b,
    decreases n,
{
    if n > 0 {
        let p = pow16((n - 1) as nat);
        assert(hex_fixed(a, n).last() == digit_char((a % 16) as int));
        assert(hex_fixed(b, n).last() == digit_char((b % 16) as int));
        lemma_digit_char_injective((a % 16) as int, (b % 16) as int);
        assert(hex_fixed(a / 16, (n - 1) as nat) == hex_fixed(a, n).drop_last());
        assert(hex_fixed(b / 16, (n - 1) as nat) == hex_fixed(b, n).drop_last());
        assert(a / 16 < p && b / 16 < p) by (nonlinear_arith)
            requires
                a < 16 * p,
                b < 16 * p,
        ;
        lemma_hex_fixed_injective(a / 16, b / 16, (n - 1) as nat);
        assert(a == 16 * (a / 16) + a % 16 && b == 16 * (b / 16) + b % 16) by (nonlinear_arith);
    }
}

/// The offline lookup never crosses photos or sizes: a photo's prefix at a
/// size begins a render's name exactly when the render is of that photo
/// (its key) at that size.
pub proof fn law_prefix_picks_one_photo_and_size(k1: u64, p1: u32, k2: u64, p2: u32, version: u64)
    ensures
        starts_with(cache_name_of(k2, p2, version), cache_prefix_of(k1, p1)) <==> (k1 == k2 && p1
            == p2),
{
    let h1 = hex_fixed(k1 as nat, 16);
    let h2 = hex_fixed(k2 as nat, 16);
    let d1 = radix_digits(p1 as nat, 10);
    let d2 = radix_digits(p2 as nat, 10);
    let vv = radix_digits(version as nat, 16);
    lemma_hex_fixed(k1 as nat, 16);
    lemma_hex_fixed(k2 as nat, 16);
    lemma_radix(p1 as nat, 10);
    lemma_radix(p2 as nat, 10);
    let pre = cache_prefix_of(k1, p1);
    let name = cache_name_of(k2, p2, version);
    assert(name =~= h2 + dash() + d2 + dash() + (vv + seq!['.', 'j', 'p', 'g']));
    if k1 == k2 && p1 == p2 {
        assert(name.subrange(0, pre.len() as int) =~= pre);
    }
    if starts_with(name, pre) {
        let l1 = d1.len() as int;
        let l2 = d2.len() as int;
        assert(pre.len() == 18 + l1);
        assert forall|i: int| 0 <= i < pre.len() implies name[i] == pre[i] by {
            assert(name.subrange(0, pre.len() as int)[i] == name[i]);
        }
        assert(h1 =~= h2) by {
            assert forall|i: int| 0 <= i < 16 implies h1[i] == h2[i] by {
                assert(pre[i] == h1[i]);
                assert(name[i] == h2[i]);
            }
        }
        assert(pow16(16) == 18446744073709551616) by {
            reveal_with_fuel(pow16, 17);
        }
        lemma_hex_fixed_injective(k1 as nat, k2 as nat, 16);
        assert(pre[17 + l1] == '-');
        if l1 < l2 {
            assert(name[17 + l1] == d2[l1]);
        } else if l1 > l2 {
            assert(name[17 + l2] == '-');
            assert(pre[17 + l2] == d1[l2]);
        }
        assert(d1 =~= d2) by {
            assert forall|i: int| 0 <= i < l1 implies d1[i] == d2[i] by {
                assert(pre[17 + i] == d1[i]);
                assert(name[17 + i] == d2[i]);
            }
        }
    }
}

// ---------------------------------------------------------------------------
// Pruning the render cache
// ---------------------------------------------------------------------------

/// One cached render: the group of its name (`{photo}-{size}`, numbered by
/// the caller), when it was written, and its size.
pub struct PruneEntry {
    pub group: usize,
    pub mtime: u64,
    pub size: u64,
}

/// Which renders to remove: the stale versions, and the newest renders the
/// disk allowance has no room for.
pub struct PrunePlan {
    pub stale: Vec<usize>,
    pub evicted: Vec<usize>,
}

/// `i` is newer than `j` (on equal times, listed first).
pub open spec fn newer(es: Seq<PruneEntry>, i: int, j: int) -> bool {
    es[i].mtime > es[j].mtime || (es[i].mtime == es[j].mtime && i < j)
}

/// `i` is its group's survivor: newer than every other render of the group.
pub open spec fn is_newest_of_group(es: Seq<PruneEntry>, i: int) -> bool {
    forall|j: int| 0 <= j < es.len() && j != i && es[j].group == es[i].group ==> newer(es, i, j)
}

pub open spec fn indices(n: nat) -> Seq<usize> {
    Seq::new(n, |i: int| i as usize)
}

pub open spec fn stale_pred(es: Seq<PruneEntry>) -> spec_fn(usize) -> bool {
    |i: usize| !is_newest_of_group(es, i as int)
}

pub open spec fn survivor_pred(es: Seq<PruneEntry>) -> spec_fn(usize) -> bool {
    |i: usize| is_newest_of_group(es, i as int)
}

/// Newest first: ascending in this key.
pub open spec fn age_keys(es: Seq<PruneEntry>) -> Seq<u64> {
    Seq::new(es.len(), |i: int| (u64::MAX - es[i].mtime) as u64)
}

/// Keeping renders newest first while they fit the allowance: the renders
/// that do not fit, and the bytes of those kept.
pub open spec fn budget_walk(es: Seq<PruneEntry>, budget: int, s: Seq<usize>) -> (Seq<usize>, int)
    decreases s.len(),
{
    if s.len() == 0 {
        (Seq::empty(), 0)
    } else {
        let (ev, used) = budget_walk(es, budget, s.drop_last());
        let x = s.last() as int;
        if used + es[x].size <= budget {
            (ev, used + es[x].size)
        } else {
            (ev.push(s.last()), used)
        }
    }
}

/// A prune: every render but the newest of each photo-and-size group is
/// stale; the survivors, newest first, are kept while the allowance lasts,
/// and the ones that do not fit are evicted.
pub open spec fn is_prune_plan(es: Seq<PruneEntry>, budget: int, plan: PrunePlan) -> bool {
    &&& plan.stale@ == indices(es.len()).filter(stale_pred(es))
    &&& exists|o: Seq<usize>|
        #![trigger budget_walk(es, budget, o.filter(survivor_pred(es)))]
        is_order_of(age_keys(es), o) && plan.evicted@ == budget_walk(
            es,
            budget,
            o.filter(survivor_pred(es)),
        ).0
}

/// Decide a prune of the render cache: one render per photo per size (the
/// newest), then the newest renders that fit `budget_bytes`.
pub fn plan_preview_prune(entries: &Vec<PruneEntry>, groups: usize, budget_bytes: u64) -> (r: PrunePlan)
    requires
        forall|i: int| 0 <= i < entries@.len() ==> (#[trigger] entries@[i]).group < groups,
    ensures
        is_prune_plan(entries@, budget_bytes as int, r),
{
    let ghost es = entries@;
    let n = entries.len();
    // the newest render of each group so far
    let mut best: Vec<Option<usize>> = Vec::new();
    let mut g: usize = 0;
    while g < groups
        invariant
            g <= groups,
            best@.len() == g,
            forall|k: int| 0 <= k < g ==> best@[k] is None,
        decreases groups - g,
    {
        best.push(None);
        g += 1;
    }
    let mut i: usize = 0;
    while i < n
        invariant
            n == es.len(),
            es == entries@,
            i <= n,
            best@.len() == groups,
            forall|k: int| 0 <= k < n ==> (#[trigger] es[k]).group < groups,
            forall|gg: int|
                0 <= gg < groups ==> match #[trigger] best@[gg] {
                    Some(b) => b < i && es[b as int].group == gg && forall|j: int|
                        0 <= j < i && j != b && es[j].group == gg ==> newer(es, b as int, j),
                    None => forall|j: int| 0 <= j < i ==> es[j].group != gg,
                },
        decreases n - i,
    {
        let gi = entries[i].group;
        let ghost old_best = best@;
        let replace = match best[gi] {
            None => true,
            Some(b) => entries[i].mtime > entries[b].mtime,
        };
        if replace {
            best.set(gi, Some(i));
        }
        proof {
            assert forall|gg: int| 0 <= gg < groups implies match #[trigger] best@[gg] {
                Some(b) => b < i + 1 && es[b as int].group == gg && forall|j: int|
                    0 <= j < i + 1 && j != b && es[j].group == gg ==> newer(es, b as int, j),
                None => forall|j: int| 0 <= j < i + 1 ==> es[j].group != gg,
            } by {
                if gg != gi as int {
                    assert(best@[gg] == old_best[gg]);
                } else {
                    match old_best[gg] {
                        None => {
                            assert(best@[gg] == Some(i));
                        },
                        Some(b) => {
                            if replace {
                                assert(best@[gg] == Some(i));
                                assert forall|j: int| 0 <= j < i + 1 && j != i && es[j].group == gg implies newer(es, i as int, j) by {
                                    if j != b as int {
                                        assert(newer(es, b as int, j));
                                    }
                                }
                            } else {
                                assert(best@[gg] == Some(b));
                                assert(newer(es, b as int, i as int));
                            }
                        },
                    }
                }
            }
        }
        i += 1;
    }
    proof {
        assert forall|k: int| 0 <= k < n implies (best@[es[k].group as int] == Some(k as usize))
            == is_newest_of_group(es, k) by {
            let gg = es[k].group as int;
            match best@[gg] {
                Some(b) => {
                    if b as int != k && is_newest_of_group(es, k) {
                        assert(newer(es, k, b as int));
                        assert(newer(es, b as int, k));
                    }
                },
                None => {},
            }
        }
    }
    let mut stale: Vec<usize> = Vec::new();
    let mut k: usize = 0;
    while k < n
        invariant
            n == es.len(),
            es == entries@,
            k <= n,
            best@.len() == groups,
            forall|q: int| 0 <= q < n ==> (#[trigger] es[q]).group < groups,
            forall|q: int| 0 <= q < n ==> (best@[es[q].group as int] == Some(q as usize)) == is_newest_of_group(es, q),
            stale@ == indices(k as nat).filter(stale_pred(es)),
        decreases n - k,
    {
        proof {
            assert(indices((k + 1) as nat) =~= indices(k as nat).push(k));
            indices(k as nat).lemma_filter_push(k, stale_pred(es));
        }
        let gk = entries[k].group;
        if best[gk] != Some(k) {
            stale.push(k);
        }
        k += 1;
    }
    // survivors, newest first, while the allowance lasts
    let mut keys: Vec<u64> = Vec::new();
    let mut q: usize = 0;
    while q < n
        invariant
            n == es.len(),
            es == entries@,
            q <= n,
            keys@ =~= age_keys(es).take(q as int),
        decreases n - q,
    {
        keys.push(u64::MAX - entries[q].mtime);
        q += 1;
    }
    assert(keys@ =~= age_keys(es));
    let order = sort_indices(&keys);
    let mut evicted: Vec<usize> = Vec::new();
    let mut used: u64 = 0;
    let mut t: usize = 0;
    assert(order@.take(0).filter(survivor_pred(es)) =~= Seq::<usize>::empty()) by {
        reveal_with_fuel(Seq::filter, 1);
    }
    while t < order.len()
        invariant
            n == es.len(),
            es == entries@,
            t <= order@.len(),
            is_order_of(age_keys(es), order@),
            best@.len() == groups,
            forall|q: int| 0 <= q < n ==> (#[trigger] es[q]).group < groups,
            forall|q: int| 0 <= q < n ==> (best@[es[q].group as int] == Some(q as usize)) == is_newest_of_group(es, q),
            used <= budget_bytes,
            (evicted@, used as int) == budget_walk(es, budget_bytes as int, order@.take(t as int).filter(survivor_pred(es))),
        decreases order@.len() - t,
    {
        let x = order[t];
        proof {
            assert(order@.take(t + 1) =~= order@.take(t as int).push(x));
            order@.take(t as int).lemma_filter_push(x, survivor_pred(es));
        }
        let gx = entries[x].group;
        if best[gx] == Some(x) {
            let ghost pre = order@.take(t as int).filter(survivor_pred(es));
            assert(pre.push(x).drop_last() =~= pre);
            let size = entries[x].size;
            if (used as u128) + (size as u128) <= (budget_bytes as u128) {
                used = used + size;
            } else {
                evicted.push(x);
            }
        }
        t += 1;
    }
    assert(order@.take(order@.len() as int) =~= order@);
    assert(stale@ == indices(n as nat).filter(stale_pred(es)));
    PrunePlan { stale, evicted }
}

proof fn lemma_budget_walk(es: Seq<PruneEntry>, budget: int, s: Seq<usize>)
    requires
        budget >= 0,
    ensures
        0 <= budget_walk(es, budget, s).1 <= budget,
    decreases s.len(),
{
    if s.len() > 0 {
        lemma_budget_walk(es, budget, s.drop_last());
    }
}

/// The newest render of group `g` among the first `n`, if the group has one
/// there.
proof fn newest_among(es: Seq<PruneEntry>, g: usize, n: int) -> (r: Option<int>)
    requires
        0 <= n <= es.len(),
    ensures
        match r {
            Some(b) => 0 <= b < n && es[b].group == g && forall|j: int|
                0 <= j < n && j != b && es[j].group == g ==> newer(es, b, j),
            None => forall|j: int| 0 <= j < n ==> es[j].group != g,
        },
    decreases n,
{
    if n == 0 {
        None
    } else {
        let prev = newest_among(es, g, n - 1);
        let i = n - 1;
        if es[i].group != g {
            prev
        } else {
            match prev {
                None => Some(i),
                Some(b) => if es[i].mtime > es[b].mtime {
                    assert forall|j: int| 0 <= j < n && j != i && es[j].group == g implies newer(es, i, j) by {
                        if j != b {
                            assert(newer(es, b, j));
                        }
                    }
                    Some(i)
                } else {
                    Some(b)
                },
            }
        }
    }
}

/// Some render of group `g` is its newest.
pub open spec fn group_has_newest(es: Seq<PruneEntry>, g: usize) -> bool {
    exists|j: int| 0 <= j < es.len() && es[j].group == g && #[trigger] is_newest_of_group(es, j)
}

/// After a prune exactly one render of each photo-and-size group is left,
/// its newest, and every other is stale; the survivors kept stay within
/// the allowance.
pub proof fn law_prune(es: Seq<PruneEntry>, budget: int, plan: PrunePlan)
    requires
        budget >= 0,
        is_prune_plan(es, budget, plan),
    ensures
        forall|i: int| 0 <= i < es.len() ==> group_has_newest(es, (#[trigger] es[i]).group),
        forall|j: int, k: int|
            0 <= j < es.len() && 0 <= k < es.len() && es[j].group == es[k].group
                && is_newest_of_group(es, j) && is_newest_of_group(es, k) ==> j == k,
        forall|x: usize| #[trigger] plan.stale@.contains(x) <==> (x < es.len() && !is_newest_of_group(es, x as int)),
        exists|o: Seq<usize>|
            #![trigger budget_walk(es, budget, o.filter(survivor_pred(es)))]
            is_order_of(age_keys(es), o) && plan.evicted@ == budget_walk(
                es,
                budget,
                o.filter(survivor_pred(es)),
            ).0 && budget_walk(es, budget, o.filter(survivor_pred(es))).1 <= budget,
{
    assert forall|i: int| 0 <= i < es.len() implies group_has_newest(es, (#[trigger] es[i]).group) by {
        let b = newest_among(es, es[i].group, es.len() as int);
        let j = b->0;
        assert(is_newest_of_group(es, j));
    }
    assert forall|j: int, k: int|
        0 <= j < es.len() && 0 <= k < es.len() && es[j].group == es[k].group
            && is_newest_of_group(es, j) && is_newest_of_group(es, k) implies j == k by {
        if j != k {
            assert(newer(es, j, k));
            assert(newer(es, k, j));
        }
    }
    let idx = indices(es.len());
    assert forall|x: usize| #[trigger] plan.stale@.contains(x) <==> (x < es.len() && !is_newest_of_group(es, x as int)) by {
        if x < es.len() && !is_newest_of_group(es, x as int) {
            assert(idx[x as int] == x);
            idx.lemma_filter_contains(stale_pred(es), x as int);
        }
        if plan.stale@.contains(x) {
            idx.lemma_filter_contains_rev(stale_pred(es), x);
            let m = choose|m: int| 0 <= m < idx.len() && idx[m] == x;
            let f = choose|f: int| 0 <= f < plan.stale@.len() && plan.stale@[f] == x;
            idx.lemma_filter_pred(stale_pred(es), f);
        }
    }
    let o = choose|o: Seq<usize>|
        #![trigger budget_walk(es, budget, o.filter(survivor_pred(es)))]
        is_order_of(age_keys(es), o) && plan.evicted@ == budget_walk(
            es,
            budget,
            o.filter(survivor_pred(es)),
        ).0;
    lemma_budget_walk(es, budget, o.filter(survivor_pred(es)));
}

} // verus!
