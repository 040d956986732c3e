//! What a `reveal://thumb` request asks for, read from its query string:
//! the edge it wants, the preview version the webview believes in, whether
//! it is the photo on screen (which skips the queue), and the photo's path.
use vstd::prelude::*;
use vstd::string::{StrSliceExecFns, StringSliceAdditionalSpecFns};
use vstd::utf8::encode_utf8;
use crate::percent::{decode_from, try_percent_decode, utf8_lossy_of};
use crate::preview::{digits_value, GRID_PREVIEW_EDGE};
use crate::publishing::{split_exec, split_on};
use crate::apple_photos::{is_asset, prefix};
use crate::text::{chars_of, copy_range, eq_exec, starts_with, starts_with_exec, string_of, views};

verus! {

broadcast use vstd::string::group_string_axioms;

/// The value of the first `key=value` pair whose text starts with `prefix`
/// (the key and its `=`), the pairs being the query split on `&`.
pub open spec fn first_with_prefix(pairs: Seq<Seq<char>>, prefix: Seq<char>) -> Option<Seq<char>>
    decreases pairs.len(),
{
    if pairs.len() == 0 {
        None
    } else if starts_with(pairs[0], prefix) {
        Some(pairs[0].skip(prefix.len() as int))
    } else {
        first_with_prefix(pairs.drop_first(), prefix)
    }
}

pub open spec fn query_value(query: Seq<char>, prefix: Seq<char>) -> Option<Seq<char>> {
    first_with_prefix(split_on(query, "&"@), prefix)
}

pub open spec fn is_digit(c: char) -> bool {
    '0' <= c <= '9'
}

/// Rust's unsigned integer parsing: one optional `+`, then one or more
/// ASCII digits, read in base ten.
pub open spec fn parse_uint_of(s: Seq<char>) -> Option<int> {
    if all_digits(unsigned_digits(s)) {
        Some(digits_value(unsigned_digits(s), 10))
    } else {
        None
    }
}

/// The text after one optional leading `+`.
pub open spec fn unsigned_digits(s: Seq<char>) -> Seq<char> {
    if s.len() > 0 && s[0] == '+' {
        s.drop_first()
    } else {
        s
    }
}

/// One or more ASCII digits.
pub open spec fn all_digits(d: Seq<char>) -> bool {
    d.len() > 0 && forall|i: int| 0 <= i < d.len() ==> is_digit(#[trigger] d[i])
}

/// `str::parse` into an unsigned type whose largest value is `max`.
pub open spec fn parse_bounded(s: Seq<char>, max: int) -> Option<int> {
    match parse_uint_of(s) {
        Some(v) => if v <= max {
            Some(v)
        } else {
            None
        },
        None => None,
    }
}

/// The edge asked for: `size=` read as a `u32`, else the grid's edge, held
/// to 256 ..= 2560.
pub open spec fn thumb_size_of(query: Seq<char>) -> u32 {
    let v = match query_value(query, "size="@) {
        Some(t) => match parse_bounded(t, u32::MAX as int) {
            Some(v) => v,
            None => GRID_PREVIEW_EDGE as int,
        },
        None => GRID_PREVIEW_EDGE as int,
    };
    (if v < 256 {
        256
    } else if v > 2560 {
        2560
    } else {
        v
    }) as u32
}

/// The preview version asked for: `v=` read as a `u64`, else 0.
pub open spec fn thumb_version_of(query: Seq<char>) -> u64 {
    match query_value(query, "v="@) {
        Some(t) => match parse_bounded(t, u64::MAX as int) {
            Some(v) => v as u64,
            None => 0,
        },
        None => 0,
    }
}

/// Whether the request is for the photo on screen: a `priority=1` pair.
pub open spec fn thumb_priority_of(query: Seq<char>) -> bool {
    split_on(query, "&"@).contains("priority=1"@)
}

/// The `p=` value, percent-decoded; empty where there is none. None where
/// its escapes cut a UTF-8 character apart, which cannot be decoded.
pub open spec fn thumb_path_of(query: Seq<char>) -> Option<Seq<char>> {
    match query_value(query, "p="@) {
        Some(raw) => match decode_from(encode_utf8(raw), 0) {
            Some(b) => Some(utf8_lossy_of(b)),
            None => None,
        },
        None => Some(Seq::empty()),
    }
}

/// A thumbnail request. An empty `path` is answered 404.
pub struct ThumbRequest {
    pub size: u32,
    pub version: u64,
    pub priority: bool,
    pub path: String,
}

proof fn lemma_digits_nonneg(d: Seq<char>)
    requires
        forall|i: int| 0 <= i < d.len() ==> is_digit(#[trigger] d[i]),
    ensures
        digits_value(d, 10) >= 0,
    decreases d.len(),
{
    if d.len() > 0 {
        assert(forall|i: int| 0 <= i < d.drop_last().len() ==> d.drop_last()[i] == d[i]);
        lemma_digits_nonneg(d.drop_last());
        assert(is_digit(d[d.len() - 1]));
    }
}

proof fn lemma_digits_grow(d: Seq<char>, i: int, j: int)
    requires
        0 <= i <= j <= d.len(),
        forall|k: int| 0 <= k < d.len() ==> is_digit(#[trigger] d[k]),
    ensures
        digits_value(d.take(i), 10) <= digits_value(d.take(j), 10),
    decreases j - i,
{
    if i < j {
        lemma_digits_grow(d, i, j - 1);
        let t = d.take(j);
        assert(t.drop_last() =~= d.take(j - 1));
        assert(forall|k: int| 0 <= k < d.take(j - 1).len() ==> d.take(j - 1)[k] == d[k]);
        lemma_digits_nonneg(d.take(j - 1));
        assert(is_digit(t.last()));
    }
}

/// The digits of `d` (all digits, at least one) as a number, none where it
/// exceeds `max`.
fn digits_bounded(d: &[char], max: u64) -> (r: Option<u64>)
    requires
        d@.len() > 0,
        forall|i: int| 0 <= i < d@.len() ==> is_digit(#[trigger] d@[i]),
    ensures
        match r {
            Some(v) => v == digits_value(d@, 10) && v <= max,
            None => digits_value(d@, 10) > max,
        },
{
    let mut acc: u64 = 0;
    let mut i: usize = 0;
    assert(d@.take(0) =~= Seq::<char>::empty());
    while i < d.len()
        invariant
            i <= d@.len(),
            forall|k: int| 0 <= k < d@.len() ==> is_digit(#[trigger] d@[k]),
            acc == digits_value(d@.take(i as int), 10),
            acc <= max,
        decreases d@.len() - i,
    {
        assert(d@.take(i + 1).drop_last() =~= d@.take(i as int));
        assert(is_digit(d@[i as int]));
        let dig = (d[i] as u32 - 48) as u64;
        assert(d@.take(i + 1).last() == d@[i as int]);
        let next = match acc.checked_mul(10) {
            Some(m) => m.checked_add(dig),
            None => None,
        };
        match next {
            Some(n) => {
                if n > max {
                    proof {
                        lemma_digits_grow(d@, i + 1, d@.len() as int);
                        assert(d@.take(d@.len() as int) =~= d@);
                    }
                    return None;
                }
                acc = n;
            },
            None => {
                proof {
                    lemma_digits_grow(d@, i + 1, d@.len() as int);
                    assert(d@.take(d@.len() as int) =~= d@);
                }
                return None;
            },
        }
        i += 1;
    }
    assert(d@.take(d@.len() as int) =~= d@);
    Some(acc)
}

/// `str::parse` of `s` into an unsigned type whose largest value is `max`.
fn parse_bounded_exec(s: &[char], max: u64) -> (r: Option<u64>)
    ensures
        match r {
            Some(v) => parse_bounded(s@, max as int) == Some(v as int),
            None => parse_bounded(s@, max as int) is None,
        },
{
    let d = if s.len() > 0 && s[0] == '+' {
        copy_range(s, 1, s.len())
    } else {
        copy_range(s, 0, s.len())
    };
    assert(d@ == unsigned_digits(s@));
    if d.len() == 0 {
        return None;
    }
    let mut i: usize = 0;
    while i < d.len()
        invariant
            i <= d@.len(),
            d@.len() > 0,
            d@ == unsigned_digits(s@),
            forall|k: int| 0 <= k < i ==> is_digit(#[trigger] d@[k]),
        decreases d@.len() - i,
    {
        if !('0' <= d[i] && d[i] <= '9') {
            assert(!is_digit(d@[i as int]));
            return None;
        }
        i += 1;
    }
    digits_bounded(&d, max)
}

/// The first pair starting with `prefix`, its value.
fn query_value_exec(pairs: &Vec<Vec<char>>, prefix: &[char]) -> (r: Option<Vec<char>>)
    ensures
        match r {
            Some(v) => first_with_prefix(views(pairs@), prefix@) == Some(v@),
            None => first_with_prefix(views(pairs@), prefix@) is None,
        },
{
    let mut i: usize = 0;
    assert(views(pairs@).skip(0) =~= views(pairs@));
    while i < pairs.len()
        invariant
            i <= pairs@.len(),
            first_with_prefix(views(pairs@), prefix@) == first_with_prefix(
                views(pairs@).skip(i as int),
                prefix@,
            ),
        decreases pairs@.len() - i,
    {
        let ghost rest = views(pairs@).skip(i as int);
        assert(rest[0] == pairs@[i as int]@);
        assert(rest.drop_first() =~= views(pairs@).skip(i + 1));
        if starts_with_exec(&pairs[i], prefix) {
            let v = copy_range(&pairs[i], prefix.len(), pairs[i].len());
            assert(v@ =~= pairs@[i as int]@.skip(prefix@.len() as int));
            return Some(v);
        }
        i += 1;
    }
    None
}

/// Read a `reveal://thumb` query (empty where the request has none). None
/// where the path's escapes cut a character apart.
pub fn thumb_request(query: &str) -> (r: Option<ThumbRequest>)
    ensures
        r is None <==> thumb_path_of(query@) is None,
        r matches Some(t) ==> {
            &&& t.size == thumb_size_of(query@)
            &&& t.version == thumb_version_of(query@)
            &&& t.priority == thumb_priority_of(query@)
            &&& Some(t.path@) == thumb_path_of(query@)
        },
{
    let q = chars_of(query);
    let amp: [char; 1] = ['&'];
    assert(amp@ =~= "&"@) by {
        reveal_strlit("&");
    }
    let pairs = split_exec(&q, &amp);
    let size_key = chars_of("size=");
    let v_key = chars_of("v=");
    let p_key = chars_of("p=");
    let prio = chars_of("priority=1");
    let size: u32 = match query_value_exec(&pairs, &size_key) {
        Some(t) => match parse_bounded_exec(&t, 4294967295) {
            Some(v) => {
                if v < 256 {
                    256
                } else if v > 2560 {
                    2560
                } else {
                    v as u32
                }
            },
            None => GRID_PREVIEW_EDGE,
        },
        None => GRID_PREVIEW_EDGE,
    };
    let version: u64 = match query_value_exec(&pairs, &v_key) {
        Some(t) => match parse_bounded_exec(&t, 18446744073709551615) {
            Some(v) => v,
            None => 0,
        },
        None => 0,
    };
    let mut priority = false;
    let mut i: usize = 0;
    while i < pairs.len()
        invariant
            i <= pairs@.len(),
            priority <==> exists|j: int| 0 <= j < i && views(pairs@)[j] == prio@,
        decreases pairs@.len() - i,
    {
        if eq_exec(&pairs[i], &prio) {
            assert(views(pairs@)[i as int] == prio@);
            priority = true;
        }
        i += 1;
    }
    assert(priority == views(pairs@).contains(prio@));
    let path = match query_value_exec(&pairs, &p_key) {
        Some(raw) => {
            let raw_s = string_of(&raw);
            let raw_str = raw_s.as_str();
            assert(raw_str.spec_bytes() == encode_utf8(raw@));
            match try_percent_decode(raw_str) {
                Some(t) => t,
                None => {
                    return None;
                },
            }
        },
        None => String::new(),
    };
    Some(ThumbRequest { size, version, priority, path })
}

/// Where the answer to a thumbnail request is being looked for.
pub enum ThumbStage {
    /// The local cache entry for the exact size and version.
    Cache,
    /// Whether the photo's volume is mounted.
    Mount,
    /// Offline: the newest render this disk holds for the photo.
    Offline,
    /// An Apple Photos asset's own thumbnail.
    Apple,
    /// The developed `.preview.jpg` beside the photo.
    Sidecar,
    /// The camera's preview embedded in the RAW.
    Embedded,
    /// The camera's own JPEG next to the RAW.
    Companion,
    /// Answered.
    Finished,
}

/// What the application found.
pub enum ThumbEvent {
    /// The local cache entry's bytes, or none where it has none.
    Cached(Option<Vec<u8>>),
    /// Whether the photo's volume is mounted.
    Mounted(bool),
    /// A source looked for: none where there is none; else what reading or
    /// extracting it gave.
    Source(Option<Result<Vec<u8>, String>>),
}

/// Where served bytes are kept for the next request.
pub enum ThumbStore {
    Nowhere,
    /// The local cache of developed previews, under the request's version.
    DevelopedCache,
    /// The thumbnail cache beside the photo's edits.
    ThumbCache,
}

/// What the application is to do next.
pub enum ThumbAction {
    /// Read the local cache entry for the request's size and version.
    ReadCache,
    /// Look whether the volume is mounted, after deleting the cache entry
    /// (an empty one) where `drop_entry`.
    CheckMount { drop_entry: bool },
    /// Tell the webview the source is offline, and read the newest render
    /// cached for the photo.
    ReadNewestRender,
    /// Ask Apple Photos for the asset's thumbnail.
    FetchAppleThumb,
    /// Read the developed sidecar.
    ReadSidecar,
    /// Extract the RAW's embedded preview.
    ExtractEmbedded,
    /// Read the companion JPEG.
    ReadCompanion,
    /// Render a neutral development of the RAW and serve that.
    RenderFallback,
    /// Serve `bytes` (shrunk to the request's edge first where `shrink`),
    /// keeping them in `store`; cacheable for an hour where `max_age`.
    Serve { bytes: Vec<u8>, shrink: bool, store: ThumbStore, max_age: bool },
    /// Answer with this status and body.
    Respond { status: u16, body: Vec<u8> },
    /// Nothing: the event does not belong to this stage.
    Ignore,
}

/// An answer with this status and an empty body.
pub open spec fn bare_status(a: ThumbAction, code: u16) -> bool {
    a matches ThumbAction::Respond { status, body } && status == code && body@.len() == 0
}

/// Whether the served thumbnail of an Apple Photos asset is shrunk: only
/// at grid sizes.
pub open spec fn apple_shrinks(size: u32) -> bool {
    size <= 768
}

/// One step of answering a thumbnail request for `path` at `size`.
pub fn thumb_step(path: &str, size: u32, stage: ThumbStage, event: ThumbEvent) -> (r: (ThumbStage, ThumbAction))
    ensures
        match (stage, event) {
            (ThumbStage::Cache, ThumbEvent::Cached(got)) => match got {
                Some(b) => if b@.len() > 0 {
                    r.0 == ThumbStage::Finished && r.1 == ThumbAction::Serve {
                        bytes: b,
                        shrink: false,
                        store: ThumbStore::Nowhere,
                        max_age: true,
                    }
                } else {
                    r.0 == ThumbStage::Mount && r.1 == ThumbAction::CheckMount { drop_entry: true }
                },
                None => r.0 == ThumbStage::Mount && r.1 == ThumbAction::CheckMount { drop_entry: false },
            },
            (ThumbStage::Mount, ThumbEvent::Mounted(mounted)) => if !mounted {
                r.0 == ThumbStage::Offline && r.1 == ThumbAction::ReadNewestRender
            } else if starts_with(path@, prefix()) {
                r.0 == ThumbStage::Apple && r.1 == ThumbAction::FetchAppleThumb
            } else {
                r.0 == ThumbStage::Sidecar && r.1 == ThumbAction::ReadSidecar
            },
            (ThumbStage::Offline, ThumbEvent::Source(found)) => r.0 == ThumbStage::Finished && match found {
                Some(Ok(b)) => r.1 == ThumbAction::Serve {
                    bytes: b,
                    shrink: false,
                    store: ThumbStore::Nowhere,
                    max_age: true,
                },
                _ => bare_status(r.1, 404),
            },
            (ThumbStage::Apple, ThumbEvent::Source(found)) => r.0 == ThumbStage::Finished && match found {
                Some(Ok(b)) => r.1 == ThumbAction::Serve {
                    bytes: b,
                    shrink: apple_shrinks(size),
                    store: ThumbStore::Nowhere,
                    max_age: false,
                },
                Some(Err(e)) => r.1 matches ThumbAction::Respond { status, body } && status == 503 && body@
                    == encode_utf8(e@),
                None => bare_status(r.1, 503),
            },
            (ThumbStage::Sidecar, ThumbEvent::Source(found)) => match found {
                Some(Ok(b)) => r.0 == ThumbStage::Finished && r.1 == ThumbAction::Serve {
                    bytes: b,
                    shrink: true,
                    store: ThumbStore::DevelopedCache,
                    max_age: true,
                },
                Some(Err(_)) => r.0 == ThumbStage::Finished && bare_status(r.1, 404),
                None => r.0 == ThumbStage::Embedded && r.1 == ThumbAction::ExtractEmbedded,
            },
            (ThumbStage::Embedded, ThumbEvent::Source(found)) => match found {
                Some(Ok(b)) => r.0 == ThumbStage::Finished && r.1 == ThumbAction::Serve {
                    bytes: b,
                    shrink: true,
                    store: ThumbStore::ThumbCache,
                    max_age: true,
                },
                _ => r.0 == ThumbStage::Companion && r.1 == ThumbAction::ReadCompanion,
            },
            (ThumbStage::Companion, ThumbEvent::Source(found)) => r.0 == ThumbStage::Finished && match found {
                Some(Ok(b)) => r.1 == ThumbAction::Serve {
                    bytes: b,
                    shrink: true,
                    store: ThumbStore::ThumbCache,
                    max_age: true,
                },
                Some(Err(_)) => bare_status(r.1, 404),
                None => r.1 == ThumbAction::RenderFallback,
            },
            (st, _) => r.0 == st && r.1 == ThumbAction::Ignore,
        },
{
    match (stage, event) {
        (ThumbStage::Cache, ThumbEvent::Cached(got)) => match got {
            Some(b) => if b.len() > 0 {
                (
                    ThumbStage::Finished,
                    ThumbAction::Serve { bytes: b, shrink: false, store: ThumbStore::Nowhere, max_age: true },
                )
            } else {
                (ThumbStage::Mount, ThumbAction::CheckMount { drop_entry: true })
            },
            None => (ThumbStage::Mount, ThumbAction::CheckMount { drop_entry: false }),
        },
        (ThumbStage::Mount, ThumbEvent::Mounted(mounted)) => if !mounted {
            (ThumbStage::Offline, ThumbAction::ReadNewestRender)
        } else if is_asset(path) {
            (ThumbStage::Apple, ThumbAction::FetchAppleThumb)
        } else {
            (ThumbStage::Sidecar, ThumbAction::ReadSidecar)
        },
        (ThumbStage::Offline, ThumbEvent::Source(found)) => match found {
            Some(Ok(b)) => (
                ThumbStage::Finished,
                ThumbAction::Serve { bytes: b, shrink: false, store: ThumbStore::Nowhere, max_age: true },
            ),
            _ => (ThumbStage::Finished, ThumbAction::Respond { status: 404, body: Vec::new() }),
        },
        (ThumbStage::Apple, ThumbEvent::Source(found)) => match found {
            Some(Ok(b)) => (
                ThumbStage::Finished,
                ThumbAction::Serve { bytes: b, shrink: size <= 768, store: ThumbStore::Nowhere, max_age: false },
            ),
            Some(Err(e)) => {
                let body = e.as_str().as_bytes_vec();
                (ThumbStage::Finished, ThumbAction::Respond { status: 503, body })
            },
            None => (ThumbStage::Finished, ThumbAction::Respond { status: 503, body: Vec::new() }),
        },
        (ThumbStage::Sidecar, ThumbEvent::Source(found)) => match found {
            Some(Ok(b)) => (
                ThumbStage::Finished,
                ThumbAction::Serve { bytes: b, shrink: true, store: ThumbStore::DevelopedCache, max_age: true },
            ),
            Some(Err(_)) => (ThumbStage::Finished, ThumbAction::Respond { status: 404, body: Vec::new() }),
            None => (ThumbStage::Embedded, ThumbAction::ExtractEmbedded),
        },
        (ThumbStage::Embedded, ThumbEvent::Source(found)) => match found {
            Some(Ok(b)) => (
                ThumbStage::Finished,
                ThumbAction::Serve { bytes: b, shrink: true, store: ThumbStore::ThumbCache, max_age: true },
            ),
            _ => (ThumbStage::Companion, ThumbAction::ReadCompanion),
        },
        (ThumbStage::Companion, ThumbEvent::Source(found)) => match found {
            Some(Ok(b)) => (
                ThumbStage::Finished,
                ThumbAction::Serve { bytes: b, shrink: true, store: ThumbStore::ThumbCache, max_age: true },
            ),
            Some(Err(_)) => (ThumbStage::Finished, ThumbAction::Respond { status: 404, body: Vec::new() }),
            None => (ThumbStage::Finished, ThumbAction::RenderFallback),
        },
        (st, _) => (st, ThumbAction::Ignore),
    }
}

/// What a `reveal://` request is for, by its host.
pub enum RevealRoute {
    /// The liveness probe: answered with the ping image.
    Ping,
    /// A line of the webview's console, for the log.
    Log,
    /// A thumbnail.
    Thumb,
    /// Anything else: answered 404 with an empty body.
    NotFound,
}

/// The route of a `reveal://` request's host.
pub fn reveal_route(host: &str) -> (r: RevealRoute)
    ensures
        r == (if host@ == "ping"@ {
            RevealRoute::Ping
        } else if host@ == "log"@ {
            RevealRoute::Log
        } else if host@ == "thumb"@ {
            RevealRoute::Thumb
        } else {
            RevealRoute::NotFound
        }),
{
    let h = chars_of(host);
    if eq_exec(&h, &chars_of("ping")) {
        RevealRoute::Ping
    } else if eq_exec(&h, &chars_of("log")) {
        RevealRoute::Log
    } else if eq_exec(&h, &chars_of("thumb")) {
        RevealRoute::Thumb
    } else {
        RevealRoute::NotFound
    }
}

/// The first step of answering a thumbnail request for `path`: a request
/// without a path is answered 404 with an empty body; any other starts with
/// the local cache.
pub fn thumb_start(path: &str) -> (r: (ThumbStage, ThumbAction))
    ensures
        path@.len() == 0 ==> r.0 == ThumbStage::Finished && bare_status(r.1, 404),
        path@.len() > 0 ==> r.0 == ThumbStage::Cache && r.1 == ThumbAction::ReadCache,
{
    if chars_of(path).len() == 0 {
        (ThumbStage::Finished, ThumbAction::Respond { status: 404, body: Vec::new() })
    } else {
        (ThumbStage::Cache, ThumbAction::ReadCache)
    }
}

} // verus!
