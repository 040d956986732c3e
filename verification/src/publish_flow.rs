//! Publishing a story, one marked photo at a time: which JPEG stands for the
//! photo (a developed sidecar, a JPEG beside the RAW, the cached render, or
//! a fresh development), whether the JPEG beside the RAW must be rewritten,
//! and what it is published under. The reading, writing, developing and
//! uploading are the application's; each step here takes what the last one
//! gave and says what to do next.
use vstd::prelude::*;
use crate::paths::{join_path, path_join};
use crate::preview::{push_radix, radix_digits};
use crate::text::{append, chars_of, string_of};

verus! {

broadcast use vstd::string::group_string_axioms;

/// The files tried, in order, for a photo's JPEG before anything is
/// developed.
pub open spec fn candidates_of(dir: Seq<char>, stem: Seq<char>) -> Seq<Seq<char>> {
    seq![
        path_join(dir, stem + ".preview.jpg"@),
        path_join(dir, stem + ".jpg"@),
        path_join(dir, stem + ".JPG"@),
        path_join(dir, stem + ".jpeg"@),
    ]
}

/// The JPEG kept beside the RAW, which the published one is written to.
pub open spec fn beside_raw_of(dir: Seq<char>, stem: Seq<char>) -> Seq<char> {
    path_join(dir, stem + ".jpg"@)
}

/// The url a dry run lists for a photo in place of an upload.
pub open spec fn dry_run_url_of(stem: Seq<char>) -> Seq<char> {
    "dry-run://"@ + stem + ".jpg"@
}

pub open spec fn raw_missing_of(stem: Seq<char>) -> Seq<char> {
    "RAW not found for "@ + stem
}

pub open spec fn develop_failed_of(stem: Seq<char>, error: Seq<char>) -> Seq<char> {
    "develop "@ + stem + ": "@ + error
}

/// A read that found something to publish: a file that is there, readable
/// and not empty.
pub open spec fn usable(got: Option<Vec<u8>>) -> bool {
    got matches Some(b) && b@.len() > 0
}

/// The JPEG beside the RAW is rewritten only where it differs from the
/// one published (or cannot be read).
pub open spec fn must_write(existing: Option<Vec<u8>>, jpeg: Seq<u8>) -> bool {
    match existing {
        Some(b) => b@ != jpeg,
        None => true,
    }
}

/// Where one photo's publication stands.
pub enum PublishStage {
    /// Reading the candidate with this index.
    Looking(usize),
    /// Reading the render cached for the RAW.
    Cached,
    /// Developing the RAW.
    Developing,
    /// Reading the JPEG beside the RAW, to compare it with this one.
    Comparing(Vec<u8>),
    /// Uploading.
    Uploading,
    /// Published under this url.
    Done(String),
    /// Given up, with this message.
    Failed(String),
}

/// What the application did, and what came of it.
pub enum PublishEvent {
    /// A file read: its bytes, or none where it is missing or unreadable.
    Read(Option<Vec<u8>>),
    /// The cached render looked for: whether the photo's RAW was found, and
    /// the render's bytes where one was read.
    CachedRender { raw_found: bool, bytes: Option<Vec<u8>> },
    /// The RAW developed to a JPEG, or the engine's error.
    Developed(Result<Vec<u8>, String>),
    /// The upload's url, or the server's error.
    Uploaded(Result<String, String>),
}

/// What the application is to do next.
pub enum PublishAction {
    /// Read this file.
    Read(String),
    /// Find the photo's RAW and read the render cached for it.
    ReadCachedRender,
    /// Develop the RAW at the published size.
    Develop,
    /// Write `bytes` to `path` if `write`; nothing is uploaded (a dry run).
    Save { path: String, bytes: Vec<u8>, write: bool },
    /// Write `bytes` to `path` if `write`, then upload them as `name`.
    SaveAndUpload { path: String, bytes: Vec<u8>, write: bool, name: String },
    /// Stop: the photo failed with this message.
    Fail(String),
    /// The photo is published under this url.
    Finish(String),
    /// Nothing: the event does not belong to this stage.
    Ignore,
}

/// The files tried for a photo's JPEG, in order.
pub fn publish_candidates(dir: &str, stem: &str) -> (r: Vec<String>)
    ensures
        r@.len() == 4,
        forall|i: int| 0 <= i < 4 ==> #[trigger] r@[i]@ == candidates_of(dir@, stem@)[i],
{
    let mut out: Vec<String> = Vec::new();
    out.push(join_path(dir, string_of(&named(stem, ".preview.jpg")).as_str()));
    out.push(join_path(dir, string_of(&named(stem, ".jpg")).as_str()));
    out.push(join_path(dir, string_of(&named(stem, ".JPG")).as_str()));
    out.push(join_path(dir, string_of(&named(stem, ".jpeg")).as_str()));
    out
}

fn named(stem: &str, suffix: &str) -> (r: Vec<char>)
    ensures
        r@ == stem@ + suffix@,
{
    let mut out = chars_of(stem);
    append(&mut out, &chars_of(suffix));
    out
}

fn bytes_eq(a: &Vec<u8>, b: &Vec<u8>) -> (r: bool)
    ensures
        r == (a@ == b@),
{
    if a.len() != b.len() {
        return false;
    }
    let mut i: usize = 0;
    while i < a.len()
        invariant
            i <= a@.len(),
            a@.len() == b@.len(),
            forall|j: int| 0 <= j < i ==> a@[j] == b@[j],
        decreases a@.len() - i,
    {
        if a[i] != b[i] {
            return false;
        }
        i += 1;
    }
    assert(a@ =~= b@);
    true
}

/// The first step for a photo: read its first candidate.
pub fn publish_start(dir: &str, stem: &str) -> (r: (PublishStage, PublishAction))
    ensures
        r.0 == PublishStage::Looking(0),
        r.1 matches PublishAction::Read(p) && p@ == candidates_of(dir@, stem@)[0],
{
    let first = join_path(dir, string_of(&named(stem, ".preview.jpg")).as_str());
    (PublishStage::Looking(0), PublishAction::Read(first))
}

/// A stage that reads the JPEG beside the RAW next, to compare it with
/// `jpeg`.
fn compare(dir: &str, stem: &str, jpeg: Vec<u8>) -> (r: (PublishStage, PublishAction))
    ensures
        r.0 == PublishStage::Comparing(jpeg),
        r.1 matches PublishAction::Read(p) && p@ == beside_raw_of(dir@, stem@),
{
    let path = join_path(dir, string_of(&named(stem, ".jpg")).as_str());
    (PublishStage::Comparing(jpeg), PublishAction::Read(path))
}

/// One step of a photo's publication in `dir`, given what the last action
/// gave.
pub fn publish_step(dir: &str, stem: &str, dry_run: bool, stage: PublishStage, event: PublishEvent) -> (r: (
    PublishStage,
    PublishAction,
))
    ensures
        match (stage, event) {
            (PublishStage::Looking(k), PublishEvent::Read(got)) => if usable(got) {
                &&& r.0 == PublishStage::Comparing(got->0)
                &&& r.1 matches PublishAction::Read(p) && p@ == beside_raw_of(dir@, stem@)
            } else if k + 1 < 4 {
                &&& r.0 == PublishStage::Looking((k + 1) as usize)
                &&& r.1 matches PublishAction::Read(p) && p@ == candidates_of(dir@, stem@)[k + 1]
            } else {
                r.0 == PublishStage::Cached && r.1 == PublishAction::ReadCachedRender
            },
            (PublishStage::Cached, PublishEvent::CachedRender { raw_found, bytes }) => if usable(bytes) {
                &&& r.0 == PublishStage::Comparing(bytes->0)
                &&& r.1 matches PublishAction::Read(p) && p@ == beside_raw_of(dir@, stem@)
            } else if !raw_found {
                &&& r.0 matches PublishStage::Failed(m) && m@ == raw_missing_of(stem@)
                &&& r.1 matches PublishAction::Fail(m) && m@ == raw_missing_of(stem@)
            } else {
                r.0 == PublishStage::Developing && r.1 == PublishAction::Develop
            },
            (PublishStage::Developing, PublishEvent::Developed(result)) => match result {
                Ok(jpeg) => {
                    &&& r.0 == PublishStage::Comparing(jpeg)
                    &&& r.1 matches PublishAction::Read(p) && p@ == beside_raw_of(dir@, stem@)
                },
                Err(e) => {
                    &&& r.0 matches PublishStage::Failed(m) && m@ == develop_failed_of(stem@, e@)
                    &&& r.1 matches PublishAction::Fail(m) && m@ == develop_failed_of(stem@, e@)
                },
            },
            (PublishStage::Comparing(jpeg), PublishEvent::Read(existing)) => if dry_run {
                &&& r.0 matches PublishStage::Done(u) && u@ == dry_run_url_of(stem@)
                &&& r.1 matches PublishAction::Save { path, bytes, write } && path@ == beside_raw_of(
                    dir@,
                    stem@,
                ) && bytes == jpeg && write == must_write(existing, jpeg@)
            } else {
                &&& r.0 == PublishStage::Uploading
                &&& r.1 matches PublishAction::SaveAndUpload { path, bytes, write, name } && path@
                    == beside_raw_of(dir@, stem@) && bytes == jpeg && write == must_write(
                    existing,
                    jpeg@,
                ) && name@ == stem@ + ".jpg"@
            },
            (PublishStage::Uploading, PublishEvent::Uploaded(result)) => match result {
                Ok(url) => {
                    &&& r.0 == PublishStage::Done(url)
                    &&& r.1 matches PublishAction::Finish(u) && u@ == url@
                },
                Err(e) => {
                    &&& r.0 matches PublishStage::Failed(m) && m@ == e@
                    &&& r.1 matches PublishAction::Fail(m) && m@ == e@
                },
            },
            (s, _) => r.0 == s && r.1 == PublishAction::Ignore,
        },
{
    match (stage, event) {
        (PublishStage::Looking(k), PublishEvent::Read(got)) => match got {
            Some(b) if b.len() > 0 => compare(dir, stem, b),
            _ => if k < 3 {
                let c = publish_candidates(dir, stem);
                let next = k + 1;
                let p = string_of(&chars_of(c[next].as_str()));
                (PublishStage::Looking(next), PublishAction::Read(p))
            } else {
                (PublishStage::Cached, PublishAction::ReadCachedRender)
            },
        },
        (PublishStage::Cached, PublishEvent::CachedRender { raw_found, bytes }) => match bytes {
            Some(b) if b.len() > 0 => compare(dir, stem, b),
            _ => if !raw_found {
                let m = named("RAW not found for ", stem);
                (PublishStage::Failed(string_of(&m)), PublishAction::Fail(string_of(&m)))
            } else {
                (PublishStage::Developing, PublishAction::Develop)
            },
        },
        (PublishStage::Developing, PublishEvent::Developed(result)) => match result {
            Ok(jpeg) => compare(dir, stem, jpeg),
            Err(e) => {
                let mut m = named("develop ", stem);
                append(&mut m, &chars_of(": "));
                append(&mut m, &chars_of(e.as_str()));
                (PublishStage::Failed(string_of(&m)), PublishAction::Fail(string_of(&m)))
            },
        },
        (PublishStage::Comparing(jpeg), PublishEvent::Read(existing)) => {
            let write = match &existing {
                Some(b) => !bytes_eq(b, &jpeg),
                None => true,
            };
            let path = join_path(dir, string_of(&named(stem, ".jpg")).as_str());
            if dry_run {
                let mut u = chars_of("dry-run://");
                append(&mut u, &named(stem, ".jpg"));
                (PublishStage::Done(string_of(&u)), PublishAction::Save { path, bytes: jpeg, write })
            } else {
                let name = string_of(&named(stem, ".jpg"));
                (PublishStage::Uploading, PublishAction::SaveAndUpload { path, bytes: jpeg, write, name })
            }
        },
        (PublishStage::Uploading, PublishEvent::Uploaded(result)) => match result {
            Ok(url) => {
                let u = string_of(&chars_of(url.as_str()));
                (PublishStage::Done(url), PublishAction::Finish(u))
            },
            Err(e) => {
                let m = string_of(&chars_of(e.as_str()));
                (PublishStage::Failed(e), PublishAction::Fail(m))
            },
        },
        (s, _) => (s, PublishAction::Ignore),
    }
}

/// A story can be published only with at least one marked photo.
pub fn check_story_photos(stems: &Vec<String>) -> (r: Result<(), String>)
    ensures
        r is Ok <==> stems@.len() > 0,
        r matches Err(m) ==> m@ == "no photos in the story"@,
{
    if stems.len() == 0 {
        Err("no photos in the story".to_string())
    } else {
        Ok(())
    }
}

/// What a dry run of a story reports: the slug and how many photos are
/// ready.
pub open spec fn dry_run_summary_of(slug: Seq<char>, photos: nat) -> Seq<char> {
    "dry-run \u{2014} slug "@ + slug + ", "@ + radix_digits(photos, 10) + " photos ready"@
}

/// The report of a dry run of a story.
pub fn dry_run_summary(slug: &str, photos: u64) -> (r: String)
    ensures
        r@ == dry_run_summary_of(slug@, photos as nat),
{
    let mut out = chars_of("dry-run \u{2014} slug ");
    append(&mut out, &chars_of(slug));
    append(&mut out, &chars_of(", "));
    push_radix(&mut out, photos, 10);
    append(&mut out, &chars_of(" photos ready"));
    string_of(&out)
}

} // verus!
