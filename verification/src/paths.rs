//! File-system path arithmetic, delegated to std's `Path`.
use vstd::prelude::*;

verus! {

/// What `Path::file_name` gives for `path` (empty when it has none),
/// on the platform the library is built for.
pub uninterp spec fn path_file_name(path: Seq<char>) -> Seq<char>;

/// What `Path::join` gives for `base` and `name`, on the platform the
/// library is built for.
pub uninterp spec fn path_join(base: Seq<char>, name: Seq<char>) -> Seq<char>;

/// std `Path::file_name`: the last component of `path`, or the empty string
/// where the path has none (it ends in `..`, or is a root). The text is
/// taken as the platform's `Path` parses it; nothing more is claimed of it.
#[verifier::external_body]
pub(crate) fn file_name_of(path: &str) -> (r: String)
    ensures
        r@ == path_file_name(path@),
{
    std::path::Path::new(path).file_name().unwrap_or_default().to_string_lossy().into_owned()
}

/// std `Path::join`: `name` appended to `base` as a further component (or
/// replacing it, where `name` is absolute), with the platform's separator.
/// The text is named, not spelled out.
#[verifier::external_body]
pub(crate) fn join_path(base: &str, name: &str) -> (r: String)
    ensures
        r@ == path_join(base@, name@),
{
    std::path::Path::new(base).join(name).to_string_lossy().into_owned()
}

/// What `Path::with_file_name` gives for `path` and `name`, on the platform
/// the library is built for.
pub uninterp spec fn path_with_file_name(path: Seq<char>, name: Seq<char>) -> Seq<char>;

/// Where the last `.` of a file name stands, or -1 where it has none.
pub open spec fn last_dot(name: Seq<char>) -> int
    decreases name.len(),
{
    if name.len() == 0 {
        -1
    } else if name.last() == '.' {
        name.len() - 1
    } else {
        last_dot(name.drop_last())
    }
}

/// A file name's stem as std documents `Path::file_stem`: none without a
/// file name; the whole name where it has no `.` but a leading one (or is
/// `..`); otherwise what stands before the last `.`.
pub open spec fn stem_of_name(name: Seq<char>) -> Option<Seq<char>> {
    if name.len() == 0 {
        None
    } else if name == seq!['.', '.'] || last_dot(name) <= 0 {
        Some(name)
    } else {
        Some(name.take(last_dot(name)))
    }
}

/// std `Path::file_stem`: the file name without its last extension, as
/// `stem_of_name` spells out from the file name `Path::file_name` gives.
#[verifier::external_body]
pub(crate) fn file_stem_of(path: &str) -> (r: Option<String>)
    ensures
        match r {
            Some(s) => stem_of_name(path_file_name(path@)) == Some(s@),
            None => stem_of_name(path_file_name(path@)) is None,
        },
{
    match std::path::Path::new(path).file_stem() {
        Some(s) => Some(s.to_string_lossy().into_owned()),
        None => None,
    }
}

/// std `Path::with_file_name`: `path` with its file name replaced by
/// `name` (or `name` appended where it has none). The text is named, not
/// spelled out.
#[verifier::external_body]
pub(crate) fn with_file_name_of(path: &str, name: &str) -> (r: String)
    ensures
        r@ == path_with_file_name(path@, name@),
{
    std::path::Path::new(path).with_file_name(name).to_string_lossy().into_owned()
}

/// What `Path::parent` gives for `path` (none for a root, a prefix or the
/// empty path), on the platform the library is built for.
pub uninterp spec fn path_parent(path: Seq<char>) -> Option<Seq<char>>;

/// std `Path::parent`: `path` without its last component, or none where it
/// ends in a root or prefix or is empty. The text is named, not spelled out.
#[verifier::external_body]
pub(crate) fn parent_of(path: &str) -> (r: Option<String>)
    ensures
        match r {
            Some(s) => path_parent(path@) == Some(s@),
            None => path_parent(path@) is None,
        },
{
    match std::path::Path::new(path).parent() {
        Some(p) => Some(p.to_string_lossy().into_owned()),
        None => None,
    }
}

} // verus!
