//! Where an export lands. A file on disk is exported to the name asked for;
//! a Photos asset never replaces another photo's export: when the name is
//! taken it goes to `<stem>-1.jpg`, `<stem>-2.jpg`, … beside it. The caller
//! tries each candidate with an exclusive create.
use vstd::prelude::*;
use crate::paths::{file_stem_of, join_path, parent_of, path_file_name, path_join, path_parent, stem_of_name};
use crate::preview::{push_radix, radix_digits};
use crate::text::{append, chars_of, string_of};

verus! {

broadcast use vstd::string::group_string_axioms;

/// How many names an export tries before giving up.
pub const EXPORT_ATTEMPTS: u32 = 10000;

pub open spec fn msg_no_parent() -> Seq<char> {
    "Export destination has no parent"@
}

pub open spec fn msg_no_filename() -> Seq<char> {
    "Export filename is missing"@
}

pub open spec fn msg_too_many() -> Seq<char> {
    "Too many exports with this name; choose another destination"@
}

/// The directory an export is written into.
pub open spec fn export_parent_of(requested: Seq<char>) -> Result<Seq<char>, Seq<char>> {
    match path_parent(requested) {
        Some(p) => Ok(p),
        None => Err(msg_no_parent()),
    }
}

/// `<stem>-<number>.jpg`.
pub open spec fn numbered_name(stem: Seq<char>, number: nat) -> Seq<char> {
    stem + seq!['-'] + radix_digits(number, 10) + seq!['.', 'j', 'p', 'g']
}

/// The name an asset's export tries on attempt `number`: the requested one
/// first, then numbered siblings, until the attempts run out.
pub open spec fn export_candidate_of(requested: Seq<char>, number: nat) -> Result<Seq<char>, Seq<char>> {
    match path_parent(requested) {
        None => Err(msg_no_parent()),
        Some(parent) => match stem_of_name(path_file_name(requested)) {
            None => Err(msg_no_filename()),
            Some(stem) => if number == 0 {
                Ok(requested)
            } else if number < EXPORT_ATTEMPTS {
                Ok(path_join(parent, numbered_name(stem, number)))
            } else {
                Err(msg_too_many())
            },
        },
    }
}

pub open spec fn str_result(r: Result<String, String>) -> Result<Seq<char>, Seq<char>> {
    match r {
        Ok(s) => Ok(s@),
        Err(e) => Err(e@),
    }
}

/// The directory to create before writing an export.
pub fn export_parent(requested: &str) -> (r: Result<String, String>)
    ensures
        str_result(r) == export_parent_of(requested@),
{
    match parent_of(requested) {
        Some(p) => Ok(p),
        None => Err("Export destination has no parent".to_string()),
    }
}

/// The path attempt `number` of an asset's export tries.
pub fn export_candidate(requested: &str, number: u32) -> (r: Result<String, String>)
    ensures
        str_result(r) == export_candidate_of(requested@, number as nat),
{
    let parent = match parent_of(requested) {
        Some(p) => p,
        None => {
            return Err("Export destination has no parent".to_string());
        },
    };
    let stem = match file_stem_of(requested) {
        Some(s) => s,
        None => {
            return Err("Export filename is missing".to_string());
        },
    };
    if number == 0 {
        return Ok(string_of(&chars_of(requested)));
    }
    if number >= EXPORT_ATTEMPTS {
        return Err("Too many exports with this name; choose another destination".to_string());
    }
    let mut name = chars_of(stem.as_str());
    name.push('-');
    push_radix(&mut name, number as u64, 10);
    name.push('.');
    name.push('j');
    name.push('p');
    name.push('g');
    assert(name@ =~= numbered_name(stem@, number as nat));
    let name_s = string_of(&name);
    Ok(join_path(parent.as_str(), name_s.as_str()))
}

/// Numbered names never collide with the name asked for or with each
/// other: two attempts name the same path only when they are the same
/// attempt (the joined path is taken as the platform builds it).
pub proof fn law_numbered_names_are_distinct(stem: Seq<char>, a: nat, b: nat)
    requires
        a != b,
    ensures
        numbered_name(stem, a) != numbered_name(stem, b),
{
    lemma_radix_digits_injective(a, b);
    if numbered_name(stem, a) == numbered_name(stem, b) {
        let da = radix_digits(a, 10);
        let db = radix_digits(b, 10);
        let na = numbered_name(stem, a);
        assert(na.len() == stem.len() + 1 + da.len() + 4);
        assert(da.len() == db.len());
        let lo: int = stem.len() as int + 1;
        let hi: int = lo + da.len() as int;
        assert(da =~= na.subrange(lo, hi));
        assert(db =~= numbered_name(stem, b).subrange(lo, hi));
    }
}

proof fn lemma_radix_digits_injective(a: nat, b: nat)
    requires
        a != b,
    ensures
        radix_digits(a, 10) != radix_digits(b, 10),
{
    crate::preview::lemma_radix(a, 10);
    crate::preview::lemma_radix(b, 10);
}

} // verus!
