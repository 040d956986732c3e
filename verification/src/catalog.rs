//! Catalogue folder operations: the rules a folder's new name must meet.
use vstd::prelude::*;
use crate::text::{chars_of, contains, eq_exec, find_exec, string_of, trim, trim_exec};

verus! {

broadcast use vstd::string::group_string_axioms;

pub open spec fn msg_empty_name() -> Seq<char> {
    "the name cannot be empty"@
}

pub open spec fn msg_invalid_name() -> Seq<char> {
    "invalid folder name"@
}

/// What a new folder name gives: the trimmed name, or why it is refused.
pub open spec fn dir_name_of(name: Seq<char>) -> Result<Seq<char>, Seq<char>> {
    let t = trim(name);
    if t.len() == 0 {
        Err(msg_empty_name())
    } else if contains(t, seq!['/']) || t == seq!['.'] || t == seq!['.', '.'] {
        Err(msg_invalid_name())
    } else {
        Ok(t)
    }
}

/// Validate a folder's new name: non-empty, no path separator, not `.`/`..`.
pub fn validate_dir_name(name: &str) -> (r: Result<String, String>)
    ensures
        match r {
            Ok(s) => dir_name_of(name@) == Ok::<Seq<char>, Seq<char>>(s@),
            Err(e) => dir_name_of(name@) == Err::<Seq<char>, Seq<char>>(e@),
        },
{
    let c = chars_of(name);
    let t = trim_exec(&c);
    if t.len() == 0 {
        return Err("the name cannot be empty".to_string());
    }
    let sl: [char; 1] = ['/'];
    let dot: [char; 1] = ['.'];
    let dots: [char; 2] = ['.', '.'];
    assert(sl@ =~= seq!['/']);
    assert(dot@ =~= seq!['.']);
    assert(dots@ =~= seq!['.', '.']);
    if find_exec(&t, &sl).is_some() || eq_exec(&t, &dot) || eq_exec(&t, &dots) {
        return Err("invalid folder name".to_string());
    }
    Ok(string_of(&t))
}

} // verus!
