//! Apple Photos assets as Reveal addresses them: `apple-photos://<key>/<name>`
//! where `<key>` is the PhotoKit identifier's UTF-8 bytes in lower-case hex.
//! PhotoKit is a read-only media source; edits never live inside Photos.
use vstd::prelude::*;
use vstd::utf8::{
    decode_utf8, encode_scalar, encode_utf8, encode_utf8_decode_utf8, encode_utf8_valid_utf8,
    valid_utf8,
};
use crate::paths::{join_path, path_join};
use crate::photo_cache::{
    is_hex_digit, source_prefix, valid_group_spec, CacheLease, PhotoCache, DEFAULT_LIMIT, GIB,
};
use crate::preview::{digit_char, hex_fixed, push_hex_fixed};
use crate::text::{
    append, chars_of, copy_range, eq_exec, find, find_exec, find_from, lemma_find_from_bounds,
    lemma_find_from_skip, occurs_at,
    starts_with, starts_with_exec, str_views, string_of,
};

verus! {

broadcast use vstd::string::group_string_axioms;

/// `apple-photos://`
pub open spec fn prefix() -> Seq<char> {
    seq!['a', 'p', 'p', 'l', 'e', '-', 'p', 'h', 'o', 't', 'o', 's', ':', '/', '/']
}

pub open spec fn slash() -> Seq<char> {
    seq!['/']
}

/// The lower-case hex digit of a nibble.
pub open spec fn hex_char(n: int) -> char {
    if n < 10 {
        (n + 48) as char
    } else {
        (n + 87) as char
    }
}

/// Two lower-case hex digits per byte.
pub open spec fn hex_encode(bytes: Seq<u8>) -> Seq<char> {
    Seq::new(
        2 * bytes.len(),
        |i: int|
            if i % 2 == 0 {
                hex_char(bytes[i / 2] as int / 16)
            } else {
                hex_char(bytes[i / 2] as int % 16)
            },
    )
}

/// The value of an ASCII hex digit (either case).
pub open spec fn hex_val(c: char) -> Option<int> {
    let u = c as u32;
    if 48 <= u <= 57 {
        Some(u - 48)
    } else if 65 <= u <= 70 {
        Some(u - 55)
    } else if 97 <= u <= 102 {
        Some(u - 87)
    } else {
        None
    }
}

pub open spec fn is_hex(c: char) -> bool {
    hex_val(c) is Some
}

/// Pairs of hex digits, decoded.
pub open spec fn hex_decode(key: Seq<char>) -> Seq<u8> {
    Seq::new(
        key.len() / 2,
        |i: int| (hex_val(key[2 * i])->0 * 16 + hex_val(key[2 * i + 1])->0) as u8,
    )
}

/// The identifier's encoding as an asset key.
pub open spec fn encode_id_of(id: Seq<char>) -> Seq<char> {
    hex_encode(encode_utf8(id))
}

/// An asset key: non-empty, at most 1024 characters, an even number of hex
/// digits.
pub open spec fn valid_key(key: Seq<char>) -> bool {
    &&& key.len() > 0
    &&& key.len() <= 1024
    &&& key.len() % 2 == 0
    &&& forall|i: int| 0 <= i < key.len() ==> is_hex(#[trigger] key[i])
}

/// A file name that cannot climb out of its directory.
pub open spec fn valid_filename(name: Seq<char>) -> bool {
    &&& name.len() > 0
    &&& name != seq!['.']
    &&& name != seq!['.', '.']
    &&& forall|i: int|
        0 <= i < name.len() ==> #[trigger] name[i] != '/' && name[i] != '\\' && name[i] != '\0'
}

/// How an asset path splits: `None` where it is not an asset at all;
/// `Some(None)` where it has no `/` after the prefix; else the key and the
/// file name on either side of the first `/`.
pub open spec fn split_asset(path: Seq<char>) -> Option<Option<(Seq<char>, Seq<char>)>> {
    if !starts_with(path, prefix()) {
        None
    } else {
        let rest = path.skip(15);
        match find(rest, slash()) {
            Some(i) => if 0 <= i < rest.len() {
                Some(Some((rest.take(i), rest.skip(i + 1))))
            } else {
                Some(None)
            },
            None => Some(None),
        }
    }
}

pub open spec fn msg_not_asset() -> Seq<char> {
    "Not an Apple Photos asset"@
}

pub open spec fn msg_invalid_asset() -> Seq<char> {
    "Invalid Apple Photos asset"@
}

pub open spec fn msg_invalid_identifier() -> Seq<char> {
    "Invalid Apple Photos asset identifier"@
}

pub open spec fn msg_read_only() -> Seq<char> {
    "Apple Photos is read-only. Export this photo before using filesystem actions."@
}

pub open spec fn msg_cache_limit() -> Seq<char> {
    "Apple Photos cache limit must be a whole number from 1 to 64 GiB"@
}

/// What `asset_key` gives: the key, or which error.
pub open spec fn asset_key_of(path: Seq<char>) -> Result<Seq<char>, Seq<char>> {
    match split_asset(path) {
        None => Err(msg_not_asset()),
        Some(None) => Err(msg_invalid_asset()),
        Some(Some((key, name))) => if valid_key(key) && valid_filename(name) {
            Ok(key)
        } else {
            Err(msg_invalid_identifier())
        },
    }
}

pub open spec fn str_result(r: Result<String, String>) -> Result<Seq<char>, Seq<char>> {
    match r {
        Ok(s) => Ok(s@),
        Err(e) => Err(e@),
    }
}

/// Whether a path names an Apple Photos asset.
pub fn is_asset(path: &str) -> (r: bool)
    ensures
        r == starts_with(path@, prefix()),
{
    let p = chars_of(path);
    let pre = prefix_exec();
    starts_with_exec(&p, &pre)
}

fn prefix_exec() -> (r: Vec<char>)
    ensures
        r@ == prefix(),
{
    let a: [char; 15] = ['a', 'p', 'p', 'l', 'e', '-', 'p', 'h', 'o', 't', 'o', 's', ':', '/', '/'];
    let r = copy_range(&a, 0, 15);
    assert(r@ =~= prefix());
    r
}

fn hex_char_exec(n: u8) -> (r: char)
    requires
        n < 16,
    ensures
        r == hex_char(n as int),
{
    if n < 10 {
        (n + 48) as char
    } else {
        (n + 87) as char
    }
}

fn hex_val_exec(c: char) -> (r: Option<u8>)
    ensures
        match r {
            Some(v) => hex_val(c) == Some(v as int) && v < 16,
            None => hex_val(c) is None,
        },
{
    let u = c as u32;
    if 48 <= u && u <= 57 {
        Some((u - 48) as u8)
    } else if 65 <= u && u <= 70 {
        Some((u - 55) as u8)
    } else if 97 <= u && u <= 102 {
        Some((u - 87) as u8)
    } else {
        None
    }
}

/// The identifier's UTF-8 bytes in lower-case hex.
pub fn encode_id(id: &str) -> (r: String)
    ensures
        r@ == encode_id_of(id@),
{
    let bytes = id.as_bytes();
    let ghost b = encode_utf8(id@);
    assert(bytes@ == b);
    let mut out: Vec<char> = Vec::new();
    let mut i: usize = 0;
    while i < bytes.len()
        invariant
            i <= bytes@.len(),
            bytes@ == b,
            out@ =~= hex_encode(b.take(i as int)),
        decreases bytes@.len() - i,
    {
        let x = bytes[i];
        out.push(hex_char_exec(x / 16));
        out.push(hex_char_exec(x % 16));
        assert(hex_encode(b.take(i + 1)) =~= hex_encode(b.take(i as int)).push(
            hex_char(x as int / 16),
        ).push(hex_char(x as int % 16)));
        i += 1;
    }
    assert(b.take(b.len() as int) =~= b);
    string_of(&out)
}

/// The key of an asset path, checked: non-empty hex of even length, at most
/// 1024 digits, and a file name that cannot climb out of its directory.
pub fn asset_key(path: &str) -> (r: Result<String, String>)
    ensures
        str_result(r) == asset_key_of(path@),
{
    let p = chars_of(path);
    let pre = prefix_exec();
    if !starts_with_exec(&p, &pre) {
        return Err("Not an Apple Photos asset".to_string());
    }
    let rest = copy_range(&p, 15, p.len());
    assert(rest@ =~= p@.skip(15));
    let sl: [char; 1] = ['/'];
    assert(sl@ =~= slash());
    let i = match find_exec(&rest, &sl) {
        Some(i) => i,
        None => {
            return Err("Invalid Apple Photos asset".to_string());
        },
    };
    proof {
        lemma_find_from_bounds(rest@, sl@, 0);
    }
    let key = copy_range(&rest, 0, i);
    let name = copy_range(&rest, i + 1, rest.len());
    assert(key@ =~= rest@.take(i as int));
    assert(name@ =~= rest@.skip(i + 1));
    if key_is_valid(&key) && filename_is_valid(&name) {
        Ok(string_of(&key))
    } else {
        Err("Invalid Apple Photos asset identifier".to_string())
    }
}

fn key_is_valid(key: &[char]) -> (r: bool)
    ensures
        r == valid_key(key@),
{
    if key.len() == 0 || key.len() > 1024 || key.len() % 2 != 0 {
        return false;
    }
    let mut i: usize = 0;
    while i < key.len()
        invariant
            i <= key@.len(),
            forall|j: int| 0 <= j < i ==> is_hex(#[trigger] key@[j]),
        decreases key@.len() - i,
    {
        if hex_val_exec(key[i]).is_none() {
            return false;
        }
        i += 1;
    }
    true
}

fn filename_is_valid(name: &[char]) -> (r: bool)
    ensures
        r == valid_filename(name@),
{
    let dot: [char; 1] = ['.'];
    let dots: [char; 2] = ['.', '.'];
    assert(dot@ =~= seq!['.']);
    assert(dots@ =~= seq!['.', '.']);
    if name.len() == 0 || eq_exec(name, &dot) || eq_exec(name, &dots) {
        return false;
    }
    let mut i: usize = 0;
    while i < name.len()
        invariant
            i <= name@.len(),
            forall|j: int|
                0 <= j < i ==> #[trigger] name@[j] != '/' && name@[j] != '\\' && name@[j] != '\0',
        decreases name@.len() - i,
    {
        let c = name[i];
        if c == '/' || c == '\\' || c == '\0' {
            return false;
        }
        i += 1;
    }
    true
}

/// std `String::from_utf8`: the text the bytes encode, where they are valid
/// UTF-8; an error message otherwise (its wording is std's and not stated).
#[verifier::external_body]
fn utf8_decode(bytes: Vec<u8>) -> (r: Result<String, String>)
    ensures
        r is Ok <==> valid_utf8(bytes@),
        r matches Ok(s) ==> s@ == decode_utf8(bytes@),
{
    String::from_utf8(bytes).map_err(|e| e.to_string())
}

/// What `identifier` gives: the text whose UTF-8 bytes the key spells, or
/// the key's error, or (for bytes that are not UTF-8) an error.
pub open spec fn identifier_ok(path: Seq<char>, id: Seq<char>) -> bool {
    &&& asset_key_of(path) is Ok
    &&& valid_utf8(hex_decode(asset_key_of(path)->Ok_0))
    &&& id == decode_utf8(hex_decode(asset_key_of(path)->Ok_0))
}

/// The PhotoKit identifier an asset path carries.
pub fn identifier(path: &str) -> (r: Result<String, String>)
    ensures
        r matches Ok(s) ==> identifier_ok(path@, s@),
        r is Err ==> asset_key_of(path@) is Err || !valid_utf8(hex_decode(asset_key_of(path@)->Ok_0)),
        asset_key_of(path@) matches Err(e) ==> r matches Err(m) && m@ == e,
{
    let key_s = asset_key(path)?;
    let key = chars_of(key_s.as_str());
    let mut bytes: Vec<u8> = Vec::new();
    let n = key.len() / 2;
    let mut i: usize = 0;
    while i < n
        invariant
            n == key@.len() / 2,
            valid_key(key@),
            i <= n,
            bytes@ =~= hex_decode(key@).take(i as int),
        decreases n - i,
    {
        let hi = hex_val_exec(key[2 * i]).unwrap();
        let lo = hex_val_exec(key[2 * i + 1]).unwrap();
        bytes.push(hi * 16 + lo);
        assert(hex_decode(key@).take(i + 1) =~= hex_decode(key@).take(i as int).push(
            hex_decode(key@)[i as int],
        ));
        i += 1;
    }
    assert(hex_decode(key@).take(n as int) =~= hex_decode(key@));
    utf8_decode(bytes)
}

/// Any character but `/ \ \0 :`.
pub open spec fn safe_char(c: char) -> char {
    if c == '/' || c == '\\' || c == '\0' || c == ':' {
        '_'
    } else {
        c
    }
}

/// A display name made safe to use as a file name.
pub open spec fn safe_name_of(name: Seq<char>) -> Seq<char> {
    let n = Seq::new(name.len(), |i: int| safe_char(name[i]));
    if n.len() == 0 || n == seq!['.'] || n == seq!['.', '.'] {
        seq!['P', 'h', 'o', 't', 'o']
    } else {
        n
    }
}

/// Replace `/ \ \0 :` with `_`; an empty, `.` or `..` result becomes
/// `Photo`.
pub fn safe_name(name: &str) -> (r: String)
    ensures
        r@ == safe_name_of(name@),
{
    let c = chars_of(name);
    let mut out: Vec<char> = Vec::new();
    let mut i: usize = 0;
    while i < c.len()
        invariant
            i <= c@.len(),
            out@ =~= Seq::new(i as nat, |j: int| safe_char(c@[j])),
        decreases c@.len() - i,
    {
        let x = c[i];
        if x == '/' || x == '\\' || x == '\0' || x == ':' {
            out.push('_');
        } else {
            out.push(x);
        }
        i += 1;
    }
    let dot: [char; 1] = ['.'];
    let dots: [char; 2] = ['.', '.'];
    assert(dot@ =~= seq!['.']);
    assert(dots@ =~= seq!['.', '.']);
    if out.len() == 0 || eq_exec(&out, &dot) || eq_exec(&out, &dots) {
        let p: [char; 5] = ['P', 'h', 'o', 't', 'o'];
        assert(p@ =~= seq!['P', 'h', 'o', 't', 'o']);
        string_of(&p)
    } else {
        string_of(&out)
    }
}

/// Filesystem actions refuse Apple Photos assets.
pub fn require_file(path: &str) -> (r: Result<(), String>)
    ensures
        r is Ok <==> !starts_with(path@, prefix()),
        r matches Err(m) ==> m@ == msg_read_only(),
{
    if is_asset(path) {
        Err("Apple Photos is read-only. Export this photo before using filesystem actions.".to_string())
    } else {
        Ok(())
    }
}

/// Where an asset's sidecar lives under the edits directory: a plain file's
/// metadata is the file itself; an asset's is `<edits>/<key>/photo`.
pub open spec fn metadata_path_of(path: Seq<char>, edits: Seq<char>) -> Result<
    Seq<char>,
    Seq<char>,
> {
    if !starts_with(path, prefix()) {
        Ok(path)
    } else {
        match asset_key_of(path) {
            Ok(key) => Ok(path_join(path_join(edits, key), seq!['p', 'h', 'o', 't', 'o'])),
            Err(e) => Err(e),
        }
    }
}

/// Resolves the metadata path; does not create it.
pub fn metadata_path(path: &str, edits: &str) -> (r: Result<String, String>)
    ensures
        str_result(r) == metadata_path_of(path@, edits@),
{
    if !is_asset(path) {
        return Ok(string_of(&chars_of(path)));
    }
    let key = asset_key(path)?;
    let dir = join_path(edits, key.as_str());
    let photo: [char; 5] = ['p', 'h', 'o', 't', 'o'];
    let photo_s = string_of(&photo);
    assert(photo_s@ =~= seq!['p', 'h', 'o', 't', 'o']);
    Ok(join_path(dir.as_str(), photo_s.as_str()))
}

pub open spec fn msg_cache_filename() -> Seq<char> {
    "Invalid Apple Photos cache filename"@
}

/// `working.tiff`
pub open spec fn working_tiff() -> Seq<char> {
    seq!['w', 'o', 'r', 'k', 'i', 'n', 'g', '.', 't', 'i', 'f', 'f']
}

/// `original.`
pub open spec fn original_dot() -> Seq<char> {
    seq!['o', 'r', 'i', 'g', 'i', 'n', 'a', 'l', '.']
}

/// The file names a cached asset may use: the decoded working copy, or the
/// original under one of the raw extensions the decoder knows.
pub open spec fn cache_filename_ok(name: Seq<char>, raw_extensions: Seq<Seq<char>>) -> bool {
    name == working_tiff() || exists|i: int|
        0 <= i < raw_extensions.len() && name == #[trigger] original_dot() + raw_extensions[i]
}

/// Accept only the file names the asset cache itself writes, so a name can
/// never reach outside the asset's directory.
pub fn validate_cache_filename(filename: &str, raw_extensions: &Vec<String>) -> (r: Result<(), String>)
    ensures
        r is Ok <==> cache_filename_ok(filename@, raw_extensions@.map_values(|e: String| e@)),
        r matches Err(m) ==> m@ == msg_cache_filename(),
{
    let ghost exts = raw_extensions@.map_values(|e: String| e@);
    let name = chars_of(filename);
    let w: [char; 12] = ['w', 'o', 'r', 'k', 'i', 'n', 'g', '.', 't', 'i', 'f', 'f'];
    assert(w@ =~= working_tiff());
    if eq_exec(&name, &w) {
        return Ok(());
    }
    let o: [char; 9] = ['o', 'r', 'i', 'g', 'i', 'n', 'a', 'l', '.'];
    assert(o@ =~= original_dot());
    let mut i: usize = 0;
    while i < raw_extensions.len()
        invariant
            i <= raw_extensions@.len(),
            exts == raw_extensions@.map_values(|e: String| e@),
            name@ == filename@,
            o@ == original_dot(),
            name@ != working_tiff(),
            forall|j: int| 0 <= j < i ==> name@ != #[trigger] original_dot() + exts[j],
        decreases raw_extensions@.len() - i,
    {
        let mut cand = copy_range(&o, 0, 9);
        let ext = chars_of(raw_extensions[i].as_str());
        append(&mut cand, &ext);
        assert(cand@ =~= original_dot() + exts[i as int]);
        if eq_exec(&name, &cand) {
            return Ok(());
        }
        i += 1;
    }
    Err("Invalid Apple Photos cache filename".to_string())
}

/// Every digit `hex_fixed` writes is a hex digit.
proof fn lemma_hex_fixed_digits(v: nat, n: nat)
    ensures
        hex_fixed(v, n).len() == n,
        forall|i: int| 0 <= i < n ==> is_hex_digit(#[trigger] hex_fixed(v, n)[i]),
    decreases n,
{
    if n > 0 {
        lemma_hex_fixed_digits(v / 16, (n - 1) as nat);
        let h = hex_fixed(v, n);
        let d = (v % 16) as int;
        assert(is_hex_digit(digit_char(d)));
        assert forall|i: int| 0 <= i < n implies is_hex_digit(#[trigger] h[i]) by {
            if i < n - 1 {
                assert(h[i] == hex_fixed(v / 16, (n - 1) as nat)[i]);
            }
        }
    }
}

/// The cache group of an asset revision: `source-` and the revision's 64
/// bits in 16 lower-case hex digits, so a changed asset gets a new working
/// copy without disturbing one another render may still be reading.
pub fn source_group(revision_bits: u64) -> (r: String)
    ensures
        r@ == source_prefix() + hex_fixed(revision_bits as nat, 16),
        valid_group_spec(r@),
{
    let mut out: Vec<char> = Vec::new();
    out.push('s');
    out.push('o');
    out.push('u');
    out.push('r');
    out.push('c');
    out.push('e');
    out.push('-');
    push_hex_fixed(&mut out, revision_bits, 16);
    proof {
        lemma_hex_fixed_digits(revision_bits as nat, 16);
    }
    assert(out@ =~= source_prefix() + hex_fixed(revision_bits as nat, 16));
    assert(out@.subrange(0, 7) =~= source_prefix());
    assert forall|i: int| 7 <= i < 23 implies is_hex_digit(#[trigger] out@[i]) by {
        assert(out@[i] == hex_fixed(revision_bits as nat, 16)[i - 7]);
    }
    string_of(&out)
}

/// The working files an asset's cache directory may hold: the decoded copy,
/// then the original under each raw extension.
pub open spec fn working_filenames_of(raw_extensions: Seq<Seq<char>>) -> Seq<Seq<char>> {
    seq![working_tiff()] + raw_extensions.map_values(|e: Seq<char>| original_dot() + e)
}

/// The names a crashed download may have left behind, each of them one that
/// `validate_cache_filename` accepts.
pub fn working_filenames(raw_extensions: &Vec<String>) -> (r: Vec<String>)
    ensures
        str_views(r@) == working_filenames_of(raw_extensions@.map_values(|e: String| e@)),
        forall|i: int|
            0 <= i < r@.len() ==> cache_filename_ok(
                #[trigger] r@[i]@,
                raw_extensions@.map_values(|e: String| e@),
            ),
{
    let ghost exts = raw_extensions@.map_values(|e: String| e@);
    let w: [char; 12] = ['w', 'o', 'r', 'k', 'i', 'n', 'g', '.', 't', 'i', 'f', 'f'];
    let o: [char; 9] = ['o', 'r', 'i', 'g', 'i', 'n', 'a', 'l', '.'];
    assert(w@ =~= working_tiff());
    assert(o@ =~= original_dot());
    let mut r: Vec<String> = Vec::new();
    r.push(string_of(&w));
    let mut i: usize = 0;
    while i < raw_extensions.len()
        invariant
            i <= raw_extensions@.len(),
            exts == raw_extensions@.map_values(|e: String| e@),
            o@ == original_dot(),
            str_views(r@) =~= working_filenames_of(exts.take(i as int)),
            forall|k: int| 0 <= k < r@.len() ==> cache_filename_ok(#[trigger] r@[k]@, exts),
        decreases raw_extensions@.len() - i,
    {
        let mut name = copy_range(&o, 0, 9);
        append(&mut name, &chars_of(raw_extensions[i].as_str()));
        let s = string_of(&name);
        assert(s@ =~= original_dot() + exts[i as int]);
        assert(cache_filename_ok(s@, exts));
        let ghost prev = r@;
        r.push(s);
        assert(exts.take(i + 1) =~= exts.take(i as int).push(exts[i as int]));
        assert(str_views(r@) =~= str_views(prev).push(s@));
        assert(working_filenames_of(exts.take(i + 1)) =~= working_filenames_of(exts.take(i as int)).push(
            original_dot() + exts[i as int],
        ));
        assert forall|k: int| 0 <= k < r@.len() implies cache_filename_ok(#[trigger] r@[k]@, exts) by {
            if k < prev.len() {
                assert(r@[k] == prev[k]);
            }
        }
        i += 1;
    }
    assert(exts.take(raw_extensions@.len() as int) =~= exts);
    r
}

/// The cache-limit preference as stored: absent, a whole number, or
/// anything else.
pub enum CacheLimitSetting {
    Unset,
    Whole(u64),
    Other,
}

/// What a cache-limit preference gives.
pub open spec fn cache_limit_of(setting: CacheLimitSetting) -> Result<u64, Seq<char>> {
    match setting {
        CacheLimitSetting::Unset => Ok(DEFAULT_LIMIT),
        CacheLimitSetting::Whole(n) => if 1 <= n <= 64 {
            Ok((n * GIB) as u64)
        } else {
            Err(msg_cache_limit())
        },
        CacheLimitSetting::Other => Err(msg_cache_limit()),
    }
}

/// The cache limit a preference asks for: the default when unset, a whole
/// number of GiB from 1 to 64, an error for anything else.
pub fn cache_limit(setting: CacheLimitSetting) -> (r: Result<u64, String>)
    ensures
        match r {
            Ok(v) => cache_limit_of(setting) == Ok::<u64, Seq<char>>(v),
            Err(m) => cache_limit_of(setting) == Err::<u64, Seq<char>>(m@),
        },
{
    match setting {
        CacheLimitSetting::Unset => Ok(DEFAULT_LIMIT),
        CacheLimitSetting::Whole(n) => {
            if 1 <= n && n <= 64 {
                assert(GIB == 1073741824);
                assert(n * GIB <= 64 * 1073741824) by (nonlinear_arith)
                    requires
                        n <= 64,
                        GIB == 1073741824,
                ;
                Ok(n * GIB)
            } else {
                Err("Apple Photos cache limit must be a whole number from 1 to 64 GiB".to_string())
            }
        },
        CacheLimitSetting::Other => Err(
            "Apple Photos cache limit must be a whole number from 1 to 64 GiB".to_string(),
        ),
    }
}

/// Apply a new cache limit to the Apple Photos storage, refused (with
/// nothing changed) while the storage is not initialized.
pub fn set_cache_limit(storage: &mut Option<PhotoCache>, limit: u64) -> (r: Result<(), String>)
    ensures
        r is Ok <==> (*old(storage)) is Some,
        r matches Err(m) ==> m@ == "Apple Photos is not initialized"@,
        (*old(storage)) is None ==> *final(storage) == *old(storage),
        (*old(storage)) matches Some(c) ==> (*final(storage)) matches Some(n) && n.limit() == limit && n.leases()
            == c.leases() && n.root() == c.root() && (c.wf() ==> n.wf()),
{
    match storage {
        Some(cache) => {
            cache.set_limit(limit);
            Ok(())
        },
        None => Err("Apple Photos is not initialized".to_string()),
    }
}

/// What to do for an asset's working copy, given what its cache directory
/// holds.
pub enum SourceStep {
    /// Serve the working copy the manifest names.
    Reuse,
    /// Download it again: first deleting the stale copy the manifest names
    /// where `remove_stale`, and, where no manifest was committed (a crash
    /// between download and commit), the known working file names where
    /// `recover`.
    Download { remove_stale: bool, recover: bool },
}

/// Where an asset's working copy comes from. `manifest` is the file name the
/// committed manifest records (none where the manifest records none), or
/// none at all where there is no manifest; `revision_matches` whether it was
/// written for the asset's current revision; `cached_is_file` and
/// `cached_exists` what stands at the recorded name. A recorded name the
/// cache itself would not write is refused.
pub fn source_step(
    manifest: Option<Option<&str>>,
    raw_extensions: &Vec<String>,
    revision_matches: bool,
    cached_is_file: bool,
    cached_exists: bool,
) -> (r: Result<SourceStep, String>)
    ensures
        match manifest {
            None => r == Ok::<SourceStep, String>(SourceStep::Download { remove_stale: false, recover: true }),
            Some(None) => r == Ok::<SourceStep, String>(SourceStep::Download { remove_stale: false, recover: false }),
            Some(Some(f)) => if !cache_filename_ok(f@, raw_extensions@.map_values(|e: String| e@)) {
                r matches Err(m) && m@ == msg_cache_filename()
            } else if revision_matches && cached_is_file {
                r == Ok::<SourceStep, String>(SourceStep::Reuse)
            } else {
                r == Ok::<SourceStep, String>(SourceStep::Download { remove_stale: cached_exists, recover: false })
            },
        },
{
    match manifest {
        None => Ok(SourceStep::Download { remove_stale: false, recover: true }),
        Some(None) => Ok(SourceStep::Download { remove_stale: false, recover: false }),
        Some(Some(f)) => {
            match validate_cache_filename(f, raw_extensions) {
                Ok(()) => {},
                Err(m) => {
                    return Err(m);
                },
            }
            if revision_matches && cached_is_file {
                Ok(SourceStep::Reuse)
            } else {
                Ok(SourceStep::Download { remove_stale: cached_exists, recover: false })
            }
        },
    }
}

/// A photo's readable source: a plain file, or a cached working copy held
/// under a lease for as long as the source is in use.
pub struct Source {
    path: String,
    lease: Option<CacheLease>,
}

impl Source {
    pub closed spec fn path_view(&self) -> Seq<char> {
        self.path@
    }

    pub closed spec fn lease_view(&self) -> Option<CacheLease> {
        self.lease
    }

    /// A file on disk, read in place.
    pub fn plain(path: &str) -> (r: Source)
        ensures
            r.path_view() == path@,
            r.lease_view() is None,
    {
        Source { path: string_of(&chars_of(path)), lease: None }
    }

    /// A cached working copy and the lease that keeps it.
    pub fn cached(path: String, lease: CacheLease) -> (r: Source)
        ensures
            r.path_view() == path@,
            r.lease_view() == Some(lease),
    {
        Source { path, lease: Some(lease) }
    }

    pub fn path(&self) -> (r: &str)
        ensures
            r@ == self.path_view(),
    {
        self.path.as_str()
    }

    /// Done with the source: the lease, if any, to give back.
    pub fn into_lease(self) -> (r: Option<CacheLease>)
        ensures
            r == self.lease_view(),
    {
        self.lease
    }
}


proof fn lemma_hex_char_val(n: int)
    requires
        0 <= n < 16,
    ensures
        hex_val(hex_char(n)) == Some(n),
        hex_char(n) != '/',
{
}

/// Decoding the hex of some bytes gives the bytes back.
proof fn lemma_hex_round_trip(b: Seq<u8>)
    ensures
        hex_decode(hex_encode(b)) == b,
        forall|i: int| 0 <= i < hex_encode(b).len() ==> is_hex(#[trigger] hex_encode(b)[i]),
        forall|i: int| 0 <= i < hex_encode(b).len() ==> #[trigger] hex_encode(b)[i] != '/',
{
    let h = hex_encode(b);
    assert forall|i: int| 0 <= i < h.len() implies is_hex(#[trigger] h[i]) && h[i] != '/' by {
        lemma_hex_char_val(b[i / 2] as int / 16);
        lemma_hex_char_val(b[i / 2] as int % 16);
    }
    assert forall|i: int| 0 <= i < b.len() implies #[trigger] hex_decode(h)[i] == b[i] by {
        lemma_hex_char_val(b[i] as int / 16);
        lemma_hex_char_val(b[i] as int % 16);
        assert(h[2 * i] == hex_char(b[i] as int / 16));
        assert(h[2 * i + 1] == hex_char(b[i] as int % 16));
    }
    assert(hex_decode(h) =~= b);
}

proof fn lemma_encode_nonempty(id: Seq<char>)
    requires
        id.len() > 0,
    ensures
        encode_utf8(id).len() > 0,
{
    assert(encode_scalar(id[0] as u32).len() > 0);
}

/// The asset path a PhotoKit identifier and a file name are listed under.
pub open spec fn asset_path_of(id: Seq<char>, name: Seq<char>) -> Seq<char> {
    prefix() + encode_id_of(id) + slash() + name
}

/// An identifier survives the trip through an asset path: the path's key is
/// the identifier's encoding, and the identifier read back from it is the
/// one that went in — for any non-empty identifier of at most 512 UTF-8
/// bytes and any file name that cannot climb out of its directory.
pub proof fn law_asset_identity_round_trip(id: Seq<char>, name: Seq<char>)
    requires
        id.len() > 0,
        encode_utf8(id).len() <= 512,
        valid_filename(name),
    ensures
        asset_key_of(asset_path_of(id, name)) == Ok::<Seq<char>, Seq<char>>(encode_id_of(id)),
        identifier_ok(asset_path_of(id, name), id),
{
    let key = encode_id_of(id);
    let path = asset_path_of(id, name);
    lemma_hex_round_trip(encode_utf8(id));
    lemma_encode_nonempty(id);
    assert(path.subrange(0, 15) =~= prefix());
    let rest = path.skip(15);
    assert(rest =~= key + slash() + name);
    let k = key.len() as int;
    assert forall|j: int| 0 <= j < k implies !occurs_at(rest, slash(), j) by {
        assert(rest.subrange(j, j + 1)[0] == key[j]);
    }
    lemma_find_from_skip(rest, slash(), 0, k);
    assert(rest.subrange(k, k + 1) =~= slash());
    assert(find(rest, slash()) == Some(k));
    assert(rest.take(k) =~= key);
    assert(rest.skip(k + 1) =~= name);
    assert(valid_key(key));
    broadcast use encode_utf8_valid_utf8, encode_utf8_decode_utf8;

}

/// Different identifiers never share an asset key.
pub proof fn law_encode_id_injective(a: Seq<char>, b: Seq<char>)
    requires
        encode_id_of(a) == encode_id_of(b),
    ensures
        a == b,
{
    lemma_hex_round_trip(encode_utf8(a));
    lemma_hex_round_trip(encode_utf8(b));
    assert(encode_utf8(a) == encode_utf8(b));
    encode_utf8_decode_utf8(a);
    encode_utf8_decode_utf8(b);
}

} // verus!
