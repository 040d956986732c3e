//! Percent-decoding of the file paths the webview sends in `reveal://` URLs
//! (enough for what `encodeURIComponent` produces).
use vstd::prelude::*;
use vstd::string::StringSliceAdditionalSpecFns;
use vstd::utf8::{decode_utf8, encode_utf8, is_continuation_byte, valid_utf8};

verus! {

/// What `String::from_utf8_lossy` gives for these bytes: their text, with
/// each invalid sequence replaced by U+FFFD.
pub uninterp spec fn utf8_lossy_of(bytes: Seq<u8>) -> Seq<char>;

/// std `String::from_utf8_lossy`, made owned: for valid UTF-8 the text the
/// bytes encode (as its documentation says); for other bytes the text with
/// replacement characters, which is named, not spelled out.
#[verifier::external_body]
fn utf8_lossy(bytes: &[u8]) -> (r: String)
    ensures
        r@ == utf8_lossy_of(bytes@),
        valid_utf8(bytes@) ==> r@ == decode_utf8(bytes@),
{
    String::from_utf8_lossy(bytes).into_owned()
}

/// The value of an ASCII hex digit byte.
pub open spec fn hex_digit_value(c: u8) -> Option<u8> {
    if 48 <= c <= 57 {
        Some((c - 48) as u8)
    } else if 65 <= c <= 70 {
        Some((c - 55) as u8)
    } else if 97 <= c <= 102 {
        Some((c - 87) as u8)
    } else {
        None
    }
}

/// What `u8::from_str_radix(.., 16)` reads from a two-byte string: two hex
/// digits, or a `+` sign and one.
pub open spec fn hex_pair(a: u8, b: u8) -> Option<u8> {
    match (hex_digit_value(a), hex_digit_value(b)) {
        (Some(x), Some(y)) => Some((16 * x + y) as u8),
        (None, Some(y)) => if a == 43 {
            Some(y)
        } else {
            None
        },
        _ => None,
    }
}

/// Where a `%` at `i` has two bytes after it, the two characters after it
/// are cut out of the text: that cut must fall on character boundaries
/// (neither `i + 1` nor `i + 3` inside a character), or it panics.
pub open spec fn cut_ok(b: Seq<u8>, i: int) -> bool {
    &&& !is_continuation_byte(b[i + 1])
    &&& (i + 3 == b.len() || !is_continuation_byte(b[i + 3]))
}

/// The bytes decoded from position `i` on: `%XX` (or `%+X`) becomes its
/// byte, `+` a space, anything else itself. None where a `%` cut would fall
/// inside a character.
pub open spec fn decode_from(b: Seq<u8>, i: nat) -> Option<Seq<u8>>
    decreases b.len() - i,
{
    if i >= b.len() {
        Some(Seq::empty())
    } else if b[i as int] == 37 && i + 2 < b.len() && !cut_ok(b, i as int) {
        None
    } else if b[i as int] == 37 && i + 2 < b.len() && hex_pair(b[i + 1int], b[i + 2int]) is Some {
        match decode_from(b, i + 3) {
            Some(rest) => Some(seq![hex_pair(b[i + 1int], b[i + 2int])->0] + rest),
            None => None,
        }
    } else {
        let c: u8 = if b[i as int] == 43 {
            32
        } else {
            b[i as int]
        };
        match decode_from(b, i + 1) {
            Some(rest) => Some(seq![c] + rest),
            None => None,
        }
    }
}

pub open spec fn prepend(p: Seq<u8>, o: Option<Seq<u8>>) -> Option<Seq<u8>> {
    match o {
        Some(r) => Some(p + r),
        None => None,
    }
}

fn hex_digit_exec(c: u8) -> (r: Option<u8>)
    ensures
        r == hex_digit_value(c),
{
    if 48 <= c && c <= 57 {
        Some(c - 48)
    } else if 65 <= c && c <= 70 {
        Some(c - 55)
    } else if 97 <= c && c <= 102 {
        Some(c - 87)
    } else {
        None
    }
}

fn hex_pair_exec(a: u8, b: u8) -> (r: Option<u8>)
    ensures
        r == hex_pair(a, b),
{
    match (hex_digit_exec(a), hex_digit_exec(b)) {
        (Some(x), Some(y)) => Some(16 * x + y),
        (None, Some(y)) => if a == 43 {
            Some(y)
        } else {
            None
        },
        _ => None,
    }
}

/// Decode `s`, or none where decoding it would cut a character apart.
pub fn try_percent_decode(s: &str) -> (r: Option<String>)
    ensures
        r is None <==> decode_from(s.spec_bytes(), 0) is None,
        r matches Some(t) ==> t@ == utf8_lossy_of(decode_from(s.spec_bytes(), 0)->0),
        r matches Some(t) ==> (valid_utf8(decode_from(s.spec_bytes(), 0)->0) ==> t@ == decode_utf8(
            decode_from(s.spec_bytes(), 0)->0,
        )),
{
    let b = s.as_bytes();
    let ghost bs = b@;
    let mut out: Vec<u8> = Vec::new();
    let mut i: usize = 0;
    assert(out@ + Seq::<u8>::empty() =~= out@);
    while i < b.len()
        invariant
            bs == b@,
            bs == s.spec_bytes(),
            i <= b@.len(),
            decode_from(bs, 0) == prepend(out@, decode_from(bs, i as nat)),
        decreases b@.len() - i,
    {
        let ghost prev = out@;
        if b[i] == 37 && b.len() >= 3 && i < b.len() - 2 {
            let cut = !is_continuation_exec(b[i + 1]) && (i + 3 == b.len() || !is_continuation_exec(b[i + 3]));
            if !cut {
                assert(!cut_ok(bs, i as int));
                assert(decode_from(bs, i as nat) is None);
                return None;
            }
            match hex_pair_exec(b[i + 1], b[i + 2]) {
                Some(v) => {
                    out.push(v);
                    assert(prepend(prev, decode_from(bs, i as nat)) == prepend(out@, decode_from(bs, (i + 3) as nat))) by {
                        match decode_from(bs, (i + 3) as nat) {
                            Some(rest) => {
                                assert(prev + (seq![v] + rest) =~= out@ + rest);
                            },
                            None => {},
                        }
                    }
                    i += 3;
                    continue;
                },
                None => {},
            }
        }
        let c: u8 = if b[i] == 43 {
            32
        } else {
            b[i]
        };
        out.push(c);
        assert(prepend(prev, decode_from(bs, i as nat)) == prepend(out@, decode_from(bs, (i + 1) as nat))) by {
            match decode_from(bs, (i + 1) as nat) {
                Some(rest) => {
                    assert(prev + (seq![c] + rest) =~= out@ + rest);
                },
                None => {},
            }
        }
        i += 1;
    }
    assert(out@ + Seq::<u8>::empty() =~= out@);
    Some(utf8_lossy(out.as_slice()))
}

fn is_continuation_exec(c: u8) -> (r: bool)
    ensures
        r == is_continuation_byte(c),
{
    0x80 <= c && c <= 0xbf
}

/// Percent-decode a path: `%XX` becomes its byte, `+` a space, and the
/// bytes are read as UTF-8 (invalid sequences replaced).
pub fn percent_decode(s: &str) -> (r: String)
    requires
        decode_from(s.spec_bytes(), 0) is Some,
    ensures
        r@ == utf8_lossy_of(decode_from(s.spec_bytes(), 0)->0),
        valid_utf8(decode_from(s.spec_bytes(), 0)->0) ==> r@ == decode_utf8(decode_from(s.spec_bytes(), 0)->0),
{
    match try_percent_decode(s) {
        Some(t) => t,
        None => {
            proof {
                assert(false);
            }
            String::new()
        },
    }
}

/// The bytes `encodeURIComponent` leaves as they are: ASCII letters and
/// digits and `- _ . ! ~ * ' ( )`.
pub open spec fn uri_unreserved(b: u8) -> bool {
    (48 <= b <= 57) || (65 <= b <= 90) || (97 <= b <= 122) || b == 45 || b == 95 || b == 46 || b == 33
        || b == 126 || b == 42 || b == 39 || b == 40 || b == 41
}

/// An upper-case hex digit.
pub open spec fn hex_upper(d: u8) -> u8 {
    if d < 10 {
        (48 + d) as u8
    } else {
        (55 + d) as u8
    }
}

/// One byte as `encodeURIComponent` writes it: itself, or `%XX`.
pub open spec fn uri_escape_byte(b: u8) -> Seq<u8> {
    if uri_unreserved(b) {
        seq![b]
    } else {
        seq![37u8, hex_upper(b / 16), hex_upper(b % 16)]
    }
}

/// `encodeURIComponent` over the UTF-8 bytes of a text.
pub open spec fn uri_escape(bs: Seq<u8>) -> Seq<u8>
    decreases bs.len(),
{
    if bs.len() == 0 {
        Seq::empty()
    } else {
        uri_escape_byte(bs[0]) + uri_escape(bs.drop_first())
    }
}

proof fn lemma_decode_from_skip(b: Seq<u8>, i: nat)
    requires
        i <= b.len(),
    ensures
        decode_from(b, i) == decode_from(b.skip(i as int), 0),
    decreases b.len() - i,
{
    let t = b.skip(i as int);
    if i < b.len() {
        assert(t[0] == b[i as int]);
        if t.len() >= 2 {
            assert(t[1] == b[i + 1int]);
        }
        if t.len() >= 3 {
            assert(t[2] == b[i + 2int]);
        }
        if t.len() >= 4 {
            assert(t[3] == b[i + 3int]);
        }
        if i + 3 <= b.len() {
            lemma_decode_from_skip(b, i + 3);
            lemma_decode_from_skip(t, 3);
            assert(t.skip(3) =~= b.skip(i + 3int));
        }
        lemma_decode_from_skip(b, i + 1);
        lemma_decode_from_skip(t, 1);
        assert(t.skip(1) =~= b.skip(i + 1int));
    }
}

proof fn lemma_uri_escape_ascii_start(bs: Seq<u8>)
    requires
        bs.len() > 0,
    ensures
        uri_escape(bs).len() > 0,
        uri_escape(bs)[0] < 128,
{
}

/// Decoding what `encodeURIComponent` wrote gives its bytes back.
proof fn lemma_decode_escaped(bs: Seq<u8>)
    ensures
        decode_from(uri_escape(bs), 0) == Some(bs),
    decreases bs.len(),
{
    if bs.len() > 0 {
        let e = uri_escape(bs);
        let b0 = bs[0];
        let rest = bs.drop_first();
        let er = uri_escape(rest);
        lemma_decode_escaped(rest);
        if uri_unreserved(b0) {
            assert(e =~= seq![b0] + er);
            lemma_decode_from_skip(e, 1);
            assert(e.skip(1) =~= er);
            assert(seq![b0] + rest =~= bs);
        } else {
            let hi = (b0 / 16) as u8;
            let lo = (b0 % 16) as u8;
            assert(e =~= seq![37u8, hex_upper(hi), hex_upper(lo)] + er);
            assert(e[1] == hex_upper(hi) && e[2] == hex_upper(lo));
            assert(hex_digit_value(hex_upper(hi)) == Some(hi));
            assert(hex_digit_value(hex_upper(lo)) == Some(lo));
            assert((16 * hi + lo) as u8 == b0);
            if er.len() > 0 {
                lemma_uri_escape_ascii_start(rest);
                assert(e[3] == er[0]);
            }
            assert(cut_ok(e, 0));
            lemma_decode_from_skip(e, 3);
            assert(e.skip(3) =~= er);
            assert(seq![b0] + rest =~= bs);
        }
    }
}

/// Percent-decoding inverts `encodeURIComponent`: the escaped form of a
/// text decodes, without a cut, to the text's UTF-8 bytes, which read back
/// as the text (so `percent_decode` of it returns the text).
pub proof fn law_decode_inverts_encode(t: Seq<char>)
    ensures
        decode_from(uri_escape(encode_utf8(t)), 0) == Some(encode_utf8(t)),
        valid_utf8(encode_utf8(t)),
        decode_utf8(encode_utf8(t)) == t,
{
    broadcast use vstd::utf8::encode_utf8_valid_utf8, vstd::utf8::encode_utf8_decode_utf8;
    lemma_decode_escaped(encode_utf8(t));
}

} // verus!
