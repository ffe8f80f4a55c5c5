//! Text facts the formatter needs from outside the verified core: the display
//! width of a string, the assembly of a `String` from UTF-8 bytes, and the
//! standard library's renderings of numbers and quoted strings.

use vstd::prelude::*;
use vstd::string::StringSliceAdditionalSpecFns;

verus! {

/// The display width (in terminal columns) that `unicode-width` assigns to a string.
pub uninterp spec fn display_width_spec(s: Seq<char>) -> usize;

/// `unicode_width::UnicodeWidthStr::width`: the display width of `s`. The
/// contract names the result as a function of the string's characters; what
/// that width is for given characters is left to the crate.
#[verifier::external_body]
pub fn display_width(s: &str) -> (w: usize)
    ensures
        w == display_width_spec(s@),
{
    unicode_width::UnicodeWidthStr::width(s)
}

/// `String::from_utf8`: the bytes as a `String` when they are valid UTF-8
/// (the standard library returns an error exactly when they are not).
#[verifier::external_body]
pub fn string_from_utf8(bytes: Vec<u8>) -> (r: Option<String>)
    ensures
        r is Some <==> vstd::utf8::valid_utf8(bytes@),
        r matches Some(s) ==> vstd::utf8::encode_utf8(s@) == bytes@,
{
    String::from_utf8(bytes).ok()
}

/// Whether `src[a..b)` can be cut out as a `&str` (both cuts on character boundaries).
pub open spec fn slice_ok(src: Seq<u8>, a: int, b: int) -> bool {
    &&& 0 <= a <= b <= src.len()
    &&& vstd::utf8::is_char_boundary(src, a)
    &&& vstd::utf8::is_char_boundary(src.subrange(a, src.len() as int), b - a)
}

/// Cut `src[a..b)` out as a `&str` when both cuts fall on character boundaries.
pub fn try_slice(src: &str, a: usize, b: usize) -> (r: Option<&str>)
    ensures
        r is Some <==> slice_ok(src.spec_bytes(), a as int, b as int),
        r matches Some(x) ==> x.spec_bytes() == src.spec_bytes().subrange(a as int, b as int) && x@
            == vstd::utf8::decode_utf8(src.spec_bytes().subrange(a as int, b as int)),
{
    let bytes = src.as_bytes();
    assert(bytes@.len() == bytes.len());
    if a > b || b > bytes.len() {
        return None;
    }
    if !src.is_char_boundary(a) {
        return None;
    }
    let (_, rest) = src.split_at(a);
    if !rest.is_char_boundary(b - a) {
        return None;
    }
    let (piece, _) = rest.split_at(b - a);
    proof {
        assert(piece.spec_bytes() =~= src.spec_bytes().subrange(a as int, b as int));
        vstd::utf8::encode_utf8_decode_utf8(piece@);
    }
    Some(piece)
}


/// Whether two strings hold the same characters (compared byte by byte).
pub fn str_eq(a: &str, b: &str) -> (r: bool)
    ensures
        r == (a@ == b@),
{
    let x = a.as_bytes();
    let y = b.as_bytes();
    proof {
        vstd::utf8::encode_utf8_decode_utf8(a@);
        vstd::utf8::encode_utf8_decode_utf8(b@);
    }
    if x.len() != y.len() {
        assert(x@.len() != y@.len());
        return false;
    }
    let mut i: usize = 0;
    while i < x.len()
        invariant
            x@ == a.spec_bytes(),
            y@ == b.spec_bytes(),
            x@.len() == y@.len(),
            i <= x@.len(),
            forall|k: int| 0 <= k < i ==> x@[k] == y@[k],
        decreases x@.len() - i,
    {
        if x[i] != y[i] {
            assert(x@[i as int] != y@[i as int]);
            return false;
        }
        i = i + 1;
    }
    assert(x@ =~= y@);
    true
}

/// The character class `str::trim_end` strips: `char::is_whitespace`, the
/// Unicode `White_Space` property — tab through carriage return, space, next
/// line, no-break space, ogham space mark, the en quad through hair space, the
/// line and paragraph separators, narrow no-break space, medium mathematical
/// space and ideographic space.
pub open spec fn is_whitespace_spec(c: char) -> bool {
    let v = c as u32;
    ||| 0x9 <= v <= 0xD
    ||| v == 0x20
    ||| v == 0x85
    ||| v == 0xA0
    ||| v == 0x1680
    ||| 0x2000 <= v <= 0x200A
    ||| v == 0x2028
    ||| v == 0x2029
    ||| v == 0x202F
    ||| v == 0x205F
    ||| v == 0x3000
}

/// `s` with its trailing whitespace characters removed.
pub open spec fn trim_end_spec(s: Seq<char>) -> Seq<char>
    decreases s.len(),
{
    if s.len() > 0 && is_whitespace_spec(s.last()) {
        trim_end_spec(s.drop_last())
    } else {
        s
    }
}

/// `str::trim_end`: `s` with its trailing whitespace removed — a prefix of `s`,
/// in characters and in bytes.
#[verifier::external_body]
pub fn trim_end(s: &str) -> (r: &str)
    ensures
        r@ == trim_end_spec(s@),
        r@.len() > 0 ==> !is_whitespace_spec(r@[r@.len() - 1]),
        r.spec_bytes().len() <= s.spec_bytes().len(),
        r.spec_bytes() == s.spec_bytes().subrange(0, r.spec_bytes().len() as int),
{
    s.trim_end()
}

/// The character of the decimal digit `d` (`0 <= d < 10`).
pub open spec fn digit_char(d: nat) -> char {
    (48 + d) as char
}

/// The decimal digits of `n`, most significant first, with no sign or padding.
pub open spec fn decimal_spec(n: nat) -> Seq<char>
    decreases n,
{
    if n < 10 {
        seq![digit_char(n)]
    } else {
        decimal_spec(n / 10).push(digit_char(n % 10))
    }
}

/// `ToString::to_string` on a `usize`: its decimal digits, most significant
/// first, with no sign or padding (the `Display` of unsigned integers).
#[verifier::external_body]
pub fn decimal(n: usize) -> (s: String)
    ensures
        s@ == decimal_spec(n as nat),
{
    n.to_string()
}

/// What `<str as Debug>::fmt` writes for a string: the string in double quotes,
/// with the standard library's debug escapes.
pub uninterp spec fn debug_quoted_spec(s: Seq<char>) -> Seq<char>;

/// `<str as Debug>::fmt`, collected into a `String`. The escape rules are the
/// standard library's; the contract names the result as a function of the
/// string's characters.
#[verifier::external_body]
pub fn debug_quoted(s: &str) -> (r: String)
    ensures
        r@ == debug_quoted_spec(s@),
{
    format!("{:?}", s)
}

} // verus!
