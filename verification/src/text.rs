//! Text operations of the standard library that the library relies on,
//! with what is known of their results.

use vstd::prelude::*;
use vstd::utf8::*;
use crate::encoding::{encode_utf16, utf16_char};

verus! {

/// What `String::from_utf8_lossy` makes of a byte sequence.
pub uninterp spec fn utf8_lossy(bytes: Seq<u8>) -> Seq<char>;

/// What `String::from_utf16_lossy` makes of a sequence of code units: a
/// leading surrogate followed by a trailing one is the character they
/// encode together, any other surrogate is U+FFFD (the unit after it is
/// decoded on its own), and every other unit is the character of that value.
pub open spec fn utf16_lossy(units: Seq<u16>) -> Seq<char>
    decreases units.len(),
{
    if units.len() == 0 {
        seq![]
    } else {
        let u = units[0] as int;
        if 0xD800 <= u < 0xDC00 && units.len() >= 2 && 0xDC00 <= units[1] < 0xE000 {
            let v = 0x10000 + (u - 0xD800) * 0x400 + (units[1] - 0xDC00);
            seq![v as char] + utf16_lossy(units.subrange(2, units.len() as int))
        } else if 0xD800 <= u < 0xE000 {
            seq!['\u{FFFD}'] + utf16_lossy(units.drop_first())
        } else {
            seq![u as char] + utf16_lossy(units.drop_first())
        }
    }
}

/// The characters that `String::from_utf8_lossy` makes of a byte sequence:
/// those the bytes encode when they are valid UTF-8, else `utf8_lossy` of them.
pub open spec fn utf8_text(bytes: Seq<u8>) -> Seq<char> {
    if valid_utf8(bytes) {
        decode_utf8(bytes)
    } else {
        utf8_lossy(bytes)
    }
}

/// Whether a sequence of code units is well-formed UTF-16: every leading
/// surrogate is followed by a trailing one, and no trailing surrogate
/// stands alone.
pub open spec fn well_formed_utf16(units: Seq<u16>) -> bool
    decreases units.len(),
{
    if units.len() == 0 {
        true
    } else {
        let u = units[0];
        if 0xD800 <= u < 0xDC00 {
            &&& units.len() >= 2
            &&& 0xDC00 <= units[1] < 0xE000
            &&& well_formed_utf16(units.subrange(2, units.len() as int))
        } else if 0xDC00 <= u < 0xE000 {
            false
        } else {
            well_formed_utf16(units.drop_first())
        }
    }
}

/// Well-formed UTF-16 decodes to characters whose encoding is those code
/// units again.
pub proof fn lemma_utf16_roundtrip(units: Seq<u16>)
    requires
        well_formed_utf16(units),
    ensures
        encode_utf16(utf16_lossy(units)) == units,
    decreases units.len(),
{
    if units.len() > 0 {
        let u = units[0] as int;
        let cs = utf16_lossy(units);
        if 0xD800 <= u < 0xDC00 {
            let rest = units.subrange(2, units.len() as int);
            lemma_utf16_roundtrip(rest);
            let hi = u - 0xD800;
            let lo = units[1] - 0xDC00;
            let v = 0x10000 + hi * 0x400 + lo;
            assert(0x10000 <= v <= 0x10FFFF);
            let c = v as char;
            assert(c as u32 == v);
            let w = v - 0x10000;
            vstd::arithmetic::div_mod::lemma_fundamental_div_mod_converse(w, 0x400, hi, lo);
            assert(utf16_char(c) =~= seq![units[0], units[1]]);
            assert(cs[0] == c);
            assert(cs.drop_first() =~= utf16_lossy(rest));
            assert(units =~= seq![units[0], units[1]] + rest);
        } else {
            let rest = units.drop_first();
            lemma_utf16_roundtrip(rest);
            let c = u as char;
            assert(c as u32 == u);
            assert(utf16_char(c) =~= seq![units[0]]);
            assert(cs[0] == c);
            assert(cs.drop_first() =~= utf16_lossy(rest));
            assert(units =~= seq![units[0]] + rest);
        }
    }
}

/// The UTF-16 encoding of some characters decodes to exactly those characters.
pub proof fn lemma_utf16_decodes_encoding(cs: Seq<char>)
    ensures
        utf16_lossy(encode_utf16(cs)) == cs,
    decreases cs.len(),
{
    if cs.len() > 0 {
        let c = cs[0];
        let rest = cs.drop_first();
        lemma_utf16_decodes_encoding(rest);
        let units = encode_utf16(cs);
        let tail = encode_utf16(rest);
        assert(units == utf16_char(c) + tail);
        let v = c as u32;
        vstd::utf8::char_is_scalar(c);
        if v < 0x10000 {
            assert(units[0] == v as u16);
            assert(units.drop_first() =~= tail);
            assert(!(0xD800 <= v < 0xE000));
            vstd::utf8::char_u32_cast(c, v);
            assert(units[0] as int == v as int);
            assert((units[0] as int) as char == c);
        } else {
            let w = (v - 0x10000) as u32;
            let hi = w / 0x400;
            let lo = w % 0x400;
            assert(w < 0x100000);
            assert(units[0] == (0xD800 + hi) as u16);
            assert(units[1] == (0xDC00 + lo) as u16);
            assert(units.subrange(2, units.len() as int) =~= tail);
            vstd::arithmetic::div_mod::lemma_fundamental_div_mod(w as int, 0x400);
            let v2 = 0x10000 + (units[0] - 0xD800) * 0x400 + (units[1] - 0xDC00);
            assert(v2 == v);
            vstd::utf8::char_u32_cast(c, v);
            assert(v2 as char == c);
        }
        assert(utf16_lossy(units) =~= cs);
    }
}

/// Whether `char::is_alphanumeric` holds of a character.
pub uninterp spec fn is_alphanumeric(c: char) -> bool;

/// What `str::to_lowercase` makes of a string.
pub uninterp spec fn lowercase(s: Seq<char>) -> Seq<char>;

/// Calls `String::from_utf8_lossy`. Trusted: the result is the named
/// `utf8_lossy` of the bytes, and, as the standard library documents, bytes
/// that are valid UTF-8 decode to exactly the characters they encode.
#[verifier::external_body]
pub(crate) fn from_utf8_lossy(bytes: &[u8]) -> (s: String)
    ensures
        s@ == utf8_lossy(bytes@),
        valid_utf8(bytes@) ==> s@ == decode_utf8(bytes@),
{
    String::from_utf8_lossy(bytes).to_string()
}

/// Calls `String::from_utf16_lossy`. Trusted: the result is `utf16_lossy`
/// of the code units, as the standard library documents the decoding.
#[verifier::external_body]
pub(crate) fn from_utf16_lossy(units: &[u16]) -> (s: String)
    ensures
        s@ == utf16_lossy(units@),
{
    String::from_utf16_lossy(units)
}

/// Whether `c` is an ASCII letter or digit.
pub open spec fn is_ascii_alnum(c: char) -> bool {
    'a' <= c <= 'z' || 'A' <= c <= 'Z' || '0' <= c <= '9'
}

/// Whether `c` is a control character (Unicode general category `Cc`:
/// U+0000 to U+001F and U+007F to U+009F).
pub open spec fn is_control(c: char) -> bool {
    (c as u32) < 0x20 || (0x7F <= (c as u32) && (c as u32) <= 0x9F)
}

/// Calls `char::is_alphanumeric`. Trusted: the result is the named
/// `is_alphanumeric` of the character. As documented, a character is
/// alphanumeric when it is alphabetic or numeric by the Unicode tables: among
/// ASCII characters exactly the letters and digits are, and no control
/// character (category `Cc`) is. For other characters nothing more is stated.
#[verifier::external_body]
pub(crate) fn char_is_alphanumeric(c: char) -> (r: bool)
    ensures
        r == is_alphanumeric(c),
        (c as u32) < 128 ==> (r == is_ascii_alnum(c)),
        is_control(c) ==> !r,
{
    c.is_alphanumeric()
}

/// Calls `str::to_lowercase` and lists the characters of the result.
/// Trusted: the characters are the named `lowercase` of the input.
#[verifier::external_body]
pub(crate) fn to_lowercase_chars(s: &str) -> (r: Vec<char>)
    ensures
        r@ == lowercase(s@),
{
    s.to_lowercase().chars().collect()
}

} // verus!

verus! {

/// Collects characters into a `String` (`FromIterator<char>`). Trusted: the
/// string holds exactly the given characters, in order.
#[verifier::external_body]
pub(crate) fn string_from_chars(cs: &[char]) -> (s: String)
    ensures
        s@ == cs@,
{
    cs.iter().collect()
}

} // verus!
