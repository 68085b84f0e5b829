//! Character classes and conversions between `str`, `String` and `Vec<char>`.
use vstd::prelude::*;

verus! {

/// The Unicode `Alphabetic` property, as `char::is_alphabetic` reports it.
pub uninterp spec fn char_is_alphabetic(c: char) -> bool;

/// `Alphabetic` or `Numeric`, as `char::is_alphanumeric` reports it.
pub uninterp spec fn char_is_alphanumeric(c: char) -> bool;

/// The Unicode `White_Space` property, as `char::is_whitespace` reports it.
pub uninterp spec fn char_is_whitespace(c: char) -> bool;

/// The ASCII letters.
pub open spec fn is_ascii_letter(c: char) -> bool {
    ('a' <= c && c <= 'z') || ('A' <= c && c <= 'Z')
}

/// The decimal digits.
pub open spec fn is_ascii_digit(c: char) -> bool {
    '0' <= c && c <= '9'
}

/// The ASCII characters with the `White_Space` property: tab, line feed,
/// vertical tab, form feed, carriage return and space.
pub open spec fn is_ascii_space(c: char) -> bool {
    c == ' ' || ('\t' <= c && c <= '\r')
}

/// The hex digits, in either case.
pub open spec fn is_hex_digit(c: char) -> bool {
    is_ascii_digit(c) || ('a' <= c && c <= 'f') || ('A' <= c && c <= 'F')
}

/// The value of a hex digit.
pub open spec fn hex_digit_value(c: char) -> int {
    if is_ascii_digit(c) {
        c as int - '0' as int
    } else if 'a' <= c && c <= 'f' {
        c as int - 'a' as int + 10
    } else {
        c as int - 'A' as int + 10
    }
}

/// Whether `u` is a Unicode scalar value, i.e. a valid `char`.
pub open spec fn is_scalar_value(u: int) -> bool {
    (0 <= u && u < 0xD800) || (0xE000 <= u && u <= 0x10FFFF)
}

/// Whether `c` is alphabetic: on ASCII exactly the letters, beyond ASCII
/// the Unicode property.
pub open spec fn alphabetic(c: char) -> bool {
    if (c as u32) < 128 {
        is_ascii_letter(c)
    } else {
        char_is_alphabetic(c)
    }
}

/// Whether `c` is alphanumeric: on ASCII exactly the letters and decimal
/// digits, beyond ASCII the Unicode property.
pub open spec fn alphanumeric(c: char) -> bool {
    if (c as u32) < 128 {
        is_ascii_letter(c) || is_ascii_digit(c)
    } else {
        char_is_alphanumeric(c)
    }
}

/// Whether `c` is whitespace: on ASCII exactly tab, line feed, vertical tab,
/// form feed, carriage return and space, beyond ASCII the Unicode property.
pub open spec fn whitespace(c: char) -> bool {
    if (c as u32) < 128 {
        is_ascii_space(c)
    } else {
        char_is_whitespace(c)
    }
}

/// Calls `char::is_alphabetic`: the Unicode `Alphabetic` property, which on
/// ASCII holds exactly of the letters.
#[verifier::external_body]
pub(crate) fn is_alphabetic(c: char) -> (r: bool)
    ensures
        (c as u32) < 128 ==> (r <==> is_ascii_letter(c)),
        (c as u32) >= 128 ==> r == char_is_alphabetic(c),
{
    c.is_alphabetic()
}

/// Calls `char::is_alphanumeric`: `Alphabetic` or `Numeric`, which on ASCII
/// holds exactly of the letters and the decimal digits.
#[verifier::external_body]
pub(crate) fn is_alphanumeric(c: char) -> (r: bool)
    ensures
        (c as u32) < 128 ==> (r <==> (is_ascii_letter(c) || is_ascii_digit(c))),
        (c as u32) >= 128 ==> r == char_is_alphanumeric(c),
{
    c.is_alphanumeric()
}

/// Calls `char::is_whitespace`: the Unicode `White_Space` property, which on
/// ASCII holds exactly of tab, line feed, vertical tab, form feed, carriage
/// return and space.
#[verifier::external_body]
pub(crate) fn is_whitespace(c: char) -> (r: bool)
    ensures
        (c as u32) < 128 ==> (r <==> is_ascii_space(c)),
        (c as u32) >= 128 ==> r == char_is_whitespace(c),
{
    c.is_whitespace()
}

/// Calls `char::from_u32`, which accepts exactly the Unicode scalar values.
#[verifier::external_body]
pub(crate) fn char_from_u32(u: u32) -> (r: Option<char>)
    ensures
        r is Some <==> is_scalar_value(u as int),
        r matches Some(c) ==> c as u32 == u,
{
    char::from_u32(u)
}

/// Collects `str::chars` into a vector. A `Vec` never holds more than
/// `isize::MAX` bytes, so the length stays below `usize::MAX`.
#[verifier::external_body]
pub(crate) fn str_to_chars(s: &str) -> (r: Vec<char>)
    ensures
        r@ == s@,
        r@.len() < usize::MAX,
{
    s.chars().collect()
}

/// Collects characters into a `String`.
#[verifier::external_body]
pub(crate) fn chars_to_string(v: &Vec<char>) -> (r: String)
    ensures
        r@ == v@,
{
    v.iter().collect()
}

pub(crate) fn is_hex(c: char) -> (r: bool)
    ensures
        r == is_hex_digit(c),
{
    ('0' <= c && c <= '9') || ('a' <= c && c <= 'f') || ('A' <= c && c <= 'F')
}

pub(crate) fn is_digit(c: char) -> (r: bool)
    ensures
        r == is_ascii_digit(c),
{
    '0' <= c && c <= '9'
}

/// Appends the characters of `lit` to `out`.
pub(crate) fn push_str(out: &mut Vec<char>, lit: &str)
    ensures
        final(out)@ == old(out)@ + lit@,
{
    let n = lit.unicode_len();
    let ghost start = out@;
    let mut i: usize = 0;
    while i < n
        invariant
            n == lit@.len(),
            i <= n,
            out@ == start + lit@.subrange(0, i as int),
        decreases n - i,
    {
        let c = lit.get_char(i);
        out.push(c);
        i = i + 1;
        assert(lit@.subrange(0, i as int) == lit@.subrange(0, i - 1) + seq![c]);
    }
    assert(lit@.subrange(0, n as int) == lit@);
}

/// Appends `extra` to `out`.
pub(crate) fn push_chars(out: &mut Vec<char>, extra: &Vec<char>)
    ensures
        final(out)@ == old(out)@ + extra@,
{
    let ghost start = out@;
    let mut i: usize = 0;
    while i < extra.len()
        invariant
            i <= extra@.len(),
            out@ == start + extra@.subrange(0, i as int),
        decreases extra.len() - i,
    {
        out.push(extra[i]);
        i = i + 1;
        assert(extra@.subrange(0, i as int) == extra@.subrange(0, i - 1) + seq![extra@[i - 1]]);
    }
    assert(extra@.subrange(0, extra@.len() as int) == extra@);
}

/// A `String` holding the characters of `lit`.
pub(crate) fn string_of(lit: &str) -> (r: String)
    ensures
        r@ == lit@,
{
    let mut v: Vec<char> = Vec::new();
    push_str(&mut v, lit);
    chars_to_string(&v)
}

/// Whether `v` holds exactly the characters of `lit`.
pub(crate) fn chars_eq_str(v: &Vec<char>, lit: &str) -> (r: bool)
    ensures
        r == (v@ == lit@),
{
    let n = lit.unicode_len();
    if v.len() != n {
        return false;
    }
    let mut i: usize = 0;
    while i < n
        invariant
            n == lit@.len(),
            n == v@.len(),
            i <= n,
            forall|j: int| 0 <= j < i ==> v@[j] == lit@[j],
        decreases n - i,
    {
        if v[i] != lit.get_char(i) {
            return false;
        }
        i = i + 1;
    }
    assert(v@ == lit@);
    true
}

} // verus!
