//! Tagged literals: `#inst` instants, `#uuid` identifiers and other tags.
use vstd::prelude::*;
use crate::chars::{is_hex_digit, string_of, push_str, push_chars, chars_to_string, str_to_chars};
use crate::types::{Error, Symbol};
use crate::value::{EdnValue, Value, deep_clone};

verus! {

/// What `DateTime::parse_from_rfc3339` makes of a text: the instant in
/// milliseconds since the Unix epoch, or the text of its error.
pub uninterp spec fn rfc3339_millis(s: Seq<char>) -> Result<i64, Seq<char>>;

/// The text of the error of `Uuid::parse_str` on a text it refuses.
pub uninterp spec fn uuid_error_text(s: Seq<char>) -> Seq<char>;

/// What `DateTime::from_timestamp_millis` followed by
/// `to_rfc3339_opts(SecondsFormat::Millis, true)` makes of a count of
/// milliseconds; `None` when it is out of the range of `DateTime`.
pub uninterp spec fn rfc3339_text(ms: i64) -> Option<Seq<char>>;

/// `c` in lower case when it is an ASCII letter.
pub open spec fn ascii_lower(c: char) -> char {
    if 'A' <= c && c <= 'Z' {
        ((c as u32) + 32) as char
    } else {
        c
    }
}

/// Every character of `s` is a hex digit.
pub open spec fn all_hex(s: Seq<char>) -> bool {
    forall|i: int| 0 <= i < s.len() ==> is_hex_digit(#[trigger] s[i])
}

/// Thirty-two hex digits in groups of 8, 4, 4, 4 and 12, joined by hyphens.
pub open spec fn is_hyphenated_uuid(s: Seq<char>) -> bool {
    &&& s.len() == 36
    &&& s[8] == '-' && s[13] == '-' && s[18] == '-' && s[23] == '-'
    &&& forall|i: int|
        0 <= i < 36 && i != 8 && i != 13 && i != 18 && i != 23 ==> is_hex_digit(#[trigger] s[i])
}

/// The texts that `Uuid::parse_str` accepts: 32 hex digits, the hyphenated
/// form, the hyphenated form in braces, or the hyphenated form after a
/// `urn:uuid:` prefix in any case.
pub open spec fn uuid_text_ok(s: Seq<char>) -> bool {
    ||| s.len() == 32 && all_hex(s)
    ||| is_hyphenated_uuid(s)
    ||| s.len() == 38 && s[0] == '{' && s[37] == '}' && is_hyphenated_uuid(s.subrange(1, 37))
    ||| s.len() == 45 && s.subrange(0, 9).map_values(|c: char| ascii_lower(c)) == "urn:uuid:"@
        && is_hyphenated_uuid(s.subrange(9, 45))
}

/// The text of an instant in RFC 3339 with milliseconds and `Z`; the epoch
/// when the count is out of range.
pub open spec fn inst_text(ms: i64) -> Seq<char> {
    match rfc3339_text(ms) {
        Some(t) => t,
        None => "1970-01-01T00:00:00.000Z"@,
    }
}

/// What a tagged literal `#tag v` reads as. `#inst` takes an RFC 3339 text
/// and gives the instant in milliseconds under the tag `:inst`; `#uuid`
/// checks its text and gives it as a plain string; any other tag is kept,
/// with a colon before its name.
pub open spec fn tag_result(tag: Seq<char>, v: EdnValue) -> Result<EdnValue, Seq<char>> {
    if tag == "inst"@ {
        match v {
            EdnValue::Str(t) => match rfc3339_millis(t) {
                Ok(ms) => Ok(EdnValue::Tagged(":inst"@, Box::new(EdnValue::Integer(ms as int)))),
                Err(m) => Err("Invalid #inst: "@ + m),
            },
            _ => Err("#inst requires RFC-3339 string"@),
        }
    } else if tag == "uuid"@ {
        match v {
            EdnValue::Str(t) => if uuid_text_ok(t) {
                Ok(EdnValue::Str(t))
            } else {
                Err("Invalid #uuid: "@ + uuid_error_text(t))
            },
            _ => Err("#uuid requires string"@),
        }
    } else {
        Ok(EdnValue::Tagged(seq![':'] + tag, Box::new(v)))
    }
}

/// Calls `DateTime::parse_from_rfc3339` and takes the instant in
/// milliseconds (`with_timezone(&Utc)`, `timestamp_millis`), or the text of
/// the error. Both are named, not stated.
#[verifier::external_body]
fn parse_rfc3339_millis(s: &str) -> (r: Result<i64, String>)
    ensures
        match r {
            Ok(ms) => rfc3339_millis(s@) == Ok::<i64, Seq<char>>(ms),
            Err(m) => rfc3339_millis(s@) == Err::<i64, Seq<char>>(m@),
        },
{
    match chrono::DateTime::parse_from_rfc3339(s) {
        Ok(dt) => Ok(dt.with_timezone(&chrono::Utc).timestamp_millis()),
        Err(e) => Err(e.to_string()),
    }
}

/// Calls `Uuid::parse_str`: it accepts the texts that `uuid_text_ok`
/// describes (32 hex digits, plain, hyphenated, in braces, or after
/// `urn:uuid:`); the text of its error is named.
#[verifier::external_body]
fn parse_uuid(s: &str) -> (r: Result<(), String>)
    ensures
        r is Ok <==> uuid_text_ok(s@),
        r matches Err(m) ==> m@ == uuid_error_text(s@),
{
    match uuid::Uuid::parse_str(s) {
        Ok(_) => Ok(()),
        Err(e) => Err(e.to_string()),
    }
}

/// Calls `DateTime::from_timestamp_millis` and, when it gives an instant,
/// `to_rfc3339_opts(SecondsFormat::Millis, true)` on it. The range and the
/// text are named, not stated.
#[verifier::external_body]
fn rfc3339_of_millis(ms: i64) -> (r: Option<String>)
    ensures
        match r {
            Some(t) => rfc3339_text(ms) == Some(t@),
            None => rfc3339_text(ms) is None,
        },
{
    match chrono::DateTime::from_timestamp_millis(ms) {
        Some(dt) => Some(dt.with_timezone(&chrono::Utc).to_rfc3339_opts(chrono::SecondsFormat::Millis, true)),
        None => None,
    }
}

/// Formats milliseconds since the Unix epoch as an RFC 3339 UTC text with
/// milliseconds; out of range, the epoch itself.
pub fn format_inst_ms(ms: i64) -> (r: String)
    ensures
        r@ == inst_text(ms),
{
    match rfc3339_of_millis(ms) {
        Some(t) => t,
        None => string_of("1970-01-01T00:00:00.000Z"),
    }
}

pub(crate) fn custom(prefix: &str, rest: &String) -> (r: Error)
    ensures
        r@ == crate::types::ErrorView::Custom(prefix@ + rest@),
{
    let mut msg: Vec<char> = Vec::new();
    push_str(&mut msg, prefix);
    let rest_chars = str_to_chars(rest.as_str());
    push_chars(&mut msg, &rest_chars);
    Error::Custom(chars_to_string(&msg))
}

fn handle_inst(value: &Value) -> (r: Result<Value, Error>)
    ensures
        match tag_result("inst"@, value@) {
            Ok(x) => r matches Ok(y) && y@ == x,
            Err(m) => r matches Err(e) && e@ == crate::types::ErrorView::Custom(m),
        },
{
    proof { reveal_strlit("inst"); reveal_strlit("uuid"); }
    match value {
        Value::String(s) => {
            assert(value@ == EdnValue::Str(s@));
            match parse_rfc3339_millis(s.as_str()) {
                Ok(ms) => {
                    let inner = Value::Integer(ms);
                    assert(inner@ == EdnValue::Integer(ms as int));
                    let r = Value::Tagged { tag: Symbol::new(":inst"), value: Box::new(inner) };
                    assert(r@ == EdnValue::Tagged(":inst"@, Box::new(EdnValue::Integer(ms as int))));
                    Ok(r)
                },
                Err(m) => Err(custom("Invalid #inst: ", &m)),
            }
        },
        _ => Err(Error::Custom(string_of("#inst requires RFC-3339 string"))),
    }
}

fn handle_uuid(value: &Value) -> (r: Result<Value, Error>)
    ensures
        match tag_result("uuid"@, value@) {
            Ok(x) => r matches Ok(y) && y@ == x,
            Err(m) => r matches Err(e) && e@ == crate::types::ErrorView::Custom(m),
        },
{
    proof {
        reveal_strlit("inst");
        reveal_strlit("uuid");
        assert("uuid"@[0] != "inst"@[0]);
    }
    match value {
        Value::String(s) => {
            assert(value@ == EdnValue::Str(s@));
            match parse_uuid(s.as_str()) {
                Ok(()) => {
                    let r = Value::String(s.clone());
                    assert(r@ == EdnValue::Str(s@));
                    Ok(r)
                },
                Err(m) => Err(custom("Invalid #uuid: ", &m)),
            }
        },
        _ => Err(Error::Custom(string_of("#uuid requires string"))),
    }
}

/// Reads the tagged literal `#tag value`: see [`tag_result`].
pub fn handle_tagged_value(tag: &str, value: &Value) -> (r: Result<Value, Error>)
    ensures
        match tag_result(tag@, value@) {
            Ok(x) => r matches Ok(y) && y@ == x,
            Err(m) => r matches Err(e) && e@ == crate::types::ErrorView::Custom(m),
        },
{
    let t = str_to_chars(tag);
    if crate::chars::chars_eq_str(&t, "inst") {
        handle_inst(value)
    } else if crate::chars::chars_eq_str(&t, "uuid") {
        handle_uuid(value)
    } else {
        let mut name: Vec<char> = Vec::new();
        name.push(':');
        push_chars(&mut name, &t);
        let r = Value::Tagged { tag: Symbol(chars_to_string(&name)), value: Box::new(deep_clone(value)) };
        assert(name@ == seq![':'] + tag@);
        Ok(r)
    }
}

} // verus!
