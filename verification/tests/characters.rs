use serde_edn::{from_str, to_string, Value};

fn parse(s: &str) -> Value {
    from_str::<Value>(s).unwrap()
}

fn assert_char_round_trip(edn: &str) {
    let parsed: Value = from_str(edn).unwrap();
    let serialized = to_string(&parsed).unwrap();
    let reparsed: Value = from_str(&serialized).unwrap();
    assert_eq!(parsed, reparsed, "Round trip failed: {} -> {} -> {:?}", edn, serialized, reparsed);
}

#[test]
fn test_unicode_escapes() {
    assert_eq!(parse(r#"\u0041"#), Value::Char('A'));
    assert_eq!(parse(r#"\u03B1"#), Value::Char('α'));
    assert_eq!(parse(r#"\u2764"#), Value::Char('❤'));
}

#[test]
fn test_named_chars() {
    assert_eq!(parse(r#"\newline"#), Value::Char('\n'));
    assert_eq!(parse(r#"\return"#), Value::Char('\r'));
    assert_eq!(parse(r#"\tab"#), Value::Char('\t'));
    assert_eq!(parse(r#"\space"#), Value::Char(' '));
}

#[test]
fn test_literal_chars() {
    assert_eq!(parse(r#"\A"#), Value::Char('A'));
    assert_eq!(parse(r#"\b"#), Value::Char('b'));
    assert_eq!(parse(r#"\!"#), Value::Char('!'));
}

#[test]
fn test_char_round_trip() {
    assert_char_round_trip(r#"\A"#);
    assert_char_round_trip(r#"\newline"#);
    assert_char_round_trip(r#"\u0041"#);
    assert_char_round_trip(r#"\u03B1"#);
}

#[test]
fn test_invalid_unicode_escape() {
    let result = from_str::<Value>(r#"\u00G1"#);
    assert!(result.is_err());

    let result = from_str::<Value>(r#"\u004"#);
    assert!(result.is_err());
}

#[test]
fn test_char_written_forms() {
    assert_eq!(to_string(&Value::Char('\n')).unwrap(), r#"\newline"#);
    assert_eq!(to_string(&Value::Char(' ')).unwrap(), r#"\space"#);
    assert_eq!(to_string(&Value::Char('a')).unwrap(), r#"\a"#);
    assert_eq!(to_string(&Value::Char('α')).unwrap(), r#"\u03B1"#);
    assert_eq!(to_string(&Value::Char('é')).unwrap(), r#"\u00E9"#);
}

#[test]
fn test_char_literal_errors() {
    assert!(from_str::<Value>(r#"\uABC"#).is_err());
    assert!(from_str::<Value>(r#"\foo"#).is_err());
    assert!(from_str::<Value>(r#"\"#).is_err());
    assert!(from_str::<Value>(r#"\uD800"#).is_err());
}

#[test]
fn test_char_decoding() {
    assert_eq!(from_str::<char>(r#"\a"#).unwrap(), 'a');
    assert_eq!(from_str::<char>(r#"\u2665"#).unwrap(), '♥');
    assert_eq!(from_str::<char>(r#""x""#).unwrap(), 'x');
    assert!(from_str::<char>(r#""xy""#).is_err());
}

#[test]
fn test_unicode_escapes_with_hex_letters() {
    assert_eq!(parse(r#"\uFFFD"#), Value::Char('\u{FFFD}'));
    assert_eq!(parse(r#"\uABCD"#), Value::Char('\u{ABCD}'));
    assert_eq!(parse(r#"\u00e9"#), Value::Char('é'));
    assert_eq!(parse(r#"\u0075"#), Value::Char('u'));
}

#[test]
fn test_single_letter_beyond_ascii() {
    assert_eq!(parse(r#"\α"#), Value::Char('α'));
    assert_eq!(parse("\\😀"), Value::Char('😀'));
    assert_eq!(
        parse(r#"[\α \b]"#),
        Value::Vector(vec![Value::Char('α'), Value::Char('b')])
    );
}

#[test]
fn test_every_char_reads_back() {
    let chars = [
        'u', 'a', 'Z', '0', '(', '"', '\\', '\n', '\r', '\t', ' ', '\0', '\u{7F}', '\u{80}', 'é',
        'α', '\u{A000}', '\u{D7FF}', '\u{E000}', '\u{FFFD}', '\u{FFFF}', '\u{10000}', '😀',
        '\u{10FFFF}',
    ];
    for &c in chars.iter() {
        let text = to_string(&Value::Char(c)).unwrap();
        assert_eq!(parse(&text), Value::Char(c), "{:?} written as {}", c, text);
        let list = Value::List(vec![Value::Char(c), Value::Char('u'), Value::Char(c)]);
        let text = to_string(&list).unwrap();
        assert_eq!(parse(&text), list, "{}", text);
    }
    assert_eq!(to_string(&Value::Char('u')).unwrap(), r#"\u0075"#);
    assert_eq!(to_string(&Value::Char('\u{FFFD}')).unwrap(), r#"\uFFFD"#);
    assert_eq!(to_string(&Value::Char('😀')).unwrap(), "\\😀");
}
