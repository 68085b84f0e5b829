use serde_edn::{from_str, to_string, Error, Symbol, Value};

fn assert_doc_round_trip(edn: &str) {
    let parsed: Value = from_str(edn).unwrap();
    let serialized = to_string(&parsed).unwrap();
    let reparsed: Value = from_str(&serialized).unwrap();
    assert_eq!(parsed, reparsed, "Round trip failed: {} -> {} -> {:?}", edn, serialized, reparsed);
}

#[test]
fn test_large_nested_document() {
    let edn = r#"{
  :name "Test Document",
  :version 1,
  :float-value 3.14,
  :scientific 1.5e-3,
  :bignum 42N,
  :boolean true,
  :nil-value nil,
  :characters [\A \newline \return \tab \space \u0041 \u03B1 \u2764],
  :symbols (foo bar/baz name space.ns/name),
  :keywords [:a :b :user/name :myapp/ns-tag],
  :list (1 2 3 "string" :keyword nil),
  :vector [true false "vector" [nested vector] {nested map}],
  :nested-map {:inner "value", :number 42},
  :set #{1 2 3 4 5 :a :b},
  :inst   #inst "1985-04-12T23:20:50.52Z",
  :uuid #uuid "f81d4fae-7dec-11d0-a765-00a0c91e6bf6",
  :custom-tag #myapp/custom "custom value",
  :deep-nesting {:level1 {:level2 {:level3 {:level4 "deepest"}}}},
  :complex-vector [
    {:a 1 :b 2}
    {:c 3 :d 4}
    [nested inside vector]
    {:nested {:inner {:deep [1 2 3]}}}
  ]
}"#;

    let v1: Value = from_str(edn).unwrap();
    let serialized = to_string(&v1).unwrap();
    let v2: Value = from_str(&serialized).unwrap();
    assert_eq!(v1, v2, "Round-trip failed for integration test");
}

#[test]
fn test_unicode_and_exponents() {
    let edn = r#"{
  :unicode-chars [\u0041 \u03B1 \u01C0 \u2665 \u00A9],
  :exponent-values [1e10 1.5e-3 2.5e2 9.9E-2],
  :bignum-values [42N +100N -50N],
  :mixed [1e10 42N 3.14 -1.5e-3]
}"#;

    assert_doc_round_trip(edn);
}

#[test]
fn test_all_tagged_literals() {
    let edn = r#"[
  #inst "1985-04-12T23:20:50Z"
  #inst "2024-01-01T00:00:00+05:00"
  #uuid "f81d4fae-7dec-11d0-a765-00a0c91e6bf6"
  #uuid "00000000-0000-0000-0000-000000000000"
  #myapp/tag1 "value1"
  #myapp/ns.tag2 "value2"
  #myapp/tag3 {:nested "value"}
]"#;

    assert_doc_round_trip(edn);
}

#[test]
fn test_nested_collections() {
    let edn = r#"{
  :map-of-maps {
    :outer1 {:inner1a 1 :inner1b 2}
    :outer2 {:inner2a 3 :inner2b {:deep 4}}
  }
  :vector-of-vectors [
    [1 2 3]
    [4 5 6]
    [[nested]]
  ]
  :list-of-lists (
    (1 2 3)
    (4 5 6)
    ((nested in list))
  )
  :set-of-sets #{
    #{1 2 3}
    #{4 5 6}
  }
}"#;

    assert_doc_round_trip(edn);
}

#[test]
fn test_comments_and_discard() {
    let edn = "; leading comment\n[1 #_ 2 3 ; trailing\n 4]";
    let v: Value = from_str(edn).unwrap();
    assert_eq!(
        v,
        Value::Vector(vec![Value::Integer(1), Value::Integer(3), Value::Integer(4)])
    );
}

#[test]
fn test_map_duplicate_key_keeps_first_place() {
    let v: Value = from_str("{:a 1 :b 2 :a 3}").unwrap();
    let a = Value::Keyword(serde_edn::Keyword::new(":a"));
    let b = Value::Keyword(serde_edn::Keyword::new(":b"));
    assert_eq!(v, Value::MapVal(vec![(a, Value::Integer(3)), (b, Value::Integer(2))]));
    assert_eq!(to_string(&v).unwrap(), "{:a 3 :b 2}");
}

#[test]
fn test_symbols_keywords_constants() {
    assert_eq!(from_str::<Value>("nil").unwrap(), Value::Nil);
    assert_eq!(from_str::<Value>("false").unwrap(), Value::Bool(false));
    assert_eq!(from_str::<Value>("foo/bar").unwrap(), Value::Symbol(serde_edn::Symbol::new("foo/bar")));
    assert_eq!(from_str::<Value>(":ns/k").unwrap(), Value::Keyword(serde_edn::Keyword::new(":ns/k")));
    assert_eq!(from_str::<String>("sym").unwrap(), "sym");
}

#[test]
fn test_parse_error_positions() {
    match from_str::<Value>("{:a 1\n :b @}") {
        Err(Error::Parse(p)) => {
            assert_eq!(p.message, "unexpected character: @");
            assert_eq!((p.line, p.column), (2, 5));
        }
        other => panic!("unexpected {:?}", other),
    }
    match from_str::<Value>("\"abc") {
        Err(Error::Parse(p)) => assert_eq!(p.message, "unterminated string"),
        other => panic!("unexpected {:?}", other),
    }
    match from_str::<Value>("\"a\\qb\"") {
        Err(Error::Parse(p)) => assert_eq!(p.message, "invalid escape: \\q"),
        other => panic!("unexpected {:?}", other),
    }
    assert_eq!(from_str::<Value>("   ").unwrap_err(), Error::Eof);
    assert_eq!(from_str::<Value>("[1 2").unwrap_err(), Error::Eof);
    match from_str::<Value>("#?") {
        Err(Error::Parse(p)) => assert_eq!(p.message, "unsupported dispatch"),
        other => panic!("unexpected {:?}", other),
    }
    assert_eq!(from_str::<Value>("#inst 5").unwrap_err().message(), "#inst requires RFC-3339 string");
}

#[test]
fn test_string_escapes_written() {
    let v = Value::String("a\"b\\c\nd\te".to_string());
    assert_eq!(to_string(&v).unwrap(), r#""a\"b\\c\nd\te""#);
    assert_eq!(from_str::<Value>(&to_string(&v).unwrap()).unwrap(), v);
    assert_eq!(to_string(&Value::String(":kw".to_string())).unwrap(), r#"":kw""#);
    assert_eq!(to_string(&Value::String("::x".to_string())).unwrap(), r#""::x""#);
    assert_eq!(to_string(&Value::String("#raw".to_string())).unwrap(), "\"#raw\"");
    let mut ser = serde_edn::ser::Serializer::new();
    ser.serialize_str(":kw");
    ser.serialize_str(" ");
    ser.serialize_str("#raw");
    assert_eq!(ser.into_output(), ":kw\" \"#raw");
}

#[test]
fn test_map_keyed_by_set_or_tag() {
    let v: Value = from_str("{#{1} 2}").unwrap();
    assert_eq!(
        v,
        Value::MapVal(vec![(Value::SetVal(vec![Value::Integer(1)]), Value::Integer(2))])
    );
    assert_eq!(to_string(&v).unwrap(), "{#{1} 2}");
    let w: Value = from_str("{#foo 1 2}").unwrap();
    let key = Value::Tagged { tag: Symbol::new(":foo"), value: Box::new(Value::Integer(1)) };
    assert_eq!(w, Value::MapVal(vec![(key, Value::Integer(2))]));
    assert_eq!(from_str::<Value>(&to_string(&w).unwrap()).unwrap(), w);
}

#[test]
fn test_strings_and_tags_read_back() {
    let values = vec![
        Value::String("#a".to_string()),
        Value::String(":k".to_string()),
        Value::String("::k".to_string()),
        Value::String("say \"hi\"\\".to_string()),
        Value::Tagged { tag: Symbol::new(":foo"), value: Box::new(Value::String("a\"b".to_string())) },
        Value::Tagged { tag: Symbol::new(":foo"), value: Box::new(Value::Char('é')) },
        Value::Tagged { tag: Symbol::new(":foo"), value: Box::new(Value::Char('\n')) },
    ];
    for v in values {
        let text = to_string(&v).unwrap();
        assert_eq!(from_str::<Value>(&text).unwrap(), v, "{}", text);
    }
    assert_eq!(to_string(&Value::String("#a".to_string())).unwrap(), "\"#a\"");
}

#[test]
fn test_tagged_char_written_bare() {
    let v = Value::Tagged { tag: Symbol::new(":foo"), value: Box::new(Value::Char('é')) };
    assert_eq!(to_string(&v).unwrap(), "#foo \\é");
    let u = Value::Tagged { tag: Symbol::new(":foo"), value: Box::new(Value::Char('u')) };
    assert_eq!(to_string(&u).unwrap(), "#foo \\u");
}

#[test]
fn test_read_write_read() {
    let texts = [
        "{#{1} 2}",
        r#"#foo "a\"b""#,
        r#"\uFFFD"#,
        "##NaN",
        "(a :b/c 1.5e3 -2 +7 [nil true] #{\\x \\space})",
        "{:a {:b [1 2]} \"k\" #bar (1)}",
        r#"#foo \é"#,
    ];
    for text in texts.iter() {
        let v: Value = from_str(text).unwrap();
        let written = to_string(&v).unwrap();
        assert_eq!(from_str::<Value>(&written).unwrap(), v, "{} -> {}", text, written);
    }
}
