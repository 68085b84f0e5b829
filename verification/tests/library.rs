use serde_edn::de::EdnDeserializer;
use serde_edn::decode::{identifier_text, value_of_text, value_of_text_fails};
use serde_edn::ser::{tagged_debug_text, tagged_text, Serializer};
use serde_edn::{Error, Keyword, Symbol, Value};

fn tagged(tag: &str, v: Value) -> Value {
    Value::Tagged { tag: Symbol::new(tag), value: Box::new(v) }
}

#[test]
fn test_tagged_text_forms() {
    assert_eq!(tagged_text(&Symbol::new(":foo"), &Value::String("a b".to_string())).unwrap(), "#foo \"a b\"");
    assert_eq!(tagged_text(&Symbol::new(":foo"), &Value::Integer(-3)).unwrap(), "#foo -3");
    assert_eq!(tagged_text(&Symbol::new(":foo"), &Value::Char('x')).unwrap(), "#foo \\x");
    assert_eq!(tagged_text(&Symbol::new(":foo"), &Value::Nil).unwrap(), "#foo nil");
    assert_eq!(
        tagged_text(&Symbol::new(":foo"), &Value::Vector(vec![Value::Bool(true)])).unwrap(),
        "#foo [true]"
    );
    let bad = tagged(":inst", Value::Nil);
    match tagged_text(&Symbol::new(":foo"), &Value::List(vec![bad])) {
        Err(Error::Custom(m)) => assert_eq!(m, "serialization error: expected Integer for #inst"),
        other => panic!("unexpected {:?}", other),
    }
}

#[test]
fn test_value_of_text_forms() {
    assert_eq!(value_of_text(":kw"), Value::Keyword(Keyword::new(":kw")));
    assert_eq!(value_of_text("plain"), Value::String("plain".to_string()));
    assert_eq!(value_of_text("#nospace"), Value::String("#nospace".to_string()));
    assert_eq!(value_of_text("#foo \"a b\""), tagged(":foo", Value::String("a b".to_string())));
    assert_eq!(value_of_text("#foo Integer(42)"), tagged(":foo", Value::Integer(42)));
    assert_eq!(value_of_text("#foo Integer(x)"), Value::String("#foo Integer(x)".to_string()));
    assert_eq!(value_of_text("#foo Float(1.5)"), tagged(":foo", Value::Float("1.5".to_string())));
    assert_eq!(value_of_text("#foo Float(abc)"), Value::String("#foo Float(abc)".to_string()));
    assert_eq!(value_of_text("#foo Bool(true)"), tagged(":foo", Value::Bool(true)));
    assert_eq!(value_of_text("#foo Nil"), tagged(":foo", Value::Nil));
    assert_eq!(value_of_text("#foo Char(z)"), tagged(":foo", Value::Char('z')));
    assert_eq!(value_of_text("#foo Keyword(:k)"), tagged(":foo", Value::Keyword(Keyword::new(":k"))));
    assert_eq!(value_of_text("#foo Symbol(s)"), tagged(":foo", Value::Symbol(Symbol::new("s"))));
    assert_eq!(value_of_text("#foo   [1 2]  "), tagged(":foo", Value::Vector(vec![Value::Integer(1), Value::Integer(2)])));
    assert_eq!(value_of_text("#foo )"), Value::String("#foo )".to_string()));
    assert!(value_of_text_fails("#foo \""));
    assert!(!value_of_text_fails("#foo \"\""));
}

#[test]
fn test_tagged_text_reads_back() {
    let before = tagged(":myapp/t", Value::String("quote\" inside".to_string()));
    if let Value::Tagged { tag, value } = &before {
        let text = tagged_text(tag, value).unwrap();
        assert_eq!(value_of_text(&text), before);
    }
    let nested = tagged(":a", Value::MapVal(vec![(Value::Keyword(Keyword::new(":k")), Value::Integer(1))]));
    if let Value::Tagged { tag, value } = &nested {
        let text = tagged_text(tag, value).unwrap();
        assert_eq!(text, "#a {:k 1}");
        assert_eq!(value_of_text(&text), nested);
    }
}

#[test]
fn test_identifier_text() {
    assert_eq!(identifier_text(&Value::Keyword(Keyword::new(":name"))), Some("name".to_string()));
    assert_eq!(identifier_text(&Value::String("age".to_string())), Some("age".to_string()));
    assert_eq!(identifier_text(&Value::Symbol(Symbol::new("s"))), Some("s".to_string()));
    assert_eq!(identifier_text(&Value::Integer(1)), None);
}

#[test]
fn test_serializer_data_model() {
    let mut ser = Serializer::new();
    {
        let mut st = ser.serialize_struct("Person");
        st.serialize_field("name", &Value::String("Fred".to_string())).unwrap();
        st.serialize_field("age", &Value::Integer(30)).unwrap();
        st.end();
    }
    assert_eq!(ser.into_output(), "Person {:name \"Fred\" :age 30}");

    let mut ser = Serializer::new();
    ser.serialize_unit_variant("Status", "Active");
    assert_eq!(ser.into_output(), "Status/Active");

    let mut ser = Serializer::new();
    {
        let mut tv = ser.serialize_tuple_variant("E", "V");
        tv.serialize_field(&Value::Integer(1)).unwrap();
        tv.serialize_field(&Value::Integer(2)).unwrap();
        tv.end();
    }
    assert_eq!(ser.into_output(), "(E/V 1 2)");

    let mut ser = Serializer::new();
    {
        let mut m = ser.serialize_map();
        m.serialize_key(&Value::Keyword(Keyword::new(":a"))).unwrap();
        m.serialize_value(&Value::Nil).unwrap();
        m.serialize_key(&Value::Keyword(Keyword::new(":b"))).unwrap();
        m.serialize_value(&Value::Bool(false)).unwrap();
        m.end();
    }
    assert_eq!(ser.into_output(), "{:a nil :b false}");

    let mut ser = Serializer::new();
    {
        let mut s = ser.serialize_seq();
        s.serialize_element(&Value::Integer(7)).unwrap();
        s.begin_element();
        ser_float(&mut s);
        s.end();
    }
    assert_eq!(ser.into_output(), "[7 2.0]");

    let mut ser = Serializer::new();
    ser.serialize_newtype_struct("Meters");
    ser.serialize_u64(u64::MAX);
    assert_eq!(ser.into_output(), "Meters 18446744073709551615");

    let mut ser = Serializer::default();
    ser.serialize_float_text("1e-7");
    ser.write_escaped_string("x\ty");
    assert_eq!(ser.into_output(), "1e-7\"x\\ty\"");
}

fn ser_float(s: &mut serde_edn::ser::SeqSerializer<'_>) {
    s.serializer.serialize_float_text("2");
}

#[test]
fn test_deserializer_steps() {
    let mut de = EdnDeserializer::from_str("  foo/bar, 42 ; c\n :k");
    de.skip_whitespace();
    assert_eq!(de.parse_symbol_core().unwrap(), "foo/bar");
    assert_eq!(de.next(), Some(','));
    assert_eq!(de.parse_value().unwrap(), Value::Integer(42));
    assert_eq!(de.parse_value().unwrap(), Value::Keyword(Keyword::new(":k")));
    assert_eq!(de.parse_value(), Err(Error::Eof));
    assert_eq!(de.next(), None);
    match de.error("boom") {
        Error::Parse(p) => {
            assert_eq!(p.message, "boom");
            assert_eq!((p.line, p.column), (2, 4));
        }
        other => panic!("unexpected {:?}", other),
    }
    let mut bad = EdnDeserializer::from_str("(x");
    match bad.parse_symbol_core() {
        Err(Error::Parse(p)) => assert_eq!(p.message, "invalid symbol start: ("),
        other => panic!("unexpected {:?}", other),
    }
}

#[test]
fn test_value_display_and_clone() {
    let v = Value::List(vec![Value::Integer(1), Value::String("s".to_string())]);
    assert_eq!(v.display(), "(1 \"s\")");
    assert_eq!(v.clone(), v);
    let bad = tagged(":inst", Value::Nil);
    assert_eq!(bad.display(), "Value(/* serialization error */)");
    assert!(serde_edn::value::value_eq(&v, &v.clone()));
    assert!(!serde_edn::value::value_eq(&v, &bad));
}

#[test]
fn test_tagged_text_chars() {
    assert_eq!(tagged_text(&Symbol::new(":foo"), &Value::Char('u')).unwrap(), "#foo \\u");
    assert_eq!(tagged_text(&Symbol::new(":foo"), &Value::Char('é')).unwrap(), "#foo \\é");
    assert_eq!(
        value_of_text("#foo \\u0075"),
        tagged(":foo", Value::Char('u'))
    );
}

#[test]
fn test_tagged_debug_text_forms() {
    let foo = Symbol::new(":foo");
    let text = |v: Value| tagged_debug_text(&foo, &v).map(|r| r.unwrap());
    assert_eq!(text(Value::String("a b".to_string())), Some("#foo \"a b\"".to_string()));
    assert_eq!(text(Value::Integer(-3)), Some("#foo Integer(-3)".to_string()));
    assert_eq!(text(Value::Bool(true)), Some("#foo Bool(true)".to_string()));
    assert_eq!(text(Value::Nil), Some("#foo Nil".to_string()));
    assert_eq!(text(Value::Keyword(Keyword::new(":k"))), Some("#foo Keyword(:k)".to_string()));
    assert_eq!(text(Value::Symbol(Symbol::new("s"))), Some("#foo Symbol(s)".to_string()));
    assert_eq!(text(Value::Vector(vec![Value::Integer(1)])), Some("#foo [1]".to_string()));
    assert!(tagged_debug_text(&foo, &Value::Char('x')).is_none());
    assert!(tagged_debug_text(&foo, &Value::Float("1.5".to_string())).is_none());
    let bad = tagged(":inst", Value::Nil);
    match tagged_debug_text(&foo, &Value::List(vec![bad])) {
        Some(Err(Error::Custom(m))) => assert_eq!(m, "serialization error: expected Integer for #inst"),
        other => panic!("unexpected {:?}", other),
    }
}
