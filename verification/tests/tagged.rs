use chrono::{DateTime, Timelike, Utc};
use serde_edn::{format_inst_ms, from_str, handle_tagged_value, to_string, Error, Value};

fn assert_tagged_round_trip(edn: &str) {
    let parsed: Value = from_str(edn).unwrap();
    let serialized = to_string(&parsed).unwrap();
    let reparsed: Value = from_str(&serialized).unwrap();
    assert_eq!(parsed, reparsed, "Round trip failed: {} -> {} -> {:?}", edn, serialized, reparsed);
}

#[test]
fn test_inst_parsing() {
    let v: Value = from_str(r#"#inst "1985-04-12T23:20:50.52Z""#).unwrap();
    assert!(matches!(
        v,
        Value::Tagged { ref tag, .. } if tag.as_str() == ":inst"
    ));

    let ms = match v {
        Value::Tagged { value: box_val, .. } => match *box_val {
            Value::Integer(m) => m,
            _ => unreachable!(),
        },
        _ => unreachable!(),
    };
    let dt = DateTime::from_timestamp_millis(ms)
        .unwrap()
        .with_timezone(&Utc);
    assert_eq!(
        dt.to_rfc3339_opts(chrono::SecondsFormat::Millis, true),
        "1985-04-12T23:20:50.520Z"
    );
}

#[test]
fn test_inst_roundtrip() {
    let input = r#"#inst "1985-04-12T23:20:50Z""#;
    let v: Value = from_str(input).unwrap();
    let output = to_string(&v).unwrap();

    println!("Output: {}", output);

    assert!(output.starts_with("#inst"));
    assert!(output.contains("1985-04-12"));
}

#[test]
fn test_uuid_valid() {
    let v: Value = from_str(r#"#uuid "f81d4fae-7dec-11d0-a765-00a0c91e6bf6""#).unwrap();
    assert_eq!(
        v,
        Value::String("f81d4fae-7dec-11d0-a765-00a0c91e6bf6".to_string())
    );
}

#[test]
fn test_uuid_invalid() {
    assert!(from_str::<Value>(r#"#uuid "not-a-uuid""#).is_err());
    assert!(from_str::<Value>(r#"#uuid "ffffffff-ffff-ffff-ffff-ffffffffffffg""#).is_err());
}

#[test]
fn test_custom_tag() {
    let v: Value = from_str(r#"#myapp/foo "bar""#).unwrap();
    match v {
        Value::Tagged { tag, value } => {
            assert_eq!(tag.as_str(), ":myapp/foo");
            assert_eq!(*value, Value::String("bar".to_string()));
        }
        _ => panic!("Expected Tagged value, got {:?}", v),
    }
}

#[test]
fn test_inst_timezone_conversion() {
    let v: Value = from_str(r#"#inst "2024-01-01T12:00:00+05:00""#).unwrap();
    assert!(matches!(
        v,
        Value::Tagged {
            ref tag,
            ..
        } if tag.as_str() == ":inst"
    ));

    let ms = match v {
        Value::Tagged { value: box_val, .. } => match *box_val {
            Value::Integer(m) => m,
            _ => unreachable!(),
        },
        _ => unreachable!(),
    };
    let dt = DateTime::from_timestamp_millis(ms)
        .unwrap()
        .with_timezone(&Utc);
    assert_eq!(dt.hour(), 7);
    assert_eq!(dt.minute(), 0);
}

#[test]
fn test_multiple_tags_in_vector() {
    let v: Value = from_str(
        r#"[#inst "2024-01-01T00:00:00Z" #uuid "12345678-1234-1234-1234-123456789abc" 42]"#,
    )
    .unwrap();

    if let Value::Vector(vec) = &v {
        assert!(matches!(
            vec[0],
            Value::Tagged {
                ref tag,
                ..
            } if tag.as_str() == ":inst"
        ));
        if let Value::Tagged { value: box_val, .. } = &vec[0] {
            assert!(matches!(&**box_val, Value::Integer(_)));
        }
        assert!(matches!(vec[1], Value::String(_)));
        assert_eq!(vec[2], Value::Integer(42));
    } else {
        panic!("Expected Vector");
    }
}

#[test]
fn test_custom_tag_roundtrip() {
    assert_tagged_round_trip(r#"#myapp/foo "bar""#);
}

#[test]
fn test_format_inst_ms_values() {
    assert_eq!(format_inst_ms(0), "1970-01-01T00:00:00.000Z");
    assert_eq!(format_inst_ms(482196050520), "1985-04-12T23:20:50.520Z");
    assert_eq!(format_inst_ms(i64::MAX), "1970-01-01T00:00:00.000Z");
}

#[test]
fn test_tag_handler_errors() {
    match handle_tagged_value("inst", &Value::Integer(1)) {
        Err(Error::Custom(m)) => assert_eq!(m, "#inst requires RFC-3339 string"),
        other => panic!("unexpected {:?}", other),
    }
    match handle_tagged_value("uuid", &Value::Nil) {
        Err(Error::Custom(m)) => assert_eq!(m, "#uuid requires string"),
        other => panic!("unexpected {:?}", other),
    }
    match handle_tagged_value("inst", &Value::String("yesterday".to_string())) {
        Err(Error::Custom(m)) => assert!(m.starts_with("Invalid #inst: ")),
        other => panic!("unexpected {:?}", other),
    }
    match handle_tagged_value("uuid", &Value::String("xyz".to_string())) {
        Err(Error::Custom(m)) => assert!(m.starts_with("Invalid #uuid: ")),
        other => panic!("unexpected {:?}", other),
    }
}

#[test]
fn test_uuid_forms() {
    let s = "F81D4FAE7DEC11D0A76500A0C91E6BF6";
    assert_eq!(handle_tagged_value("uuid", &Value::String(s.to_string())).unwrap(), Value::String(s.to_string()));
    let braced = "{f81d4fae-7dec-11d0-a765-00a0c91e6bf6}";
    assert!(handle_tagged_value("uuid", &Value::String(braced.to_string())).is_ok());
    let urn = "URN:uuid:f81d4fae-7dec-11d0-a765-00a0c91e6bf6";
    assert!(handle_tagged_value("uuid", &Value::String(urn.to_string())).is_ok());
}

#[test]
fn test_inst_written_form() {
    let v: Value = from_str(r#"#inst "1985-04-12T23:20:50.52Z""#).unwrap();
    assert_eq!(to_string(&v).unwrap(), r#"#inst "1985-04-12T23:20:50.520Z""#);
    let bad = Value::Tagged { tag: serde_edn::Symbol::new(":inst"), value: Box::new(Value::Nil) };
    match to_string(&bad) {
        Err(Error::Custom(m)) => assert_eq!(m, "expected Integer for #inst"),
        other => panic!("unexpected {:?}", other),
    }
}
