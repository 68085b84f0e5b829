use serde_edn::{from_str, to_string, Error, Value};

fn parse(s: &str) -> Value {
    from_str::<Value>(s).unwrap()
}

fn float_of(v: &Value) -> f64 {
    match v {
        Value::Float(t) => t.parse::<f64>().unwrap(),
        other => panic!("expected a float, got {:?}", other),
    }
}

fn assert_number_round_trip(edn: &str) {
    let parsed: Value = from_str(edn).unwrap();
    let serialized = to_string(&parsed).unwrap();
    let reparsed: Value = from_str(&serialized).unwrap();
    assert_eq!(parsed, reparsed, "Round trip failed: {} -> {} -> {:?}", edn, serialized, reparsed);
}

#[test]
fn test_basic_floats() {
    assert_eq!(float_of(&parse("3.14")), 3.14);
    assert_eq!(float_of(&parse("0.5")), 0.5);
    assert_eq!(float_of(&parse("-1.5")), -1.5);
}

#[test]
fn test_exponent_notation() {
    assert_eq!(float_of(&parse("1e10")), 1e10);
    assert_eq!(float_of(&parse("1.5e-3")), 0.0015);
    assert_eq!(float_of(&parse("1E+5")), 1e5);
    assert_eq!(float_of(&parse("1e-10")), 1e-10);
    assert_eq!(float_of(&parse("2.5e2")), 250.0);
}

#[test]
fn test_bignum_suffix() {
    assert_eq!(parse("42N"), Value::Integer(42));
    assert_eq!(parse("+100N"), Value::Integer(100));
    assert_eq!(parse("-50N"), Value::Integer(-50));
}

#[test]
fn test_integer_values() {
    assert_eq!(parse("42"), Value::Integer(42));
    assert_eq!(parse("-100"), Value::Integer(-100));
    assert_eq!(parse("+50"), Value::Integer(50));
    assert_eq!(parse("0"), Value::Integer(0));
}

#[test]
fn test_number_round_trip() {
    assert_number_round_trip("3.14");
    assert_number_round_trip("1e10");
    assert_number_round_trip("42N");
    assert_number_round_trip("-1.5e-3");
}

#[test]
fn test_negative_exponent() {
    let _v: Value = parse("1e-3");
    assert!((0.001_f64 - 1e-3).abs() < f64::EPSILON);
}

#[test]
fn test_scientific_notation_combinations() {
    assert_eq!(float_of(&parse("1.23e+4")), 12300.0);
    assert_eq!(float_of(&parse("9.99E-2")), 0.0999);
    assert_eq!(float_of(&parse("6.022e23")), 6.022e23);
}

#[test]
fn test_integer_limits() {
    assert_eq!(parse("9223372036854775807"), Value::Integer(i64::MAX));
    assert_eq!(parse("-9223372036854775808"), Value::Integer(i64::MIN));
    assert!(from_str::<Value>("9223372036854775808").is_err());
    assert_eq!(to_string(&Value::Integer(i64::MIN)).unwrap(), "-9223372036854775808");
}

#[test]
fn test_number_errors() {
    match from_str::<Value>("1e") {
        Err(Error::Parse(p)) => {
            assert_eq!(p.message, "expected digits after exponent");
            assert_eq!((p.line, p.column), (1, 3));
        }
        other => panic!("unexpected {:?}", other),
    }
    match from_str::<Value>("1.") {
        Err(Error::Parse(p)) => assert_eq!(p.message, "invalid integer: 1."),
        other => panic!("unexpected {:?}", other),
    }
    match from_str::<Value>("-") {
        Err(Error::Parse(p)) => assert_eq!(p.message, "expected digit"),
        other => panic!("unexpected {:?}", other),
    }
}

#[test]
fn test_special_floats() {
    assert_eq!(parse("##NaN"), Value::Float("##NaN".to_string()));
    assert_eq!(parse("##Inf"), Value::Float("##Inf".to_string()));
    assert_eq!(parse("##-Inf"), Value::Float("##-Inf".to_string()));
    assert_eq!(to_string(&parse("##NaN")).unwrap(), "##NaN");
}

#[test]
fn test_integer_decoding() {
    assert_eq!(from_str::<i64>("42").unwrap(), 42);
    assert_eq!(from_str::<i32>("-7").unwrap(), -7);
    match from_str::<i32>("3000000000") {
        Err(Error::Custom(m)) => assert_eq!(m, "invalid value: integer out of range for i32"),
        other => panic!("unexpected {:?}", other),
    }
    match from_str::<i64>("\"x\"") {
        Err(Error::Custom(m)) => assert_eq!(m, "invalid type: expected i64"),
        other => panic!("unexpected {:?}", other),
    }
    assert_eq!(from_str::<bool>("true").unwrap(), true);
}
