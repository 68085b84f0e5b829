use serde_edn::{from_str, to_string, EdnList, EdnSet, Value};

#[test]
fn test_edn_list_serialization() {
    let list = EdnList::from_vec(vec![1, 2, 3]);
    let edn = to_string(&list).unwrap();
    assert_eq!(edn, "(1 2 3)");
}

#[test]
fn test_edn_list_deserialization() {
    let list: EdnList<i32> = from_str("(1 2 3)").unwrap();
    assert_eq!(list.items, vec![1, 2, 3]);
}

#[test]
fn test_edn_set_serialization() {
    let mut set = EdnSet::new();
    set.insert(1);
    set.insert(2);
    set.insert(3);
    let edn = to_string(&set).unwrap();
    assert!(edn.starts_with("#{"));
    assert!(edn.ends_with("}"));
}

#[test]
fn test_edn_set_deserialization() {
    let set: EdnSet<i32> = from_str("#{1 2 3}").unwrap();
    assert!(set.contains(&1));
    assert!(set.contains(&2));
    assert!(set.contains(&3));
}

#[test]
fn test_value_list_serialization() {
    let val = Value::List(vec![Value::Integer(1), Value::Integer(2)]);
    let edn = to_string(&val).unwrap();
    assert_eq!(edn, "(1 2)");
}

#[test]
fn test_value_set_serialization() {
    let val = Value::SetVal(vec![Value::Integer(1), Value::Integer(2)]);
    let edn = to_string(&val).unwrap();
    assert_eq!(edn, "#{1 2}");
}

#[test]
fn test_value_vector_uses_brackets() {
    let val = Value::Vector(vec![Value::Integer(1), Value::Integer(2)]);
    let edn = to_string(&val).unwrap();
    assert_eq!(edn, "[1 2]");
}

#[test]
fn test_round_trip_list() {
    let source = "(1 2 3)";
    let val: Value = from_str(source).unwrap();
    let edn = to_string(&val).unwrap();
    assert_eq!(edn, source);
}

#[test]
fn test_round_trip_set() {
    let source = "#{1 2 3}";
    let val: Value = from_str(source).unwrap();
    let edn = to_string(&val).unwrap();
    assert_eq!(edn, source);
}

#[test]
fn test_nested_list() {
    let list = EdnList::from_vec(vec![
        EdnList::from_vec(vec![1, 2]),
        EdnList::from_vec(vec![3, 4]),
    ]);
    let edn = to_string(&list).unwrap();
    assert_eq!(edn, "((1 2) (3 4))");
    let parsed: EdnList<EdnList<i32>> = from_str("((1 2) (3 4))").unwrap();
    assert_eq!(parsed.items.len(), 2);
}

#[test]
fn test_list_with_strings() {
    let list = EdnList::from_vec(vec!["hello".to_string(), "world".to_string()]);
    let edn = to_string(&list).unwrap();
    assert_eq!(edn, r#"("hello" "world")"#);
    let parsed: EdnList<String> = from_str(r#"("hello" "world")"#).unwrap();
    assert_eq!(parsed.items, vec!["hello", "world"]);
}

#[test]
fn test_vec_still_uses_brackets() {
    let v = vec![1, 2, 3];
    let edn = to_string(&v).unwrap();
    assert_eq!(edn, "[1 2 3]");
}

#[test]
fn test_value_vector_round_trip() {
    let source = "[1 2 3]";
    let val: Value = from_str(source).unwrap();
    match &val {
        Value::Vector(items) => assert_eq!(items.len(), 3),
        _ => panic!("expected Vector"),
    }
    let edn = to_string(&val).unwrap();
    assert_eq!(edn, source);
}

#[test]
fn test_empty_list() {
    let list = EdnList::<i32>::new();
    let edn = to_string(&list).unwrap();
    assert_eq!(edn, "()");
    let parsed: EdnList<i32> = from_str("()").unwrap();
    assert!(parsed.is_empty());
}

#[test]
fn test_edn_set_operations() {
    let mut set = EdnSet::new();
    assert!(set.is_empty());
    assert!(set.insert(1));
    assert!(set.insert(2));
    assert!(!set.insert(1));
    assert_eq!(set.len(), 2);
    assert!(set.contains(&2));
    assert!(!set.contains(&3));
    let items = set.into_hashset();
    assert_eq!(items.len(), 2);
    let again = EdnSet::from_hashset(items);
    assert_eq!(again.len(), 2);
    let empty: EdnSet<i64> = EdnSet::with_capacity(4);
    assert!(empty.is_empty());
}

#[test]
fn test_edn_list_conversions() {
    let list = EdnList::from_vec(vec![5, 6]);
    assert_eq!(list.len(), 2);
    assert_eq!(list.into_vec(), vec![5, 6]);
    let cap: EdnList<u8> = EdnList::with_capacity(8);
    assert!(cap.is_empty());
}

#[test]
fn test_typed_decoding_errors() {
    match from_str::<EdnList<i32>>("(1 \"two\" 3)") {
        Err(serde_edn::Error::Custom(m)) => assert_eq!(m, "invalid type: expected i32"),
        other => panic!("unexpected {:?}", other),
    }
    match from_str::<Vec<i32>>("42") {
        Err(serde_edn::Error::Custom(m)) => assert_eq!(m, "invalid type: expected a sequence"),
        other => panic!("unexpected {:?}", other),
    }
    let set: EdnSet<i32> = from_str("[1 1 2]").unwrap();
    assert_eq!(set.len(), 2);
}

#[test]
fn test_int_list_round_trip() {
    let list = EdnList::from_vec(vec![-5i64, 0, i64::MAX]);
    let text = to_string(&list).unwrap();
    assert_eq!(text, "(-5 0 9223372036854775807)");
    let back: EdnList<i64> = from_str(&text).unwrap();
    assert_eq!(back, list);
}

#[test]
fn test_read_maps_hold_keys_once() {
    let v: Value = from_str("[{:a 1 :a 2} {1 2 3 4 1 5}]").unwrap();
    let sizes: Vec<usize> = match v {
        Value::Vector(items) => items
            .iter()
            .map(|item| match item {
                Value::MapVal(entries) => entries.len(),
                other => panic!("expected a map, got {:?}", other),
            })
            .collect(),
        other => panic!("expected a vector, got {:?}", other),
    };
    assert_eq!(sizes, vec![1, 2]);
}

#[test]
fn test_empty_set() {
    let set = EdnSet::<i32>::new();
    let edn = to_string(&set).unwrap();
    assert_eq!(edn, "#{}");
    let parsed: EdnSet<i32> = from_str("#{}").unwrap();
    assert!(parsed.is_empty());
}

#[test]
fn test_set_writes_each_item_once() {
    let mut set = EdnSet::new();
    for i in 1..=20i64 {
        set.insert(i);
    }
    let edn = to_string(&set).unwrap();
    let inner = &edn[2..edn.len() - 1];
    let mut seen: Vec<i64> = inner.split(' ').map(|t| t.parse().unwrap()).collect();
    seen.sort();
    assert_eq!(seen, (1..=20).collect::<Vec<i64>>());
    let back: EdnSet<i64> = from_str(&edn).unwrap();
    assert_eq!(back.items, set.items);
}
