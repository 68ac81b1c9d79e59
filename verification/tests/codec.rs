use opendbs::{Rack, StorageEngine, Value, parse_document, parse_value, render_document,
    render_to_string};

fn obj(pairs: Vec<(&str, Value)>) -> Value {
    Value::Obj(pairs.into_iter().map(|(k, v)| (k.to_string(), v)).collect())
}

fn s(t: &str) -> Value {
    Value::Str(t.to_string())
}

#[test]
fn test_render_exact_values() {
    assert_eq!(render_to_string(&Value::Null), "null");
    assert_eq!(render_to_string(&Value::Bool(true)), "true");
    assert_eq!(render_to_string(&Value::Int(-42)), "-42");
    assert_eq!(render_to_string(&Value::Int(i64::MIN)), "-9223372036854775808");
    assert_eq!(render_to_string(&Value::Int(i64::MAX)), "9223372036854775807");
    assert_eq!(render_to_string(&s("a\"b\\c")), "\"a\\\"b\\\\c\"");
    let v = obj(vec![("k", Value::Arr(vec![Value::Int(1), s("x")]))]);
    assert_eq!(render_to_string(&v), "{\"k\":[1,\"x\"]}");
}

#[test]
fn test_parse_inverts_scalar_renderings() {
    for v in [
        Value::Null,
        Value::Bool(true),
        Value::Bool(false),
        Value::Int(0),
        Value::Int(-1),
        Value::Int(i64::MIN),
        Value::Int(i64::MAX),
        s(""),
        s("plain"),
        s("q\"uo\\te"),
    ] {
        let back = parse_value(&render_to_string(&v)).unwrap();
        assert!(back.deep_eq(&v));
    }
}

#[test]
fn test_parse_round_trip() {
    let v = obj(vec![
        ("name", s("ä ö \"q\" \\")),
        ("n", Value::Int(-9007199254740993)),
        ("ok", Value::Bool(false)),
        ("null", Value::Null),
        ("arr", Value::Arr(vec![Value::Int(0), obj(vec![("z", Value::Int(1))])])),
    ]);
    let text = render_to_string(&v);
    let back = parse_value(&text).unwrap();
    assert!(back.deep_eq(&v));
}

#[test]
fn test_parse_accepts_whitespace_and_rejects_junk() {
    let v = parse_value(" { \"a\" : [ 1 , 2 ] , \"b\" : \"x\" } ").unwrap();
    assert!(v.deep_eq(&obj(vec![
        ("a", Value::Arr(vec![Value::Int(1), Value::Int(2)])),
        ("b", s("x")),
    ])));
    assert!(parse_value("{").is_none());
    assert!(parse_value("{\"a\":1,}").is_none());
    assert!(parse_value("12x").is_none());
    assert!(parse_value("").is_none());
    assert!(parse_value("{\"a\":1,\"a\":2}").is_none()); // duplicate keys
    assert!(parse_value("1.5").is_none()); // only integer numbers
    assert!(parse_value("9223372036854775807").is_some());
    assert!(parse_value("9223372036854775808").is_none());
    assert!(parse_value("-9223372036854775808").is_some());
    assert!(parse_value("-9223372036854775809").is_none());
}

#[test]
fn test_render_agrees_with_serde_json() {
    let v = obj(vec![
        ("s", s("hello world")),
        ("i", Value::Int(123)),
        ("b", Value::Bool(true)),
        ("a", Value::Arr(vec![Value::Null, Value::Int(-7)])),
    ]);
    let text = render_to_string(&v);
    let sj: serde_json::Value = serde_json::from_str(&text).unwrap();
    assert_eq!(sj["s"].as_str(), Some("hello world"));
    assert_eq!(sj["i"].as_i64(), Some(123));
    assert_eq!(sj["b"].as_bool(), Some(true));
    assert_eq!(sj["a"][0], serde_json::Value::Null);
    assert_eq!(sj["a"][1].as_i64(), Some(-7));
}

#[test]
fn test_reload_consistency() {
    let mut e = StorageEngine::new();
    e.create_database("db");
    e.create_rack("db", "r").unwrap();
    let d1 = obj(vec![("name", s("one"))]);
    let d2 = obj(vec![("name", s("two"))]);
    e.insert("db", "r", d1, 11).unwrap();
    e.insert("db", "r", d2, 12).unwrap();
    // conceptually close and reopen: render every document, parse it back,
    // and rebuild the rack from the records
    let rendered: Vec<String> = {
        let rack = &e.databases[0].1.racks[0].1;
        rack.documents.iter().map(|(_, d)| render_document(d)).collect()
    };
    let records: Vec<_> = rendered.iter().map(|t| parse_document(t).unwrap()).collect();
    let rack2 = Rack::load("r", records).unwrap();
    let all = e.find("db", "r", &obj(vec![])).unwrap();
    let q = opendbs::QueryEngine::new();
    let all2 = rack2.find_docs(&q, &obj(vec![]));
    assert_eq!(all, all2);
    assert_eq!(rack2.next_id, 3);
    let mut rack2 = rack2;
    let id = rack2.insert_doc(obj(vec![("name", s("three"))]), 13).unwrap();
    assert_eq!(id, "3");
}

#[test]
fn test_parse_document_rejects_malformed() {
    assert!(parse_document("{\"id\":\"1\"}").is_none());
    assert!(parse_document("{\"id\":1,\"data\":{},\"created_at\":0,\"updated_at\":0}").is_none());
    assert!(
        parse_document("{\"id\":\"1\",\"data\":{},\"created_at\":-1,\"updated_at\":0}").is_none()
    );
    let d = parse_document("{\"id\":\"7\",\"data\":{\"a\":1},\"created_at\":5,\"updated_at\":6}")
        .unwrap();
    assert_eq!(d.id, "7");
    assert_eq!(d.created_at, 5);
    assert_eq!(d.updated_at, 6);
}
