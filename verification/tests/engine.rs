use opendbs::{OpenDBSError, QueryEngine, StorageEngine, Value};

fn obj(pairs: Vec<(&str, Value)>) -> Value {
    Value::Obj(pairs.into_iter().map(|(k, v)| (k.to_string(), v)).collect())
}

fn s(t: &str) -> Value {
    Value::Str(t.to_string())
}

#[test]
fn test_basic_operations() {
    // Tests will be added here
}

#[test]
fn test_create_database_idempotent_miss() {
    let mut e = StorageEngine::new();
    assert!(e.create_database("db"));
    assert!(!e.create_database("db"));
    assert_eq!(e.databases.len(), 1);
}

#[test]
fn test_create_rack_idempotent_miss() {
    let mut e = StorageEngine::new();
    assert!(e.create_database("db"));
    assert_eq!(e.create_rack("db", "r").unwrap(), true);
    assert_eq!(e.create_rack("db", "r").unwrap(), false);
    assert!(matches!(
        e.create_rack("nope", "r"),
        Err(OpenDBSError::DatabaseNotFound(_))
    ));
}

#[test]
fn test_insert_ids_monotonic() {
    let mut e = StorageEngine::new();
    e.create_database("db");
    e.create_rack("db", "r").unwrap();
    let id1 = e.insert("db", "r", obj(vec![("a", Value::Int(1))]), 10).unwrap();
    let id2 = e.insert("db", "r", obj(vec![("a", Value::Int(2))]), 11).unwrap();
    let id3 = e.insert("db", "r", obj(vec![("a", Value::Int(3))]), 12).unwrap();
    assert_eq!(id1, "1");
    assert_eq!(id2, "2");
    assert_eq!(id3, "3");
}

#[test]
fn test_insert_then_find_round_trip() {
    let mut e = StorageEngine::new();
    e.create_database("db");
    e.create_rack("db", "r").unwrap();
    let data = obj(vec![("name", s("widget")), ("qty", Value::Int(4))]);
    let id = e.insert("db", "r", data.clone(), 100).unwrap();
    let query = obj(vec![("name", s("widget")), ("qty", Value::Int(4))]);
    let hits = e.find("db", "r", &query).unwrap();
    assert_eq!(hits.len(), 1);
    assert!(hits[0].contains("\"id\":\"1\""));
    assert!(hits[0].contains("\"name\":\"widget\""));
    assert_eq!(id, "1");
}

#[test]
fn test_find_errors() {
    let e = StorageEngine::new();
    assert!(matches!(
        e.find("db", "r", &Value::Null),
        Err(OpenDBSError::DatabaseNotFound(_))
    ));
    let mut e = StorageEngine::new();
    e.create_database("db");
    assert!(matches!(
        e.find("db", "r", &Value::Null),
        Err(OpenDBSError::RackNotFound(_))
    ));
}

#[test]
fn test_insert_errors() {
    let mut e = StorageEngine::new();
    assert!(matches!(
        e.insert("db", "r", Value::Null, 0),
        Err(OpenDBSError::DatabaseNotFound(_))
    ));
    e.create_database("db");
    assert!(matches!(
        e.insert("db", "r", Value::Null, 0),
        Err(OpenDBSError::RackNotFound(_))
    ));
}

#[test]
fn test_update_and_delete() {
    let mut e = StorageEngine::new();
    e.create_database("db");
    e.create_rack("db", "r").unwrap();
    let id = e.insert("db", "r", obj(vec![("a", Value::Int(1))]), 5).unwrap();
    assert!(e.update("db", "r", &id, obj(vec![("a", Value::Int(2))]), 9).unwrap());
    let hits = e.find("db", "r", &obj(vec![("a", Value::Int(2))])).unwrap();
    assert_eq!(hits.len(), 1);
    assert!(hits[0].contains("\"created_at\":5"));
    assert!(hits[0].contains("\"updated_at\":9"));
    assert!(!e.update("db", "r", "77", obj(vec![]), 9).unwrap());
    assert!(e.delete("db", "r", &id).unwrap());
    assert!(!e.delete("db", "r", &id).unwrap());
    let hits = e.find("db", "r", &obj(vec![])).unwrap();
    assert_eq!(hits.len(), 0);
}

#[test]
fn test_index_consistency_after_ops() {
    let mut e = StorageEngine::new();
    e.create_database("db");
    e.create_rack("db", "r").unwrap();
    let id = e
        .insert("db", "r", obj(vec![("color", s("red")), ("n", Value::Int(7))]), 1)
        .unwrap();
    {
        let idx = &e.databases[0].1.racks[0].1.index;
        let ids = idx.search(&"color".to_string(), &"red".to_string()).unwrap();
        assert!(ids.contains(&id));
        let ids = idx.search(&"n".to_string(), &"7".to_string()).unwrap();
        assert!(ids.contains(&id));
    }
    e.update("db", "r", &id, obj(vec![("color", s("blue"))]), 2).unwrap();
    {
        let idx = &e.databases[0].1.racks[0].1.index;
        assert!(idx.search(&"color".to_string(), &"red".to_string()).is_none());
        let ids = idx.search(&"color".to_string(), &"blue".to_string()).unwrap();
        assert!(ids.contains(&id));
    }
    e.delete("db", "r", &id).unwrap();
    {
        let idx = &e.databases[0].1.racks[0].1.index;
        assert!(idx.search(&"color".to_string(), &"blue".to_string()).is_none());
    }
}

#[test]
fn test_index_clear() {
    let mut idx = opendbs::Index::new();
    let id = "4".to_string();
    let data = obj(vec![("color", s("red"))]);
    idx.index_document(&id, &data);
    let ids = idx.search(&"color".to_string(), &"red".to_string()).unwrap();
    assert_eq!(ids, vec!["4".to_string()]);
    idx.clear();
    assert!(idx.search(&"color".to_string(), &"red".to_string()).is_none());
}

#[test]
fn test_update_with_backwards_clock_keeps_invariant() {
    let mut e = StorageEngine::new();
    e.create_database("db");
    e.create_rack("db", "r").unwrap();
    let id = e.insert("db", "r", obj(vec![("a", Value::Int(1))]), 5).unwrap();
    // a clock step backwards cannot push updated_at below created_at
    assert!(e.update("db", "r", &id, obj(vec![("a", Value::Int(2))]), 2).unwrap());
    let hits = e.find("db", "r", &obj(vec![])).unwrap();
    assert_eq!(hits.len(), 1);
    assert!(hits[0].contains("\"created_at\":5"));
    assert!(hits[0].contains("\"updated_at\":5"));
}

#[test]
fn test_get_stats() {
    let mut e = StorageEngine::new();
    e.create_database("a");
    e.create_database("b");
    e.create_rack("a", "r1").unwrap();
    e.create_rack("a", "r2").unwrap();
    e.create_rack("b", "r3").unwrap();
    e.insert("a", "r1", obj(vec![]), 0).unwrap();
    e.insert("b", "r3", obj(vec![]), 0).unwrap();
    let (dbs, racks, docs) = e.get_stats();
    assert_eq!((dbs, racks, docs), (2, 3, 2));
}

#[test]
fn test_query_semantics() {
    let q = QueryEngine::new();
    let d1 = obj(vec![("a", Value::Int(1)), ("b", s("x"))]);
    assert!(q.matches(&d1, &obj(vec![("a", Value::Int(1))])));
    let d2 = obj(vec![("a", Value::Int(1))]);
    assert!(!q.matches(&d2, &obj(vec![("a", Value::Int(2))])));
    let five = Value::Int(5);
    let gt3 = obj(vec![("$gt", Value::Int(3))]);
    assert!(q.matches(&five, &gt3));
    assert!(!q.matches(&s("5"), &gt3));
    let d3 = obj(vec![("a", Value::Int(1)), ("b", Value::Int(2))]);
    assert!(!q.matches(&d3, &obj(vec![("a", Value::Int(1)), ("b", Value::Int(3))])));
    let nested = obj(vec![("a", obj(vec![("x", Value::Int(1))]))]);
    let qn = obj(vec![("a", obj(vec![("x", Value::Int(1))]))]);
    assert!(q.matches(&nested, &qn));
    // operator clauses: membership and negations
    let arr = Value::Arr(vec![Value::Int(1), Value::Int(2)]);
    assert!(q.matches(&Value::Int(2), &obj(vec![("$in", arr.clone())])));
    assert!(!q.matches(&Value::Int(3), &obj(vec![("$in", arr.clone())])));
    assert!(q.matches(&Value::Int(3), &obj(vec![("$nin", arr)])));
    assert!(q.matches(&Value::Int(3), &obj(vec![("$ne", Value::Int(4))])));
    assert!(q.matches(&Value::Int(3), &obj(vec![("$lte", Value::Int(3))])));
    // unknown operators evaluate false
    assert!(!q.matches(&Value::Int(3), &obj(vec![("$weird", Value::Int(3))])));
}
