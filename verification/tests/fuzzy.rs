use opendbs::{StorageEngine, Value};

fn obj(pairs: Vec<(&str, Value)>) -> Value {
    Value::Obj(pairs.into_iter().map(|(k, v)| (k.to_string(), v)).collect())
}

fn s(t: &str) -> Value {
    Value::Str(t.to_string())
}

/// The similarity filter as the embedding layer applies it to the verified
/// candidate set.
fn fuzzy_search(
    e: &StorageEngine,
    db: &str,
    rack: &str,
    field: &str,
    query: &str,
    threshold: f64,
) -> Vec<String> {
    e.fuzzy_candidates(db, rack, field)
        .unwrap()
        .into_iter()
        .filter(|c| strsim::jaro_winkler(query, &c.text) >= threshold)
        .map(|c| c.rendered)
        .collect()
}

#[test]
fn test_fuzzy_threshold_boundary() {
    let mut e = StorageEngine::new();
    e.create_database("db");
    e.create_rack("db", "r").unwrap();
    e.insert("db", "r", obj(vec![("name", s("alphabet"))]), 0).unwrap();
    e.insert("db", "r", obj(vec![("name", s("zzzz"))]), 0).unwrap();
    e.insert("db", "r", obj(vec![("other", s("alphabet"))]), 0).unwrap();
    e.insert("db", "r", obj(vec![("name", Value::Int(3))]), 0).unwrap();

    // an exact match has similarity 1.0 and stays in at any threshold <= 1.0
    assert_eq!(strsim::jaro_winkler("alphabet", "alphabet"), 1.0);
    let hits = fuzzy_search(&e, "db", "r", "name", "alphabet", 1.0);
    assert_eq!(hits.len(), 1);
    assert!(hits[0].contains("alphabet"));

    // a completely dissimilar value scores low and is excluded at 0.9
    assert!(strsim::jaro_winkler("alphabet", "zzzz") < 0.9);
    let hits = fuzzy_search(&e, "db", "r", "name", "alphabet", 0.9);
    assert_eq!(hits.len(), 1);

    // non-string and absent fields are skipped, not counted as misses
    let candidates = e.fuzzy_candidates("db", "r", "name").unwrap();
    assert_eq!(candidates.len(), 2);
}
