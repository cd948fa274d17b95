use liushu::engine::{EngineManager, InputMethodEngine, SearchResultItem, ShapeCodeEngine};
use rusqlite::Connection;

fn dict_conn() -> Connection {
    let conn = Connection::open_in_memory().unwrap();
    conn.execute(
        "CREATE TABLE IF NOT EXISTS dict (text TEXT NOT NULL, code TEXT NOT NULL, weight INTEGER NOT NULL, comment TEXT)",
        [],
    )
    .unwrap();
    conn
}

#[test]
fn test_search() {
    let conn = dict_conn();
    conn.execute(
        "INSERT INTO dict (text, code, weight, comment) VALUES (?1, ?2, ?3, ?4)",
        ("你好", "ni hao", 1, None::<String>),
    )
    .unwrap();

    let engine = ShapeCodeEngine::new(conn);

    let result = engine.search("ni hao").unwrap();
    assert_eq!(result.len(), 1);
    assert_eq!(result[0].text, "你好".to_string());
    assert_eq!(result[0].code, "ni hao".to_string());
    assert_eq!(result[0].weight, 1);
    assert_eq!(result[0].comment, None);

    let not_found = engine.search("hello");
    assert!(not_found.is_ok());
    assert_eq!(not_found.unwrap().len(), 0);
}

#[test]
fn test_engine_manager() {
    // The first engine has an empty dictionary table and answers with an
    // empty result; the second has no table at all, so its searches fail.
    let ok_engine = ShapeCodeEngine::new(dict_conn());
    let bad_engine = ShapeCodeEngine::new(Connection::open_in_memory().unwrap());

    let mut engine = EngineManager::from(vec![ok_engine, bad_engine]);

    assert!(engine.search("hello").is_ok());

    engine.set_active_engine(1);
    assert!(engine.search("hello").is_err());

    // Promoting position 1 again restores the original active engine.
    engine.set_active_engine(1);
    assert!(engine.search("hello").is_ok());
}

#[test]
fn ranked_search_orders_by_weight_desc() {
    let conn = dict_conn();
    for (text, code, weight) in [("好", "ni", 9), ("你", "ni", 5), ("呢", "ni hao", 7)] {
        conn.execute(
            "INSERT INTO dict (text, code, weight, comment) VALUES (?1, ?2, ?3, ?4)",
            (text, code, weight, None::<String>),
        )
        .unwrap();
    }
    let engine = ShapeCodeEngine::new(conn);
    let result = engine.search("ni").unwrap();
    let got: Vec<(String, u64)> = result.iter().map(|r| (r.text.clone(), r.weight)).collect();
    assert_eq!(
        got,
        vec![
            ("好".to_string(), 9),
            ("呢".to_string(), 7),
            ("你".to_string(), 5)
        ]
    );
}

#[test]
fn duplicate_text_rows_group_to_one_entry() {
    let conn = dict_conn();
    for _ in 0..3 {
        conn.execute(
            "INSERT INTO dict (text, code, weight, comment) VALUES (?1, ?2, ?3, ?4)",
            ("你好", "ni hao", 1, None::<String>),
        )
        .unwrap();
    }
    let engine = ShapeCodeEngine::new(conn);
    let result = engine.search("ni hao").unwrap();
    assert_eq!(result.len(), 1);
    assert_eq!(result[0].text, "你好".to_string());
}

#[test]
fn storage_failure_is_an_error_not_empty() {
    let engine = ShapeCodeEngine::new(Connection::open_in_memory().unwrap());
    let r = engine.search("anything");
    assert!(r.is_err());
    assert!(!r.err().unwrap().message().is_empty());
}

#[test]
fn rank_rows_groups_and_sorts() {
    let rows = vec![
        SearchResultItem {
            text: "b".to_string(),
            code: "ab".to_string(),
            weight: 2,
            comment: None,
        },
        SearchResultItem {
            text: "a".to_string(),
            code: "aa".to_string(),
            weight: 9,
            comment: Some("first".to_string()),
        },
        SearchResultItem {
            text: "a".to_string(),
            code: "ac".to_string(),
            weight: 1,
            comment: None,
        },
        SearchResultItem {
            text: "c".to_string(),
            code: "zz".to_string(),
            weight: 100,
            comment: None,
        },
    ];
    let ranked = liushu::engine::rank_rows(rows, "a");
    let got: Vec<(String, u64)> = ranked.iter().map(|r| (r.text.clone(), r.weight)).collect();
    // "zz" does not extend "a"; the duplicate text "a" keeps its first
    // row (weight 9, comment "first"); order is by weight, highest first.
    assert_eq!(got, vec![("a".to_string(), 9), ("b".to_string(), 2)]);
    assert_eq!(ranked[0].comment, Some("first".to_string()));
}
