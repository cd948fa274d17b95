use liushu::engine::{Engine, InputMethodEngine, ShapeCodeEngine};
use rusqlite::Connection;

fn engine_with_row(text: &str, code: &str, weight: u32) -> ShapeCodeEngine {
    let conn = Connection::open_in_memory().unwrap();
    conn.execute(
        "CREATE TABLE IF NOT EXISTS dict (text TEXT NOT NULL, code TEXT NOT NULL, weight INTEGER NOT NULL, comment TEXT)",
        [],
    )
    .unwrap();
    conn.execute(
        "INSERT INTO dict (text, code, weight, comment) VALUES (?1, ?2, ?3, ?4)",
        (text, code, weight, None::<String>),
    )
    .unwrap();
    ShapeCodeEngine::new(conn)
}

#[test]
fn set_active_formula_switches_and_rejects_unknown() {
    let sunman = engine_with_row("你好", "ni hao", 1);
    let cangjie = engine_with_row("倉頡", "cang jie", 2);
    let mut engine = Engine::init(
        vec!["sunman".to_string(), "cangjie".to_string()],
        vec![sunman, cangjie],
    );

    // Initially the first formula serves searches.
    assert_eq!(engine.search("ni hao").unwrap().len(), 1);
    assert_eq!(engine.search("cang jie").unwrap().len(), 0);

    engine.set_active_formula("cangjie").unwrap();
    assert_eq!(engine.search("cang jie").unwrap().len(), 1);
    assert_eq!(engine.search("ni hao").unwrap().len(), 0);

    // An unknown id fails cleanly and leaves the active formula as is.
    let err = engine.set_active_formula("unknown");
    assert!(err.is_err());
    assert!(!err.err().unwrap().message().is_empty());
    assert_eq!(engine.search("cang jie").unwrap().len(), 1);

    // Switching back by id restores the first formula.
    engine.set_active_formula("sunman").unwrap();
    assert_eq!(engine.search("ni hao").unwrap().len(), 1);
}
