use liushu::config::{Config, Formula};
use liushu::engine::{InputMethodEngine, EngineWithRedb, ShapeCodeEngine};
use redb::backends::InMemoryBackend;
use redb::Database;
use rusqlite::Connection;

fn memory_db() -> Database {
    Database::builder()
        .create_with_backend(InMemoryBackend::new())
        .unwrap()
}

#[test]
fn compile_then_search_ranks_by_weight() {
    let conn = Connection::open_in_memory().unwrap();
    let formula = Formula::new("sunman".to_string(), None, vec!["main.dict".to_string()]);
    let sources = vec!["你\tni\t5\n好\tni\t9\n你好\tni hao\t7\n".to_string()];
    formula.compile(&sources, &conn).unwrap();

    let engine = ShapeCodeEngine::new(conn);
    let result = engine.search("ni").unwrap();
    let got: Vec<(String, u64)> = result.iter().map(|r| (r.text.clone(), r.weight)).collect();
    assert_eq!(
        got,
        vec![
            ("好".to_string(), 9),
            ("你好".to_string(), 7),
            ("你".to_string(), 5)
        ]
    );
}

#[test]
fn compile_rejects_malformed_sources_entirely() {
    let conn = Connection::open_in_memory().unwrap();
    let formula = Formula::new("f".to_string(), None, vec![]);
    let sources = vec!["好\tni\t9\n".to_string(), "bad row without tabs\n".to_string()];
    assert!(formula.compile(&sources, &conn).is_err());
    // Nothing was written: the table was not even created.
    let count: Result<i64, _> =
        conn.query_row("SELECT COUNT(*) FROM dict", [], |row| row.get(0));
    assert!(count.is_err());
}

#[test]
fn compile2_then_trie_search_exact_and_prefix() {
    let db = memory_db();
    let formula = Formula::new("sunman".to_string(), None, vec![]);
    let sources =
        vec!["你好\tni hao\t1\t\n光\tab\t3\t\n广\ta1\t4\t\n码\tb2\t9\t\n".to_string()];
    let trie_bytes = formula.compile2(&sources, &db).unwrap();

    let engine = EngineWithRedb::with(db, &trie_bytes).unwrap();

    // The concrete scenario: the exact code finds its row, an unmatched
    // code is an empty result, not an error.
    let result = engine.search("ni hao").unwrap();
    assert_eq!(result.len(), 1);
    assert_eq!(result[0].text, "你好".to_string());
    assert_eq!(result[0].code, "ni hao".to_string());
    assert_eq!(result[0].weight, 1);
    assert_eq!(result[0].comment, None);
    assert_eq!(engine.search("hello").unwrap().len(), 0);

    // The prefix "a" matches every code starting with "a" ("ab" and
    // "a1"), returning the union of their texts; "b2" stays out.
    let mut prefix_hits: Vec<(String, String)> = engine
        .search("a")
        .unwrap()
        .iter()
        .map(|r| (r.code.clone(), r.text.clone()))
        .collect();
    prefix_hits.sort();
    assert_eq!(
        prefix_hits,
        vec![
            ("a1".to_string(), "广".to_string()),
            ("ab".to_string(), "光".to_string())
        ]
    );
}

#[test]
fn compile2_definitions_keep_the_last_write() {
    let db = memory_db();
    let formula = Formula::new("f".to_string(), None, vec![]);
    let sources = vec!["好\thao\t3\tearly\n好\thao2\t8\tlate\n".to_string()];
    let trie_bytes = formula.compile2(&sources, &db).unwrap();
    let engine = EngineWithRedb::with(db, &trie_bytes).unwrap();
    let result = engine.search("hao2").unwrap();
    assert_eq!(result.len(), 1);
    // The key-value table is an upsert: the later row's weight and
    // comment win for the shared text.
    assert_eq!(result[0].weight, 8);
    assert_eq!(result[0].comment, Some("late".to_string()));
}

#[test]
fn trie_serialization_round_trips() {
    let mut trie = liushu::trie::code_trie_new();
    liushu::trie::code_trie_insert(&mut trie, "ni hao", vec!["你好".to_string(), "泥好".to_string()]);
    liushu::trie::code_trie_insert(&mut trie, "ni", vec!["你".to_string()]);

    let reloaded = liushu::trie::code_trie_roundtrip(&trie).unwrap();

    let before: Vec<(Vec<u8>, Vec<String>)> = liushu::trie::code_trie_iter_prefix(&trie, "");
    let after: Vec<(Vec<u8>, Vec<String>)> = liushu::trie::code_trie_iter_prefix(&reloaded, "");
    assert_eq!(before, after);
    assert_eq!(after.len(), 2);
}

#[test]
fn config_load_keeps_formulas() {
    let config = Config::load(vec![
        Formula::new("sunman".to_string(), Some("山人".to_string()), vec!["a.txt".to_string()]),
        Formula::new("other".to_string(), None, vec![]),
    ]);
    assert_eq!(config.formulas.len(), 2);
    assert_eq!(config.formulas[0].id, "sunman".to_string());
    assert_eq!(config.formulas[0].dictionaries().len(), 1);
}

#[test]
fn recompile_replaces_prior_rows() {
    let conn = Connection::open_in_memory().unwrap();
    let formula = Formula::new("f".to_string(), None, vec![]);
    let sources = vec!["你好\tni hao\t1\n".to_string()];
    formula.compile(&sources, &conn).unwrap();
    formula.compile(&sources, &conn).unwrap();
    // A rerun fully replaces the table instead of appending duplicates.
    let count: i64 = conn
        .query_row("SELECT COUNT(*) FROM dict", [], |row| row.get(0))
        .unwrap();
    assert_eq!(count, 1);

    let changed = vec!["你好\tni hao\t9\n".to_string()];
    formula.compile(&changed, &conn).unwrap();
    let engine = ShapeCodeEngine::new(conn);
    let result = engine.search("ni hao").unwrap();
    assert_eq!(result.len(), 1);
    assert_eq!(result[0].weight, 9);
}

#[test]
fn recompile2_replaces_prior_definitions() {
    let db = memory_db();
    let formula = Formula::new("f".to_string(), None, vec![]);
    let first = vec!["好\thao\t3\n旧\told\t7\n".to_string()];
    formula.compile2(&first, &db).unwrap();
    // Recompiling with a source that no longer carries the text "旧"
    // must drop its stale definition.
    let second = vec!["好\thao\t5\n".to_string()];
    let trie_bytes = formula.compile2(&second, &db).unwrap();
    let engine = EngineWithRedb::with(db, &trie_bytes).unwrap();
    let result = engine.search("hao").unwrap();
    assert_eq!(result.len(), 1);
    assert_eq!(result[0].weight, 5);
    assert_eq!(engine.search("old").unwrap().len(), 0);
}
