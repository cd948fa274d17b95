//! Trusted boundary around the two embedded stores: the relational
//! store (`rusqlite`) behind the relational engine, and the
//! transactional key-value store (`redb`) behind the trie engine.
//!
//! What these stores return depends on what is on disk, so no wrapper
//! here promises anything about the data that comes back; the verified
//! code around them takes the returned values as arguments and is
//! proved for every value of them.

use vstd::prelude::*;

use redb::ReadableDatabase;

use crate::engine::SearchResultItem;

verus! {

#[verifier::external_type_specification]
#[verifier::external_body]
pub struct ExConnection(rusqlite::Connection);

#[verifier::external_type_specification]
#[verifier::external_body]
pub struct ExSqlError(rusqlite::Error);

/// Relies on `Connection::execute`: runs one parameterless SQL
/// statement (used for table creation and transaction control).
#[verifier::external_body]
pub(crate) fn conn_execute(conn: &rusqlite::Connection, sql: &str) -> (r: Result<(), rusqlite::Error>) {
    conn.execute(sql, []).map(|_| ())
}

/// Relies on `Connection::execute`: inserts one dictionary row into the
/// `dict` table.
#[verifier::external_body]
pub(crate) fn dict_insert_row(conn: &rusqlite::Connection, text: &str, code: &str, weight: u32, comment: &Option<String>) -> (r: Result<(), rusqlite::Error>) {
    conn.execute(
        "INSERT INTO dict (text, code, weight, comment) VALUES (?1, ?2, ?3, ?4)",
        (text, code, weight, comment.as_deref()),
    ).map(|_| ())
}

/// Relies on `Connection::prepare` and `Statement::query_map`: returns
/// the rows of the `dict` table whose code is an SQL `LIKE` extension of
/// the query. What comes back depends on the store's contents, so
/// nothing is promised of it.
#[verifier::external_body]
pub(crate) fn dict_query_like(conn: &rusqlite::Connection, code: &str) -> (r: Result<
    Vec<SearchResultItem>,
    rusqlite::Error,
>) {
    let mut stmt = conn.prepare("SELECT text, code, weight, comment FROM dict WHERE code LIKE ?1")?;
    let pattern = format!("{}%", code);
    let rows = stmt.query_map((&pattern,), |row| {
        Ok(SearchResultItem {
            text: row.get(0)?,
            code: row.get(1)?,
            weight: row.get::<_, i64>(2)? as u64,
            comment: row.get::<_, String>(3).ok(),
        })
    })?;
    rows.collect()
}

/// Relies on `rusqlite::Error`'s `Display` impl for a description.
#[verifier::external_body]
pub(crate) fn sql_error_message(e: &rusqlite::Error) -> (r: String) {
    format!("{}", e)
}

#[verifier::external_type_specification]
#[verifier::external_body]
pub struct ExDatabase(redb::Database);

#[verifier::external_type_specification]
#[verifier::external_body]
pub struct ExRedbError(redb::Error);

/// Relies on `Database::begin_write`, `WriteTransaction::open_table`,
/// `Table::retain`, `Table::insert` and `WriteTransaction::commit`:
/// clears the definitions table, then stores every given
/// `(text, (weight, comment))` binding, all within one transaction
/// committed once at the end, so either the full replacement becomes
/// visible or none of it: a recompilation fully replaces the prior
/// definitions. Nothing is promised of the store's resulting contents:
/// they live on disk.
#[verifier::external_body]
pub(crate) fn defs_store(db: &redb::Database, entries: &Vec<(String, (u64, Option<String>))>) -> (r:
    Result<(), redb::Error>) {
    let tx = db.begin_write().map_err(redb::Error::from)?;
    {
        let mut table = tx
            .open_table(redb::TableDefinition::<&str, (u64, Option<&str>)>::new("dictionary"))
            .map_err(redb::Error::from)?;
        table.retain(|_, _| false).map_err(redb::Error::from)?;
        for (text, (weight, comment)) in entries {
            table
                .insert(text.as_str(), (*weight, comment.as_deref()))
                .map(|_| ())
                .map_err(redb::Error::from)?;
        }
    }
    tx.commit().map_err(redb::Error::from)
}

/// Relies on `Database::begin_read`, `ReadTransaction::open_table` and
/// `ReadOnlyTable::get`: looks one text up in a read snapshot of the
/// definitions table. What comes back depends on the store's contents,
/// so nothing is promised of it.
#[verifier::external_body]
pub(crate) fn defs_lookup(db: &redb::Database, text: &str) -> (r: Result<
    Option<(u64, Option<String>)>,
    redb::Error,
>) {
    let tx = db.begin_read().map_err(redb::Error::from)?;
    let table = tx
        .open_table(redb::TableDefinition::<&str, (u64, Option<&str>)>::new("dictionary"))
        .map_err(redb::Error::from)?;
    let found = table.get(text).map_err(redb::Error::from)?;
    Ok(found.map(|guard| {
        let (weight, comment) = guard.value();
        (weight, comment.map(|c| c.to_owned()))
    }))
}

/// Relies on `redb::Error`'s `Display` impl for a description.
#[verifier::external_body]
pub(crate) fn redb_error_message(e: &redb::Error) -> (r: String) {
    format!("{}", e)
}

} // verus!
