//! Formulas — named, independently compiled dictionary sets — and their
//! compilation into on-disk artifacts.
//!
//! Path resolution and file reading live outside the core: a compile
//! call receives the text of each dictionary source and an already
//! opened store, and the caller writes the returned artifact bytes.

use vstd::prelude::*;

use crate::dict::{
    group_items_by_code, last_wins_defs, parse_sources, parse_sources_spec, texts_for_code,
    texts_of_items, views, item_codes, DictItemV,
};
use crate::error::LiushuError;
use crate::store::{conn_execute, dict_insert_row, defs_store, sql_error_message, redb_error_message};
use crate::trie::{code_trie_enc, code_trie_insert, code_trie_model, code_trie_new, code_trie_to_bytes, bincode_error_message};

verus! {

/// The resolved configuration: the formulas the engine can compile and
/// switch between.
pub struct Config {
    pub formulas: Vec<Formula>,
}

impl Config {
    /// Builds the configuration from already-resolved formulas; reading
    /// and deserializing the configuration file is the host layer's
    /// job.
    pub fn load(formulas: Vec<Formula>) -> (r: Self)
        ensures
            r.formulas == formulas,
    {
        Config { formulas }
    }
}

/// One named dictionary set: an id, an optional display name, and the
/// dictionary files that make it up.
pub struct Formula {
    pub id: String,
    pub name: Option<String>,
    pub dictionaries: Vec<String>,
}

/// The views of a sequence of source texts.
pub open spec fn source_views(sources: Seq<String>) -> Seq<Seq<char>> {
    sources.map_values(|p: String| p@)
}

/// What the compiled trie of a formula holds: one key per distinct
/// code (as its byte encoding), bound to that code's texts in input
/// order, duplicates kept.
pub open spec fn code_trie_of(items: Seq<DictItemV>) -> Map<Seq<u8>, Seq<Seq<char>>> {
    Map::new(
        |k: Seq<u8>| item_codes(items).contains(vstd::utf8::decode_utf8(k))
            && vstd::utf8::encode_utf8(vstd::utf8::decode_utf8(k)) == k,
        |k: Seq<u8>| texts_for_code(items, vstd::utf8::decode_utf8(k)),
    )
}

impl Formula {
    /// A formula from its parts.
    pub fn new(id: String, name: Option<String>, dictionaries: Vec<String>) -> (r: Self)
        ensures
            r.id@ == id@,
            r.name == name,
            r.dicts_view() == dictionaries@.map_values(|p: String| p@),
    {
        Formula { id, name, dictionaries }
    }

    /// The dictionary file references, in order.
    pub closed spec fn dicts_view(&self) -> Seq<Seq<char>> {
        self.dictionaries@.map_values(|p: String| p@)
    }

    /// The dictionary file references, for the caller that resolves and
    /// reads them.
    pub fn dictionaries(&self) -> (r: &Vec<String>)
        ensures
            r@.map_values(|p: String| p@) == self.dicts_view(),
    {
        &self.dictionaries
    }

    /// Compiles the formula's sources into the relational store: one
    /// table row per source row, all inserted in one transaction that
    /// first clears the previous rows, so a rerun fully replaces the
    /// formula's prior table. A malformed row fails the whole
    /// compilation before anything is written; a storage failure rolls
    /// the transaction back.
    pub fn compile(&self, sources: &Vec<String>, conn: &rusqlite::Connection) -> (r: Result<
        (),
        LiushuError,
    >)
        ensures
            (r matches Ok(_) ==> parse_sources_spec(source_views(sources@)) is Some),
            parse_sources_spec(source_views(sources@)) is None ==> (r matches Err(e) && e
                is Parse),
            (r matches Err(e) ==> (e is Parse || e is Storage)),
            (r matches Err(e) && e is Parse ==> parse_sources_spec(source_views(sources@))
                is None),
    {
        let items = match parse_sources(sources) {
            Err(e) => {
                return Err(e);
            },
            Ok(items) => items,
        };
        match conn_execute(
            conn,
            "CREATE TABLE IF NOT EXISTS dict (text TEXT NOT NULL, code TEXT NOT NULL, weight INTEGER NOT NULL, comment TEXT)",
        ) {
            Err(e) => {
                return Err(LiushuError::Storage(sql_error_message(&e)));
            },
            Ok(_) => {},
        }
        match conn_execute(conn, "BEGIN") {
            Err(e) => {
                return Err(LiushuError::Storage(sql_error_message(&e)));
            },
            Ok(_) => {},
        }
        match conn_execute(conn, "DELETE FROM dict") {
            Err(e) => {
                match conn_execute(conn, "ROLLBACK") {
                    Err(_) => {},
                    Ok(_) => {},
                }
                return Err(LiushuError::Storage(sql_error_message(&e)));
            },
            Ok(_) => {},
        }
        let mut i: usize = 0;
        while i < items.len()
            invariant
                parse_sources_spec(source_views(sources@)) is Some,
            decreases items.len() - i,
        {
            let it = &items[i];
            match dict_insert_row(conn, it.text.as_str(), it.code.as_str(), it.weight, &it.comment)
            {
                Err(e) => {
                    match conn_execute(conn, "ROLLBACK") {
                        Err(_) => {},
                        Ok(_) => {},
                    }
                    return Err(LiushuError::Storage(sql_error_message(&e)));
                },
                Ok(_) => {},
            }
            i = i + 1;
        }
        match conn_execute(conn, "COMMIT") {
            Err(e) => Err(LiushuError::Storage(sql_error_message(&e))),
            Ok(_) => Ok(()),
        }
    }

    /// Compiles the formula's sources into the trie-plus-key-value
    /// representation: the definitions (last write per text wins) go
    /// into the key-value store in one committed transaction that first
    /// clears the previous bindings, so a rerun fully replaces the
    /// formula's definitions; the returned bytes serialize the prefix
    /// trie binding each code to its texts in input order.
    pub fn compile2(&self, sources: &Vec<String>, db: &redb::Database) -> (r: Result<
        Vec<u8>,
        LiushuError,
    >)
        ensures
            (r matches Ok(bytes) ==> ({
                &&& parse_sources_spec(source_views(sources@)) is Some
                &&& (exists|t: patricia_tree::PatriciaMap<Vec<String>>|
                    bytes@ == #[trigger] code_trie_enc(t) && code_trie_model(t) == code_trie_of(
                        parse_sources_spec(source_views(sources@))->Some_0,
                    ))
            })),
            parse_sources_spec(source_views(sources@)) is None ==> (r matches Err(e) && e
                is Parse),
            (r matches Err(e) ==> (e is Parse || e is Storage)),
            (r matches Err(e) && e is Parse ==> parse_sources_spec(source_views(sources@))
                is None),
    {
        broadcast use vstd::utf8::encode_utf8_decode_utf8;

        let items = match parse_sources(sources) {
            Err(e) => {
                return Err(e);
            },
            Ok(items) => items,
        };
        let ghost iv = views(items@);
        let defs = last_wins_defs(&items);
        match defs_store(db, &defs) {
            Err(e) => {
                return Err(LiushuError::Storage(redb_error_message(&e)));
            },
            Ok(_) => {},
        }
        let groups = group_items_by_code(&items);
        let mut trie = code_trie_new();
        let mut g: usize = 0;
        while g < groups.len()
            invariant
                iv == views(items@),
                parse_sources_spec(source_views(sources@)) == Some(iv),
                forall|a: int, b: int| 0 <= a < b < groups@.len() ==> groups@[a].0@
                    != groups@[b].0@,
                forall|a: int|
                    0 <= a < groups@.len() ==> ({
                        &&& item_codes(iv).contains((#[trigger] groups@[a]).0@)
                        &&& views(groups@[a].1@) == crate::dict::items_for_code(
                            iv,
                            groups@[a].0@,
                        )
                    }),
                forall|c: Seq<char>|
                    item_codes(iv).contains(c) ==> (exists|a: int|
                        0 <= a < groups@.len() && (#[trigger] groups@[a]).0@ == c),
                0 <= g <= groups@.len(),
                forall|k: Seq<u8>|
                    code_trie_model(trie).contains_key(k) ==> (exists|a: int|
                        0 <= a < g && k == vstd::utf8::encode_utf8((#[trigger] groups@[a]).0@)),
                forall|a: int|
                    0 <= a < g ==> ({
                        &&& code_trie_model(trie).contains_key(
                            vstd::utf8::encode_utf8((#[trigger] groups@[a]).0@),
                        )
                        &&& code_trie_model(trie)[vstd::utf8::encode_utf8(groups@[a].0@)]
                            == texts_for_code(iv, groups@[a].0@)
                    }),
            decreases groups.len() - g,
        {
            let texts = texts_of_items(&groups[g].1);
            proof {
                assert(crate::trie::text_views(texts@) =~= texts_for_code(iv, groups@[g as int].0@));
            }
            let ghost before = code_trie_model(trie);
            code_trie_insert(&mut trie, groups[g].0.as_str(), texts);
            proof {
                assert forall|a: int|
                    0 <= a < g + 1 implies ({
                    &&& code_trie_model(trie).contains_key(
                        vstd::utf8::encode_utf8((#[trigger] groups@[a]).0@),
                    )
                    &&& code_trie_model(trie)[vstd::utf8::encode_utf8(groups@[a].0@)]
                        == texts_for_code(iv, groups@[a].0@)
                }) by {
                    if a < g {
                        vstd::utf8::encode_utf8_decode_utf8(groups@[a].0@);
                        vstd::utf8::encode_utf8_decode_utf8(groups@[g as int].0@);
                        assert(vstd::utf8::encode_utf8(groups@[a].0@) != vstd::utf8::encode_utf8(
                            groups@[g as int].0@,
                        ));
                    }
                }
            }
            g = g + 1;
        }
        proof {
            assert(code_trie_model(trie) =~= code_trie_of(iv)) by {
                assert forall|k: Seq<u8>| #[trigger] code_trie_model(trie).contains_key(
                    k,
                ) implies code_trie_of(iv).contains_key(k) && code_trie_model(trie)[k]
                    == code_trie_of(iv)[k] by {
                    let a = choose|a: int|
                        0 <= a < groups@.len() && k == vstd::utf8::encode_utf8(
                            (#[trigger] groups@[a]).0@,
                        );
                    vstd::utf8::encode_utf8_decode_utf8(groups@[a].0@);
                    assert(vstd::utf8::decode_utf8(k) == groups@[a].0@);
                }
                assert forall|k: Seq<u8>| #[trigger] code_trie_of(iv).contains_key(
                    k,
                ) implies code_trie_model(trie).contains_key(k) by {
                    let c = vstd::utf8::decode_utf8(k);
                    assert(item_codes(iv).contains(c));
                    let a = choose|a: int|
                        0 <= a < groups@.len() && (#[trigger] groups@[a]).0@ == c;
                    vstd::utf8::encode_utf8_decode_utf8(c);
                    assert(code_trie_model(trie).contains_key(
                        vstd::utf8::encode_utf8(groups@[a].0@),
                    ));
                }
            }
        }
        match code_trie_to_bytes(&trie) {
            Err(e) => Err(LiushuError::Storage(bincode_error_message(&e))),
            Ok(bytes) => {
                proof {
                    assert(bytes@ == code_trie_enc(trie) && code_trie_model(trie)
                        == code_trie_of(iv));
                }
                Ok(bytes)
            },
        }
    }
}

} // verus!
