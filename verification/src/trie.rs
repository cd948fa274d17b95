//! Trusted boundary around the prefix-trie collections and their binary
//! serialization.
//!
//! The tries themselves come from the `patricia_tree` crate and are
//! opaque to the verifier; each instantiation gets an uninterpreted
//! model (what the trie holds) and thin wrappers whose contracts state,
//! over that model, what the crate's operations do. Serialized forms
//! are named by uninterpreted encoding functions over the trie value
//! itself (the node layout of a patricia tree is not a function of its
//! contents alone once keys grow past the crate's label limit), which
//! still makes the serialize/deserialize round trip provable without
//! restating the binary format.

use vstd::prelude::*;

use patricia_tree::map::GenericPatriciaMap;
use patricia_tree::set::GenericPatriciaSet;
use patricia_tree::{PatriciaMap, StringPatriciaMap, StringPatriciaSet};

use crate::spec_is_prefix;

verus! {

#[verifier::external_type_specification]
#[verifier::external_body]
#[verifier::reject_recursive_types(K)]
#[verifier::reject_recursive_types(V)]
pub struct ExGenericPatriciaMap<K, V>(GenericPatriciaMap<K, V>);

#[verifier::external_type_specification]
#[verifier::external_body]
#[verifier::reject_recursive_types(T)]
pub struct ExGenericPatriciaSet<T>(GenericPatriciaSet<T>);

/// One raw dictionary row as stored in the whole-row trie artifact:
/// text, code, weight and optional comment.
pub type Row = (String, String, u32, Option<String>);

/// The model of a stored row.
pub type RowV = (Seq<char>, Seq<char>, u32, Option<Seq<char>>);

/// The models of a sequence of rows.
pub open spec fn row_views(rows: Seq<Row>) -> Seq<RowV> {
    rows.map_values(
        |r: Row|
            (
                r.0@,
                r.1@,
                r.2,
                match r.3 {
                    Some(c) => Some(c@),
                    None => None,
                },
            ),
    )
}

/// The models of a sequence of texts.
pub open spec fn text_views(texts: Seq<String>) -> Seq<Seq<char>> {
    texts.map_values(|t: String| t@)
}

/// What a byte-keyed trie of text lists holds: for each key, the texts
/// in insertion order.
pub uninterp spec fn code_trie_model(t: PatriciaMap<Vec<String>>) -> Map<Seq<u8>, Seq<Seq<char>>>;

/// The serialized form of a byte-keyed trie of text lists.
pub uninterp spec fn code_trie_enc(t: PatriciaMap<Vec<String>>) -> Seq<u8>;

/// The empty byte-keyed trie contents.
pub open spec fn code_trie_empty() -> Map<Seq<u8>, Seq<Seq<char>>> {
    Map::empty()
}

/// Relies on `GenericPatriciaMap::new`: a new trie holds nothing.
#[verifier::external_body]
pub fn code_trie_new() -> (r: PatriciaMap<Vec<String>>)
    ensures
        code_trie_model(r) == code_trie_empty(),
{
    PatriciaMap::new()
}

/// Relies on `GenericPatriciaMap::insert`: binds the key to the given
/// value, replacing any previous binding.
#[verifier::external_body]
pub fn code_trie_insert(t: &mut PatriciaMap<Vec<String>>, code: &str, texts: Vec<String>)
    ensures
        code_trie_model(*final(t)) == code_trie_model(*old(t)).insert(
            vstd::utf8::encode_utf8(code@),
            text_views(texts@),
        ),
{
    t.insert(code.as_bytes(), texts);
}

/// Relies on `GenericPatriciaMap::iter_prefix`: yields exactly the
/// entries whose key extends the prefix, each key once, with its value.
#[verifier::external_body]
pub fn code_trie_iter_prefix(t: &PatriciaMap<Vec<String>>, code: &str) -> (r: Vec<
    (Vec<u8>, Vec<String>),
>)
    ensures
        forall|i: int|
            0 <= i < r@.len() ==> {
                &&& code_trie_model(*t).contains_key((#[trigger] r@[i]).0@)
                &&& code_trie_model(*t)[r@[i].0@] == text_views(r@[i].1@)
                &&& spec_is_prefix(vstd::utf8::encode_utf8(code@), r@[i].0@)
            },
        forall|k: Seq<u8>|
            code_trie_model(*t).contains_key(k) && spec_is_prefix(
                vstd::utf8::encode_utf8(code@),
                k,
            ) ==> exists|i: int| 0 <= i < r@.len() && (#[trigger] r@[i]).0@ == k,
        forall|i: int, j: int| 0 <= i < j < r@.len() ==> r@[i].0@ != r@[j].0@,
{
    t.iter_prefix(code.as_bytes()).map(|(k, v)| (k, v.clone())).collect()
}

/// Relies on `bincode::serialize`: the bytes are a function of the
/// trie value.
#[verifier::external_body]
pub(crate) fn code_trie_to_bytes(t: &PatriciaMap<Vec<String>>) -> (r: Result<Vec<u8>, bincode::Error>)
    ensures
        (r matches Ok(bytes) ==> bytes@ == code_trie_enc(*t)),
{
    bincode::serialize(t)
}

/// Relies on `bincode::deserialize`: reading back a serialized trie
/// reconstructs a trie with the serialized trie's contents.
#[verifier::external_body]
pub(crate) fn code_trie_from_bytes(bytes: &Vec<u8>) -> (r: Result<
    PatriciaMap<Vec<String>>,
    bincode::Error,
>)
    ensures
        forall|t: PatriciaMap<Vec<String>>|
            bytes@ == #[trigger] code_trie_enc(t) ==> r is Ok && code_trie_model(r->Ok_0)
                == code_trie_model(t),
{
    bincode::deserialize(&bytes[..])
}

/// Round trip: deserializing the serialization of a code trie always
/// succeeds and reconstructs a trie holding the same keys with the
/// same text lists in the same order; only the serialization step
/// itself can fail.
pub fn code_trie_roundtrip(t: &PatriciaMap<Vec<String>>) -> (r: Result<
    PatriciaMap<Vec<String>>,
    crate::error::LiushuError,
>)
    ensures
        (r matches Ok(t2) ==> code_trie_model(t2) == code_trie_model(*t)),
        (r matches Err(e) ==> e is Storage),
{
    match code_trie_to_bytes(t) {
        Err(e) => Err(crate::error::LiushuError::Storage(bincode_error_message(&e))),
        Ok(bytes) => {
            proof {
                assert(bytes@ == code_trie_enc(*t));
            }
            match code_trie_from_bytes(&bytes) {
                Err(e) => Err(crate::error::LiushuError::Storage(bincode_error_message(&e))),
                Ok(t2) => Ok(t2),
            }
        },
    }
}

/// What a string-keyed trie of whole rows holds.
pub uninterp spec fn rows_trie_model(t: StringPatriciaMap<Vec<Row>>) -> Map<Seq<char>, Seq<RowV>>;

/// The serialized form of a string-keyed trie of whole rows.
pub uninterp spec fn rows_trie_enc(t: StringPatriciaMap<Vec<Row>>) -> Seq<u8>;

/// The empty row-trie contents.
pub open spec fn rows_trie_empty() -> Map<Seq<char>, Seq<RowV>> {
    Map::empty()
}

/// Relies on `GenericPatriciaMap::new`: a new trie holds nothing.
#[verifier::external_body]
pub(crate) fn rows_trie_new() -> (r: StringPatriciaMap<Vec<Row>>)
    ensures
        rows_trie_model(r) == rows_trie_empty(),
{
    StringPatriciaMap::new()
}

/// Relies on `GenericPatriciaMap::insert`: binds the key to the given
/// rows, replacing any previous binding.
#[verifier::external_body]
pub(crate) fn rows_trie_insert(t: &mut StringPatriciaMap<Vec<Row>>, code: &str, rows: Vec<Row>)
    ensures
        rows_trie_model(*final(t)) == rows_trie_model(*old(t)).insert(code@, row_views(rows@)),
{
    t.insert(code, rows);
}

/// Relies on `bincode::serialize`: the bytes are a function of the
/// trie value.
#[verifier::external_body]
pub(crate) fn rows_trie_to_bytes(t: &StringPatriciaMap<Vec<Row>>) -> (r: Result<Vec<u8>, bincode::Error>)
    ensures
        (r matches Ok(bytes) ==> bytes@ == rows_trie_enc(*t)),
{
    bincode::serialize(t)
}

/// What a string-keyed trie of text sets holds.
pub uninterp spec fn set_trie_model(t: StringPatriciaMap<StringPatriciaSet>) -> Map<
    Seq<char>,
    Set<Seq<char>>,
>;

/// The serialized form of a string-keyed trie of text sets.
pub uninterp spec fn set_trie_enc(t: StringPatriciaMap<StringPatriciaSet>) -> Seq<u8>;

/// The empty set-trie contents.
pub open spec fn set_trie_empty() -> Map<Seq<char>, Set<Seq<char>>> {
    Map::empty()
}

/// Relies on `GenericPatriciaMap::new`: a new trie holds nothing.
#[verifier::external_body]
pub(crate) fn set_trie_new() -> (r: StringPatriciaMap<StringPatriciaSet>)
    ensures
        set_trie_model(r) == set_trie_empty(),
{
    StringPatriciaMap::new()
}

/// Relies on `GenericPatriciaMap::insert` and
/// `GenericPatriciaSet::from_iter`: binds the key to the set of the
/// given texts, replacing any previous binding.
#[verifier::external_body]
pub(crate) fn set_trie_insert(t: &mut StringPatriciaMap<StringPatriciaSet>, code: &str, texts: &Vec<
    String,
>)
    ensures
        set_trie_model(*final(t)) == set_trie_model(*old(t)).insert(
            code@,
            text_views(texts@).to_set(),
        ),
{
    t.insert(code, texts.iter().map(|s| s.as_str()).collect());
}

/// Relies on `bincode::serialize`: the bytes are a function of the
/// trie value.
#[verifier::external_body]
pub(crate) fn set_trie_to_bytes(t: &StringPatriciaMap<StringPatriciaSet>) -> (r: Result<
    Vec<u8>,
    bincode::Error,
>)
    ensures
        (r matches Ok(bytes) ==> bytes@ == set_trie_enc(*t)),
{
    bincode::serialize(t)
}

/// The models of a definition table: per slot, a weight and an optional
/// comment.
pub open spec fn def_views(defs: Seq<(u32, Option<String>)>) -> Seq<(u32, Option<Seq<char>>)> {
    defs.map_values(
        |d: (u32, Option<String>)|
            (
                d.0,
                match d.1 {
                    Some(c) => Some(c@),
                    None => None,
                },
            ),
    )
}

/// The serialized form of a definition table.
pub uninterp spec fn defs_enc(defs: Seq<(u32, Option<Seq<char>>)>) -> Seq<u8>;

/// Relies on `bincode::serialize`: the bytes are a function of the
/// table's contents alone.
#[verifier::external_body]
pub(crate) fn defs_to_bytes(defs: &Vec<(u32, Option<String>)>) -> (r: Result<Vec<u8>, bincode::Error>)
    ensures
        (r matches Ok(bytes) ==> bytes@ == defs_enc(def_views(defs@))),
{
    bincode::serialize(defs)
}

#[verifier::external_type_specification]
#[verifier::external_body]
pub struct ExBincodeErrorKind(bincode::ErrorKind);

/// Relies on `bincode::ErrorKind`'s `Display` impl for a description.
#[verifier::external_body]
pub(crate) fn bincode_error_message(e: &bincode::Error) -> (r: String) {
    format!("{}", e)
}

/// Relies on `String::from_utf8`: a success decodes exactly the given
/// bytes, and bytes that encode some character sequence always decode.
#[verifier::external_body]
pub(crate) fn string_from_utf8(bytes: &Vec<u8>) -> (r: Option<String>)
    ensures
        (r matches Some(s) ==> vstd::utf8::encode_utf8(s@) == bytes@),
        (forall|s: Seq<char>| bytes@ == vstd::utf8::encode_utf8(s) ==> r is Some),
{
    String::from_utf8(bytes.clone()).ok()
}

} // verus!
