//! Retrieval core of an input-method engine: dictionary compilation into
//! prefix-searchable artifacts, and search engines that query them.

use vstd::prelude::*;

pub mod config;
pub mod dict;
pub mod engine;
mod error;
pub mod store;
pub mod trie;

pub use error::LiushuError;

verus! {

/// True when `pre` is a prefix of `s`.
pub open spec fn spec_is_prefix<T>(pre: Seq<T>, s: Seq<T>) -> bool {
    pre.len() <= s.len() && s.subrange(0, pre.len() as int) == pre
}

} // verus!
