//! The library's error type: one variant per failure class of the
//! compilation and search pipeline.

use vstd::prelude::*;

verus! {

/// Errors surfaced by compilation and search. A lookup miss is never an
/// error: an unmatched code yields an empty result instead.
#[derive(Debug)]
pub enum LiushuError {
    /// A dictionary row could not be parsed; holds a description.
    Parse(String),
    /// The underlying store (relational, key-value or serialization layer)
    /// failed; holds the store's message.
    Storage(String),
    /// A formula id was not among the loaded formulas.
    FormulaNotFound(String),
    /// Any other failure; holds a description.
    Other(String),
}

impl LiushuError {
    /// A human-readable description of the error.
    pub fn message(&self) -> (r: String)
        ensures
            r@ == match self {
                LiushuError::Parse(m) => m@,
                LiushuError::Storage(m) => m@,
                LiushuError::FormulaNotFound(m) => m@,
                LiushuError::Other(m) => m@,
            },
    {
        match self {
            LiushuError::Parse(m) => m.clone(),
            LiushuError::Storage(m) => m.clone(),
            LiushuError::FormulaNotFound(m) => m.clone(),
            LiushuError::Other(m) => m.clone(),
        }
    }
}

} // verus!
