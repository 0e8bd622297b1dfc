//! The failure taxonomy of the store.
//!
//! Every operation reports failure as a value of [`VecError`]; nothing in the
//! library panics on inputs its contracts allow.

use vstd::prelude::*;
use vstd::string::StringExecFns;

verus! {

/// The kinds of failure a store operation can report.
#[derive(Clone, Copy, Debug, PartialEq, Eq, Structural)]
pub enum VecError {
    /// A vector of length zero was handed to a write or a query.
    EmptyVector,
    /// A vector whose magnitude is exactly zero cannot be normalized.
    ZeroVector,
    /// A vector's length differs from the dimension the store has locked in.
    DimensionMismatch,
    /// A search was asked of a store that has never been written to.
    EmptyDatabase,
    /// A delete was asked of a store that has never been written to.
    EmptyStore,
    /// The identifier is not present in the store.
    NotFound,
    /// A persisted image could not be decoded back into a store.
    CorruptData,
}

impl VecError {
    /// A human-readable description of the failure.
    pub fn message(&self) -> (r: String)
        ensures
            *self == VecError::EmptyVector ==> r@ == "Cannot normalize an empty vector"@,
            *self == VecError::ZeroVector ==> r@ == "Cannot normalize a zero vector"@,
            *self == VecError::DimensionMismatch ==> r@ == "Different dimentions"@,
            *self == VecError::EmptyDatabase ==> r@ == "Empty database"@,
            *self == VecError::EmptyStore ==> r@ == "Cannot delete on empty database"@,
            *self == VecError::NotFound ==> r@ == "ID not found"@,
            *self == VecError::CorruptData ==> r@ == "Corrupt data"@,
    {
        match self {
            VecError::EmptyVector => String::from_str("Cannot normalize an empty vector"),
            VecError::ZeroVector => String::from_str("Cannot normalize a zero vector"),
            VecError::DimensionMismatch => String::from_str("Different dimentions"),
            VecError::EmptyDatabase => String::from_str("Empty database"),
            VecError::EmptyStore => String::from_str("Cannot delete on empty database"),
            VecError::NotFound => String::from_str("ID not found"),
            VecError::CorruptData => String::from_str("Corrupt data"),
        }
    }
}

} // verus!
