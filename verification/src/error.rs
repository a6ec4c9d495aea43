//! Error type for memory-engine operations.

use vstd::prelude::*;

verus! {

/// The error type for memory-engine operations.
#[derive(Debug, Clone, PartialEq, Eq)]
pub enum MemoryError {
    /// The requested record does not exist; carries the identifier asked for.
    NotFound(u128),
    /// Serialisation or deserialisation failed in a storage collaborator.
    Serialization(String),
    /// A low-level storage operation failed.
    Storage(String),
    /// A caller-supplied parameter was invalid; carries the parameter name.
    InvalidParameter(String),
    /// The requested operation is not supported.
    NotSupported(String),
}

impl MemoryError {
    /// Builds a `NotFound` error for the given record identifier.
    pub fn not_found(id: u128) -> (e: MemoryError)
        ensures
            e == MemoryError::NotFound(id),
    {
        MemoryError::NotFound(id)
    }

    /// Builds an `InvalidParameter` error naming the offending parameter;
    /// the rejected value accompanies the call for symmetry with the other
    /// constructors but only the name is carried.
    pub fn invalid_param(param: &str, value: i64) -> (e: MemoryError)
        ensures
            e matches MemoryError::InvalidParameter(s) && s@ == param@,
    {
        let _ = value;
        MemoryError::InvalidParameter(param.to_owned())
    }

    /// Whether this error is a `NotFound` error.
    pub fn is_not_found(&self) -> (r: bool)
        ensures
            r == (self is NotFound),
    {
        matches!(self, MemoryError::NotFound(_))
    }

    /// Whether this error is an `InvalidParameter` error.
    pub fn is_invalid_parameter(&self) -> (r: bool)
        ensures
            r == (self is InvalidParameter),
    {
        matches!(self, MemoryError::InvalidParameter(_))
    }
}

} // verus!
