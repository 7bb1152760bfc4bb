//! The error taxonomy of the store.
//!
//! Every failure a store operation can report falls in one of four classes:
//! malformed input, an unknown identifier, a duplicate `what` name, or a
//! storage-level problem (missing project directory, disabled or exhausted
//! backups).  All are detected before any mutation is applied.

use vstd::prelude::*;

verus! {

/// A typed, recoverable failure of a store operation.
#[derive(Debug, PartialEq, Eq)]
pub enum Error {
    /// Malformed id token, illegal sentinel placement, or a wrong field
    /// count for the selected edit mode.
    Input,
    /// An id was referenced that no record and no hierarchy node owns.
    NotFound(usize),
    /// The resolved `what` string already names an existing record.
    Conflict(String),
    /// Missing project directory, or backups disabled or exhausted.
    Storage,
}

impl Clone for Error {
    fn clone(&self) -> (r: Error)
        ensures
            r == *self,
    {
        match self {
            Error::Input => Error::Input,
            Error::NotFound(id) => Error::NotFound(*id),
            Error::Conflict(s) => Error::Conflict(s.clone()),
            Error::Storage => Error::Storage,
        }
    }
}

} // verus!
