//! Errors of the batch transforms.  Every failure aborts the whole run:
//! a partial table would silently corrupt everything derived from it.

use vstd::prelude::*;

verus! {

/// Why a transform refused its input.
#[derive(Clone, Copy, Debug, PartialEq, Eq, Structural)]
pub enum DataError {
    /// A data row is malformed: wrong field count or a non-numeric field.
    /// `line` is the 1-based line number in the input text, counting the
    /// header line.
    BadRow { line: u64 },
    /// A row assigned a secondary type to an entity that had no primary
    /// type yet.
    MissingPrimary { entity: u64 },
}

} // verus!
