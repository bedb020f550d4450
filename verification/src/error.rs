//! The failures that the library reports.

use vstd::prelude::*;

verus! {

/// The error type of the standard library's input and output. The library
/// carries such a value from the caller's read to the caller's result and
/// never looks inside.
#[verifier::external_type_specification]
#[verifier::external_body]
pub struct ExIoError(std::io::Error);

/// Why an operation failed.
#[derive(Debug)]
pub enum Error {
    /// The operation needs an index, and the file has none.
    NoFAIDX,
    /// A line of the index is not an index entry.
    ParseError,
    /// The sequence is unknown, or the range is empty or not within it.
    InvalidRegion,
    /// Reading the file failed.
    Io(std::io::Error),
}

/// The library's result type.
pub type Result<T, E = Error> = std::result::Result<T, E>;

} // verus!
