//! Error types of the library.

use vstd::prelude::*;

verus! {

/// A storage key whose percent-decoded bytes are not valid UTF-8.
#[derive(Clone, Copy, Debug, PartialEq, Eq, Structural)]
pub struct DecodeError;

/// A stored value that is not a well-formed serialized response record.
#[derive(Clone, Copy, Debug, PartialEq, Eq, Structural)]
pub struct SerializationError;

/// What can go wrong while adding one record.  Each failure is fatal to
/// that single add: nothing is persisted for it.
#[derive(Clone, Copy, Debug, PartialEq, Eq, Structural)]
pub enum AddError {
    /// The source string did not parse as a URL.
    InvalidUrl,
    /// The transport failed, or the response had a non-success status.
    Fetch,
    /// The response body was not UTF-8 text or not JSON.
    Decode,
    /// The captured record could not be serialized.
    Serialization,
    /// The key-value store refused the write.
    Store,
    /// The source file could not be read.
    FileRead,
}

} // verus!
