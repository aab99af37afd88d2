//! Error taxonomy shared by every operation of the store.

use vstd::prelude::*;

verus! {

/// The error type for store operations.
///
/// `Io` carries a message supplied by the host program that performs the
/// actual file operations; the verified core itself reports the
/// serialization, corruption and argument errors.
#[derive(Debug)]
pub enum Error {
    /// An underlying I/O failure (open, read, write, seek, truncate).
    Io(String),
    /// Failure to encode an operation or a metadata record.
    Serialization(String),
    /// Failure to decode a log record or table metadata.
    Deserialization(String),
    /// A key was not found, for callers that treat absence as an error.
    KeyNotFound,
    /// No database directory exists at the given path.
    DatabaseNotFound(String),
    /// A malformed argument was supplied by the caller.
    InvalidArgument(String),
    /// The operation is not supported.
    NotSupported(String),
    /// Any other failure, including corrupt table files.
    Custom(String),
}

impl Error {
    /// Creates a new custom error.
    pub fn custom(msg: String) -> (r: Error)
        ensures
            r matches Error::Custom(m) && m@ == msg@,
    {
        Error::Custom(msg)
    }

    /// Creates a new serialization error.
    pub fn serialization(msg: String) -> (r: Error)
        ensures
            r matches Error::Serialization(m) && m@ == msg@,
    {
        Error::Serialization(msg)
    }
}

} // verus!
