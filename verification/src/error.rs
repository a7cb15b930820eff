//! The error type shared by the building and streaming layers.

use vstd::prelude::*;

verus! {

/// Every kind of error returned by the library's building and streaming
/// layers.
#[derive(Clone, Copy, Debug, PartialEq, Eq, Structural)]
pub enum ErrorKind {
    /// Provided with invalid input, such as an empty weight table.
    InvalidInput,
    /// The data to decompress has an unrecognized format.
    UnrecognizedFormat,
    /// The data to decompress does not contain padding info, tree length
    /// and tree: it is shorter than its declared structure.
    MissingHeaderInfo,
    /// The data to decompress contains invalid padding info or an invalid
    /// tree.
    InvalidHeaderInfo,
    /// A provided path points to a directory instead of a file.
    NotFile,
    /// An input/output failure reported by a byte source or sink.
    Io,
}

/// Error type returned by the library, carrying a message and a kind.
#[derive(Clone, Copy, Debug)]
pub struct Error {
    pub message: &'static str,
    pub kind: ErrorKind,
}

impl Error {
    /// Initialize a new `Error` with the provided message and `ErrorKind`.
    pub fn new(message: &'static str, kind: ErrorKind) -> (r: Self)
        ensures
            r.message == message,
            r.kind == kind,
    {
        Error { message, kind }
    }
}

} // verus!
