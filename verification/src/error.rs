//! The errors of the library.

use vstd::prelude::*;

verus! {

/// The ways in which an operation of the library can fail.
#[derive(Clone, Copy, Debug, PartialEq, Eq, Structural)]
pub enum Error {
    /// A requested object is absent from the store.
    NotFound,
    /// Bytes do not follow the grammar they are read by.
    Malformed,
    /// A byte count differs from the size that was declared for it.
    SizeMismatch,
    /// A computed SHA-1 differs from the one that was recorded.
    HashMismatch,
    /// The file system or the network failed.
    Io,
    /// The input uses a feature that is not handled.
    Unsupported,
    /// A remote's answer is not what the protocol prescribes.
    ProtocolError,
}

} // verus!
