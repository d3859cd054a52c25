//! Error kinds of the library.
use vstd::prelude::*;

verus! {

/// An object's bytes do not follow the object format.
#[derive(PartialEq, Eq, Structural, Clone, Copy, Debug)]
pub enum DecodeError {
    /// The header does not start with a known kind, or its size field holds
    /// a non-digit before the terminator.
    InvalidHeader,
    /// The size field does not fit a `usize`.
    InvalidSize,
    /// Fewer payload bytes follow the header than its size gives.
    SizeMismatch,
    /// A tree entry lacks its separating space or its terminating null byte.
    InvalidEntry,
    /// A tree entry's mode is not a decimal number that fits a `u32`.
    InvalidMode,
    /// A tree entry's name is not UTF-8.
    InvalidName,
    /// A commit body does not follow the commit layout.
    InvalidCommit,
}

/// A stored object could not be produced or read back.
#[derive(PartialEq, Eq, Structural, Clone, Copy, Debug)]
pub enum StoreError {
    /// No object is stored under the hash.
    NotFound,
    /// The stored bytes do not decompress.
    Corrupt,
    /// Compressing an object failed.
    Io,
    /// The decompressed bytes are not a well-formed object.
    Decode(DecodeError),
}

/// Refs, HEAD and the objects they lead to could not be resolved.
#[derive(PartialEq, Eq, Structural, Clone, Copy, Debug)]
pub enum RepoError {
    /// A ref or HEAD does not hold what a ref holds.
    InvalidRef,
    /// Following refs did not reach a value within the allowed hops.
    CyclicRef,
    /// A commit body does not open with its tree line.
    InvalidCommit,
    /// Trees nest deeper than the store has objects, so some tree holds itself.
    CyclicTree,
    /// Reading an object failed.
    Store(StoreError),
}

} // verus!
