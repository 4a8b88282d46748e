//! A content-addressable object store in the style of a version-control
//! system's plumbing layer: immutable objects identified by the SHA-1 digest
//! of their framed bytes, compressed at rest, with structured encodings for
//! commit metadata (key-value-list-with-message) and directory trees.
pub mod bytes;
pub mod compress;
pub mod file;
pub mod hashing;
pub mod kvlm;
pub mod object;
pub mod repository;
pub mod tree;

use vstd::prelude::*;

verus! {

/// The failure taxonomy of the store. Every error is terminal to the
/// operation that raised it; nothing is retried internally.
#[derive(Clone, Copy, Debug, PartialEq, Eq, Structural)]
pub enum GitError {
    /// Repository discovery exhausted all ancestor directories.
    NotFound,
    /// Repository configuration is missing or declares an unsupported version.
    ConfigInvalid,
    /// A digest has no backing file in the object store.
    ObjectNotFound,
    /// Decompression of a stored object failed.
    CorruptObject,
    /// The framing header is invalid or its declared length does not match.
    MalformedObject,
    /// A tree entry has a malformed mode field or is truncated.
    MalformedTree,
    /// The message section of a key-value-list-with-message payload is absent.
    IncompleteKvlm,
}

} // verus!
