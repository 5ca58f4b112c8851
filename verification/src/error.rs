use vstd::prelude::*;

use crate::hash::GitHash;

verus! {

/// Everything that can go wrong while reading a Git object store.
#[derive(Debug, Clone)]
pub enum GitError {
    /// No object with this name is stored.
    ObjectNotFound(GitHash),
    /// The object may be packed in a pack whose index format is not supported.
    PackfileUnsupported(GitHash),
    /// A textual object name was not 40 hex digits, or raw bytes were not 20.
    InvalidHash(String),
    /// An object, header or record was malformed.
    InvalidObject(String),
    /// An object's content does not hash to its name.
    HashMismatch { expected: GitHash, got: GitHash },
    /// A ref could not be resolved.
    RefNotFound(String),
    /// Decompression produced more than the accepted maximum.
    DeflateBomb,
    /// A file of the repository exists but could not be read.
    Io(String),
    /// An offset or length points outside the buffer it indexes.
    OutOfBounds,
}

/// What a [`GitError`] says: its variant, with the object name or the
/// message text where it carries one. An I/O error's text describes what the
/// file system reported and is not part of it.
pub enum GitErrorModel {
    ObjectNotFound(GitHash),
    PackfileUnsupported(GitHash),
    InvalidHash(Seq<char>),
    InvalidObject(Seq<char>),
    HashMismatch(GitHash, GitHash),
    RefNotFound(Seq<char>),
    DeflateBomb,
    Io,
    OutOfBounds,
}

impl GitError {
    /// What this error says.
    pub open spec fn model(&self) -> GitErrorModel {
        match self {
            GitError::ObjectNotFound(h) => GitErrorModel::ObjectNotFound(*h),
            GitError::PackfileUnsupported(h) => GitErrorModel::PackfileUnsupported(*h),
            GitError::InvalidHash(m) => GitErrorModel::InvalidHash(m@),
            GitError::InvalidObject(m) => GitErrorModel::InvalidObject(m@),
            GitError::HashMismatch { expected, got } => GitErrorModel::HashMismatch(*expected, *got),
            GitError::RefNotFound(m) => GitErrorModel::RefNotFound(m@),
            GitError::DeflateBomb => GitErrorModel::DeflateBomb,
            GitError::Io(_) => GitErrorModel::Io,
            GitError::OutOfBounds => GitErrorModel::OutOfBounds,
        }
    }
}

} // verus!
