//! The ways in which an operation of the object database can fail.

use vstd::prelude::*;

verus! {

/// Failure kinds, kept distinct so that callers can report them apart.
#[derive(Debug, Clone, Copy, PartialEq, Eq, Structural)]
pub enum GitError {
    /// An object or reference is absent.
    NotFound,
    /// Bytes that do not follow the format: a bad header, a tree encoding
    /// that runs past its buffer, a delta of the wrong size, a count mismatch.
    Corrupt,
    /// A format feature left out by design: OFS_DELTA entries and tags.
    Unsupported,
    /// A REF_DELTA whose base has not been resolved earlier in the pack.
    MissingBase,
    /// A read, a write or a request failed underneath.
    Io,
    /// An object of another kind than the operation works on.
    WrongKind,
}

impl GitError {
    pub open spec fn spec_message(self) -> Seq<char> {
        match self {
            GitError::NotFound => "object not found"@,
            GitError::Corrupt => "corrupt object data"@,
            GitError::Unsupported => "unsupported object type"@,
            GitError::MissingBase => "delta base is missing"@,
            GitError::Io => "input/output failure"@,
            GitError::WrongKind => "object of the wrong kind"@,
        }
    }

    /// A short description of the failure.
    pub fn message(&self) -> (r: &'static str)
        ensures
            r@ == self.spec_message(),
    {
        match self {
            GitError::NotFound => "object not found",
            GitError::Corrupt => "corrupt object data",
            GitError::Unsupported => "unsupported object type",
            GitError::MissingBase => "delta base is missing",
            GitError::Io => "input/output failure",
            GitError::WrongKind => "object of the wrong kind",
        }
    }
}

} // verus!
