use vstd::prelude::*;

verus! {

/// The failure kinds of the object store.
///
/// Each operation reports which of these it returns, and on which inputs,
/// in its own contract.  The variants that only filesystem work can raise
/// (`IOFailure`, `SizeDrift`, `NotARepository`, `AlreadyInitialized`) are
/// constructed by the callers that perform that work.
#[derive(Clone, Copy, Debug, PartialEq, Eq, Structural)]
pub enum GitError {
    /// `.git`, `.git/objects`, or `.git/refs` is missing.
    NotARepository,
    /// An object name failed syntactic validation.
    InvalidIdentifier,
    /// A prefix matched zero or several stored objects.
    AmbiguousOrUnknownObject,
    /// A stored object's bytes do not follow the object format.
    CorruptObject,
    /// An underlying filesystem operation failed.
    IOFailure,
    /// A file's size changed while it was being hashed.
    SizeDrift,
    /// Repository bootstrap found `.git` already present.
    AlreadyInitialized,
}

/// The one-line description of each failure kind.
pub open spec fn describe_spec(e: GitError) -> Seq<char> {
    match e {
        GitError::NotARepository => "fatal: not a git repository (or any of the parent directories): .git"@,
        GitError::InvalidIdentifier => "not a valid object name"@,
        GitError::AmbiguousOrUnknownObject => "ambiguous or unknown object name"@,
        GitError::CorruptObject => "corrupt object"@,
        GitError::IOFailure => "input/output error"@,
        GitError::SizeDrift => "disparity between the file size and the number of copied bytes"@,
        GitError::AlreadyInitialized => "a git repository already exists here"@,
    }
}

impl GitError {
    /// A one-line description, for diagnostics.
    pub fn describe(&self) -> (r: &'static str)
        ensures
            r@ == describe_spec(*self),
    {
        match self {
            GitError::NotARepository => "fatal: not a git repository (or any of the parent directories): .git",
            GitError::InvalidIdentifier => "not a valid object name",
            GitError::AmbiguousOrUnknownObject => "ambiguous or unknown object name",
            GitError::CorruptObject => "corrupt object",
            GitError::IOFailure => "input/output error",
            GitError::SizeDrift => "disparity between the file size and the number of copied bytes",
            GitError::AlreadyInitialized => "a git repository already exists here",
        }
    }
}

} // verus!
