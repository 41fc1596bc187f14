//! The git error type: the failures of the magit-subset operations, as
//! plain values (outside error payloads are carried as their messages).

use vstd::prelude::*;

verus! {

/// Errors raised by the git operations.
#[derive(Clone, Debug, PartialEq, Eq)]
pub enum GitError {
    /// No git repository was found at (or above) the given path.
    NotARepository { path: String },
    /// The repository has no HEAD commit yet (unborn branch).
    NoHead,
    /// A raw libgit2 error, passed through with its message.
    Git(String),
    /// The index has no entry for the path.
    IndexEntryNotFound(String),
    /// No hunk with the given new-side start line exists in the diff.
    HunkNotFound { file: String, start: u32 },
    /// The file content is not valid UTF-8, so a hunk cannot be
    /// reverse-applied byte-exactly.
    NotUtf8(String),
    /// Commit identity cannot be resolved the way git resolves it.
    NoAuthor { detail: String },
    /// The identity command could not be started.
    IdentityCommand(String),
    /// The identity line was unparseable.
    IdentityUnparseable(String),
    /// A branch switch was refused because the tree has uncommitted changes.
    DirtyTree,
    /// A working-directory file could not be read.
    ReadFile { path: String, source: String },
    /// A working-directory file could not be written or removed.
    WriteFile { path: String, source: String },
}

} // verus!
