//! Branch and stash data.

use vstd::prelude::*;

verus! {

/// A local branch, with a marker for the current (HEAD) one.
#[derive(Clone, Debug, PartialEq, Eq)]
pub struct Branch {
    pub name: String,
    pub current: bool,
}

/// One stash entry (`index` 0 = newest, matching `git stash list`).
#[derive(Clone, Debug, PartialEq, Eq)]
pub struct StashEntry {
    pub index: usize,
    pub subject: String,
}

} // verus!
