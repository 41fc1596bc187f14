//! The cadence at which a running index build publishes its progress.

use vstd::prelude::*;

verus! {

/// A progress update is published once every this many finished files.
pub const PROGRESS_STEP: usize = 25;

/// Whether finishing the `done`-th file of a build publishes a progress
/// update: every [`PROGRESS_STEP`]-th file does.
pub fn publishes_progress(done: usize) -> (b: bool)
    ensures
        b == (done % PROGRESS_STEP == 0),
{
    done % PROGRESS_STEP == 0
}

} // verus!
