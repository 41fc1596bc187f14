//! Plain git data (status, diffs, log, refs, blame) and the pure
//! computations the repository wrapper runs over it.

pub mod blame;
pub mod commit;
pub mod diff;
pub mod error;
pub mod hunk;
pub mod log;
pub mod refs;
pub mod status;
