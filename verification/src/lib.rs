//! redline: the headless core of a read-focused terminal code browser —
//! the magit status section tree, git status/diff data and hunk byte math,
//! text-width and word rules, project and buffer models, and the search
//! decisions, each with a machine-checked contract.

pub mod cli;
pub mod git;
pub mod model;
pub mod nav;
pub mod profile;
pub mod search;
pub mod text;
