//! Navigation data: the symbol index and its query results, and the
//! string-keyed map it is built from.

pub mod index;
pub mod keymap;
