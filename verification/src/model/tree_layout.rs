//! Tree-sidebar layout constants shared by the renderer and the
//! click-to-row mapping.

use vstd::prelude::*;

verus! {

/// The sidebar's fixed width in terminal columns.
pub const TREE_WIDTH: u16 = 34;

/// The number of file rows the sidebar window shows.
pub const TREE_VISIBLE_ROWS: usize = 8;

} // verus!
