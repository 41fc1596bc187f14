//! Data models: project layer, file lists, buffers, the section tree and
//! the terminal-width helpers.

pub mod buffer;
pub mod files;
pub mod path;
pub mod project;
pub mod sections;
pub mod text_width;
pub mod tree_layout;
