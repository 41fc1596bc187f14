//! Search decisions: the pipeline's event and configuration types, the
//! in-buffer occur search, the word-boundary rule, and symbol extraction
//! for references.

pub mod occur;
pub mod references;
pub mod rg;
