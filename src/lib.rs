//! Line projection in the manner of `cut`: position lists, and the selection
//! of bytes, grapheme clusters, characters or delimited fields from a line.
pub mod config;
pub mod project;
pub mod selector;
pub mod text;
