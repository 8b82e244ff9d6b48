//! Sorts the files of a directory tree into one folder per file extension.
//!
//! The library holds the decisions of the tool: what a path's extension is,
//! where a file belongs, whether it has to move, and how the moves of a run add
//! up to a summary. It touches no file itself: the caller walks the tree,
//! carries out each [`logic::Step`], and reports back how it ended.

pub mod args;
pub mod logic;
pub mod path;
pub mod stats;
pub mod text;
