//! Engine of a side-by-side terminal diff viewer: line alignment, hunks,
//! context lines, search, the file sidebar and the session state.

pub mod text;
pub mod types;
pub mod diff_algo;
pub mod laws_align;
pub mod search;
pub mod tree;
pub mod laws_tree;
pub mod context;
pub mod state;
pub mod git;
pub mod stats;
pub mod overlay;
pub mod theme;
pub mod command;
pub mod watch;
