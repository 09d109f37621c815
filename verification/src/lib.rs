//! Content-merge engine for a version-control toolkit, together with the
//! small pieces of section editing and working-tree bookkeeping that
//! surround it.
//!
//! The heart of the crate is the three-way blob merge: two divergent edits
//! of the same file are combined relative to a common ancestor, and regions
//! that cannot be resolved automatically are rendered with conflict markers.

pub mod diff;
pub mod driver;
pub mod laws;
pub mod lines;
pub mod merge;
pub mod render;
pub mod section;
pub mod status;
pub mod text;
pub mod worktree;
