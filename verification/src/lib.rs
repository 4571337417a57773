//! Planning logic for flattening a directory tree: every file found below the
//! root of the tree is assigned a destination directly in the root, name
//! collisions are either skipped or resolved with a numbered suffix, and, in
//! delete mode, the emptied directories are scheduled for bottom-up removal.
//!
//! The library works on a listing of the tree and produces a plan of actions;
//! it performs no I/O itself.

pub mod names;
pub mod plan;
pub mod laws;
pub mod model;
