//! A budgeted, depth-annotated flattening of a directory hierarchy.
//!
//! The core is a builder that expands a tree of paths under an entry
//! budget, round-robin among the open directories of the current depth,
//! rewrites the last emitted child of each under-listed directory into a
//! pruning placeholder, and finally orders all entries by raw
//! lexicographic path comparison.

pub mod flat_tree;
pub mod label;
pub mod nesting;
pub mod order;
pub mod sorting;
pub mod tree_options;
