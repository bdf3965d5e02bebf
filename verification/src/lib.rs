//! Verified core of a project-scaffolding tool for production directory
//! trees: path canonicalization, ordered tree snapshots, structure planning,
//! and project-scoped bulk folder operations.

pub mod paths;
pub mod mutate;
pub mod structure;
pub mod tree;
