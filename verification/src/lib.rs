//! Documentation-tree library: collects the files of a project from a
//! model of its directory tree, applies directory-exclusion patterns,
//! and renders the collected paths as an ASCII tree with box-drawing
//! connectors.

pub mod config;
pub mod fs_model;
pub mod markdown;
pub mod order;
pub mod pattern;
pub mod tree;
