//! The B+tree.

pub mod branch_node;
pub mod leaf_node;
pub mod node;
pub mod tree;
pub mod tree_insert;
pub mod tree_model;
pub mod tree_path;
pub mod tree_search;
pub mod tree_update;
pub mod tree_verify;
pub mod tree_written;
