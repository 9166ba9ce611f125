//! The index file, commits and trees.
pub mod flag_text;
pub mod format;
pub mod reader;
pub mod tree;
pub mod tree_walk;
pub mod tree_ends;
pub mod snapshot;
pub mod snapshot_order;
pub mod snapshot_shape;
pub mod tree_storage;
pub mod commit;
pub mod commit_store;
pub mod api;
pub mod git_refs;
pub mod sync;
pub mod rebuild;
