//! The view in which branches are listed, switched to, renamed and deleted.
pub mod app;
pub mod listing;
