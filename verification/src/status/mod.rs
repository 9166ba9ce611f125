//! The view in which changed files are listed and staged.
pub mod app;
