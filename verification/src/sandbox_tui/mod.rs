//! The view in which sandboxes and their changes are listed.
pub mod app;
pub mod ui;
