//! The view in which conflicts of a merge are decided.
pub mod actions;
pub mod app;
pub mod ui;
