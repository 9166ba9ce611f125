//! What the operations are for: laws that relate what goes in to what comes out.
pub mod adding;
pub mod branching;
pub mod checking_out;
pub mod committing;
pub mod conflicts;
pub mod differences;
pub mod exchanging;
pub mod histories;
pub mod ignoring;
pub mod importing;
pub mod layouts;
pub mod merging;
pub mod places;
pub mod pressing;
pub mod remotes;
pub mod sandboxes;
pub mod saying;
pub mod showing;
pub mod starting;
pub mod status_view;
pub mod telling;
pub mod tracking;
pub mod wording;
