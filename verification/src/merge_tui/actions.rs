//! What can be done in the view.
use vstd::prelude::*;

use crate::keys::{KeyCode, KeyPress};

verus! {

/// What can be done in the view.
#[derive(Debug, Clone, Copy, PartialEq, Eq, Structural)]
pub enum Action {
    Quit,
    Cancel,
    NextConflict,
    PrevConflict,
    NextUnresolved,
    PrevUnresolved,
    ScrollDiffUp,
    ScrollDiffDown,
    ScrollDiffPageUp,
    ScrollDiffPageDown,
    ScrollDiffTop,
    ScrollDiffBottom,
    TakeTarget,
    TakeSandbox,
    TakeBase,
    TakeBoth,
    ToggleExpand,
    Confirm,
    ToggleHelp,
}

/// What a key does.
pub open spec fn key_action(key: KeyPress) -> Option<Action> {
    match key.code {
        KeyCode::Char(c) => if c == 'q' {
            Some(Action::Quit)
        } else if c == 'c' && key.control {
            Some(Action::Cancel)
        } else if c == 'j' {
            Some(Action::NextConflict)
        } else if c == 'k' {
            Some(Action::PrevConflict)
        } else if c == 'n' {
            Some(Action::NextUnresolved)
        } else if c == 'p' {
            Some(Action::PrevUnresolved)
        } else if c == 't' || c == '1' {
            Some(Action::TakeTarget)
        } else if c == 's' || c == '2' {
            Some(Action::TakeSandbox)
        } else if c == 'b' || c == '3' {
            Some(Action::TakeBase)
        } else if c == 'a' {
            Some(Action::TakeBoth)
        } else if c == 'e' {
            Some(Action::ToggleExpand)
        } else if c == '?' {
            Some(Action::ToggleHelp)
        } else {
            None
        },
        KeyCode::Esc => Some(Action::Cancel),
        KeyCode::Up => Some(Action::ScrollDiffUp),
        KeyCode::Down => Some(Action::ScrollDiffDown),
        KeyCode::PageUp => Some(Action::ScrollDiffPageUp),
        KeyCode::PageDown => Some(Action::ScrollDiffPageDown),
        KeyCode::Home => Some(Action::ScrollDiffTop),
        KeyCode::End => Some(Action::ScrollDiffBottom),
        KeyCode::Tab => Some(Action::ToggleExpand),
        KeyCode::Enter => Some(Action::Confirm),
        _ => None,
    }
}

/// What a key does.
pub fn action_for(key: KeyPress) -> (r: Option<Action>)
    ensures
        r == key_action(key),
{
    match key.code {
        KeyCode::Char(c) => {
            if c == 'q' {
                Some(Action::Quit)
            } else if c == 'c' && key.control {
                Some(Action::Cancel)
            } else if c == 'j' {
                Some(Action::NextConflict)
            } else if c == 'k' {
                Some(Action::PrevConflict)
            } else if c == 'n' {
                Some(Action::NextUnresolved)
            } else if c == 'p' {
                Some(Action::PrevUnresolved)
            } else if c == 't' || c == '1' {
                Some(Action::TakeTarget)
            } else if c == 's' || c == '2' {
                Some(Action::TakeSandbox)
            } else if c == 'b' || c == '3' {
                Some(Action::TakeBase)
            } else if c == 'a' {
                Some(Action::TakeBoth)
            } else if c == 'e' {
                Some(Action::ToggleExpand)
            } else if c == '?' {
                Some(Action::ToggleHelp)
            } else {
                None
            }
        },
        KeyCode::Esc => Some(Action::Cancel),
        KeyCode::Up => Some(Action::ScrollDiffUp),
        KeyCode::Down => Some(Action::ScrollDiffDown),
        KeyCode::PageUp => Some(Action::ScrollDiffPageUp),
        KeyCode::PageDown => Some(Action::ScrollDiffPageDown),
        KeyCode::Home => Some(Action::ScrollDiffTop),
        KeyCode::End => Some(Action::ScrollDiffBottom),
        KeyCode::Tab => Some(Action::ToggleExpand),
        KeyCode::Enter => Some(Action::Confirm),
        _ => None,
    }
}

} // verus!
