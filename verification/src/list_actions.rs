//! What can be done in the views that show lists.
use vstd::prelude::*;

use crate::keys::{KeyCode, KeyPress};

verus! {

/// What can be done in a view that shows lists.
#[derive(Debug, Clone, Copy, PartialEq, Eq, Structural)]
pub enum ListAction {
    Quit,
    MoveUp,
    MoveDown,
    PageUp,
    PageDown,
    GoToTop,
    GoToBottom,
    ToggleStage,
    StageAll,
    UnstageAll,
    Refresh,
    ToggleUntracked,
    ToggleHelp,
    SwitchSection,
    CollapseSection,
    ExpandSection,
}

/// What a key does in every list.
pub open spec fn list_key(key: KeyPress) -> Option<ListAction> {
    match key.code {
        KeyCode::Char(c) => if c == 'q' || (c == 'c' && key.control) {
            Some(ListAction::Quit)
        } else if c == 'j' {
            Some(ListAction::MoveDown)
        } else if c == 'k' {
            Some(ListAction::MoveUp)
        } else if c == 'd' && key.control {
            Some(ListAction::PageDown)
        } else if c == 'u' && key.control {
            Some(ListAction::PageUp)
        } else if c == 'g' {
            Some(ListAction::GoToTop)
        } else if c == 'G' {
            Some(ListAction::GoToBottom)
        } else if c == 'r' {
            Some(ListAction::Refresh)
        } else if c == '?' {
            Some(ListAction::ToggleHelp)
        } else if c == 'h' {
            Some(ListAction::CollapseSection)
        } else if c == 'l' {
            Some(ListAction::ExpandSection)
        } else {
            None
        },
        KeyCode::Esc => Some(ListAction::Quit),
        KeyCode::Down => Some(ListAction::MoveDown),
        KeyCode::Up => Some(ListAction::MoveUp),
        KeyCode::PageDown => Some(ListAction::PageDown),
        KeyCode::PageUp => Some(ListAction::PageUp),
        KeyCode::Home => Some(ListAction::GoToTop),
        KeyCode::End => Some(ListAction::GoToBottom),
        KeyCode::Tab => Some(ListAction::SwitchSection),
        _ => None,
    }
}

/// What a key does in the list of files: more than in every list.
pub open spec fn file_list_key(key: KeyPress) -> Option<ListAction> {
    if key.code == KeyCode::Char(' ') || key.code == KeyCode::Enter {
        Some(ListAction::ToggleStage)
    } else if key.code == KeyCode::Char('a') {
        Some(ListAction::StageAll)
    } else if key.code == KeyCode::Char('A') {
        Some(ListAction::UnstageAll)
    } else if key.code == KeyCode::Char('t') {
        Some(ListAction::ToggleUntracked)
    } else {
        list_key(key)
    }
}

/// What a key does in every list.
pub fn list_action_for(key: KeyPress) -> (r: Option<ListAction>)
    ensures
        r == list_key(key),
{
    match key.code {
        KeyCode::Char(c) => {
            if c == 'q' || (c == 'c' && key.control) {
                Some(ListAction::Quit)
            } else if c == 'j' {
                Some(ListAction::MoveDown)
            } else if c == 'k' {
                Some(ListAction::MoveUp)
            } else if c == 'd' && key.control {
                Some(ListAction::PageDown)
            } else if c == 'u' && key.control {
                Some(ListAction::PageUp)
            } else if c == 'g' {
                Some(ListAction::GoToTop)
            } else if c == 'G' {
                Some(ListAction::GoToBottom)
            } else if c == 'r' {
                Some(ListAction::Refresh)
            } else if c == '?' {
                Some(ListAction::ToggleHelp)
            } else if c == 'h' {
                Some(ListAction::CollapseSection)
            } else if c == 'l' {
                Some(ListAction::ExpandSection)
            } else {
                None
            }
        },
        KeyCode::Esc => Some(ListAction::Quit),
        KeyCode::Down => Some(ListAction::MoveDown),
        KeyCode::Up => Some(ListAction::MoveUp),
        KeyCode::PageDown => Some(ListAction::PageDown),
        KeyCode::PageUp => Some(ListAction::PageUp),
        KeyCode::Home => Some(ListAction::GoToTop),
        KeyCode::End => Some(ListAction::GoToBottom),
        KeyCode::Tab => Some(ListAction::SwitchSection),
        _ => None,
    }
}

/// What a key does in the list of files.
pub fn file_action_for(key: KeyPress) -> (r: Option<ListAction>)
    ensures
        r == file_list_key(key),
{
    match key.code {
        KeyCode::Enter => Some(ListAction::ToggleStage),
        KeyCode::Char(c) => {
            if c == ' ' {
                Some(ListAction::ToggleStage)
            } else if c == 'a' {
                Some(ListAction::StageAll)
            } else if c == 'A' {
                Some(ListAction::UnstageAll)
            } else if c == 't' {
                Some(ListAction::ToggleUntracked)
            } else {
                list_action_for(key)
            }
        },
        _ => list_action_for(key),
    }
}

/// The first row to show of a list, so that the selected one is shown, and no
/// empty rows at the end.
pub open spec fn list_scroll(offset: int, selected: int, height: int, count: int) -> int {
    let h = if height < 1 {
        1
    } else {
        height
    };
    let at = if selected < offset {
        selected
    } else if selected >= offset + h {
        selected - (h - 1)
    } else {
        offset
    };
    let most = if count > h {
        count - h
    } else {
        0
    };
    if at < most {
        at
    } else {
        most
    }
}

/// The first row to show of a list.
pub fn scroll_list(offset: usize, selected: usize, height: usize, count: usize) -> (r: usize)
    ensures
        r == list_scroll(offset as int, selected as int, height as int, count as int),
{
    let h: usize = if height < 1 {
        1
    } else {
        height
    };
    let at: usize = if selected < offset {
        selected
    } else if selected - offset >= h {
        selected - (h - 1)
    } else {
        offset
    };
    let most: usize = if count > h {
        count - h
    } else {
        0
    };
    if at < most {
        at
    } else {
        most
    }
}

/// The selected row of a list is always among those that are shown.
pub proof fn selected_row_is_shown(offset: int, selected: int, height: int, count: int)
    requires
        0 <= offset,
        0 <= selected < count,
        height >= 1,
    ensures
        ({
            let at = list_scroll(offset, selected, height, count);
            0 <= at <= selected < at + height
        }),
{
}

/// The last row of a list, or the first where there is none.
pub open spec fn last_row(count: int) -> int {
    if count > 0 {
        count - 1
    } else {
        0
    }
}

/// The row ten rows up.
pub open spec fn page_up_from(i: int) -> int {
    if i > 10 {
        i - 10
    } else {
        0
    }
}

/// The row ten rows down.
pub open spec fn page_down_from(i: int, count: int) -> int {
    if i + 10 < last_row(count) {
        i + 10
    } else {
        last_row(count)
    }
}

/// The row ten rows up.
pub fn page_up(i: usize) -> (r: usize)
    ensures
        r == page_up_from(i as int),
{
    if i > 10 {
        i - 10
    } else {
        0
    }
}

/// The row ten rows down.
pub fn page_down(i: usize, count: usize) -> (r: usize)
    ensures
        r == page_down_from(i as int, count as int),
{
    let last: usize = if count > 0 {
        count - 1
    } else {
        0
    };
    if i < last && last - i > 10 {
        i + 10
    } else {
        last
    }
}

} // verus!
