//! The state of the view, and what each action does to it.
use vstd::prelude::*;
use vstd::string::*;

use crate::diff_command::is_tracked_in;
use crate::helix_index::api::{
    knows, paths_where, staged_at, staged_upto, unstaged_at, unstaged_upto, HelixIndexData,
    StageError,
};
use crate::helix_index::format::{entry_views, EntryFlags, EntryView, FormatError, Header};
use crate::helix_index::reader::{find_entry_at, index_bytes, is_misfit};
use crate::ignore::{any_matches, set_globs, IgnoreRules};
use crate::keys::KeyPress;
use crate::list_actions::{
    file_action_for, file_list_key, last_row, list_scroll, page_down, page_down_from, page_up,
    page_up_from, scroll_list, ListAction,
};
use crate::order::{path_codes, path_less, sort, sorted, ByPath, Compares, Ranking};
use crate::path::{has_path, lists_path, name_of, name_spec, path_eq, same_path};
use crate::text::{push_line, str_eq, texts};

verus! {

/// The parts of the view.
#[derive(Debug, Clone, Copy, PartialEq, Eq, Structural)]
pub enum Section {
    Unstaged,
    Staged,
    Untracked,
}

/// The sections that are collapsed.
#[derive(Debug, Clone, Copy, PartialEq, Eq, Structural)]
pub struct Collapsed {
    pub unstaged: bool,
    pub staged: bool,
    pub untracked: bool,
}

/// A changed file.
#[derive(Debug, Clone, PartialEq, Eq)]
pub enum FileStatus {
    Modified(String),
    Added(String),
    Deleted(String),
    Untracked(String),
}

/// What happened to a file.
#[derive(Debug, Clone, Copy, PartialEq, Eq, Structural)]
pub enum StatusKind {
    Modified,
    Added,
    Deleted,
    Untracked,
}

/// What happened to a file, and its path.
pub type StatusRow = (StatusKind, Seq<char>);

impl View for FileStatus {
    type V = StatusRow;

    open spec fn view(&self) -> StatusRow {
        match *self {
            FileStatus::Modified(p) => (StatusKind::Modified, p@),
            FileStatus::Added(p) => (StatusKind::Added, p@),
            FileStatus::Deleted(p) => (StatusKind::Deleted, p@),
            FileStatus::Untracked(p) => (StatusKind::Untracked, p@),
        }
    }
}

pub open spec fn status_rows(v: Seq<FileStatus>) -> Seq<StatusRow> {
    Seq::new(v.len(), |i: int| v[i]@)
}

/// The letter of a status.
pub open spec fn status_letter(k: StatusKind) -> char {
    match k {
        StatusKind::Modified => 'M',
        StatusKind::Added => 'A',
        StatusKind::Deleted => 'D',
        StatusKind::Untracked => '?',
    }
}

impl FileStatus {
    /// The path of the file.
    pub fn path(&self) -> (r: &String)
        ensures
            r@ == self@.1,
    {
        match self {
            FileStatus::Modified(p) => p,
            FileStatus::Added(p) => p,
            FileStatus::Deleted(p) => p,
            FileStatus::Untracked(p) => p,
        }
    }

    /// The letter of the status.
    pub fn status_char(&self) -> (c: char)
        ensures
            c == status_letter(self@.0),
    {
        match self {
            FileStatus::Modified(_) => 'M',
            FileStatus::Added(_) => 'A',
            FileStatus::Deleted(_) => 'D',
            FileStatus::Untracked(_) => '?',
        }
    }

    /// A status of this kind.
    fn of_kind(kind: StatusKind, path: String) -> (s: FileStatus)
        ensures
            s@ == (kind, path@),
    {
        match kind {
            StatusKind::Modified => FileStatus::Modified(path),
            StatusKind::Added => FileStatus::Added(path),
            StatusKind::Deleted => FileStatus::Deleted(path),
            StatusKind::Untracked => FileStatus::Untracked(path),
        }
    }
}

impl Ranking<StatusRow> for ByPath {
    open spec fn key(t: StatusRow) -> Seq<int> {
        path_codes(t.1)
    }
}

impl Ranking<FileStatus> for ByPath {
    open spec fn key(t: FileStatus) -> Seq<int> {
        path_codes(t@.1)
    }
}

impl Compares<FileStatus> for ByPath {
    fn before(a: &FileStatus, b: &FileStatus) -> (r: bool) {
        path_less(a.path().as_str(), b.path().as_str())
    }
}

/// The status of a tracked file, by its flags: a change in the working tree comes
/// before one that is staged. A clean file has none.
pub open spec fn flag_status(f: EntryFlags) -> Option<StatusKind> {
    if !f.has(EntryFlags::TRACKED) {
        None
    } else if f.has(EntryFlags::MODIFIED) {
        Some(StatusKind::Modified)
    } else if f.has(EntryFlags::DELETED) {
        Some(StatusKind::Deleted)
    } else if f.has(EntryFlags::STAGED) {
        Some(StatusKind::Added)
    } else {
        None
    }
}

/// The status of a tracked file, by its flags.
fn status_of_flags(f: &EntryFlags) -> (r: Option<StatusKind>)
    ensures
        r == flag_status(*f),
{
    if !f.contains(EntryFlags::TRACKED) {
        None
    } else if f.contains(EntryFlags::MODIFIED) {
        Some(StatusKind::Modified)
    } else if f.contains(EntryFlags::DELETED) {
        Some(StatusKind::Deleted)
    } else if f.contains(EntryFlags::STAGED) {
        Some(StatusKind::Added)
    } else {
        None
    }
}

/// Whether a path has a row.
pub open spec fn has_row(rows: Seq<StatusRow>, path: Seq<char>) -> bool {
    exists|i: int| 0 <= i < rows.len() && same_path((#[trigger] rows[i]).1, path)
}

/// The rows, and one more for a path that has none.
pub open spec fn with_new_row(
    rows: Seq<StatusRow>,
    kind: Option<StatusKind>,
    path: Seq<char>,
) -> Seq<StatusRow> {
    match kind {
        Some(k) => if has_row(rows, path) {
            rows
        } else {
            rows.push((k, path))
        },
        None => rows,
    }
}

/// The rows of the entries of an index.
pub open spec fn entry_rows(es: Seq<EntryView>) -> Seq<StatusRow>
    decreases es.len(),
{
    if es.len() == 0 {
        Seq::empty()
    } else {
        with_new_row(
            entry_rows(es.drop_last()),
            flag_status(es.last().flags),
            es.last().path,
        )
    }
}

/// Whether a file of the working tree is listed as untracked: it is neither
/// tracked, ignored nor one of the tools' own.
pub open spec fn is_new_file(es: Seq<EntryView>, globs: Seq<Seq<char>>, path: Seq<char>) -> bool {
    &&& name_spec(path) != ".git"@
    &&& name_spec(path) != ".helix"@
    &&& !is_tracked_in(es, path)
    &&& !any_matches(globs, path)
}

/// The rows, and those of the untracked files.
pub open spec fn with_untracked(
    rows: Seq<StatusRow>,
    es: Seq<EntryView>,
    globs: Seq<Seq<char>>,
    walked: Seq<Seq<char>>,
) -> Seq<StatusRow>
    decreases walked.len(),
{
    if walked.len() == 0 {
        rows
    } else {
        let before = with_untracked(rows, es, globs, walked.drop_last());
        with_new_row(
            before,
            if is_new_file(es, globs, walked.last()) {
                Some(StatusKind::Untracked)
            } else {
                None
            },
            walked.last(),
        )
    }
}

/// The files that the view lists: those of the index that are not clean, and the
/// untracked ones where they are shown, in the order of their paths.
pub open spec fn listed_rows(
    es: Seq<EntryView>,
    globs: Seq<Seq<char>>,
    walked: Seq<Seq<char>>,
    show_untracked: bool,
) -> Seq<StatusRow> {
    let rows = entry_rows(es);
    sorted::<ByPath, StatusRow>(
        if show_untracked {
            with_untracked(rows, es, globs, walked)
        } else {
            rows
        },
    )
}

/// The paths of the entries with a flag, each once.
pub open spec fn flagged_paths(es: Seq<EntryView>, flag: u32) -> Seq<Seq<char>> {
    paths_where(es, |f: EntryFlags| f.has(flag))
}

/// Adds a row for a path that has none.
fn add_row(rows: &mut Vec<FileStatus>, kind: StatusKind, path: &String)
    ensures
        status_rows(final(rows)@) == with_new_row(status_rows(old(rows)@), Some(kind), path@),
{
    let ghost before = status_rows(rows@);
    let mut i: usize = 0;
    while i < rows.len()
        invariant
            i <= rows.len(),
            before == status_rows(rows@),
            rows@ == old(rows)@,
            forall|j: int| 0 <= j < i ==> !same_path((#[trigger] before[j]).1, path@),
        decreases rows.len() - i,
    {
        assert(before[i as int] == rows@[i as int]@);
        if path_eq(rows[i].path().as_str(), path.as_str()) {
            assert(has_row(before, path@));
            return ;
        }
        i += 1;
    }
    assert(!has_row(before, path@));
    rows.push(FileStatus::of_kind(kind, path.clone()));
    assert(status_rows(rows@) =~= before.push((kind, path@)));
}

/// The rows of the entries of an index.
fn rows_of_entries(index: &HelixIndexData) -> (r: Vec<FileStatus>)
    ensures
        status_rows(r@) == entry_rows(index.es()),
{
    let ghost es = index.es();
    let entries = &index.data.entries;
    let mut rows: Vec<FileStatus> = Vec::new();
    let mut i: usize = 0;
    assert(status_rows(rows@) =~= entry_rows(es.subrange(0, 0)));
    while i < entries.len()
        invariant
            i <= entries.len(),
            es == entry_views(entries@),
            status_rows(rows@) == entry_rows(es.subrange(0, i as int)),
        decreases entries.len() - i,
    {
        proof {
            let t = es.subrange(0, i + 1);
            assert(t.drop_last() =~= es.subrange(0, i as int));
            assert(t.last() == entries@[i as int]@);
        }
        match status_of_flags(&entries[i].flags) {
            Some(kind) => add_row(&mut rows, kind, &entries[i].path),
            None => {},
        }
        i += 1;
    }
    assert(es.subrange(0, i as int) =~= es);
    rows
}

/// Adds the rows of the untracked files.
fn add_untracked(
    rows: &mut Vec<FileStatus>,
    index: &HelixIndexData,
    rules: &IgnoreRules,
    walked: &Vec<String>,
)
    ensures
        status_rows(final(rows)@) == with_untracked(
            status_rows(old(rows)@),
            index.es(),
            set_globs(rules.globset),
            texts(walked@),
        ),
{
    let ghost start = status_rows(rows@);
    let ghost es = index.es();
    let ghost globs = set_globs(rules.globset);
    let ghost ws = texts(walked@);
    let mut i: usize = 0;
    assert(ws.subrange(0, 0) =~= Seq::empty());
    while i < walked.len()
        invariant
            i <= walked.len(),
            es == index.es(),
            globs == set_globs(rules.globset),
            ws == texts(walked@),
            status_rows(rows@) == with_untracked(start, es, globs, ws.subrange(0, i as int)),
        decreases walked.len() - i,
    {
        let path = walked[i].as_str();
        proof {
            let t = ws.subrange(0, i + 1);
            assert(t.drop_last() =~= ws.subrange(0, i as int));
            assert(t.last() == path@);
        }
        let name = name_of(path);
        if !str_eq(name.as_str(), ".git") && !str_eq(name.as_str(), ".helix") && !index.is_tracked(
            path,
        ) && !rules.should_ignore(path) {
            add_row(rows, StatusKind::Untracked, &walked[i]);
        }
        i += 1;
    }
    assert(ws.subrange(0, i as int) =~= ws);
}

/// The files that the view lists.
fn list_files(
    index: &HelixIndexData,
    rules: &IgnoreRules,
    walked: &Vec<String>,
    show_untracked: bool,
) -> (r: Vec<FileStatus>)
    ensures
        status_rows(r@) == listed_rows(
            index.es(),
            set_globs(rules.globset),
            texts(walked@),
            show_untracked,
        ),
{
    let mut rows = rows_of_entries(index);
    if show_untracked {
        add_untracked(&mut rows, index, rules, walked);
    }
    let ghost start = rows@;
    sort::<ByPath, FileStatus>(&mut rows);
    proof {
        let f = |s: FileStatus| s@;
        crate::order::lemma_sorted_mapped::<ByPath, FileStatus, ByPath, StatusRow>(start, f);
        assert(status_rows(start) =~= start.map_values(f));
        assert(status_rows(rows@) =~= rows@.map_values(f));
    }
    rows
}

/// The state of the view.
pub struct App {
    pub files: Vec<FileStatus>,
    pub selected_index: usize,
    /// The first file that is shown.
    pub scroll_offset: usize,
    pub should_quit: bool,
    pub show_untracked: bool,
    pub visible_height: usize,
    pub repo_path: String,
    pub repo_name: String,
    pub auto_refresh: bool,
    pub staged_files: Vec<String>,
    pub tracked_files: Vec<String>,
    pub show_help: bool,
    pub current_section: Section,
    pub sections_collapsed: Collapsed,
    pub current_branch: Option<String>,
    pub helix_index: HelixIndexData,
    pub ignore_rules: IgnoreRules,
}

/// What changes while the view is used.
pub struct Screen {
    pub rows: Seq<StatusRow>,
    pub selected: int,
    pub scroll_offset: int,
    pub should_quit: bool,
    pub show_untracked: bool,
    pub visible_height: int,
    pub staged: Seq<Seq<char>>,
    pub known: Seq<Seq<char>>,
    pub show_help: bool,
    pub section: Section,
    pub collapsed: Collapsed,
    pub es: Seq<EntryView>,
    pub header: Header,
}

impl View for App {
    type V = Screen;

    open spec fn view(&self) -> Screen {
        Screen {
            rows: status_rows(self.files@),
            selected: self.selected_index as int,
            scroll_offset: self.scroll_offset as int,
            should_quit: self.should_quit,
            show_untracked: self.show_untracked,
            visible_height: self.visible_height as int,
            staged: texts(self.staged_files@),
            known: texts(self.tracked_files@),
            show_help: self.show_help,
            section: self.current_section,
            collapsed: self.sections_collapsed,
            es: self.helix_index.es(),
            header: self.helix_index.data.header,
        }
    }
}

/// Whether two states are of one repository.
pub open spec fn same_repo(a: App, b: App) -> bool {
    &&& a.repo_path == b.repo_path
    &&& a.repo_name == b.repo_name
    &&& a.auto_refresh == b.auto_refresh
    &&& a.current_branch == b.current_branch
    &&& a.ignore_rules == b.ignore_rules
    &&& a.helix_index.repo_path == b.helix_index.repo_path
}

/// The view after the files have been listed anew.
pub open spec fn refreshed(s: Screen, globs: Seq<Seq<char>>, walked: Seq<Seq<char>>) -> Screen {
    Screen {
        rows: listed_rows(s.es, globs, walked, s.show_untracked),
        staged: flagged_paths(s.es, EntryFlags::STAGED),
        known: flagged_paths(s.es, EntryFlags::TRACKED),
        ..s
    }
}

/// The view with the selection inside the list.
pub open spec fn clamped(s: Screen) -> Screen {
    if s.selected >= s.rows.len() && s.rows.len() > 0 {
        Screen { selected: s.rows.len() - 1, ..s }
    } else {
        s
    }
}

/// The view with another file selected.
pub open spec fn selecting(s: Screen, i: int) -> Screen {
    Screen {
        selected: i,
        scroll_offset: list_scroll(s.scroll_offset, i, s.visible_height, s.rows.len() as int),
        ..s
    }
}

/// A list of paths without one of them.
pub open spec fn without_path(v: Seq<Seq<char>>, path: Seq<char>) -> Seq<Seq<char>>
    decreases v.len(),
{
    if v.len() == 0 {
        v
    } else if same_path(v.last(), path) {
        without_path(v.drop_last(), path)
    } else {
        without_path(v.drop_last(), path).push(v.last())
    }
}

/// A list of paths with one more.
pub open spec fn with_path(v: Seq<Seq<char>>, path: Seq<char>) -> Seq<Seq<char>> {
    if has_path(v, path) {
        v
    } else {
        v.push(path)
    }
}

/// The view after the selected file has been staged, or unstaged where it was
/// staged, if the index knows it.
pub open spec fn toggled(s: Screen) -> Screen {
    if s.selected < s.rows.len() && knows(s.es, s.rows[s.selected].1) {
        let p = s.rows[s.selected].1;
        if has_path(s.staged, p) {
            Screen { es: unstaged_at(s.es, p), staged: without_path(s.staged, p), ..s }
        } else {
            Screen { es: staged_at(s.es, p), staged: with_path(s.staged, p), ..s }
        }
    } else {
        s
    }
}

/// The paths of the rows.
pub open spec fn row_paths(rows: Seq<StatusRow>) -> Seq<Seq<char>> {
    Seq::new(rows.len(), |i: int| rows[i].1)
}

/// How many paths from the first on are known to the index.
pub open spec fn known_prefix(es: Seq<EntryView>, paths: Seq<Seq<char>>, at: int) -> int
    decreases paths.len() - at,
{
    if at < 0 || at >= paths.len() || !knows(es, paths[at]) {
        at
    } else {
        known_prefix(es, paths, at + 1)
    }
}

/// A list of paths with the first `n` of others.
pub open spec fn with_paths(v: Seq<Seq<char>>, paths: Seq<Seq<char>>, n: int) -> Seq<Seq<char>>
    decreases n,
{
    if n <= 0 {
        v
    } else {
        with_path(with_paths(v, paths, n - 1), paths[n - 1])
    }
}

/// The view after the listed files have been staged, up to the first that the
/// index does not know.
pub open spec fn staged_all(s: Screen) -> Screen {
    let paths = row_paths(s.rows);
    let n = known_prefix(s.es, paths, 0);
    Screen { es: staged_upto(s.es, paths, n), staged: with_paths(s.staged, paths, n), ..s }
}

/// The view after the staged files have been unstaged, up to the first that the
/// index does not know.
pub open spec fn unstaged_all(s: Screen) -> Screen {
    let n = known_prefix(s.es, s.staged, 0);
    Screen {
        es: unstaged_upto(s.es, s.staged, n),
        staged: if n == s.staged.len() {
            Seq::empty()
        } else {
            s.staged
        },
        ..s
    }
}

/// The view after the index has been written.
pub open spec fn persisted(s: Screen) -> Screen {
    Screen {
        header: Header {
            generation: (s.header.generation + 1) as u64,
            entry_count: (s.es.len() % 0x1_0000_0000) as u32,
            ..s.header
        },
        ..s
    }
}

/// Why an action fails.
#[derive(Debug)]
pub enum StatusError {
    Stage(StageError),
    /// The index cannot be written.
    Index(FormatError),
}

/// What an action leaves to do.
#[derive(Debug)]
pub enum Effect {
    Nothing,
    /// These bytes are the index file now.
    Write(Vec<u8>),
    /// The files are to be listed anew, and the selection kept inside the list if
    /// so.
    Refresh(bool),
}

/// Whether the index was written after a change of it: the bytes are those of the
/// index, unless a path does not fit.
pub open spec fn writes_index(s: Screen, t: Screen, r: Result<Effect, StatusError>) -> bool {
    &&& t == persisted(s)
    &&& match r {
        Ok(e) => e matches Effect::Write(b) && b@ == index_bytes(t.header, t.es),
        Err(e) => e matches StatusError::Index(f) && is_misfit(t.es, f),
    }
}

/// What an action does to the view, except where it changes the index.
pub open spec fn acted(s: Screen, action: ListAction) -> Screen {
    match action {
        ListAction::Quit => Screen { should_quit: true, ..s },
        ListAction::ToggleHelp => Screen { show_help: !s.show_help, ..s },
        ListAction::SwitchSection => Screen {
            section: match s.section {
                Section::Unstaged => Section::Staged,
                Section::Staged => Section::Unstaged,
                Section::Untracked => Section::Staged,
            },
            selected: 0,
            scroll_offset: 0,
            ..s
        },
        ListAction::Refresh => s,
        _ => if s.rows.len() == 0 {
            s
        } else {
            match action {
                ListAction::MoveUp => if s.selected > 0 {
                    selecting(s, s.selected - 1)
                } else {
                    s
                },
                ListAction::MoveDown => if s.selected < s.rows.len() - 1 {
                    selecting(s, s.selected + 1)
                } else {
                    s
                },
                ListAction::PageUp => selecting(s, page_up_from(s.selected)),
                ListAction::PageDown => selecting(
                    s,
                    page_down_from(s.selected, s.rows.len() as int),
                ),
                ListAction::GoToTop => Screen { selected: 0, scroll_offset: 0, ..s },
                ListAction::GoToBottom => selecting(s, last_row(s.rows.len() as int)),
                ListAction::ToggleUntracked => Screen { show_untracked: !s.show_untracked, ..s },
                ListAction::CollapseSection => Screen {
                    collapsed: with_collapsed(s.collapsed, s.section, true),
                    ..s
                },
                ListAction::ExpandSection => Screen {
                    collapsed: with_collapsed(s.collapsed, s.section, false),
                    ..s
                },
                _ => s,
            }
        },
    }
}

/// The sections that are collapsed, after one has been collapsed or expanded.
pub open spec fn with_collapsed(c: Collapsed, section: Section, now: bool) -> Collapsed {
    match section {
        Section::Unstaged => Collapsed { unstaged: now, ..c },
        Section::Staged => Collapsed { staged: now, ..c },
        Section::Untracked => Collapsed { untracked: now, ..c },
    }
}

/// Whether an error says that this path cannot be staged.
pub open spec fn refuses_staging(r: Result<Effect, StatusError>, path: Seq<char>) -> bool {
    r matches Err(StatusError::Stage(StageError::CannotStage(p))) && p@ == path
}

/// Whether an error says that this path cannot be unstaged.
pub open spec fn refuses_unstaging(r: Result<Effect, StatusError>, path: Seq<char>) -> bool {
    r matches Err(StatusError::Stage(StageError::CannotUnstage(p))) && p@ == path
}

/// Whether toggling the selected file writes the index: there is one, and the index knows
/// it.
pub open spec fn toggle_writes(s: Screen) -> bool {
    s.selected < s.rows.len() && knows(s.es, s.rows[s.selected].1)
}

/// Whether staging the listed files writes the index: it knows them all.
pub open spec fn staging_writes(s: Screen) -> bool {
    known_prefix(s.es, row_paths(s.rows), 0) == s.rows.len()
}

/// Whether unstaging the staged files writes the index: it knows them all.
pub open spec fn unstaging_writes(s: Screen) -> bool {
    known_prefix(s.es, s.staged, 0) == s.staged.len()
}

/// Whether an action writes the index.
pub open spec fn action_writes(s: Screen, action: ListAction) -> bool {
    s.rows.len() > 0 && match action {
        ListAction::ToggleStage => toggle_writes(s),
        ListAction::StageAll => staging_writes(s),
        ListAction::UnstageAll => unstaging_writes(s),
        _ => false,
    }
}

/// Whether the selected file was staged, or unstaged where it was staged, and the
/// index written. A file that the index does not know is refused.
pub open spec fn is_toggled(s: Screen, t: Screen, r: Result<Effect, StatusError>) -> bool {
    if s.selected >= s.rows.len() {
        t == s && r matches Ok(Effect::Nothing)
    } else {
        let p = s.rows[s.selected].1;
        if knows(s.es, p) {
            writes_index(toggled(s), t, r)
        } else if has_path(s.staged, p) {
            t == s && refuses_unstaging(r, p)
        } else {
            t == s && refuses_staging(r, p)
        }
    }
}

/// Whether the listed files were staged and the index written. The first that the
/// index does not know is refused.
pub open spec fn are_staged(s: Screen, t: Screen, r: Result<Effect, StatusError>) -> bool {
    let n = known_prefix(s.es, row_paths(s.rows), 0);
    if n == s.rows.len() {
        writes_index(staged_all(s), t, r)
    } else {
        t == staged_all(s) && refuses_staging(r, row_paths(s.rows)[n])
    }
}

/// Whether the staged files were unstaged and the index written. The first that the
/// index does not know is refused.
pub open spec fn are_unstaged(s: Screen, t: Screen, r: Result<Effect, StatusError>) -> bool {
    let n = known_prefix(s.es, s.staged, 0);
    if n == s.staged.len() {
        writes_index(unstaged_all(s), t, r)
    } else {
        t == unstaged_all(s) && refuses_unstaging(r, s.staged[n])
    }
}

/// Whether an action leads from one view to the other. The index is written after
/// it has changed; where staging fails, it is not.
pub open spec fn is_acted(
    s: Screen,
    t: Screen,
    action: ListAction,
    r: Result<Effect, StatusError>,
) -> bool {
    if s.rows.len() == 0 || !(action == ListAction::ToggleStage || action == ListAction::StageAll
        || action == ListAction::UnstageAll) {
        &&& t == acted(s, action)
        &&& r matches Ok(e)
        &&& if action == ListAction::Refresh {
            e == Effect::Refresh(true)
        } else if action == ListAction::ToggleUntracked && s.rows.len() > 0 {
            e == Effect::Refresh(false)
        } else {
            e is Nothing
        }
    } else if action == ListAction::ToggleStage {
        is_toggled(s, t, r)
    } else if action == ListAction::StageAll {
        are_staged(s, t, r)
    } else {
        are_unstaged(s, t, r)
    }
}

impl App {
    /// Opens the view: the files are listed, and the first is selected. `walked`
    /// holds the paths of the files in the working tree.
    pub fn new(
        repo_path: &str,
        current_branch: Option<String>,
        helix_index: HelixIndexData,
        ignore_rules: IgnoreRules,
        walked: &Vec<String>,
    ) -> (r: App)
        ensures
            r.repo_path@ == repo_path@,
            r.repo_name@ == (if name_spec(repo_path@).len() == 0 {
                "repository"@
            } else {
                name_spec(repo_path@)
            }),
            r.current_branch == current_branch,
            r.ignore_rules == ignore_rules,
            r.auto_refresh,
            r.helix_index == helix_index,
            r@ == refreshed(
                Screen {
                    rows: Seq::empty(),
                    selected: 0,
                    scroll_offset: 0,
                    should_quit: false,
                    show_untracked: true,
                    visible_height: 20,
                    staged: Seq::empty(),
                    known: Seq::empty(),
                    show_help: false,
                    section: Section::Unstaged,
                    collapsed: Collapsed { unstaged: false, staged: false, untracked: false },
                    es: helix_index.es(),
                    header: helix_index.data.header,
                },
                set_globs(ignore_rules.globset),
                texts(walked@),
            ),
    {
        let mut name = name_of(repo_path);
        if name.as_str().is_empty() {
            name = "repository".to_owned();
        }
        let files = list_files(&helix_index, &ignore_rules, walked, true);
        let staged = helix_index.get_staged();
        let known = helix_index.get_tracked();
        App {
            files,
            selected_index: 0,
            scroll_offset: 0,
            should_quit: false,
            show_untracked: true,
            visible_height: 20,
            repo_path: repo_path.to_owned(),
            repo_name: name,
            auto_refresh: true,
            staged_files: staged,
            tracked_files: known,
            show_help: false,
            current_section: Section::Unstaged,
            sections_collapsed: Collapsed { unstaged: false, staged: false, untracked: false },
            current_branch,
            helix_index,
            ignore_rules,
        }
    }

    /// Fits the view to the terminal: six rows are taken by other things.
    pub fn update_visible_height(&mut self, terminal_height: u16)
        ensures
            same_repo(*old(self), *final(self)),
            final(self)@ == (Screen {
                visible_height: if terminal_height > 6 {
                    terminal_height - 6
                } else {
                    0
                },
                ..old(self)@
            }),
    {
        self.visible_height = if terminal_height > 6 {
            (terminal_height - 6) as usize
        } else {
            0
        };
    }

    /// Lists the files anew.
    pub fn refresh_status(&mut self, walked: &Vec<String>)
        ensures
            same_repo(*old(self), *final(self)),
            final(self)@ == refreshed(
                old(self)@,
                set_globs(old(self).ignore_rules.globset),
                texts(walked@),
            ),
    {
        self.files = list_files(
            &self.helix_index,
            &self.ignore_rules,
            walked,
            self.show_untracked,
        );
        self.staged_files = self.helix_index.get_staged();
        self.tracked_files = self.helix_index.get_tracked();
    }

    /// Keeps the selection inside the list.
    pub fn clamp_selection(&mut self)
        ensures
            same_repo(*old(self), *final(self)),
            final(self)@ == clamped(old(self)@),
    {
        let len: usize = self.files.len();
        if self.selected_index >= len && len > 0 {
            self.selected_index = len - 1;
        }
    }

    /// The selected file.
    pub fn get_selected_file(&self) -> (r: Option<&FileStatus>)
        ensures
            match r {
                Some(f) => self@.selected < self@.rows.len() && f@ == self@.rows[self@.selected],
                None => self@.selected >= self@.rows.len(),
            },
    {
        if self.selected_index < self.files.len() {
            Some(&self.files[self.selected_index])
        } else {
            None
        }
    }

    /// Shows the selected file.
    fn adjust_scroll(&mut self)
        ensures
            same_repo(*old(self), *final(self)),
            final(self)@ == selecting(old(self)@, old(self)@.selected),
    {
        self.scroll_offset = scroll_list(
            self.scroll_offset,
            self.selected_index,
            self.visible_height,
            self.files.len(),
        );
    }

    /// Selects a file.
    fn select(&mut self, i: usize)
        ensures
            same_repo(*old(self), *final(self)),
            final(self)@ == selecting(old(self)@, i as int),
    {
        self.selected_index = i;
        self.adjust_scroll();
    }

    /// Takes a path out of the staged ones.
    fn forget_staged(&mut self, path: &str)
        ensures
            same_repo(*old(self), *final(self)),
            final(self)@ == (Screen {
                staged: without_path(old(self)@.staged, path@),
                ..old(self)@
            }),
    {
        let ghost v = texts(self.staged_files@);
        let mut rest: Vec<String> = Vec::new();
        let mut i: usize = 0;
        assert(texts(rest@) =~= without_path(v.subrange(0, 0), path@));
        while i < self.staged_files.len()
            invariant
                i <= self.staged_files.len(),
                v == texts(self.staged_files@),
                *self == *old(self),
                texts(rest@) == without_path(v.subrange(0, i as int), path@),
            decreases self.staged_files.len() - i,
        {
            proof {
                let t = v.subrange(0, i + 1);
                assert(t.drop_last() =~= v.subrange(0, i as int));
                assert(t.last() == self.staged_files@[i as int]@);
            }
            if !path_eq(self.staged_files[i].as_str(), path) {
                push_line(&mut rest, self.staged_files[i].clone());
            }
            i += 1;
        }
        assert(v.subrange(0, i as int) =~= v);
        self.staged_files = rest;
    }

    /// Adds a path to the staged ones.
    fn remember_staged(&mut self, path: &String)
        ensures
            same_repo(*old(self), *final(self)),
            final(self)@ == (Screen {
                staged: with_path(old(self)@.staged, path@),
                ..old(self)@
            }),
    {
        if !lists_path(&self.staged_files, path.as_str()) {
            push_line(&mut self.staged_files, path.clone());
        }
    }

    /// Gives the bytes of the index file.
    fn persist(&mut self) -> (r: Result<Effect, StatusError>)
        requires
            old(self)@.header.generation < u64::MAX,
        ensures
            same_repo(*old(self), *final(self)),
            writes_index(old(self)@, final(self)@, r),
    {
        let written = self.helix_index.persist();
        assert(self@.es == old(self)@.es);
        assert(self@.es.len() == self.helix_index.data.entries@.len());
        assert(self@ == persisted(old(self)@));
        match written {
            Ok(b) => Ok(Effect::Write(b)),
            Err(e) => Err(StatusError::Index(e)),
        }
    }

    /// Stages the selected file, or unstages it where it was staged.
    pub fn toggle_stage(&mut self) -> (r: Result<Effect, StatusError>)
        requires
            toggle_writes(old(self)@) ==> old(self)@.header.generation < u64::MAX,
        ensures
            same_repo(*old(self), *final(self)),
            is_toggled(old(self)@, final(self)@, r),
    {
        let ghost s = self@;
        let path = match self.get_selected_file() {
            Some(f) => f.path().clone(),
            None => return Ok(Effect::Nothing),
        };
        if lists_path(&self.staged_files, path.as_str()) {
            match self.helix_index.unstage_file(path.as_str()) {
                Ok(_) => {},
                Err(e) => return Err(StatusError::Stage(e)),
            }
            self.forget_staged(path.as_str());
        } else {
            match self.helix_index.stage_file(path.as_str()) {
                Ok(_) => {},
                Err(e) => return Err(StatusError::Stage(e)),
            }
            self.remember_staged(&path);
        }
        assert(self@ == toggled(s));
        self.persist()
    }

    /// Stages the listed files.
    pub fn stage_all(&mut self) -> (r: Result<Effect, StatusError>)
        requires
            staging_writes(old(self)@) ==> old(self)@.header.generation < u64::MAX,
        ensures
            same_repo(*old(self), *final(self)),
            are_staged(old(self)@, final(self)@, r),
    {
        let ghost s = self@;
        let ghost paths = row_paths(s.rows);
        let ghost n = known_prefix(s.es, paths, 0);
        let mut i: usize = 0;
        while i < self.files.len()
            invariant
                i <= self.files.len(),
                same_repo(*old(self), *self),
                s == old(self)@,
                paths == row_paths(s.rows),
                n == known_prefix(s.es, paths, 0),
                n == known_prefix(s.es, paths, i as int),
                self@ == (Screen {
                    es: staged_upto(s.es, paths, i as int),
                    staged: with_paths(s.staged, paths, i as int),
                    ..s
                }),
                forall|p: Seq<char>| #[trigger] knows(self@.es, p) == knows(s.es, p),
            decreases self.files.len() - i,
        {
            let path = self.files[i].path().clone();
            assert(paths[i as int] == path@) by {
                assert(s.rows[i as int] == self.files@[i as int]@);
            }
            let ghost before = self@.es;
            assert(knows(before, path@) == knows(s.es, path@));
            match self.helix_index.stage_file(path.as_str()) {
                Ok(_) => {},
                Err(e) => {
                    return Err(StatusError::Stage(e));
                },
            }
            proof {
                crate::helix_index::api::lemma_staging_keeps_known(before, path@);
            }
            self.remember_staged(&path);
            i += 1;
        }
        assert(n == i);
        self.persist()
    }

    /// Unstages the staged files.
    pub fn unstage_all(&mut self) -> (r: Result<Effect, StatusError>)
        requires
            unstaging_writes(old(self)@) ==> old(self)@.header.generation < u64::MAX,
        ensures
            same_repo(*old(self), *final(self)),
            are_unstaged(old(self)@, final(self)@, r),
    {
        let ghost s = self@;
        let ghost paths = s.staged;
        let ghost n = known_prefix(s.es, paths, 0);
        let mut i: usize = 0;
        while i < self.staged_files.len()
            invariant
                i <= self.staged_files.len(),
                same_repo(*old(self), *self),
                s == old(self)@,
                paths == s.staged,
                n == known_prefix(s.es, paths, 0),
                n == known_prefix(s.es, paths, i as int),
                self@ == (Screen { es: unstaged_upto(s.es, paths, i as int), ..s }),
                forall|p: Seq<char>| #[trigger] knows(self@.es, p) == knows(s.es, p),
            decreases self.staged_files.len() - i,
        {
            let path = self.staged_files[i].clone();
            assert(paths[i as int] == path@) by {
                assert(texts(self.staged_files@)[i as int] == path@);
            }
            let ghost before = self@.es;
            assert(knows(before, path@) == knows(s.es, path@));
            match self.helix_index.unstage_file(path.as_str()) {
                Ok(_) => {},
                Err(e) => {
                    assert(n == i && i < s.staged.len());
                    return Err(StatusError::Stage(e));
                },
            }
            proof {
                crate::helix_index::api::lemma_unstaging_keeps_known(before, path@);
            }
            i += 1;
        }
        assert(n == i);
        self.staged_files = Vec::new();
        assert(self@.staged =~= Seq::empty());
        self.persist()
    }

    /// Collapses or expands the current section.
    fn set_collapsed(&mut self, now: bool)
        ensures
            same_repo(*old(self), *final(self)),
            final(self)@ == (Screen {
                collapsed: with_collapsed(old(self)@.collapsed, old(self)@.section, now),
                ..old(self)@
            }),
    {
        match self.current_section {
            Section::Unstaged => {
                self.sections_collapsed.unstaged = now;
            },
            Section::Staged => {
                self.sections_collapsed.staged = now;
            },
            Section::Untracked => {
                self.sections_collapsed.untracked = now;
            },
        }
    }

    /// Moves the selection, where there are files.
    fn move_selection(&mut self, action: ListAction)
        requires
            old(self)@.rows.len() > 0,
            action == ListAction::MoveUp || action == ListAction::MoveDown || action
                == ListAction::PageUp || action == ListAction::PageDown || action
                == ListAction::GoToTop || action == ListAction::GoToBottom,
        ensures
            same_repo(*old(self), *final(self)),
            final(self)@ == acted(old(self)@, action),
    {
        let count: usize = self.files.len();
        let i: usize = self.selected_index;
        match action {
            ListAction::MoveUp => {
                if i > 0 {
                    self.select(i - 1);
                }
            },
            ListAction::MoveDown => {
                if i < count - 1 {
                    self.select(i + 1);
                }
            },
            ListAction::PageUp => self.select(page_up(i)),
            ListAction::PageDown => self.select(page_down(i, count)),
            ListAction::GoToTop => {
                self.selected_index = 0;
                self.scroll_offset = 0;
            },
            _ => self.select(count - 1),
        }
    }

    /// Carries out an action. Where no files are listed, only those do something
    /// that need none.
    pub fn handle_action(&mut self, action: ListAction) -> (r: Result<Effect, StatusError>)
        requires
            action_writes(old(self)@, action) ==> old(self)@.header.generation < u64::MAX,
        ensures
            same_repo(*old(self), *final(self)),
            is_acted(old(self)@, final(self)@, action, r),
    {
        match action {
            ListAction::Quit => {
                self.should_quit = true;
                return Ok(Effect::Nothing);
            },
            ListAction::ToggleHelp => {
                self.show_help = !self.show_help;
                return Ok(Effect::Nothing);
            },
            ListAction::SwitchSection => {
                self.current_section = match self.current_section {
                    Section::Unstaged => Section::Staged,
                    Section::Staged => Section::Unstaged,
                    Section::Untracked => Section::Staged,
                };
                self.selected_index = 0;
                self.scroll_offset = 0;
                return Ok(Effect::Nothing);
            },
            ListAction::Refresh => {
                return Ok(Effect::Refresh(true));
            },
            _ => {},
        }
        if self.files.len() == 0 {
            return Ok(Effect::Nothing);
        }
        match action {
            ListAction::ToggleStage => self.toggle_stage(),
            ListAction::StageAll => self.stage_all(),
            ListAction::UnstageAll => self.unstage_all(),
            ListAction::ToggleUntracked => {
                self.show_untracked = !self.show_untracked;
                Ok(Effect::Refresh(false))
            },
            ListAction::CollapseSection => {
                self.set_collapsed(true);
                Ok(Effect::Nothing)
            },
            ListAction::ExpandSection => {
                self.set_collapsed(false);
                Ok(Effect::Nothing)
            },
            _ => {
                self.move_selection(action);
                Ok(Effect::Nothing)
            },
        }
    }

    /// Whether the index knows all of the paths.
    fn knows_all(&self, paths: &Vec<String>) -> (r: bool)
        ensures
            r == (known_prefix(self@.es, texts(paths@), 0) == paths@.len()),
    {
        let ghost ps = texts(paths@);
        let mut i: usize = 0;
        while i < paths.len()
            invariant
                i <= paths.len(),
                ps == texts(paths@),
                known_prefix(self@.es, ps, 0) == known_prefix(self@.es, ps, i as int),
            decreases paths.len() - i,
        {
            assert(ps[i as int] == paths@[i as int]@);
            if find_entry_at(&self.helix_index.data.entries, paths[i].as_str()).is_none() {
                return false;
            }
            i += 1;
        }
        true
    }

    /// Whether a key leads to an action that writes the index.
    pub fn key_writes(&self, key: KeyPress) -> (r: bool)
        ensures
            r == (file_list_key(key) matches Some(a) && action_writes(self@, a)),
    {
        let action = match file_action_for(key) {
            Some(a) => a,
            None => return false,
        };
        if self.files.len() == 0 {
            return false;
        }
        match action {
            ListAction::ToggleStage => match self.get_selected_file() {
                Some(f) => find_entry_at(
                    &self.helix_index.data.entries,
                    f.path().as_str(),
                ).is_some(),
                None => false,
            },
            ListAction::StageAll => {
                let mut paths: Vec<String> = Vec::new();
                let ghost all = row_paths(self@.rows);
                let mut i: usize = 0;
                assert(texts(paths@) =~= all.subrange(0, 0));
                while i < self.files.len()
                    invariant
                        i <= self.files.len(),
                        all == row_paths(self@.rows),
                        texts(paths@) == all.subrange(0, i as int),
                    decreases self.files.len() - i,
                {
                    let ghost before = texts(paths@);
                    let path = self.files[i].path().clone();
                    assert(all[i as int] == path@) by {
                        assert(self@.rows[i as int] == self.files@[i as int]@);
                    }
                    paths.push(path);
                    assert(texts(paths@) =~= before.push(all[i as int]));
                    assert(texts(paths@) =~= all.subrange(0, i + 1));
                    i += 1;
                }
                assert(all.subrange(0, i as int) =~= all);
                assert(texts(paths@).len() == paths@.len());
                self.knows_all(&paths)
            },
            ListAction::UnstageAll => self.knows_all(&self.staged_files),
            _ => false,
        }
    }

    /// Whether the files are to be listed anew, after so many seconds since they last were.
    pub fn refresh_due(&self, seconds: u64) -> (r: bool)
        ensures
            r == (self.auto_refresh && seconds >= 2),
    {
        self.auto_refresh && seconds >= 2
    }

    /// Takes a key.
    pub fn handle_key(&mut self, key: KeyPress) -> (r: Result<Effect, StatusError>)
        requires
            file_list_key(key) matches Some(a) && action_writes(old(self)@, a) ==> old(
                self,
            )@.header.generation < u64::MAX,
        ensures
            same_repo(*old(self), *final(self)),
            match file_list_key(key) {
                Some(a) => is_acted(old(self)@, final(self)@, a, r),
                None => final(self)@ == old(self)@ && r matches Ok(Effect::Nothing),
            },
    {
        match file_action_for(key) {
            Some(a) => self.handle_action(a),
            None => Ok(Effect::Nothing),
        }
    }
}

/// After a file was staged and then unstaged, the files that were staged before are
/// the staged ones.
pub proof fn toggling_twice(s: Screen)
    requires
        s.selected < s.rows.len(),
        knows(s.es, s.rows[s.selected].1),
        !has_path(s.staged, s.rows[s.selected].1),
    ensures
        toggled(toggled(s)).staged == s.staged,
        has_path(toggled(s).staged, s.rows[s.selected].1),
{
    let p = s.rows[s.selected].1;
    let v = s.staged.push(p);
    assert(same_path(v[s.staged.len() as int], p));
    crate::helix_index::api::lemma_staging_keeps_known(s.es, p);
    assert(v.drop_last() =~= s.staged);
    lemma_without_absent(s.staged, p);
}

proof fn lemma_without_absent(v: Seq<Seq<char>>, p: Seq<char>)
    requires
        !has_path(v, p),
    ensures
        without_path(v, p) == v,
    decreases v.len(),
{
    if v.len() > 0 {
        let d = v.drop_last();
        assert(!same_path(v[v.len() - 1], p));
        assert forall|i: int| 0 <= i < d.len() implies !same_path(#[trigger] d[i], p) by {
            assert(!same_path(v[i], p));
        }
        lemma_without_absent(d, p);
        assert(d.push(v.last()) =~= v);
    }
}

/// Every file that the index tracks and that is not clean is listed.
pub proof fn changed_files_are_listed(es: Seq<EntryView>, i: int)
    requires
        0 <= i < es.len(),
        flag_status(es[i].flags) is Some,
    ensures
        has_row(entry_rows(es), es[i].path),
    decreases es.len(),
{
    let d = es.drop_last();
    let before = entry_rows(d);
    if i < d.len() {
        changed_files_are_listed(d, i);
        let k = choose|k: int|
            0 <= k < before.len() && same_path((#[trigger] before[k]).1, es[i].path);
        assert(same_path(entry_rows(es)[k].1, es[i].path));
    } else if !has_row(before, es[i].path) {
        assert(same_path(entry_rows(es)[before.len() as int].1, es[i].path));
    }
}

} // verus!
