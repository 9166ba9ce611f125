//! The state of the view, and what each action does to it.
use vstd::prelude::*;
use vstd::string::*;

use crate::add_command::WorkFile;
use crate::keys::KeyPress;
use crate::list_actions::{
    last_row, list_action_for, list_key, list_scroll, page_down, page_down_from, page_up,
    page_up_from, scroll_list, ListAction,
};
use crate::object_store::{ObjectStore, Objects};
use crate::order::{sort, sorted, Compares, Ranking};
use crate::path::{name_of, name_spec};
use crate::sandbox_command::{
    are_changes, base_ends, base_files, change_letter, change_views, get_sandbox_changes, Sandbox,
    SandboxChange, SandboxChangeKind, SandboxError, SandboxFault, SandboxManifest,
};
use crate::sandbox_tui::ui::{
    age_of, age_text, changes_summary, format_age, get_sandbox_status_summary, short_base,
    shorten_base, status_summary, summarize,
};
use crate::text::{concat, decimal, decimal_of, push_line, texts};

verus! {

/// Which list the keys act on.
#[derive(Debug, Clone, Copy, PartialEq, Eq, Structural)]
pub enum Section {
    Sandboxes,
    Changes,
}

/// The sections that are collapsed.
#[derive(Debug, Clone, Copy, PartialEq, Eq, Structural)]
pub struct Collapsed {
    pub sandboxes: bool,
    pub changes: bool,
}

/// A sandbox and its changes.
#[derive(Debug, Clone, PartialEq, Eq)]
pub struct SandboxInfo {
    pub manifest: SandboxManifest,
    pub root: String,
    pub workdir: String,
    pub changes: Vec<SandboxChange>,
}

impl SandboxInfo {
    /// How many files were added, modified and deleted, in few letters.
    pub fn change_summary(&self) -> (r: String)
        ensures
            r@ == changes_summary(change_views(self.changes@)),
    {
        summarize(&self.changes)
    }
}

/// A sandbox and the files of its working directory.
#[derive(Debug)]
pub struct SandboxFiles {
    pub sandbox: Sandbox,
    pub files: Vec<WorkFile>,
}

/// The newest first.
pub struct NewestFirst;

impl Ranking<SandboxInfo> for NewestFirst {
    open spec fn key(t: SandboxInfo) -> Seq<int> {
        seq![u64::MAX - t.manifest.created_at]
    }
}

impl Compares<SandboxInfo> for NewestFirst {
    fn before(a: &SandboxInfo, b: &SandboxInfo) -> (r: bool) {
        proof {
            let x = <NewestFirst as Ranking<SandboxInfo>>::key(*a);
            let y = <NewestFirst as Ranking<SandboxInfo>>::key(*b);
            assert(!crate::order::lex_less(
                x.subrange(1, x.len() as int),
                y.subrange(1, y.len() as int),
            ));
        }
        a.manifest.created_at > b.manifest.created_at
    }
}

/// Whether this is what is shown of a sandbox. Where its changes cannot be told,
/// none are shown.
pub open spec fn is_info_of(m: Objects, s: SandboxFiles, i: SandboxInfo) -> bool {
    &&& i.manifest == s.sandbox.manifest
    &&& i.root == s.sandbox.root
    &&& i.workdir == s.sandbox.workdir
    &&& match base_files(m, s.sandbox.manifest) {
        Ok(b) => are_changes(b, s.files@, change_views(i.changes@)),
        Err(_) => i.changes@.len() == 0,
    }
}

/// Whether this is the list of the sandboxes: each with its changes, the newest
/// first.
pub open spec fn is_sandbox_list(
    m: Objects,
    found: Seq<SandboxFiles>,
    shown: Seq<SandboxInfo>,
) -> bool {
    exists|infos: Seq<SandboxInfo>| #[trigger]
        are_infos(m, found, infos) && shown == sorted::<NewestFirst, SandboxInfo>(infos)
}

/// Whether these are what is shown of the sandboxes, one by one.
pub open spec fn are_infos(m: Objects, found: Seq<SandboxFiles>, infos: Seq<SandboxInfo>) -> bool {
    &&& infos.len() == found.len()
    &&& forall|i: int| 0 <= i < found.len() ==> is_info_of(m, found[i], #[trigger] infos[i])
}

/// The list of the sandboxes: each with its changes, the newest first.
fn describe_sandboxes(store: &ObjectStore, found: Vec<SandboxFiles>) -> (r: Vec<SandboxInfo>)
    requires
        store.wf(),
        forall|i: int|
            0 <= i < found@.len() ==> base_ends(
                store@,
                (#[trigger] found@[i]).sandbox.manifest,
            ),
    ensures
        is_sandbox_list(store@, found@, r@),
        r@.len() == found@.len(),
{
    let ghost all = found@;
    let mut infos: Vec<SandboxInfo> = Vec::new();
    for s in it: found
        invariant
            store.wf(),
            it.seq() == all,
            forall|i: int|
                0 <= i < all.len() ==> base_ends(store@, (#[trigger] all[i]).sandbox.manifest),
            infos@.len() == it.index(),
            forall|i: int|
                0 <= i < it.index() ==> is_info_of(store@, all[i], #[trigger] infos@[i]),
    {
        assert(s == all[it.index() as int]);
        let changes = match get_sandbox_changes(store, &s.sandbox.manifest, &s.files) {
            Ok(v) => v,
            Err(_) => Vec::new(),
        };
        infos.push(
            SandboxInfo {
                manifest: s.sandbox.manifest,
                root: s.sandbox.root,
                workdir: s.sandbox.workdir,
                changes,
            },
        );
    }
    proof {
        assert(are_infos(store@, all, infos@));
        crate::order::lemma_sorted_in_order::<NewestFirst, SandboxInfo>(infos@);
    }
    sort::<NewestFirst, SandboxInfo>(&mut infos);
    infos
}

/// The state of the view.
#[derive(Debug)]
pub struct App {
    pub sandboxes: Vec<SandboxInfo>,
    pub selected_sandbox_index: usize,
    pub selected_change_index: usize,
    /// The first row that is shown.
    pub scroll_offset: usize,
    pub should_quit: bool,
    pub visible_height: usize,
    pub repo_path: String,
    pub repo_name: String,
    pub show_help: bool,
    pub current_section: Section,
    pub sections_collapsed: Collapsed,
}

/// What changes while the view is used. Of the sandboxes it holds how many changes
/// each has.
pub struct Screen {
    pub counts: Seq<nat>,
    pub sandbox: int,
    pub change: int,
    pub scroll_offset: int,
    pub should_quit: bool,
    pub visible_height: int,
    pub show_help: bool,
    pub section: Section,
    pub collapsed: Collapsed,
}

pub open spec fn change_counts(v: Seq<SandboxInfo>) -> Seq<nat> {
    Seq::new(v.len(), |i: int| v[i].changes@.len())
}

impl View for App {
    type V = Screen;

    open spec fn view(&self) -> Screen {
        Screen {
            counts: change_counts(self.sandboxes@),
            sandbox: self.selected_sandbox_index as int,
            change: self.selected_change_index as int,
            scroll_offset: self.scroll_offset as int,
            should_quit: self.should_quit,
            visible_height: self.visible_height as int,
            show_help: self.show_help,
            section: self.current_section,
            collapsed: self.sections_collapsed,
        }
    }
}

/// Whether two states show the same sandboxes of one repository.
pub open spec fn same_sandboxes(a: App, b: App) -> bool {
    &&& a.sandboxes == b.sandboxes
    &&& a.repo_path == b.repo_path
    &&& a.repo_name == b.repo_name
}

/// How many changes the selected sandbox has.
pub open spec fn shown_changes(s: Screen) -> int {
    if s.sandbox < s.counts.len() {
        s.counts[s.sandbox] as int
    } else {
        0
    }
}

/// How many rows the current list has.
pub open spec fn row_count(s: Screen) -> int {
    match s.section {
        Section::Sandboxes => s.counts.len() as int,
        Section::Changes => shown_changes(s),
    }
}

/// The selected row of the current list.
pub open spec fn selected_row(s: Screen) -> int {
    match s.section {
        Section::Sandboxes => s.sandbox,
        Section::Changes => s.change,
    }
}

/// The view with the selected row shown.
pub open spec fn with_scroll(s: Screen) -> Screen {
    Screen {
        scroll_offset: list_scroll(
            s.scroll_offset,
            selected_row(s),
            s.visible_height,
            row_count(s),
        ),
        ..s
    }
}

/// The view with another row of the current list selected.
pub open spec fn with_row(s: Screen, i: int) -> Screen {
    match s.section {
        Section::Sandboxes => Screen { sandbox: i, ..s },
        Section::Changes => Screen { change: i, ..s },
    }
}

/// The view with the row above or below selected. Another sandbox is shown from
/// its first change on.
pub open spec fn stepped(s: Screen, i: int) -> Screen {
    match s.section {
        Section::Sandboxes => Screen { sandbox: i, change: 0, ..s },
        Section::Changes => Screen { change: i, ..s },
    }
}

/// What an action does to the view.
pub open spec fn acted(s: Screen, action: ListAction) -> Screen {
    let i = selected_row(s);
    let has_list = s.section == Section::Sandboxes || s.sandbox < s.counts.len();
    match action {
        ListAction::Quit => Screen { should_quit: true, ..s },
        ListAction::MoveUp => with_scroll(
            if i > 0 {
                stepped(s, i - 1)
            } else {
                s
            },
        ),
        ListAction::MoveDown => with_scroll(
            if i < row_count(s) - 1 {
                stepped(s, i + 1)
            } else {
                s
            },
        ),
        ListAction::PageUp => with_scroll(with_row(s, page_up_from(i))),
        ListAction::PageDown => with_scroll(
            if has_list {
                with_row(s, page_down_from(i, row_count(s)))
            } else {
                s
            },
        ),
        ListAction::GoToTop => Screen { scroll_offset: 0, ..with_row(s, 0) },
        ListAction::GoToBottom => with_scroll(
            if has_list {
                with_row(s, last_row(row_count(s)))
            } else {
                s
            },
        ),
        ListAction::ToggleHelp => Screen { show_help: !s.show_help, ..s },
        ListAction::SwitchSection => Screen {
            section: match s.section {
                Section::Sandboxes => Section::Changes,
                Section::Changes => Section::Sandboxes,
            },
            scroll_offset: 0,
            ..s
        },
        ListAction::CollapseSection => Screen {
            collapsed: match s.section {
                Section::Sandboxes => Collapsed { sandboxes: true, ..s.collapsed },
                Section::Changes => Collapsed { changes: true, ..s.collapsed },
            },
            ..s
        },
        ListAction::ExpandSection => Screen {
            collapsed: match s.section {
                Section::Sandboxes => Collapsed { sandboxes: false, ..s.collapsed },
                Section::Changes => Collapsed { changes: false, ..s.collapsed },
            },
            ..s
        },
        _ => s,
    }
}

impl App {
    /// Opens the view on the sandboxes that were found.
    pub fn new(store: &ObjectStore, repo_path: &str, found: Vec<SandboxFiles>) -> (r: App)
        requires
            store.wf(),
            forall|i: int|
                0 <= i < found@.len() ==> base_ends(
                    store@,
                    (#[trigger] found@[i]).sandbox.manifest,
                ),
        ensures
            is_sandbox_list(store@, found@, r.sandboxes@),
            r.repo_path@ == repo_path@,
            r.repo_name@ == (if name_spec(repo_path@).len() == 0 {
                "repository"@
            } else {
                name_spec(repo_path@)
            }),
            r@ == (Screen {
                counts: change_counts(r.sandboxes@),
                sandbox: 0,
                change: 0,
                scroll_offset: 0,
                should_quit: false,
                visible_height: 20,
                show_help: false,
                section: Section::Sandboxes,
                collapsed: Collapsed { sandboxes: false, changes: false },
            }),
    {
        let mut name = name_of(repo_path);
        if name.as_str().is_empty() {
            name = "repository".to_owned();
        }
        App {
            sandboxes: describe_sandboxes(store, found),
            selected_sandbox_index: 0,
            selected_change_index: 0,
            scroll_offset: 0,
            should_quit: false,
            visible_height: 20,
            repo_path: repo_path.to_owned(),
            repo_name: name,
            show_help: false,
            current_section: Section::Sandboxes,
            sections_collapsed: Collapsed { sandboxes: false, changes: false },
        }
    }

    /// Fits the view to the terminal: six rows are taken by other things.
    pub fn update_visible_height(&mut self, terminal_height: u16)
        ensures
            same_sandboxes(*old(self), *final(self)),
            final(self)@ == (Screen {
                visible_height: if terminal_height > 6 {
                    terminal_height - 6
                } else {
                    0
                },
                ..old(self)@
            }),
    {
        self.visible_height = if terminal_height > 6 {
            (terminal_height - 6) as usize
        } else {
            0
        };
    }

    /// Shows the sandboxes that were found now. The selection stays inside the list.
    pub fn refresh_sandboxes(&mut self, store: &ObjectStore, found: Vec<SandboxFiles>)
        requires
            store.wf(),
            forall|i: int|
                0 <= i < found@.len() ==> base_ends(
                    store@,
                    (#[trigger] found@[i]).sandbox.manifest,
                ),
        ensures
            is_sandbox_list(store@, found@, final(self).sandboxes@),
            final(self).repo_path == old(self).repo_path,
            final(self).repo_name == old(self).repo_name,
            final(self)@ == (Screen {
                counts: change_counts(final(self).sandboxes@),
                sandbox: if old(self)@.sandbox >= found@.len() && found@.len() > 0 {
                    found@.len() - 1
                } else {
                    old(self)@.sandbox
                },
                ..old(self)@
            }),
    {
        self.sandboxes = describe_sandboxes(store, found);
        let len: usize = self.sandboxes.len();
        if self.selected_sandbox_index >= len && len > 0 {
            self.selected_sandbox_index = len - 1;
        }
    }

    /// The selected sandbox.
    pub fn get_selected_sandbox(&self) -> (r: Option<&SandboxInfo>)
        ensures
            match r {
                Some(s) => self@.sandbox < self.sandboxes@.len() && *s
                    == self.sandboxes@[self@.sandbox],
                None => self@.sandbox >= self.sandboxes@.len(),
            },
    {
        if self.selected_sandbox_index < self.sandboxes.len() {
            Some(&self.sandboxes[self.selected_sandbox_index])
        } else {
            None
        }
    }

    /// The selected change of the selected sandbox.
    pub fn get_selected_change(&self) -> (r: Option<&SandboxChange>)
        ensures
            match r {
                Some(c) => {
                    &&& self@.sandbox < self.sandboxes@.len()
                    &&& self@.change < self.sandboxes@[self@.sandbox].changes@.len()
                    &&& *c == self.sandboxes@[self@.sandbox].changes@[self@.change]
                },
                None => self@.sandbox >= self.sandboxes@.len() || self@.change
                    >= self.sandboxes@[self@.sandbox].changes@.len(),
            },
    {
        match self.get_selected_sandbox() {
            Some(s) => {
                if self.selected_change_index < s.changes.len() {
                    Some(&s.changes[self.selected_change_index])
                } else {
                    None
                }
            },
            None => None,
        }
    }

    /// How many changes the selected sandbox has.
    fn shown_changes(&self) -> (r: usize)
        ensures
            r == shown_changes(self@),
    {
        match self.get_selected_sandbox() {
            Some(s) => {
                assert(self@.counts[self@.sandbox] == s.changes@.len());
                s.changes.len()
            },
            None => 0,
        }
    }

    /// Shows the selected row.
    fn adjust_scroll(&mut self)
        ensures
            same_sandboxes(*old(self), *final(self)),
            final(self)@ == with_scroll(old(self)@),
    {
        let selected: usize = self.selected_row();
        let count: usize = self.row_count();
        self.scroll_offset = scroll_list(self.scroll_offset, selected, self.visible_height, count);
    }

    /// How many rows the current list has.
    fn row_count(&self) -> (r: usize)
        ensures
            r == row_count(self@),
    {
        match self.current_section {
            Section::Sandboxes => self.sandboxes.len(),
            Section::Changes => self.shown_changes(),
        }
    }

    /// The selected row of the current list.
    fn selected_row(&self) -> (r: usize)
        ensures
            r == selected_row(self@),
    {
        match self.current_section {
            Section::Sandboxes => self.selected_sandbox_index,
            Section::Changes => self.selected_change_index,
        }
    }

    /// Selects a row of the current list.
    fn select_row(&mut self, i: usize)
        ensures
            same_sandboxes(*old(self), *final(self)),
            final(self)@ == with_row(old(self)@, i as int),
    {
        match self.current_section {
            Section::Sandboxes => {
                self.selected_sandbox_index = i;
            },
            Section::Changes => {
                self.selected_change_index = i;
            },
        }
    }

    /// Selects the row above or below. Another sandbox is shown from its first
    /// change on.
    fn step_to(&mut self, i: usize)
        ensures
            same_sandboxes(*old(self), *final(self)),
            final(self)@ == stepped(old(self)@, i as int),
    {
        match self.current_section {
            Section::Sandboxes => {
                self.selected_sandbox_index = i;
                self.selected_change_index = 0;
            },
            Section::Changes => {
                self.selected_change_index = i;
            },
        }
    }

    /// Moves the selection.
    fn move_selection(&mut self, action: ListAction)
        requires
            action == ListAction::MoveUp || action == ListAction::MoveDown || action
                == ListAction::PageUp || action == ListAction::PageDown || action
                == ListAction::GoToBottom,
        ensures
            same_sandboxes(*old(self), *final(self)),
            final(self)@ == acted(old(self)@, action),
    {
        let i: usize = self.selected_row();
        let count: usize = self.row_count();
        let has_list: bool = self.current_section == Section::Sandboxes
            || self.selected_sandbox_index < self.sandboxes.len();
        match action {
            ListAction::MoveUp => {
                if i > 0 {
                    self.step_to(i - 1);
                }
            },
            ListAction::MoveDown => {
                if count > 0 && i < count - 1 {
                    self.step_to(i + 1);
                }
            },
            ListAction::PageUp => self.select_row(page_up(i)),
            ListAction::PageDown => {
                if has_list {
                    self.select_row(page_down(i, count));
                }
            },
            _ => {
                if has_list {
                    self.select_row(
                        if count > 0 {
                            count - 1
                        } else {
                            0
                        },
                    );
                }
            },
        }
        self.adjust_scroll();
    }

    /// Collapses or expands the current section.
    fn set_collapsed(&mut self, collapsed: bool)
        ensures
            same_sandboxes(*old(self), *final(self)),
            final(self)@ == acted(
                old(self)@,
                if collapsed {
                    ListAction::CollapseSection
                } else {
                    ListAction::ExpandSection
                },
            ),
    {
        match self.current_section {
            Section::Sandboxes => {
                self.sections_collapsed.sandboxes = collapsed;
            },
            Section::Changes => {
                self.sections_collapsed.changes = collapsed;
            },
        }
    }

    /// Carries out an action. The caller refreshes the list where the answer is yes.
    pub fn handle_action(&mut self, action: ListAction) -> (r: bool)
        ensures
            same_sandboxes(*old(self), *final(self)),
            final(self)@ == acted(old(self)@, action),
            r == (action == ListAction::Refresh),
    {
        match action {
            ListAction::Quit => {
                self.should_quit = true;
            },
            ListAction::MoveUp
            | ListAction::MoveDown
            | ListAction::PageUp
            | ListAction::PageDown
            | ListAction::GoToBottom => self.move_selection(action),
            ListAction::GoToTop => {
                self.select_row(0);
                self.scroll_offset = 0;
            },
            ListAction::ToggleHelp => {
                self.show_help = !self.show_help;
            },
            ListAction::SwitchSection => {
                self.current_section = match self.current_section {
                    Section::Sandboxes => Section::Changes,
                    Section::Changes => Section::Sandboxes,
                };
                self.scroll_offset = 0;
            },
            ListAction::CollapseSection => self.set_collapsed(true),
            ListAction::ExpandSection => self.set_collapsed(false),
            _ => {},
        }
        action == ListAction::Refresh
    }

    /// Takes a key. The caller refreshes the list where the answer is yes.
    pub fn handle_key(&mut self, key: KeyPress) -> (r: bool)
        ensures
            same_sandboxes(*old(self), *final(self)),
            final(self)@ == (match list_key(key) {
                Some(a) => acted(old(self)@, a),
                None => old(self)@,
            }),
            r == (list_key(key) == Some(ListAction::Refresh)),
    {
        match list_action_for(key) {
            Some(a) => self.handle_action(a),
            None => false,
        }
    }
}

/// What is listed of a sandbox in one line. `count` is how many changes it has, if
/// they can be told.
pub open spec fn listed_line(m: SandboxManifest, count: Option<nat>, now: u64) -> Seq<char> {
    "  "@ + m.name@ + "  (base: "@ + short_base(m.base_commit@) + ", "@ + age_text(
        age_of(m.created_at, now),
    ) + ", "@ + status_summary(count) + ")"@
}

/// What is listed of a sandbox in one line.
fn list_line(m: &SandboxManifest, count: Option<usize>, now: u64) -> (r: String)
    ensures
        r@ == listed_line(
            *m,
            match count {
                Some(n) => Some(n as nat),
                None => None,
            },
            now,
        ),
{
    let mut r: String = concat("  ", m.name.as_str());
    r.append("  (base: ");
    r.append(shorten_base(m.base_commit.as_str()).as_str());
    r.append(", ");
    r.append(format_age(m.created_at, now).as_str());
    r.append(", ");
    r.append(get_sandbox_status_summary(count).as_str());
    r.append(")");
    r
}

impl Ranking<SandboxFiles> for NewestFirst {
    open spec fn key(t: SandboxFiles) -> Seq<int> {
        seq![u64::MAX - t.sandbox.manifest.created_at]
    }
}

impl Compares<SandboxFiles> for NewestFirst {
    fn before(a: &SandboxFiles, b: &SandboxFiles) -> (r: bool) {
        proof {
            let x = <NewestFirst as Ranking<SandboxFiles>>::key(*a);
            let y = <NewestFirst as Ranking<SandboxFiles>>::key(*b);
            assert(!crate::order::lex_less(
                x.subrange(1, x.len() as int),
                y.subrange(1, y.len() as int),
            ));
        }
        a.sandbox.manifest.created_at > b.sandbox.manifest.created_at
    }
}

/// Whether this is the line of a sandbox, with the number of its changes.
pub open spec fn is_listed_line(m: Objects, s: SandboxFiles, now: u64, line: Seq<char>) -> bool {
    match base_files(m, s.sandbox.manifest) {
        Ok(b) => exists|v: Seq<(Seq<char>, SandboxChangeKind)>| #[trigger]
            are_changes(b, s.files@, v) && line == listed_line(
                s.sandbox.manifest,
                Some(v.len()),
                now,
            ),
        Err(_) => line == listed_line(s.sandbox.manifest, None, now),
    }
}

/// Whether this is what is said of all sandboxes: a title, a line for each, the
/// newest first, and an empty line; or how to make one.
pub open spec fn is_listing(
    m: Objects,
    found: Seq<SandboxFiles>,
    now: u64,
    lines: Seq<Seq<char>>,
) -> bool {
    let v = sorted::<NewestFirst, SandboxFiles>(found);
    if found.len() == 0 {
        lines == seq![
            "No sandboxes found."@,
            "Create one with: helix sandbox create <name>"@,
        ]
    } else {
        &&& lines.len() == v.len() + 2
        &&& lines[0] == "Sandboxes:\n"@
        &&& lines.last() == ""@
        &&& forall|i: int|
            0 <= i < v.len() ==> is_listed_line(m, #[trigger] v[i], now, lines[i + 1])
    }
}

/// What is said of all sandboxes, the newest first.
pub fn list_sandboxes(store: &ObjectStore, found: Vec<SandboxFiles>, now: u64) -> (r: Vec<String>)
    requires
        store.wf(),
        forall|i: int|
            0 <= i < found@.len() ==> base_ends(
                store@,
                (#[trigger] found@[i]).sandbox.manifest,
            ),
    ensures
        is_listing(store@, found@, now, texts(r@)),
{
    let mut lines: Vec<String> = Vec::new();
    assert(texts(lines@) =~= Seq::empty());
    if found.len() == 0 {
        push_line(&mut lines, "No sandboxes found.".to_owned());
        push_line(&mut lines, "Create one with: helix sandbox create <name>".to_owned());
        assert(texts(lines@) =~= seq![
            "No sandboxes found."@,
            "Create one with: helix sandbox create <name>"@,
        ]);
        return lines;
    }
    let ghost all = found@;
    let mut v = found;
    sort::<NewestFirst, SandboxFiles>(&mut v);
    let ghost vs = v@;
    proof {
        crate::order::lemma_sorted_in_order::<NewestFirst, SandboxFiles>(all);
        crate::order::lemma_sorted_permutation::<NewestFirst, SandboxFiles>(all);
        assert forall|i: int| 0 <= i < vs.len() implies base_ends(
            store@,
            (#[trigger] vs[i]).sandbox.manifest,
        ) by {
            lemma_one_of(all, vs, i);
            let j = choose|j: int| 0 <= j < all.len() && all[j] == vs[i];
            assert(base_ends(store@, all[j].sandbox.manifest));
        }
    }
    push_line(&mut lines, "Sandboxes:\n".to_owned());
    let mut i: usize = 0;
    while i < v.len()
        invariant
            i <= v.len(),
            store.wf(),
            vs == v@,
            forall|i: int|
                0 <= i < vs.len() ==> base_ends(store@, (#[trigger] vs[i]).sandbox.manifest),
            texts(lines@).len() == i + 1,
            texts(lines@)[0] == "Sandboxes:\n"@,
            forall|k: int|
                0 <= k < i ==> is_listed_line(
                    store@,
                    #[trigger] vs[k],
                    now,
                    texts(lines@)[k + 1],
                ),
        decreases v.len() - i,
    {
        let s = &v[i];
        assert(base_ends(store@, vs[i as int].sandbox.manifest));
        let count: Option<usize> = match get_sandbox_changes(
            store,
            &s.sandbox.manifest,
            &s.files,
        ) {
            Ok(c) => {
                proof {
                    let b = base_files(store@, s.sandbox.manifest)->Ok_0;
                    assert(are_changes(b, s.files@, change_views(c@)));
                    assert(change_views(c@).len() == c@.len());
                }
                Some(c.len())
            },
            Err(_) => None,
        };
        let line = list_line(&s.sandbox.manifest, count, now);
        assert(is_listed_line(store@, vs[i as int], now, line@));
        let ghost before = texts(lines@);
        push_line(&mut lines, line);
        i += 1;
    }
    let ghost before = texts(lines@);
    push_line(&mut lines, "".to_owned());
    proof {
        assert forall|k: int| 0 <= k < vs.len() implies is_listed_line(
            store@,
            #[trigger] vs[k],
            now,
            texts(lines@)[k + 1],
        ) by {
            assert(texts(lines@)[k + 1] == before[k + 1]);
        }
    }
    lines
}

proof fn lemma_one_of(a: Seq<SandboxFiles>, b: Seq<SandboxFiles>, i: int)
    requires
        a.to_multiset() == b.to_multiset(),
        0 <= i < b.len(),
    ensures
        a.contains(b[i]),
{
    broadcast use vstd::seq_lib::group_to_multiset_ensures;

    assert(b.contains(b[i]));
    assert(b.to_multiset().count(b[i]) > 0);
}

/// The line of a changed file.
pub open spec fn change_line(c: (Seq<char>, SandboxChangeKind)) -> Seq<char> {
    "  "@.push(change_letter(c.1)) + " "@ + c.0
}

/// The lines of changed files.
pub open spec fn change_lines(v: Seq<(Seq<char>, SandboxChangeKind)>) -> Seq<Seq<char>> {
    Seq::new(v.len(), |i: int| change_line(v[i]))
}

/// What is said of the changes of a sandbox.
pub open spec fn status_lines(
    name: Seq<char>,
    manifest: SandboxManifest,
    workdir: Seq<char>,
    v: Seq<(Seq<char>, SandboxChangeKind)>,
) -> Seq<Seq<char>> {
    let title = seq![
        "Sandbox '"@ + name + "' (base: "@ + short_base(manifest.base_commit@) + ")\n"@,
    ];
    if v.len() == 0 {
        title + seq![
            "No changes in sandbox '"@ + name + "'"@,
            "\nUse existing helix commands in the sandbox workdir:"@,
            "  cd "@ + workdir,
            "  helix status   # view status"@,
            "  helix add .    # stage changes"@,
            "  helix commit   # commit changes"@,
        ]
    } else {
        title + seq!["Changes in sandbox '"@ + name + "':\n"@] + change_lines(v) + seq![
            "\n"@ + decimal(v.len()) + " file(s) changed"@,
        ]
    }
}

/// The changes of a sandbox, and what is said of them. There is no sandbox where
/// there is none of that name.
pub fn sandbox_status(store: &ObjectStore, name: &str, found: Option<&SandboxFiles>) -> (r: Result<
    (Vec<SandboxChange>, Vec<String>),
    SandboxError,
>)
    requires
        store.wf(),
        found matches Some(s) ==> base_ends(store@, s.sandbox.manifest),
    ensures
        match found {
            None => r matches Err(e) && e@ == SandboxFault::Missing(name@),
            Some(s) => match base_files(store@, s.sandbox.manifest) {
                Err(f) => r matches Err(e) && e@ == f,
                Ok(b) => {
                    &&& r matches Ok(p)
                    &&& are_changes(b, s.files@, change_views(p.0@))
                    &&& texts(p.1@) == status_lines(
                        name@,
                        s.sandbox.manifest,
                        s.sandbox.workdir@,
                        change_views(p.0@),
                    )
                },
            },
        },
{
    let s = match found {
        Some(s) => s,
        None => return Err(SandboxError::Missing(name.to_owned())),
    };
    let changes = match get_sandbox_changes(store, &s.sandbox.manifest, &s.files) {
        Ok(v) => v,
        Err(e) => return Err(e),
    };
    let ghost v = change_views(changes@);
    let mut lines: Vec<String> = Vec::new();
    assert(texts(lines@) =~= Seq::empty());
    let mut title: String = concat("Sandbox '", name);
    title.append("' (base: ");
    title.append(shorten_base(s.sandbox.manifest.base_commit.as_str()).as_str());
    title.append(")\n");
    push_line(&mut lines, title);
    if changes.len() == 0 {
        let mut line: String = concat("No changes in sandbox '", name);
        line.append("'");
        push_line(&mut lines, line);
        push_line(
            &mut lines,
            "\nUse existing helix commands in the sandbox workdir:".to_owned(),
        );
        push_line(&mut lines, concat("  cd ", s.sandbox.workdir.as_str()));
        push_line(&mut lines, "  helix status   # view status".to_owned());
        push_line(&mut lines, "  helix add .    # stage changes".to_owned());
        push_line(&mut lines, "  helix commit   # commit changes".to_owned());
    } else {
        let mut line: String = concat("Changes in sandbox '", name);
        line.append("':\n");
        push_line(&mut lines, line);
        let ghost head = texts(lines@);
        let mut i: usize = 0;
        assert(head + change_lines(v).subrange(0, 0) =~= head);
        while i < changes.len()
            invariant
                i <= changes.len(),
                v == change_views(changes@),
                texts(lines@) == head + change_lines(v).subrange(0, i as int),
            decreases changes.len() - i,
        {
            let ghost before = texts(lines@);
            let mut row: String = "  ".to_owned();
            row.push(changes[i].status_char());
            row.append(" ");
            row.append(changes[i].path.as_str());
            assert(v[i as int] == changes@[i as int]@);
            push_line(&mut lines, row);
            assert(texts(lines@) =~= head + change_lines(v).subrange(0, i + 1));
            i += 1;
        }
        assert(change_lines(v).subrange(0, i as int) =~= change_lines(v));
        let mut last: String = concat("\n", decimal_of(changes.len() as u64).as_str());
        last.append(" file(s) changed");
        push_line(&mut lines, last);
    }
    assert(texts(lines@) =~= status_lines(
        name@,
        s.sandbox.manifest,
        s.sandbox.workdir@,
        v,
    ));
    Ok((changes, lines))
}

/// What the header of the view counts: the sandboxes, those without changes, those
/// with changes, and all changes.
#[derive(Debug, Clone, Copy, PartialEq, Eq)]
pub struct HeaderCounts {
    pub sandboxes: usize,
    pub clean: usize,
    pub dirty: usize,
    pub changes: u128,
}

/// How many counts are zero.
pub open spec fn zero_count(v: Seq<nat>) -> nat
    decreases v.len(),
{
    if v.len() == 0 {
        0
    } else if v.last() == 0 {
        zero_count(v.drop_last()) + 1
    } else {
        zero_count(v.drop_last())
    }
}

/// All counts together.
pub open spec fn total_of(v: Seq<nat>) -> nat
    decreases v.len(),
{
    if v.len() == 0 {
        0
    } else {
        total_of(v.drop_last()) + v.last()
    }
}

/// What the header of the view counts.
pub fn header_counts(app: &App) -> (r: HeaderCounts)
    ensures
        r.sandboxes == app@.counts.len(),
        r.clean == zero_count(app@.counts),
        r.dirty == app@.counts.len() - zero_count(app@.counts),
        r.changes == total_of(app@.counts),
{
    let ghost v = app@.counts;
    let len: usize = app.sandboxes.len();
    let mut clean: usize = 0;
    let mut changes: u128 = 0;
    let mut i: usize = 0;
    while i < len
        invariant
            i <= len,
            len == app.sandboxes@.len(),
            v == app@.counts,
            clean <= i,
            clean == zero_count(v.subrange(0, i as int)),
            changes == total_of(v.subrange(0, i as int)),
            changes <= i * usize::MAX,
        decreases len - i,
    {
        let n: usize = app.sandboxes[i].changes.len();
        proof {
            let t = v.subrange(0, i + 1);
            assert(t.drop_last() =~= v.subrange(0, i as int));
            assert(t.last() == n);
            assert((i + 1) * usize::MAX == i * usize::MAX + usize::MAX) by (nonlinear_arith);
            assert((i + 1) * usize::MAX <= usize::MAX * usize::MAX) by (nonlinear_arith)
                requires
                    i + 1 <= usize::MAX,
            ;
            assert(usize::MAX * usize::MAX <= u128::MAX) by (nonlinear_arith)
                requires
                    usize::MAX <= 0xffff_ffff_ffff_ffff,
            ;
        }
        if n == 0 {
            clean += 1;
        }
        changes = changes + n as u128;
        i += 1;
    }
    assert(v.subrange(0, i as int) =~= v);
    HeaderCounts { sandboxes: len, clean, dirty: len - clean, changes }
}

/// No sandbox is listed before a newer one.
pub proof fn newest_come_first(
    m: Objects,
    found: Seq<SandboxFiles>,
    shown: Seq<SandboxInfo>,
    i: int,
    j: int,
)
    requires
        is_sandbox_list(m, found, shown),
        0 <= i < j < shown.len(),
    ensures
        shown[i].manifest.created_at >= shown[j].manifest.created_at,
        shown.len() == found.len(),
{
    let infos = choose|infos: Seq<SandboxInfo>| #[trigger]
        are_infos(m, found, infos) && shown == sorted::<NewestFirst, SandboxInfo>(infos);
    crate::order::lemma_sorted_in_order::<NewestFirst, SandboxInfo>(infos);
    let x = <NewestFirst as Ranking<SandboxInfo>>::key(shown[i]);
    let y = <NewestFirst as Ranking<SandboxInfo>>::key(shown[j]);
    assert(!crate::order::lex_less(y, x));
}

} // verus!
