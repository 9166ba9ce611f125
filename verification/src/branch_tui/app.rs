//! The state of the view, and what each key does to it.
use vstd::prelude::*;
use vstd::string::*;
use vstd::utf8::*;

use crate::branch_command::{
    create_branch, create_fault, delete_branch, delete_fault, head_on, head_ref, rename_branch,
    rename_fault, switch_branch, switch_fault, with_branch, with_renamed, BranchError, BranchFault,
    BranchOptions,
};
use crate::branch_tui::listing::{
    branch_views, is_branch_list, list_branches, listed_names, BranchInfo, BranchView,
};
use crate::hash::decoded_hash;
use crate::helix_index::commit::{commit_views, Commit, CommitView};
use crate::helix_index::commit_store::{branch_ref, history, BranchReadError, CommitStore};
use crate::keys::{KeyCode, KeyPress};
use crate::merge_tui::app::scrolled;
use crate::object_store::Objects;
use crate::path::{name_of, name_spec};
use crate::refs::{ref_dir, RefStore, Refs};
use crate::text::{from_chars, str_eq, text_of, to_chars, trim_spec};
use crate::text_map::TextMap;

verus! {

/// Which list the keys act on.
#[derive(Debug, Clone, Copy, PartialEq, Eq, Structural)]
pub enum Focus {
    BranchList,
    CommitList,
}

/// The state of the view.
#[derive(Debug)]
pub struct App {
    pub branches: Vec<BranchInfo>,
    pub selected_index: usize,
    /// The first branch that is shown.
    pub scroll_offset: usize,
    pub should_quit: bool,
    pub repo_path: String,
    pub repo_name: String,
    pub visible_height: usize,
    pub checkout_mode: bool,
    pub delete_mode: bool,
    pub rename_mode: bool,
    pub new_branch_name: String,
    /// The commits of the branches that were selected so far.
    pub branch_commit_lists: TextMap<Vec<Commit>>,
    pub selected_commit_index: usize,
    pub focus: Focus,
}

/// The state of the view, with texts as characters.
pub struct Screen {
    pub branches: Seq<BranchView>,
    pub selected: int,
    pub scroll_offset: int,
    pub should_quit: bool,
    pub repo_path: Seq<char>,
    pub repo_name: Seq<char>,
    pub visible_height: int,
    pub checkout_mode: bool,
    pub delete_mode: bool,
    pub rename_mode: bool,
    pub new_name: Seq<char>,
    pub lists: Map<Seq<char>, Seq<CommitView>>,
    pub selected_commit: int,
    pub focus: Focus,
}

/// The lists of commits, by branch.
pub open spec fn list_views(m: Map<Seq<char>, Vec<Commit>>) -> Map<Seq<char>, Seq<CommitView>> {
    m.map_values(|v: Vec<Commit>| commit_views(v@))
}

impl View for App {
    type V = Screen;

    open spec fn view(&self) -> Screen {
        Screen {
            branches: branch_views(self.branches@),
            selected: self.selected_index as int,
            scroll_offset: self.scroll_offset as int,
            should_quit: self.should_quit,
            repo_path: self.repo_path@,
            repo_name: self.repo_name@,
            visible_height: self.visible_height as int,
            checkout_mode: self.checkout_mode,
            delete_mode: self.delete_mode,
            rename_mode: self.rename_mode,
            new_name: self.new_branch_name@,
            lists: list_views(self.branch_commit_lists@),
            selected_commit: self.selected_commit_index as int,
            focus: self.focus,
        }
    }
}

/// How many commits of a branch are listed.
pub const COMMITS_LISTED: usize = 200;

/// The commits of a branch that are listed.
pub open spec fn branch_commits(m: Objects, r: Refs, name: Seq<char>) -> Result<
    Seq<CommitView>,
    BranchReadError,
> {
    let path = branch_ref(name);
    if r.has(path) {
        match decoded_hash(encode_utf8(trim_spec(r.at(path)))) {
            Err(e) => Err(BranchReadError::InvalidHash(e)),
            Ok(id) => Ok(history(m, id, 200, None, Set::empty())),
        }
    } else if ref_dir(r, path) {
        Err(BranchReadError::Unreadable)
    } else {
        Ok(Seq::empty())
    }
}

/// The first branch from `at` on that is current; the first of all where none is.
pub open spec fn current_from(v: Seq<BranchView>, at: int) -> int
    decreases v.len() - at,
{
    if at < 0 || at >= v.len() {
        0
    } else if v[at].is_current {
        at
    } else {
        current_from(v, at + 1)
    }
}

/// The title of a repository: the name of its directory, and of the sandbox.
pub open spec fn repo_title(path: Seq<char>, sandbox: Option<Seq<char>>) -> Seq<char> {
    let name = if name_spec(path).len() == 0 {
        "unknown"@
    } else {
        name_spec(path)
    };
    match sandbox {
        Some(s) => name + " (sandbox: "@ + s + ")"@,
        None => name,
    }
}

/// The title of a repository: the name of its directory, and of the sandbox.
pub fn title_of(path: &str, sandbox: Option<&str>) -> (r: String)
    ensures
        r@ == repo_title(
            path@,
            match sandbox {
                Some(s) => Some(s@),
                None => None,
            },
        ),
{
    let mut name = name_of(path);
    if name.as_str().is_empty() {
        name = "unknown".to_owned();
    }
    match sandbox {
        Some(s) => {
            name.append(" (sandbox: ");
            name.append(s);
            name.append(")");
        },
        None => {},
    }
    name
}

/// The view after the selected branch has changed: its commits are listed, the
/// first is selected. Where they cannot be read nothing changes.
pub open spec fn branch_selected(s: Screen, m: Objects, r: Refs) -> (
    Screen,
    Option<BranchReadError>,
) {
    if s.selected >= s.branches.len() {
        (s, None)
    } else {
        let name = s.branches[s.selected].name;
        if s.lists.contains_key(name) {
            (Screen { selected_commit: 0, ..s }, None)
        } else {
            match branch_commits(m, r, name) {
                Ok(l) => (
                    Screen { lists: s.lists.insert(name, l), selected_commit: 0, ..s },
                    None,
                ),
                Err(e) => (s, Some(e)),
            }
        }
    }
}

/// The view before the commits of a branch are listed.
pub open spec fn is_bare(
    s: Screen,
    m: Objects,
    r: Refs,
    config: Option<Seq<char>>,
    path: Seq<char>,
    sandbox: Option<Seq<char>>,
) -> bool {
    &&& is_branch_list(m, r, config, s.branches)
    &&& s == (Screen {
        branches: s.branches,
        selected: current_from(s.branches, 0),
        scroll_offset: 0,
        should_quit: false,
        repo_path: path,
        repo_name: repo_title(path, sandbox),
        visible_height: 20,
        checkout_mode: false,
        delete_mode: false,
        rename_mode: false,
        new_name: Seq::empty(),
        lists: Map::empty(),
        selected_commit: 0,
        focus: Focus::BranchList,
    })
}

/// Whether this is the view as it opens: the branches are listed, and the current
/// one is selected with its commits.
pub open spec fn is_opened(
    s: Screen,
    m: Objects,
    r: Refs,
    config: Option<Seq<char>>,
    path: Seq<char>,
    sandbox: Option<Seq<char>>,
) -> bool {
    exists|t: Screen| #[trigger]
        is_bare(t, m, r, config, path, sandbox) && branch_selected(t, m, r) == (
            s,
            None::<BranchReadError>,
        )
}

/// Whether the view cannot open, since the commits of the branch that would be
/// selected cannot be read.
pub open spec fn cannot_open(
    m: Objects,
    r: Refs,
    config: Option<Seq<char>>,
    path: Seq<char>,
    sandbox: Option<Seq<char>>,
    e: BranchReadError,
) -> bool {
    exists|t: Screen| #[trigger]
        is_bare(t, m, r, config, path, sandbox) && branch_selected(t, m, r) == (t, Some(e))
}

/// Whether the selected branch is one of those listed, or there are none, and no
/// branch is listed twice.
pub open spec fn is_valid(s: Screen) -> bool {
    &&& listed_names(s.branches).no_duplicates()
    &&& (s.branches.len() == 0 && s.selected == 0) || 0 <= s.selected < s.branches.len()
}

/// The first branch to show, so that the selected one is shown, and no empty rows
/// at the end.
pub open spec fn branch_scroll(s: Screen) -> int {
    let h = if s.visible_height < 1 {
        1
    } else {
        s.visible_height
    };
    let offset = scrolled(s.scroll_offset, s.selected, h);
    let most = if s.branches.len() > h {
        s.branches.len() - h
    } else {
        0
    };
    if offset < most {
        offset
    } else {
        most
    }
}

/// The view with another branch selected.
pub open spec fn selecting(s: Screen, i: int) -> Screen {
    let t = Screen { selected: i, ..s };
    Screen { scroll_offset: branch_scroll(t), ..t }
}

/// The next branch, and after the last the first.
pub open spec fn next_branch(s: Screen) -> Screen {
    if s.branches.len() == 0 {
        s
    } else if s.selected + 1 < s.branches.len() {
        selecting(s, s.selected + 1)
    } else {
        selecting(s, 0)
    }
}

/// The branch before, and before the first the last.
pub open spec fn previous_branch(s: Screen) -> Screen {
    if s.branches.len() == 0 {
        s
    } else if s.selected == 0 {
        selecting(s, s.branches.len() - 1)
    } else {
        selecting(s, s.selected - 1)
    }
}

/// The first branch.
pub open spec fn top_branch(s: Screen) -> Screen {
    if s.branches.len() == 0 {
        s
    } else {
        Screen { selected: 0, scroll_offset: 0, ..s }
    }
}

/// The last branch.
pub open spec fn bottom_branch(s: Screen) -> Screen {
    if s.branches.len() == 0 {
        s
    } else {
        selecting(s, s.branches.len() - 1)
    }
}

/// How many commits are listed of the selected branch.
pub open spec fn commits_shown(s: Screen) -> nat {
    if s.selected < s.branches.len() && s.lists.contains_key(s.branches[s.selected].name) {
        s.lists[s.branches[s.selected].name].len()
    } else {
        0
    }
}

/// The next commit, if there is one.
pub open spec fn next_commit_of(s: Screen) -> Screen {
    if s.selected_commit < commits_shown(s) - 1 {
        Screen { selected_commit: s.selected_commit + 1, ..s }
    } else {
        s
    }
}

/// The commit before, if there is one.
pub open spec fn previous_commit_of(s: Screen) -> Screen {
    if s.selected_commit > 0 {
        Screen { selected_commit: s.selected_commit - 1, ..s }
    } else {
        s
    }
}

/// The last commit.
pub open spec fn last_commit_of(s: Screen) -> Screen {
    if commits_shown(s) > 0 {
        Screen { selected_commit: commits_shown(s) - 1, ..s }
    } else {
        s
    }
}

/// The branches without those of one name.
pub open spec fn without_name(v: Seq<BranchView>, name: Seq<char>) -> Seq<BranchView>
    decreases v.len(),
{
    if v.len() == 0 {
        v
    } else if v.last().name == name {
        without_name(v.drop_last(), name)
    } else {
        without_name(v.drop_last(), name).push(v.last())
    }
}

/// The view after the selected branch was deleted.
pub open spec fn with_deleted(s: Screen) -> Screen {
    let rest = without_name(s.branches, s.branches[s.selected].name);
    Screen {
        branches: rest,
        selected: if s.selected >= rest.len() && rest.len() > 0 {
            rest.len() - 1
        } else {
            s.selected
        },
        ..s
    }
}

/// Why a key could not do what it is for.
#[derive(Debug)]
pub enum Trouble {
    Branch(BranchError),
    /// The commits of a branch cannot be read.
    Commits(BranchReadError),
}

/// Why a key could not do what it is for, with texts as characters.
pub enum TroubleView {
    Branch(BranchFault),
    Commits(BranchReadError),
}

impl View for Trouble {
    type V = TroubleView;

    open spec fn view(&self) -> TroubleView {
        match *self {
            Trouble::Branch(e) => TroubleView::Branch(e@),
            Trouble::Commits(e) => TroubleView::Commits(e),
        }
    }
}

pub open spec fn trouble_of(t: Option<Trouble>) -> Option<TroubleView> {
    match t {
        Some(t) => Some(t@),
        None => None,
    }
}

/// What there is before a key and after it: the view and the references.
pub struct State {
    pub screen: Screen,
    pub refs: Refs,
}

/// Whether switching to the selected branch leads from one state to the other.
pub open spec fn checks_out(a: State, b: State, t: Option<TroubleView>) -> bool {
    let s = a.screen;
    if s.selected < s.branches.len() && !s.branches[s.selected].is_current {
        let name = s.branches[s.selected].name;
        match switch_fault(a.refs, name) {
            Some(f) => b == a && t == Some(TroubleView::Branch(f)),
            None => b == (State {
                screen: Screen { should_quit: true, ..s },
                refs: Refs { head: Some(head_on(name)), ..a.refs },
            }) && t is None,
        }
    } else {
        b == a && t is None
    }
}

/// Whether deleting the selected branch leads from one state to the other. The
/// current branch is not deleted.
pub open spec fn deletes(a: State, b: State, t: Option<TroubleView>) -> bool {
    let s = a.screen;
    if s.selected < s.branches.len() && !s.branches[s.selected].is_current {
        let name = s.branches[s.selected].name;
        match delete_fault(a.refs, name, true) {
            Some(f) => b == a && t == Some(TroubleView::Branch(f)),
            None => b == (State {
                screen: with_deleted(s),
                refs: Refs {
                    upstreams: a.refs.upstreams.remove(name),
                    ..a.refs.without(head_ref(name))
                },
            }) && t is None,
        }
    } else {
        b == a && t is None
    }
}

/// Whether opening the view anew leads from one view to another, once the
/// references have changed. Where it cannot open, the view stays.
pub open spec fn reopens(
    s: Screen,
    b: State,
    m: Objects,
    config: Option<Seq<char>>,
    t: Option<TroubleView>,
) -> bool {
    match t {
        None => is_opened(b.screen, m, b.refs, config, s.repo_path, None),
        Some(TroubleView::Commits(e)) => b.screen == s && cannot_open(
            m,
            b.refs,
            config,
            s.repo_path,
            None,
            e,
        ),
        Some(TroubleView::Branch(_)) => false,
    }
}

/// Whether renaming the selected branch leads from one state to the other.
pub open spec fn renames(
    a: State,
    b: State,
    m: Objects,
    config: Option<Seq<char>>,
    new_name: Seq<char>,
    t: Option<TroubleView>,
) -> bool {
    let s = a.screen;
    if s.selected < s.branches.len() {
        let name = s.branches[s.selected].name;
        match rename_fault(a.refs, name, new_name, false) {
            Some(f) => b == a && t == Some(TroubleView::Branch(f)),
            None => b.refs == with_renamed(a.refs, name, new_name) && reopens(s, b, m, config, t),
        }
    } else {
        b == a && t is None
    }
}

/// What a key does while a new name is typed, except that the name is complete.
pub open spec fn typed(s: Screen, code: KeyCode) -> Screen {
    match code {
        KeyCode::Esc => Screen { rename_mode: false, new_name: Seq::empty(), ..s },
        KeyCode::Char(c) => Screen { new_name: s.new_name.push(c), ..s },
        KeyCode::Backspace => if s.new_name.len() > 0 {
            Screen { new_name: s.new_name.drop_last(), ..s }
        } else {
            s
        },
        _ => s,
    }
}

/// Whether a key means yes, where something is to be confirmed.
pub open spec fn is_yes(code: KeyCode) -> bool {
    code == KeyCode::Char('y') || code == KeyCode::Char('Y') || code == KeyCode::Enter
}

/// Whether a key means no, where something is to be confirmed.
pub open spec fn is_no(code: KeyCode) -> bool {
    code == KeyCode::Char('n') || code == KeyCode::Char('N') || code == KeyCode::Esc
}

/// Which way a key moves a selection.
#[derive(Debug, Clone, Copy, PartialEq, Eq, Structural)]
pub enum Move {
    Next,
    Previous,
    First,
    Last,
}

/// Which way a key moves the selection, if it does.
pub open spec fn key_move(code: KeyCode) -> Option<Move> {
    if code == KeyCode::Down || code == KeyCode::Char('j') {
        Some(Move::Next)
    } else if code == KeyCode::Up || code == KeyCode::Char('k') {
        Some(Move::Previous)
    } else if code == KeyCode::Char('g') {
        Some(Move::First)
    } else if code == KeyCode::Char('G') {
        Some(Move::Last)
    } else {
        None
    }
}

/// The view after the selection in the list of branches has moved.
pub open spec fn branch_moved(s: Screen, way: Move) -> Screen {
    match way {
        Move::Next => next_branch(s),
        Move::Previous => previous_branch(s),
        Move::First => top_branch(s),
        Move::Last => bottom_branch(s),
    }
}

/// The view after the selection in the list of commits has moved.
pub open spec fn commit_moved(s: Screen, way: Move) -> Screen {
    match way {
        Move::Next => next_commit_of(s),
        Move::Previous => previous_commit_of(s),
        Move::First => Screen { selected_commit: 0, ..s },
        Move::Last => last_commit_of(s),
    }
}

/// The view after the selection has moved in the list that has the focus. The
/// commits of a branch are listed when it is selected.
pub open spec fn moved(s: Screen, m: Objects, r: Refs, way: Move) -> (
    Screen,
    Option<BranchReadError>,
) {
    match s.focus {
        Focus::BranchList => branch_selected(branch_moved(s, way), m, r),
        Focus::CommitList => (commit_moved(s, way), None),
    }
}

/// What any other key does to the view.
pub open spec fn other_key(s: Screen, key: KeyPress) -> Screen {
    let selected = s.selected < s.branches.len();
    let other_branch = selected && !s.branches[s.selected].is_current;
    let code = key.code;
    if code == KeyCode::Char('q') || code == KeyCode::Esc || (code == KeyCode::Char('c')
        && key.control) {
        Screen { should_quit: true, ..s }
    } else if code == KeyCode::Right || code == KeyCode::Char('l') {
        if s.focus == Focus::BranchList && commits_shown(s) > 0 {
            Screen { focus: Focus::CommitList, ..s }
        } else {
            s
        }
    } else if code == KeyCode::Left || code == KeyCode::Char('h') {
        Screen { focus: Focus::BranchList, ..s }
    } else if code == KeyCode::Char('c') && other_branch {
        Screen { checkout_mode: true, ..s }
    } else if code == KeyCode::Char('d') && other_branch {
        Screen { delete_mode: true, ..s }
    } else if code == KeyCode::Char('r') && selected {
        Screen { rename_mode: true, new_name: s.branches[s.selected].name, ..s }
    } else {
        s
    }
}

/// Whether a key leads from one state to the other. While a name is typed, and
/// while something is to be confirmed, keys do that and nothing else.
pub open spec fn pressed(
    a: State,
    b: State,
    m: Objects,
    config: Option<Seq<char>>,
    key: KeyPress,
    t: Option<TroubleView>,
) -> bool {
    let s = a.screen;
    if s.rename_mode {
        if key.code == KeyCode::Enter {
            if s.new_name.len() == 0 {
                b == (State { screen: Screen { rename_mode: false, ..s }, ..a }) && t is None
            } else {
                exists|c: State|
                    {
                        &&& #[trigger] renames(a, c, m, config, s.new_name, t)
                        &&& b == State {
                            screen: Screen {
                                rename_mode: false,
                                new_name: Seq::empty(),
                                ..c.screen
                            },
                            ..c
                        }
                    }
            }
        } else {
            b == (State { screen: typed(s, key.code), ..a }) && t is None
        }
    } else if s.checkout_mode {
        if is_yes(key.code) {
            exists|c: State|
                {
                    &&& #[trigger] checks_out(a, c, t)
                    &&& b == State { screen: Screen { checkout_mode: false, ..c.screen }, ..c }
                }
        } else if is_no(key.code) {
            b == (State { screen: Screen { checkout_mode: false, ..s }, ..a }) && t is None
        } else {
            b == a && t is None
        }
    } else if s.delete_mode {
        if is_yes(key.code) {
            exists|c: State|
                {
                    &&& #[trigger] deletes(a, c, t)
                    &&& b == State { screen: Screen { delete_mode: false, ..c.screen }, ..c }
                }
        } else if is_no(key.code) {
            b == (State { screen: Screen { delete_mode: false, ..s }, ..a }) && t is None
        } else {
            b == a && t is None
        }
    } else if key.code == KeyCode::Enter {
        checks_out(a, b, t)
    } else {
        match key_move(key.code) {
            Some(way) => {
                let (now, e) = moved(s, m, a.refs, way);
                &&& b == State { screen: now, ..a }
                &&& t == match e {
                    Some(e) => Some(TroubleView::Commits(e)),
                    None => None,
                }
            },
            None => b == (State { screen: other_key(s, key), ..a }) && t is None,
        }
    }
}

/// The commits of a branch that are listed.
fn load_branch(storage: &CommitStore, refs: &RefStore, name: &str) -> (r: Result<
    Vec<Commit>,
    BranchReadError,
>)
    requires
        storage.wf(),
        refs.wf(),
    ensures
        match branch_commits(storage.store@, refs@, name@) {
            Ok(l) => r matches Ok(v) && commit_views(v@) == l,
            Err(f) => r matches Err(e) && e == f,
        },
{
    let r = storage.load_commits_for_branch(refs, name, COMMITS_LISTED);
    proof {
        if r is Ok && r->Ok_0@.len() == 0 {
            assert(commit_views(r->Ok_0@) =~= Seq::empty());
        }
    }
    r
}

impl App {
    /// Whether the lists of commits are well-formed and the selections are inside
    /// the lists.
    pub open spec fn wf(&self) -> bool {
        self.branch_commit_lists.wf() && is_valid(self@)
    }

    /// Opens the view: the branches are listed, and the current one is selected.
    pub fn new(
        storage: &CommitStore,
        refs: &RefStore,
        config: &Option<String>,
        repo_path: &str,
        sandbox_name: Option<&str>,
    ) -> (r: Result<App, BranchReadError>)
        requires
            storage.wf(),
            refs.wf(),
        ensures
            ({
                let sandbox = match sandbox_name {
                    Some(s) => Some(s@),
                    None => None,
                };
                match r {
                    Ok(app) => app.wf() && is_opened(
                        app@,
                        storage.store@,
                        refs@,
                        text_of(*config),
                        repo_path@,
                        sandbox,
                    ),
                    Err(e) => cannot_open(
                        storage.store@,
                        refs@,
                        text_of(*config),
                        repo_path@,
                        sandbox,
                        e,
                    ),
                }
            }),
    {
        let branches = list_branches(&storage.store, refs, config);
        let ghost v = branch_views(branches@);
        let mut selected: usize = 0;
        let mut i: usize = 0;
        let mut found: bool = false;
        while i < branches.len() && !found
            invariant
                i <= branches.len(),
                v == branch_views(branches@),
                !found ==> selected == 0 && current_from(v, 0) == current_from(v, i as int),
                found ==> selected < branches.len() && current_from(v, 0) == selected,
            decreases branches.len() - i,
        {
            assert(v[i as int] == branches@[i as int]@);
            if branches[i].is_current {
                selected = i;
                found = true;
            }
            i += 1;
        }
        let lists: TextMap<Vec<Commit>> = TextMap::new();
        let mut app = App {
            branches,
            selected_index: selected,
            scroll_offset: 0,
            should_quit: false,
            repo_path: repo_path.to_owned(),
            repo_name: title_of(repo_path, sandbox_name),
            visible_height: 20,
            checkout_mode: false,
            delete_mode: false,
            rename_mode: false,
            new_branch_name: String::new(),
            branch_commit_lists: lists,
            selected_commit_index: 0,
            focus: Focus::BranchList,
        };
        let ghost bare = app@;
        proof {
            let sandbox = match sandbox_name {
                Some(s) => Some(s@),
                None => None,
            };
            assert(app@.lists =~= Map::empty());
            assert(app@.new_name =~= Seq::empty());
            assert(is_bare(bare, storage.store@, refs@, text_of(*config), repo_path@, sandbox));
        }
        match app.on_branch_selected(storage, refs) {
            Ok(_) => Ok(app),
            Err(e) => Err(e),
        }
    }

    /// Fits the view to the terminal: six rows are taken by other things, and a
    /// branch takes four.
    pub fn update_visible_height(&mut self, terminal_height: u16)
        ensures
            final(self)@ == (Screen {
                visible_height: if terminal_height < 10 {
                    1
                } else {
                    (terminal_height - 6) / 4
                },
                ..old(self)@
            }),
            final(self).branch_commit_lists == old(self).branch_commit_lists,
    {
        let inner: u16 = if terminal_height > 6 {
            terminal_height - 6
        } else {
            0
        };
        self.visible_height = if inner / 4 < 1 {
            1
        } else {
            (inner / 4) as usize
        };
    }

    /// The selected branch.
    pub fn selected_branch(&self) -> (r: Option<&BranchInfo>)
        ensures
            match r {
                Some(b) => self@.selected < self@.branches.len() && b@
                    == self@.branches[self@.selected],
                None => self@.selected >= self@.branches.len(),
            },
    {
        if self.selected_index < self.branches.len() {
            Some(&self.branches[self.selected_index])
        } else {
            None
        }
    }

    /// Shows the selected branch.
    fn adjust_scroll(&mut self)
        ensures
            final(self)@ == (Screen { scroll_offset: branch_scroll(old(self)@), ..old(self)@ }),
            final(self).branch_commit_lists == old(self).branch_commit_lists,
    {
        let height: usize = if self.visible_height < 1 {
            1
        } else {
            self.visible_height
        };
        if self.selected_index < self.scroll_offset {
            self.scroll_offset = self.selected_index;
        } else if self.selected_index - self.scroll_offset >= height {
            self.scroll_offset = self.selected_index - (height - 1);
        }
        let most: usize = if self.branches.len() > height {
            self.branches.len() - height
        } else {
            0
        };
        if self.scroll_offset > most {
            self.scroll_offset = most;
        }
    }

    /// Selects the next branch, and after the last the first.
    pub fn next(&mut self)
        requires
            old(self).wf(),
        ensures
            final(self).wf(),
            final(self)@ == next_branch(old(self)@),
    {
        let len: usize = self.branches.len();
        if len > 0 {
            self.selected_index = if self.selected_index < len - 1 {
                self.selected_index + 1
            } else {
                0
            };
            self.adjust_scroll();
        }
    }

    /// Selects the branch before, and before the first the last.
    pub fn previous(&mut self)
        requires
            old(self).wf(),
        ensures
            final(self).wf(),
            final(self)@ == previous_branch(old(self)@),
    {
        let len: usize = self.branches.len();
        if len > 0 {
            self.selected_index = if self.selected_index == 0 {
                len - 1
            } else {
                self.selected_index - 1
            };
            self.adjust_scroll();
        }
    }

    /// Selects the first branch.
    pub fn go_to_top(&mut self)
        requires
            old(self).wf(),
        ensures
            final(self).wf(),
            final(self)@ == top_branch(old(self)@),
    {
        if self.branches.len() > 0 {
            self.selected_index = 0;
            self.scroll_offset = 0;
        }
    }

    /// Selects the last branch.
    pub fn go_to_bottom(&mut self)
        requires
            old(self).wf(),
        ensures
            final(self).wf(),
            final(self)@ == bottom_branch(old(self)@),
    {
        let len: usize = self.branches.len();
        if len > 0 {
            self.selected_index = len - 1;
            self.adjust_scroll();
        }
    }

    /// Lists the commits of the selected branch, if they are not listed yet, and
    /// selects the first.
    fn on_branch_selected(&mut self, storage: &CommitStore, refs: &RefStore) -> (r: Result<
        (),
        BranchReadError,
    >)
        requires
            old(self).wf(),
            storage.wf(),
            refs.wf(),
        ensures
            final(self).wf(),
            ({
                let (s, e) = branch_selected(old(self)@, storage.store@, refs@);
                &&& final(self)@ == s
                &&& match e {
                    None => r is Ok,
                    Some(f) => r == Err::<(), BranchReadError>(f),
                }
            }),
    {
        if self.selected_index >= self.branches.len() {
            return Ok(());
        }
        let name = self.branches[self.selected_index].name.clone();
        assert(name@ == self@.branches[self@.selected].name);
        if !self.branch_commit_lists.has(name.as_str()) {
            let commits = match load_branch(storage, refs, name.as_str()) {
                Ok(v) => v,
                Err(e) => return Err(e),
            };
            let ghost before = self@;
            self.branch_commit_lists.insert(name, commits);
            assert(self@.lists =~= before.lists.insert(name@, commit_views(commits@)));
        }
        self.selected_commit_index = 0;
        Ok(())
    }

    /// Switches to the selected branch, unless it is the current one, and leaves.
    pub fn checkout_branch(&mut self, refs: &mut RefStore) -> (r: Result<(), BranchError>)
        requires
            old(self).wf(),
            old(refs).wf(),
        ensures
            final(self).wf(),
            final(refs).wf(),
            checks_out(
                State { screen: old(self)@, refs: old(refs)@ },
                State { screen: final(self)@, refs: final(refs)@ },
                match r {
                    Ok(_) => None,
                    Err(e) => Some(TroubleView::Branch(e@)),
                },
            ),
    {
        let name = match self.selected_branch() {
            Some(b) => {
                if b.is_current {
                    return Ok(());
                }
                b.name.clone()
            },
            None => return Ok(()),
        };
        match switch_branch(refs, name.as_str()) {
            Ok(_) => {
                self.should_quit = true;
                Ok(())
            },
            Err(e) => Err(e),
        }
    }

    /// Takes the branches of a name out of the list.
    fn remove_named(&mut self, name: &str)
        requires
            old(self).branch_commit_lists.wf(),
        ensures
            final(self)@ == (Screen {
                branches: without_name(old(self)@.branches, name@),
                ..old(self)@
            }),
            final(self).branch_commit_lists == old(self).branch_commit_lists,
    {
        let ghost v = self@.branches;
        let ghost start = self@;
        let ghost lists = self.branch_commit_lists;
        let len: usize = self.branches.len();
        let mut seen: usize = 0;
        let mut i: usize = 0;
        assert(without_name(v.subrange(0, 0), name@) + v.subrange(0, len as int) =~= v);
        while seen < len
            invariant
                seen <= len,
                len == v.len(),
                i <= seen,
                i <= self.branches@.len(),
                self.branches@.len() - i == len - seen,
                i == without_name(v.subrange(0, seen as int), name@).len(),
                self@.branches == without_name(v.subrange(0, seen as int), name@) + v.subrange(
                    seen as int,
                    len as int,
                ),
                self@ == (Screen { branches: self@.branches, ..start }),
                self.branch_commit_lists == lists,
            decreases len - seen,
        {
            let ghost kept = without_name(v.subrange(0, seen as int), name@);
            let ghost now = self@.branches;
            proof {
                let t = v.subrange(0, seen + 1);
                assert(t.drop_last() =~= v.subrange(0, seen as int));
                assert(t.last() == v[seen as int]);
                assert(now[i as int] == v[seen as int]);
                assert(now[i as int] == self.branches@[i as int]@);
            }
            if str_eq(self.branches[i].name.as_str(), name) {
                self.branches.remove(i);
                assert(self@.branches =~= now.remove(i as int));
                assert(now.remove(i as int) =~= kept + v.subrange(seen + 1, len as int));
            } else {
                i += 1;
                assert(self@.branches =~= kept.push(v[seen as int]) + v.subrange(
                    seen + 1,
                    len as int,
                ));
            }
            seen += 1;
        }
        assert(v.subrange(0, len as int) =~= v);
        assert(self@.branches =~= without_name(v, name@));
    }

    /// Deletes the selected branch, unless it is the current one.
    pub fn delete_branch(&mut self, refs: &mut RefStore) -> (r: Result<(), BranchError>)
        requires
            old(self).wf(),
            old(refs).wf(),
        ensures
            final(self).wf(),
            final(refs).wf(),
            deletes(
                State { screen: old(self)@, refs: old(refs)@ },
                State { screen: final(self)@, refs: final(refs)@ },
                match r {
                    Ok(_) => None,
                    Err(e) => Some(TroubleView::Branch(e@)),
                },
            ),
    {
        let name = match self.selected_branch() {
            Some(b) => {
                if b.is_current {
                    return Ok(());
                }
                b.name.clone()
            },
            None => return Ok(()),
        };
        let options = BranchOptions { delete: false, rename: false, force: true, verbose: false };
        match delete_branch(refs, name.as_str(), options) {
            Ok(_) => {},
            Err(e) => return Err(e),
        }
        proof {
            lemma_without(self@.branches, name@, self@.selected);
        }
        self.remove_named(name.as_str());
        let len: usize = self.branches.len();
        if self.selected_index >= len && len > 0 {
            self.selected_index = len - 1;
        }
        Ok(())
    }

    /// Creates a branch, and opens the view anew.
    pub fn create_branch(
        &mut self,
        name: &str,
        storage: &CommitStore,
        refs: &mut RefStore,
        config: &Option<String>,
    ) -> (r: Result<(), Trouble>)
        requires
            old(self).wf(),
            old(refs).wf(),
            storage.wf(),
        ensures
            final(self).wf(),
            final(refs).wf(),
            ({
                let b = State { screen: final(self)@, refs: final(refs)@ };
                let t = match r {
                    Ok(_) => None,
                    Err(e) => Some(e@),
                };
                match create_fault(old(refs)@, name@, false) {
                    Some(f) => {
                        &&& t == Some(TroubleView::Branch(f))
                        &&& b == State { screen: old(self)@, refs: old(refs)@ }
                    },
                    None => b.refs == with_branch(old(refs)@, name@) && reopens(
                        old(self)@,
                        b,
                        storage.store@,
                        text_of(*config),
                        t,
                    ),
                }
            }),
    {
        let options = BranchOptions { delete: false, rename: false, force: false, verbose: false };
        match create_branch(refs, name, options) {
            Ok(_) => {},
            Err(e) => return Err(Trouble::Branch(e)),
        }
        match App::new(storage, refs, config, self.repo_path.as_str(), None) {
            Ok(app) => {
                *self = app;
                Ok(())
            },
            Err(e) => Err(Trouble::Commits(e)),
        }
    }

    /// Renames the selected branch, and opens the view anew.
    pub fn rename_branch(
        &mut self,
        new_name: &str,
        storage: &CommitStore,
        refs: &mut RefStore,
        config: &Option<String>,
    ) -> (r: Result<(), Trouble>)
        requires
            old(self).wf(),
            old(refs).wf(),
            storage.wf(),
        ensures
            final(self).wf(),
            final(refs).wf(),
            renames(
                State { screen: old(self)@, refs: old(refs)@ },
                State { screen: final(self)@, refs: final(refs)@ },
                storage.store@,
                text_of(*config),
                new_name@,
                match r {
                    Ok(_) => None,
                    Err(e) => Some(e@),
                },
            ),
    {
        let old_name = match self.selected_branch() {
            Some(b) => b.name.clone(),
            None => return Ok(()),
        };
        let options = BranchOptions { delete: false, rename: false, force: false, verbose: false };
        match rename_branch(refs, old_name.as_str(), new_name, options) {
            Ok(_) => {},
            Err(e) => return Err(Trouble::Branch(e)),
        }
        match App::new(storage, refs, config, self.repo_path.as_str(), None) {
            Ok(app) => {
                *self = app;
                Ok(())
            },
            Err(e) => Err(Trouble::Commits(e)),
        }
    }

    /// How many commits are listed of the selected branch.
    fn shown_commits(&self) -> (r: usize)
        requires
            self.wf(),
        ensures
            r == commits_shown(self@),
    {
        match self.selected_branch() {
            Some(b) => match self.branch_commit_lists.get(b.name.as_str()) {
                Some(v) => {
                    assert(self@.lists[b.name@] == commit_views(v@));
                    v.len()
                },
                None => 0,
            },
            None => 0,
        }
    }

    pub fn next_commit(&mut self)
        requires
            old(self).wf(),
        ensures
            final(self).wf(),
            final(self)@ == next_commit_of(old(self)@),
    {
        let n: usize = self.shown_commits();
        if n > 0 && self.selected_commit_index < n - 1 {
            self.selected_commit_index = self.selected_commit_index + 1;
        }
    }

    pub fn previous_commit(&mut self)
        requires
            old(self).wf(),
        ensures
            final(self).wf(),
            final(self)@ == previous_commit_of(old(self)@),
    {
        if self.selected_commit_index > 0 {
            self.selected_commit_index = self.selected_commit_index - 1;
        }
    }

    pub fn first_commit(&mut self)
        requires
            old(self).wf(),
        ensures
            final(self).wf(),
            final(self)@ == (Screen { selected_commit: 0, ..old(self)@ }),
    {
        self.selected_commit_index = 0;
    }

    pub fn last_commit(&mut self)
        requires
            old(self).wf(),
        ensures
            final(self).wf(),
            final(self)@ == last_commit_of(old(self)@),
    {
        let n: usize = self.shown_commits();
        if n > 0 {
            self.selected_commit_index = n - 1;
        }
    }
}

/// Which way a key moves the selection, if it does.
fn move_for(code: KeyCode) -> (r: Option<Move>)
    ensures
        r == key_move(code),
{
    match code {
        KeyCode::Down => Some(Move::Next),
        KeyCode::Up => Some(Move::Previous),
        KeyCode::Char(c) => {
            if c == 'j' {
                Some(Move::Next)
            } else if c == 'k' {
                Some(Move::Previous)
            } else if c == 'g' {
                Some(Move::First)
            } else if c == 'G' {
                Some(Move::Last)
            } else {
                None
            }
        },
        _ => None,
    }
}

/// Whether a key means yes, where something is to be confirmed.
fn means_yes(code: KeyCode) -> (r: bool)
    ensures
        r == is_yes(code),
{
    match code {
        KeyCode::Char(c) => c == 'y' || c == 'Y',
        KeyCode::Enter => true,
        _ => false,
    }
}

/// Whether a key means no, where something is to be confirmed.
fn means_no(code: KeyCode) -> (r: bool)
    ensures
        r == is_no(code),
{
    match code {
        KeyCode::Char(c) => c == 'n' || c == 'N',
        KeyCode::Esc => true,
        _ => false,
    }
}

impl App {
    /// Takes a key while a new name is typed.
    fn edit_name(
        &mut self,
        code: KeyCode,
        storage: &CommitStore,
        refs: &mut RefStore,
        config: &Option<String>,
    ) -> (r: Option<Trouble>)
        requires
            old(self).wf(),
            old(self)@.rename_mode,
            old(refs).wf(),
            storage.wf(),
        ensures
            final(self).wf(),
            final(refs).wf(),
            pressed(
                State { screen: old(self)@, refs: old(refs)@ },
                State { screen: final(self)@, refs: final(refs)@ },
                storage.store@,
                text_of(*config),
                KeyPress { code, control: false },
                trouble_of(r),
            ),
    {
        let ghost a = State { screen: self@, refs: refs@ };
        let mut r: Option<Trouble> = None;
        match code {
            KeyCode::Esc => {
                self.rename_mode = false;
                self.new_branch_name = String::new();
                assert(self@.new_name =~= Seq::empty());
            },
            KeyCode::Char(c) => {
                self.new_branch_name.push(c);
            },
            KeyCode::Backspace => {
                let v = to_chars(self.new_branch_name.as_str());
                let n: usize = v.len();
                if n > 0 {
                    self.new_branch_name = from_chars(&v, 0, n - 1);
                    assert(self@.new_name =~= a.screen.new_name.drop_last());
                }
            },
            KeyCode::Enter => {
                if !self.new_branch_name.as_str().is_empty() {
                    let name = self.new_branch_name.clone();
                    match self.rename_branch(name.as_str(), storage, refs, config) {
                        Ok(_) => {},
                        Err(e) => {
                            r = Some(e);
                        },
                    }
                    proof {
                        let c = State { screen: self@, refs: refs@ };
                        assert(renames(
                            a,
                            c,
                            storage.store@,
                            text_of(*config),
                            a.screen.new_name,
                            trouble_of(r),
                        ));
                    }
                }
                self.rename_mode = false;
                self.new_branch_name = String::new();
                assert(self@.new_name =~= Seq::empty());
                proof {
                    if a.screen.new_name.len() == 0 {
                        assert(a.screen.new_name =~= Seq::empty());
                    }
                }
            },
            _ => {},
        }
        r
    }

    /// Moves the selection in the list that has the focus.
    fn move_selection(&mut self, way: Move, storage: &CommitStore, refs: &RefStore) -> (r: Option<
        Trouble,
    >)
        requires
            old(self).wf(),
            refs.wf(),
            storage.wf(),
        ensures
            final(self).wf(),
            ({
                let (now, e) = moved(old(self)@, storage.store@, refs@, way);
                &&& final(self)@ == now
                &&& trouble_of(r) == match e {
                    Some(e) => Some(TroubleView::Commits(e)),
                    None => None,
                }
            }),
    {
        match self.focus {
            Focus::BranchList => {
                match way {
                    Move::Next => self.next(),
                    Move::Previous => self.previous(),
                    Move::First => self.go_to_top(),
                    Move::Last => self.go_to_bottom(),
                }
                match self.on_branch_selected(storage, refs) {
                    Ok(_) => None,
                    Err(e) => Some(Trouble::Commits(e)),
                }
            },
            Focus::CommitList => {
                match way {
                    Move::Next => self.next_commit(),
                    Move::Previous => self.previous_commit(),
                    Move::First => self.first_commit(),
                    Move::Last => self.last_commit(),
                }
                None
            },
        }
    }

    /// Takes a key that neither moves a selection nor switches to a branch.
    fn other_key(&mut self, key: KeyPress)
        requires
            old(self).wf(),
        ensures
            final(self).wf(),
            final(self)@ == other_key(old(self)@, key),
    {
        let (selected, other_branch): (bool, bool) = match self.selected_branch() {
            Some(b) => (true, !b.is_current),
            None => (false, false),
        };
        match key.code {
            KeyCode::Esc => {
                self.should_quit = true;
            },
            KeyCode::Right => self.focus_commits(),
            KeyCode::Left => {
                self.focus = Focus::BranchList;
            },
            KeyCode::Char(c) => {
                if c == 'q' || (c == 'c' && key.control) {
                    self.should_quit = true;
                } else if c == 'l' {
                    self.focus_commits();
                } else if c == 'h' {
                    self.focus = Focus::BranchList;
                } else if c == 'c' && other_branch {
                    self.checkout_mode = true;
                } else if c == 'd' && other_branch {
                    self.delete_mode = true;
                } else if c == 'r' && selected {
                    let name = match self.selected_branch() {
                        Some(b) => b.name.clone(),
                        None => String::new(),
                    };
                    self.rename_mode = true;
                    self.new_branch_name = name;
                }
            },
            _ => {},
        }
    }

    /// Gives the focus to the list of commits, if it has any.
    fn focus_commits(&mut self)
        requires
            old(self).wf(),
        ensures
            final(self).wf(),
            final(self)@ == (if old(self)@.focus == Focus::BranchList && commits_shown(old(self)@)
                > 0 {
                Screen { focus: Focus::CommitList, ..old(self)@ }
            } else {
                old(self)@
            }),
    {
        if self.focus == Focus::BranchList && self.shown_commits() > 0 {
            self.focus = Focus::CommitList;
        }
    }

    /// Takes a key, and says what went wrong, if something did.
    pub fn handle_key(
        &mut self,
        key: KeyPress,
        storage: &CommitStore,
        refs: &mut RefStore,
        config: &Option<String>,
    ) -> (r: Option<Trouble>)
        requires
            old(self).wf(),
            old(refs).wf(),
            storage.wf(),
        ensures
            final(self).wf(),
            final(refs).wf(),
            pressed(
                State { screen: old(self)@, refs: old(refs)@ },
                State { screen: final(self)@, refs: final(refs)@ },
                storage.store@,
                text_of(*config),
                key,
                trouble_of(r),
            ),
    {
        let ghost a = State { screen: self@, refs: refs@ };
        let mut r: Option<Trouble> = None;
        if self.rename_mode {
            return self.edit_name(key.code, storage, refs, config);
        }
        if self.checkout_mode {
            if means_yes(key.code) {
                match self.checkout_branch(refs) {
                    Ok(_) => {},
                    Err(e) => {
                        r = Some(Trouble::Branch(e));
                    },
                }
                proof {
                    let c = State { screen: self@, refs: refs@ };
                    assert(checks_out(a, c, trouble_of(r)));
                }
                self.checkout_mode = false;
            } else if means_no(key.code) {
                self.checkout_mode = false;
            }
            return r;
        }
        if self.delete_mode {
            if means_yes(key.code) {
                match self.delete_branch(refs) {
                    Ok(_) => {},
                    Err(e) => {
                        r = Some(Trouble::Branch(e));
                    },
                }
                proof {
                    let c = State { screen: self@, refs: refs@ };
                    assert(deletes(a, c, trouble_of(r)));
                }
                self.delete_mode = false;
            } else if means_no(key.code) {
                self.delete_mode = false;
            }
            return r;
        }
        if key.code == KeyCode::Enter {
            match self.checkout_branch(refs) {
                Ok(_) => {},
                Err(e) => {
                    r = Some(Trouble::Branch(e));
                },
            }
            return r;
        }
        match move_for(key.code) {
            Some(way) => self.move_selection(way, storage, refs),
            None => {
                self.other_key(key);
                None
            },
        }
    }
}

/// Taking the selected branch out leaves another one, if there is another, and
/// no branch twice.
proof fn lemma_without(v: Seq<BranchView>, name: Seq<char>, i: int)
    requires
        0 <= i < v.len(),
        v[i].name == name,
        listed_names(v).no_duplicates(),
    ensures
        i > 0 ==> without_name(v, name).len() > 0,
        listed_names(without_name(v, name)).no_duplicates(),
{
    lemma_without_from(v, name);
    if i > 0 {
        assert(listed_names(v)[0] != listed_names(v)[i]);
        lemma_without_keeps(v, name, 0);
    }
}

/// What is left comes from the list, and no name comes twice.
proof fn lemma_without_from(v: Seq<BranchView>, name: Seq<char>)
    requires
        listed_names(v).no_duplicates(),
    ensures
        listed_names(without_name(v, name)).no_duplicates(),
        forall|k: int|
            0 <= k < without_name(v, name).len() ==> v.contains(
                #[trigger] without_name(v, name)[k],
            ),
    decreases v.len(),
{
    if v.len() > 0 {
        let d = v.drop_last();
        let w = without_name(d, name);
        assert forall|i: int, j: int|
            0 <= i < d.len() && 0 <= j < d.len() && i != j implies listed_names(d)[i]
            != listed_names(d)[j] by {
            assert(listed_names(v)[i] != listed_names(v)[j]);
        }
        lemma_without_from(d, name);
        assert forall|k: int| 0 <= k < w.len() implies v.contains(#[trigger] w[k]) && w[k].name
            != v.last().name by {
            let j = choose|j: int| 0 <= j < d.len() && d[j] == w[k];
            assert(v[j] == w[k]);
            assert(listed_names(v)[j] != listed_names(v)[v.len() - 1]);
        }
        assert(v.contains(v.last())) by {
            assert(v[v.len() - 1] == v.last());
        }
        let u = without_name(v, name);
        assert forall|i: int, j: int|
            0 <= i < u.len() && 0 <= j < u.len() && i != j implies listed_names(u)[i]
            != listed_names(u)[j] by {
            if i < w.len() && j < w.len() {
                assert(listed_names(w)[i] != listed_names(w)[j]);
            } else if i < w.len() {
                assert(w[i].name != v.last().name);
            } else {
                assert(w[j].name != v.last().name);
            }
        }
    }
}

proof fn lemma_without_keeps(v: Seq<BranchView>, name: Seq<char>, j: int)
    requires
        0 <= j < v.len(),
        v[j].name != name,
    ensures
        without_name(v, name).len() > 0,
    decreases v.len(),
{
    if j < v.len() - 1 {
        lemma_without_keeps(v.drop_last(), name, j);
    }
}

/// No key deletes the current branch: where it is selected, the view and the
/// references stay as they are.
pub proof fn current_branch_is_safe(a: State, b: State, t: Option<TroubleView>)
    requires
        a.screen.selected < a.screen.branches.len(),
        a.screen.branches[a.screen.selected].is_current,
        deletes(a, b, t),
    ensures
        b == a,
{
}

/// The next branch and then the one before is the branch that was selected, and
/// the other way round.
pub proof fn next_then_previous(s: Screen)
    requires
        is_valid(s),
    ensures
        previous_branch(next_branch(s)).selected == s.selected,
        next_branch(previous_branch(s)).selected == s.selected,
{
}

/// A key that only moves the selection, or is refused, changes no reference.
pub proof fn moving_changes_no_reference(
    a: State,
    b: State,
    m: Objects,
    config: Option<Seq<char>>,
    key: KeyPress,
    t: Option<TroubleView>,
)
    requires
        pressed(a, b, m, config, key, t),
        !a.screen.rename_mode && !a.screen.checkout_mode && !a.screen.delete_mode,
        key.code != KeyCode::Enter,
    ensures
        b.refs == a.refs,
{
}

} // verus!
