//! The state of the view, and what each action does to it.
use vstd::prelude::*;
use vstd::string::*;

use crate::hash::ObjectId;
use crate::keys::KeyPress;
use crate::merge_command::{
    analyze_merge, commit_grounded, execute_merge, is_analysis, is_executed, merge_sides,
    ConflictResolution, ConflictView, MergeAnalysis, MergeConflict, MergeError, MergeResult,
};
use crate::merge_tui::actions::{action_for, key_action, Action};
use crate::object_store::{ObjectStore, ObjectType, Objects};
use crate::text_map::TextMap;

verus! {

/// A conflict that is being decided.
#[derive(Debug)]
pub struct ConflictState {
    pub conflict: MergeConflict,
    pub resolution: Option<ConflictResolution>,
    pub target_content: Vec<u8>,
    pub sandbox_content: Vec<u8>,
    pub base_content: Option<Vec<u8>>,
    pub expanded: bool,
}

/// A decision, with its content as bytes.
pub enum Decision {
    TakeTarget,
    TakeSandbox,
    TakeBase,
    Merged(Seq<u8>),
    Delete,
}

/// The decision that a resolution stands for.
pub open spec fn decision(r: ConflictResolution) -> Decision {
    match r {
        ConflictResolution::TakeTarget => Decision::TakeTarget,
        ConflictResolution::TakeSandbox => Decision::TakeSandbox,
        ConflictResolution::TakeBase => Decision::TakeBase,
        ConflictResolution::Merged(b) => Decision::Merged(b@),
        ConflictResolution::Delete => Decision::Delete,
    }
}

/// A conflict that is being decided, with texts and contents as sequences.
pub struct StateView {
    pub conflict: ConflictView,
    pub resolution: Option<Decision>,
    pub target_content: Seq<u8>,
    pub sandbox_content: Seq<u8>,
    pub base_content: Option<Seq<u8>>,
    pub expanded: bool,
}

impl View for ConflictState {
    type V = StateView;

    open spec fn view(&self) -> StateView {
        StateView {
            conflict: self.conflict@,
            resolution: match self.resolution {
                Some(r) => Some(decision(r)),
                None => None,
            },
            target_content: self.target_content@,
            sandbox_content: self.sandbox_content@,
            base_content: match self.base_content {
                Some(b) => Some(b@),
                None => None,
            },
            expanded: self.expanded,
        }
    }
}

pub open spec fn state_views(v: Seq<ConflictState>) -> Seq<StateView> {
    Seq::new(v.len(), |i: int| v[i]@)
}

/// The state of the view.
#[derive(Debug)]
pub struct App {
    pub repo_path: String,
    pub target_branch: String,
    pub sandbox_name: String,
    pub base_commit: ObjectId,
    pub target_commit: ObjectId,
    pub sandbox_commit: ObjectId,
    pub analysis: MergeAnalysis,
    pub conflicts: Vec<ConflictState>,
    pub selected_conflict: usize,
    /// The first conflict that is shown.
    pub scroll_offset: usize,
    pub visible_height: usize,
    pub should_quit: bool,
    pub should_cancel: bool,
    pub show_help: bool,
    pub author: String,
    /// The first line of the contents that is shown.
    pub diff_scroll: usize,
    pub diff_max_scroll: usize,
}

/// What changes while conflicts are being decided.
pub struct Screen {
    pub conflicts: Seq<StateView>,
    pub selected: int,
    pub scroll_offset: int,
    pub visible_height: int,
    pub should_quit: bool,
    pub should_cancel: bool,
    pub show_help: bool,
    pub diff_scroll: int,
    pub diff_max_scroll: int,
}

impl View for App {
    type V = Screen;

    open spec fn view(&self) -> Screen {
        Screen {
            conflicts: state_views(self.conflicts@),
            selected: self.selected_conflict as int,
            scroll_offset: self.scroll_offset as int,
            visible_height: self.visible_height as int,
            should_quit: self.should_quit,
            should_cancel: self.should_cancel,
            show_help: self.show_help,
            diff_scroll: self.diff_scroll as int,
            diff_max_scroll: self.diff_max_scroll as int,
        }
    }
}

/// Whether two states are of one merge.
pub open spec fn same_merge(a: App, b: App) -> bool {
    &&& a.repo_path == b.repo_path
    &&& a.target_branch == b.target_branch
    &&& a.sandbox_name == b.sandbox_name
    &&& a.base_commit == b.base_commit
    &&& a.target_commit == b.target_commit
    &&& a.sandbox_commit == b.sandbox_commit
    &&& a.analysis == b.analysis
    &&& a.author == b.author
}

/// The conflict from `from` on, and before `to`, that is first undecided.
pub open spec fn first_undecided(cs: Seq<StateView>, from: int, to: int) -> Option<int>
    decreases to - from,
{
    if from >= to {
        None
    } else if cs[from].resolution is None {
        Some(from)
    } else {
        first_undecided(cs, from + 1, to)
    }
}

/// The conflict from `from` on, and before `to`, that is last undecided.
pub open spec fn last_undecided(cs: Seq<StateView>, from: int, to: int) -> Option<int>
    decreases to - from,
{
    if from >= to {
        None
    } else if cs[to - 1].resolution is None {
        Some(to - 1)
    } else {
        last_undecided(cs, from, to - 1)
    }
}

/// The undecided conflict that follows `at`, from the last one on to the first.
pub open spec fn next_undecided(cs: Seq<StateView>, at: int) -> Option<int> {
    match first_undecided(cs, at + 1, cs.len() as int) {
        Some(i) => Some(i),
        None => first_undecided(cs, 0, at),
    }
}

/// The undecided conflict before `at`, from the first one on to the last.
pub open spec fn previous_undecided(cs: Seq<StateView>, at: int) -> Option<int> {
    match last_undecided(cs, 0, at) {
        Some(i) => Some(i),
        None => last_undecided(cs, at + 1, cs.len() as int),
    }
}

/// The first row to show, so that the selected one is among those shown.
pub open spec fn scrolled(offset: int, selected: int, height: int) -> int {
    let h = if height < 1 {
        1
    } else {
        height
    };
    if selected < offset {
        selected
    } else if selected >= offset + h {
        selected - (h - 1)
    } else {
        offset
    }
}

/// The view with another conflict selected.
pub open spec fn selecting(s: Screen, i: int) -> Screen {
    Screen {
        selected: i,
        diff_scroll: 0,
        scroll_offset: scrolled(s.scroll_offset, i, s.visible_height),
        ..s
    }
}

/// The view with a conflict selected, if there is one to select.
pub open spec fn selecting_any(s: Screen, i: Option<int>) -> Screen {
    match i {
        Some(i) => selecting(s, i),
        None => s,
    }
}

/// The view with the selected conflict decided and the next undecided one
/// selected.
pub open spec fn deciding(s: Screen, d: Decision) -> Screen {
    let t = if s.selected < s.conflicts.len() {
        Screen {
            conflicts: s.conflicts.update(
                s.selected,
                StateView { resolution: Some(d), ..s.conflicts[s.selected] },
            ),
            ..s
        }
    } else {
        s
    };
    selecting_any(t, next_undecided(t.conflicts, t.selected))
}

/// Both contents, the target first, each on its own lines.
pub open spec fn both_contents(c: StateView) -> Seq<u8> {
    let t = c.target_content;
    if t.len() > 0 && t.last() != 10 {
        t.push(10) + c.sandbox_content
    } else {
        t + c.sandbox_content
    }
}

/// Whether every conflict is decided.
pub open spec fn is_decided(cs: Seq<StateView>) -> bool {
    forall|i: int| 0 <= i < cs.len() ==> (#[trigger] cs[i]).resolution is Some
}

/// How many conflicts are decided.
pub open spec fn decided_count(cs: Seq<StateView>) -> nat
    decreases cs.len(),
{
    if cs.len() == 0 {
        0
    } else if cs.last().resolution is Some {
        decided_count(cs.drop_last()) + 1
    } else {
        decided_count(cs.drop_last())
    }
}

/// What an action does to the view.
pub open spec fn acted(s: Screen, action: Action) -> Screen {
    match action {
        Action::Quit => Screen { should_quit: true, ..s },
        Action::Cancel => Screen { should_cancel: true, ..s },
        Action::NextConflict => if s.selected < s.conflicts.len() - 1 {
            selecting(s, s.selected + 1)
        } else {
            s
        },
        Action::PrevConflict => if s.selected > 0 {
            selecting(s, s.selected - 1)
        } else {
            s
        },
        Action::NextUnresolved => selecting_any(s, next_undecided(s.conflicts, s.selected)),
        Action::PrevUnresolved => selecting_any(s, previous_undecided(s.conflicts, s.selected)),
        Action::ScrollDiffUp => Screen {
            diff_scroll: if s.diff_scroll > 0 {
                s.diff_scroll - 1
            } else {
                0
            },
            ..s
        },
        Action::ScrollDiffDown => if s.diff_scroll < s.diff_max_scroll {
            Screen { diff_scroll: s.diff_scroll + 1, ..s }
        } else {
            s
        },
        Action::ScrollDiffPageUp => Screen {
            diff_scroll: if s.diff_scroll > 10 {
                s.diff_scroll - 10
            } else {
                0
            },
            ..s
        },
        Action::ScrollDiffPageDown => Screen {
            diff_scroll: if s.diff_scroll + 10 < s.diff_max_scroll {
                s.diff_scroll + 10
            } else {
                s.diff_max_scroll
            },
            ..s
        },
        Action::ScrollDiffTop => Screen { diff_scroll: 0, ..s },
        Action::ScrollDiffBottom => Screen { diff_scroll: s.diff_max_scroll, ..s },
        Action::TakeTarget => deciding(s, Decision::TakeTarget),
        Action::TakeSandbox => deciding(s, Decision::TakeSandbox),
        Action::TakeBase => if s.selected < s.conflicts.len()
            && s.conflicts[s.selected].base_content is Some {
            deciding(s, Decision::TakeBase)
        } else {
            s
        },
        Action::TakeBoth => if s.selected < s.conflicts.len() {
            deciding(s, Decision::Merged(both_contents(s.conflicts[s.selected])))
        } else {
            selecting_any(s, next_undecided(s.conflicts, s.selected))
        },
        Action::ToggleExpand => if s.selected < s.conflicts.len() {
            let c = s.conflicts[s.selected];
            Screen {
                conflicts: s.conflicts.update(
                    s.selected,
                    StateView { expanded: !c.expanded, ..c },
                ),
                ..s
            }
        } else {
            s
        },
        Action::Confirm => if is_decided(s.conflicts) {
            Screen { should_quit: true, ..s }
        } else {
            s
        },
        Action::ToggleHelp => Screen { show_help: !s.show_help, ..s },
    }
}

/// What a key does to the view: any key closes the help.
pub open spec fn pressed(s: Screen, key: KeyPress) -> Screen {
    if s.show_help {
        Screen { show_help: false, ..s }
    } else {
        match key_action(key) {
            Some(a) => acted(s, a),
            None => s,
        }
    }
}

/// What to do after a turn of the view.
#[derive(Debug, Clone, Copy, PartialEq, Eq, Structural)]
pub enum Outcome {
    Continue,
    /// Leave without merging.
    Cancelled,
    /// Leave and merge.
    Merge,
}

/// What to do after a turn of the view.
pub open spec fn outcome_of(s: Screen) -> Outcome {
    if s.should_cancel {
        Outcome::Cancelled
    } else if s.should_quit && is_decided(s.conflicts) {
        Outcome::Merge
    } else {
        Outcome::Continue
    }
}

/// The stored contents of a side of a conflict, if it has a file that is stored.
pub open spec fn side_content(m: Objects, h: Option<ObjectId>) -> Option<Seq<u8>> {
    match h {
        Some(h) => if m.contains_key((ObjectType::Blob, h@)) {
            Some(m[(ObjectType::Blob, h@)])
        } else {
            None
        },
        None => None,
    }
}

/// The stored contents of a side of a conflict; empty where there are none.
pub open spec fn content_or_empty(m: Objects, h: Option<ObjectId>) -> Seq<u8> {
    match side_content(m, h) {
        Some(b) => b,
        None => Seq::empty(),
    }
}

/// A conflict that nobody has looked at, with the stored contents of its sides.
pub open spec fn open_state(m: Objects, c: ConflictView) -> StateView {
    StateView {
        conflict: c,
        resolution: None,
        target_content: content_or_empty(m, c.target),
        sandbox_content: content_or_empty(m, c.sandbox),
        base_content: side_content(m, c.base),
        expanded: false,
    }
}

/// The stored contents of a side of a conflict.
fn read_side(store: &ObjectStore, h: &Option<ObjectId>) -> (r: Option<Vec<u8>>)
    requires
        store.wf(),
    ensures
        match r {
            Some(b) => side_content(store@, *h) == Some(b@),
            None => side_content(store@, *h) is None,
        },
{
    match h {
        Some(h) => match store.read_object(ObjectType::Blob, h) {
            Some(b) => {
                let c = b.clone();
                assert(c@ =~= b@);
                Some(c)
            },
            None => None,
        },
        None => None,
    }
}

/// The stored contents of a side of a conflict; empty where there are none.
fn read_side_or_empty(store: &ObjectStore, h: &Option<ObjectId>) -> (r: Vec<u8>)
    requires
        store.wf(),
    ensures
        r@ == content_or_empty(store@, *h),
{
    match read_side(store, h) {
        Some(b) => b,
        None => {
            let e: Vec<u8> = Vec::new();
            assert(e@ =~= Seq::empty());
            e
        },
    }
}

/// A copy of a conflict.
fn copy_conflict(c: &MergeConflict) -> (r: MergeConflict)
    ensures
        r@ == c@,
{
    MergeConflict {
        path: c.path.clone(),
        base: c.base,
        target: c.target,
        sandbox: c.sandbox,
        conflict_type: c.conflict_type,
    }
}

/// A copy of a decision.
fn copy_resolution(r: &ConflictResolution) -> (c: ConflictResolution)
    ensures
        decision(c) == decision(*r),
{
    match r {
        ConflictResolution::TakeTarget => ConflictResolution::TakeTarget,
        ConflictResolution::TakeSandbox => ConflictResolution::TakeSandbox,
        ConflictResolution::TakeBase => ConflictResolution::TakeBase,
        ConflictResolution::Merged(b) => {
            let d = b.clone();
            assert(d@ =~= b@);
            ConflictResolution::Merged(d)
        },
        ConflictResolution::Delete => ConflictResolution::Delete,
    }
}

/// The decisions that were taken, by path; of two for one path, the later one.
pub open spec fn decisions(cs: Seq<StateView>) -> Map<Seq<char>, Decision>
    decreases cs.len(),
{
    if cs.len() == 0 {
        Map::empty()
    } else {
        let before = decisions(cs.drop_last());
        match cs.last().resolution {
            Some(d) => before.insert(cs.last().conflict.path, d),
            None => before,
        }
    }
}

/// The decisions in a map.
pub open spec fn decided_map(m: Map<Seq<char>, ConflictResolution>) -> Map<Seq<char>, Decision> {
    m.map_values(|r: ConflictResolution| decision(r))
}

/// The message of the commit of a merge.
pub open spec fn merge_message(sandbox: Seq<char>, target: Seq<char>) -> Seq<char> {
    "Merge sandbox '"@ + sandbox + "' into '"@ + target + "'"@
}

impl App {
    /// Analyses a merge, and shows its conflicts: none is decided, and the first is
    /// selected.
    pub fn new(
        store: &ObjectStore,
        repo_path: &str,
        target_branch: &str,
        sandbox_name: &str,
        base_commit: ObjectId,
        target_commit: ObjectId,
        sandbox_commit: ObjectId,
        author: &str,
    ) -> (r: Result<App, MergeError>)
        requires
            store.wf(),
            commit_grounded(store@, base_commit@),
            commit_grounded(store@, target_commit@),
            commit_grounded(store@, sandbox_commit@),
        ensures
            match merge_sides(store@, base_commit@, target_commit@, sandbox_commit@) {
                Err(f) => r matches Err(e) && e@ == f,
                Ok((b, t, s)) => {
                    &&& r matches Ok(app)
                    &&& is_analysis(app.analysis, b, t, s)
                    &&& app.repo_path@ == repo_path@
                    &&& app.target_branch@ == target_branch@
                    &&& app.sandbox_name@ == sandbox_name@
                    &&& app.base_commit == base_commit
                    &&& app.target_commit == target_commit
                    &&& app.sandbox_commit == sandbox_commit
                    &&& app.author@ == author@
                    &&& app@ == (Screen {
                        conflicts: Seq::new(
                            app.analysis.conflicts@.len(),
                            |i: int| open_state(store@, app.analysis.conflicts@[i]@),
                        ),
                        selected: 0,
                        scroll_offset: 0,
                        visible_height: 20,
                        should_quit: false,
                        should_cancel: false,
                        show_help: false,
                        diff_scroll: 0,
                        diff_max_scroll: 0,
                    })
                },
            },
    {
        let analysis = match analyze_merge(store, &base_commit, &target_commit, &sandbox_commit) {
            Ok(a) => a,
            Err(e) => return Err(e),
        };
        let mut conflicts: Vec<ConflictState> = Vec::new();
        let mut i: usize = 0;
        while i < analysis.conflicts.len()
            invariant
                i <= analysis.conflicts.len(),
                store.wf(),
                conflicts@.len() == i,
                forall|j: int|
                    0 <= j < i ==> (#[trigger] conflicts@[j])@ == open_state(
                        store@,
                        analysis.conflicts@[j]@,
                    ),
            decreases analysis.conflicts.len() - i,
        {
            let c = &analysis.conflicts[i];
            let state = ConflictState {
                conflict: copy_conflict(c),
                resolution: None,
                target_content: read_side_or_empty(store, &c.target),
                sandbox_content: read_side_or_empty(store, &c.sandbox),
                base_content: read_side(store, &c.base),
                expanded: false,
            };
            assert(state@ == open_state(store@, c@));
            conflicts.push(state);
            i += 1;
        }
        proof {
            assert(state_views(conflicts@) =~= Seq::new(
                analysis.conflicts@.len(),
                |i: int| open_state(store@, analysis.conflicts@[i]@),
            ));
        }
        Ok(
            App {
                repo_path: repo_path.to_owned(),
                target_branch: target_branch.to_owned(),
                sandbox_name: sandbox_name.to_owned(),
                base_commit,
                target_commit,
                sandbox_commit,
                analysis,
                conflicts,
                selected_conflict: 0,
                scroll_offset: 0,
                visible_height: 20,
                should_quit: false,
                should_cancel: false,
                show_help: false,
                author: author.to_owned(),
                diff_scroll: 0,
                diff_max_scroll: 0,
            },
        )
    }

    pub fn has_conflicts(&self) -> (r: bool)
        ensures
            r == (self@.conflicts.len() > 0),
    {
        self.conflicts.len() > 0
    }

    /// Whether every conflict is decided.
    pub fn all_resolved(&self) -> (r: bool)
        ensures
            r == is_decided(self@.conflicts),
    {
        let mut i: usize = 0;
        while i < self.conflicts.len()
            invariant
                i <= self.conflicts.len(),
                forall|j: int| 0 <= j < i ==> (#[trigger] self@.conflicts[j]).resolution is Some,
            decreases self.conflicts.len() - i,
        {
            assert(self@.conflicts[i as int] == self.conflicts@[i as int]@);
            if self.conflicts[i].resolution.is_none() {
                return false;
            }
            i += 1;
        }
        true
    }

    /// How many conflicts are decided.
    pub fn resolved_count(&self) -> (r: usize)
        ensures
            r == decided_count(self@.conflicts),
    {
        let ghost cs = self@.conflicts;
        let mut n: usize = 0;
        let mut i: usize = 0;
        while i < self.conflicts.len()
            invariant
                i <= self.conflicts.len(),
                n <= i,
                cs == self@.conflicts,
                n == decided_count(cs.subrange(0, i as int)),
            decreases self.conflicts.len() - i,
        {
            proof {
                let t = cs.subrange(0, i + 1);
                assert(t.drop_last() =~= cs.subrange(0, i as int));
                assert(t.last() == self.conflicts@[i as int]@);
            }
            if self.conflicts[i].resolution.is_some() {
                n += 1;
            }
            i += 1;
        }
        assert(cs.subrange(0, i as int) =~= cs);
        n
    }

    /// The selected conflict.
    pub fn selected_conflict(&self) -> (r: Option<&ConflictState>)
        ensures
            match r {
                Some(c) => self@.selected < self@.conflicts.len() && c@
                    == self@.conflicts[self@.selected],
                None => self@.selected >= self@.conflicts.len(),
            },
    {
        if self.selected_conflict < self.conflicts.len() {
            Some(&self.conflicts[self.selected_conflict])
        } else {
            None
        }
    }

    /// Fits the view to the terminal: ten rows are taken by other things.
    pub fn update_visible_height(&mut self, terminal_height: u16)
        ensures
            same_merge(*old(self), *final(self)),
            final(self)@ == (Screen {
                visible_height: if terminal_height > 10 {
                    terminal_height - 10
                } else {
                    0
                },
                ..old(self)@
            }),
    {
        self.visible_height = if terminal_height > 10 {
            (terminal_height - 10) as usize
        } else {
            0
        };
    }

    /// Shows the selected conflict.
    fn adjust_scroll(&mut self)
        ensures
            same_merge(*old(self), *final(self)),
            final(self)@ == (Screen {
                scroll_offset: scrolled(
                    old(self)@.scroll_offset,
                    old(self)@.selected,
                    old(self)@.visible_height,
                ),
                ..old(self)@
            }),
    {
        let height: usize = if self.visible_height < 1 {
            1
        } else {
            self.visible_height
        };
        if self.selected_conflict < self.scroll_offset {
            self.scroll_offset = self.selected_conflict;
        } else if self.selected_conflict - self.scroll_offset >= height {
            self.scroll_offset = self.selected_conflict - (height - 1);
        }
    }

    /// Selects a conflict.
    fn select(&mut self, i: usize)
        ensures
            same_merge(*old(self), *final(self)),
            final(self)@ == selecting(old(self)@, i as int),
    {
        self.selected_conflict = i;
        self.diff_scroll = 0;
        self.adjust_scroll();
    }

    pub fn select_next_conflict(&mut self)
        ensures
            same_merge(*old(self), *final(self)),
            final(self)@ == acted(old(self)@, Action::NextConflict),
    {
        if self.conflicts.len() > 0 && self.selected_conflict < self.conflicts.len() - 1 {
            self.select(self.selected_conflict + 1);
        }
    }

    pub fn select_prev_conflict(&mut self)
        ensures
            same_merge(*old(self), *final(self)),
            final(self)@ == acted(old(self)@, Action::PrevConflict),
    {
        if self.selected_conflict > 0 {
            self.select(self.selected_conflict - 1);
        }
    }

    /// The conflict from `from` on, and before `to`, that is first undecided.
    fn find_first(&self, from: usize, to: usize) -> (r: Option<usize>)
        requires
            to <= self.conflicts@.len(),
        ensures
            match r {
                Some(i) => first_undecided(self@.conflicts, from as int, to as int) == Some(
                    i as int,
                ),
                None => first_undecided(self@.conflicts, from as int, to as int) is None,
            },
    {
        let ghost all = first_undecided(self@.conflicts, from as int, to as int);
        let mut i: usize = from;
        while i < to
            invariant
                to <= self.conflicts@.len(),
                all == first_undecided(self@.conflicts, i as int, to as int),
                all == first_undecided(self@.conflicts, from as int, to as int),
            decreases to - i,
        {
            assert(self@.conflicts[i as int] == self.conflicts@[i as int]@);
            if self.conflicts[i].resolution.is_none() {
                return Some(i);
            }
            i += 1;
        }
        None
    }

    /// The conflict from `from` on, and before `to`, that is last undecided.
    fn find_last(&self, from: usize, to: usize) -> (r: Option<usize>)
        requires
            to <= self.conflicts@.len(),
        ensures
            match r {
                Some(i) => last_undecided(self@.conflicts, from as int, to as int) == Some(i as int),
                None => last_undecided(self@.conflicts, from as int, to as int) is None,
            },
    {
        let ghost all = last_undecided(self@.conflicts, from as int, to as int);
        let mut i: usize = to;
        while i > from
            invariant
                i <= to <= self.conflicts@.len(),
                all == last_undecided(self@.conflicts, from as int, i as int),
                all == last_undecided(self@.conflicts, from as int, to as int),
            decreases i,
        {
            assert(self@.conflicts[i - 1] == self.conflicts@[i - 1]@);
            if self.conflicts[i - 1].resolution.is_none() {
                return Some(i - 1);
            }
            i -= 1;
        }
        None
    }

    /// Selects the undecided conflict that follows, from the last on to the first.
    pub fn select_next_unresolved(&mut self)
        requires
            old(self).selected_conflict <= old(self).conflicts@.len(),
        ensures
            same_merge(*old(self), *final(self)),
            final(self)@ == acted(old(self)@, Action::NextUnresolved),
    {
        let start: usize = self.selected_conflict;
        let len: usize = self.conflicts.len();
        let found = if start < len {
            self.find_first(start + 1, len)
        } else {
            None
        };
        match found {
            Some(i) => self.select(i),
            None => match self.find_first(0, start) {
                Some(i) => self.select(i),
                None => {},
            },
        }
    }

    /// Selects the undecided conflict before, from the first on to the last.
    pub fn select_prev_unresolved(&mut self)
        requires
            old(self).selected_conflict <= old(self).conflicts@.len(),
        ensures
            same_merge(*old(self), *final(self)),
            final(self)@ == acted(old(self)@, Action::PrevUnresolved),
    {
        let start: usize = self.selected_conflict;
        let len: usize = self.conflicts.len();
        match self.find_last(0, start) {
            Some(i) => self.select(i),
            None => {
                if start < len {
                    match self.find_last(start + 1, len) {
                        Some(i) => self.select(i),
                        None => {},
                    }
                }
            },
        }
    }

    /// Decides the selected conflict, and goes on to the next that is undecided.
    pub fn resolve_current(&mut self, resolution: ConflictResolution)
        requires
            old(self).selected_conflict <= old(self).conflicts@.len(),
        ensures
            same_merge(*old(self), *final(self)),
            final(self)@ == deciding(old(self)@, decision(resolution)),
    {
        if self.selected_conflict < self.conflicts.len() {
            let ghost before = self@;
            let i: usize = self.selected_conflict;
            self.conflicts[i].resolution = Some(resolution);
            assert(self@.conflicts =~= before.conflicts.update(
                i as int,
                StateView { resolution: Some(decision(resolution)), ..before.conflicts[i as int] },
            ));
        }
        self.select_next_unresolved();
    }

    /// Decides the selected conflict for both contents, the target first.
    pub fn resolve_current_with_both(&mut self)
        requires
            old(self).selected_conflict <= old(self).conflicts@.len(),
        ensures
            same_merge(*old(self), *final(self)),
            final(self)@ == acted(old(self)@, Action::TakeBoth),
    {
        if self.selected_conflict < self.conflicts.len() {
            let i: usize = self.selected_conflict;
            let c = &self.conflicts[i];
            let mut merged = c.target_content.clone();
            let n: usize = merged.len();
            if n > 0 && merged[n - 1] != 10 {
                merged.push(10);
            }
            merged.extend_from_slice(c.sandbox_content.as_slice());
            assert(merged@ =~= both_contents(self@.conflicts[i as int]));
            self.resolve_current(ConflictResolution::Merged(merged));
        } else {
            self.select_next_unresolved();
        }
    }

    pub fn toggle_expanded(&mut self)
        ensures
            same_merge(*old(self), *final(self)),
            final(self)@ == acted(old(self)@, Action::ToggleExpand),
    {
        if self.selected_conflict < self.conflicts.len() {
            let ghost before = self@;
            let i: usize = self.selected_conflict;
            let now: bool = !self.conflicts[i].expanded;
            self.conflicts[i].expanded = now;
            assert(self@.conflicts =~= before.conflicts.update(
                i as int,
                StateView { expanded: now, ..before.conflicts[i as int] },
            ));
        }
    }

    /// Carries out an action.
    pub fn handle_action(&mut self, action: Action)
        requires
            old(self).selected_conflict <= old(self).conflicts@.len(),
        ensures
            same_merge(*old(self), *final(self)),
            final(self)@ == acted(old(self)@, action),
    {
        match action {
            Action::Quit => {
                self.should_quit = true;
            },
            Action::Cancel => {
                self.should_cancel = true;
            },
            Action::NextConflict => self.select_next_conflict(),
            Action::PrevConflict => self.select_prev_conflict(),
            Action::NextUnresolved => self.select_next_unresolved(),
            Action::PrevUnresolved => self.select_prev_unresolved(),
            Action::ScrollDiffUp => self.scroll_diff_up(),
            Action::ScrollDiffDown => self.scroll_diff_down(),
            Action::ScrollDiffPageUp => self.scroll_diff_page_up(),
            Action::ScrollDiffPageDown => self.scroll_diff_page_down(),
            Action::ScrollDiffTop => self.scroll_diff_top(),
            Action::ScrollDiffBottom => self.scroll_diff_bottom(),
            Action::TakeTarget => self.resolve_current(ConflictResolution::TakeTarget),
            Action::TakeSandbox => self.resolve_current(ConflictResolution::TakeSandbox),
            Action::TakeBase => {
                let has_base: bool = match self.selected_conflict() {
                    Some(c) => c.base_content.is_some(),
                    None => false,
                };
                if has_base {
                    self.resolve_current(ConflictResolution::TakeBase);
                }
            },
            Action::TakeBoth => self.resolve_current_with_both(),
            Action::ToggleExpand => self.toggle_expanded(),
            Action::Confirm => {
                if self.all_resolved() {
                    self.should_quit = true;
                }
            },
            Action::ToggleHelp => {
                self.show_help = !self.show_help;
            },
        }
    }

    pub fn scroll_diff_up(&mut self)
        ensures
            same_merge(*old(self), *final(self)),
            final(self)@ == acted(old(self)@, Action::ScrollDiffUp),
    {
        if self.diff_scroll > 0 {
            self.diff_scroll = self.diff_scroll - 1;
        }
    }

    pub fn scroll_diff_down(&mut self)
        ensures
            same_merge(*old(self), *final(self)),
            final(self)@ == acted(old(self)@, Action::ScrollDiffDown),
    {
        if self.diff_scroll < self.diff_max_scroll {
            self.diff_scroll = self.diff_scroll + 1;
        }
    }

    pub fn scroll_diff_page_up(&mut self)
        ensures
            same_merge(*old(self), *final(self)),
            final(self)@ == acted(old(self)@, Action::ScrollDiffPageUp),
    {
        self.diff_scroll = if self.diff_scroll > 10 {
            self.diff_scroll - 10
        } else {
            0
        };
    }

    pub fn scroll_diff_page_down(&mut self)
        ensures
            same_merge(*old(self), *final(self)),
            final(self)@ == acted(old(self)@, Action::ScrollDiffPageDown),
    {
        self.diff_scroll = if self.diff_scroll < self.diff_max_scroll && self.diff_max_scroll
            - self.diff_scroll > 10 {
            self.diff_scroll + 10
        } else {
            self.diff_max_scroll
        };
    }

    pub fn scroll_diff_top(&mut self)
        ensures
            same_merge(*old(self), *final(self)),
            final(self)@ == acted(old(self)@, Action::ScrollDiffTop),
    {
        self.diff_scroll = 0;
    }

    pub fn scroll_diff_bottom(&mut self)
        ensures
            same_merge(*old(self), *final(self)),
            final(self)@ == acted(old(self)@, Action::ScrollDiffBottom),
    {
        self.diff_scroll = self.diff_max_scroll;
    }

    /// Takes a key.
    pub fn handle_key(&mut self, key: KeyPress)
        requires
            old(self).selected_conflict <= old(self).conflicts@.len(),
        ensures
            same_merge(*old(self), *final(self)),
            final(self)@ == pressed(old(self)@, key),
    {
        if self.show_help {
            self.show_help = false;
        } else {
            match action_for(key) {
                Some(a) => self.handle_action(a),
                None => {},
            }
        }
    }

    /// What to do after a turn of the view: leave without merging where that was
    /// asked for, and merge only once every conflict is decided.
    pub fn outcome(&self) -> (r: Outcome)
        ensures
            r == outcome_of(self@),
    {
        if self.should_cancel {
            Outcome::Cancelled
        } else if self.should_quit && self.all_resolved() {
            Outcome::Merge
        } else {
            Outcome::Continue
        }
    }

    /// The decisions that were taken, by path.
    fn resolutions(&self) -> (r: TextMap<ConflictResolution>)
        ensures
            r.wf(),
            decided_map(r@) == decisions(self@.conflicts),
    {
        let ghost cs = self@.conflicts;
        let mut m: TextMap<ConflictResolution> = TextMap::new();
        let mut i: usize = 0;
        assert(decided_map(m@) =~= decisions(cs.subrange(0, 0)));
        while i < self.conflicts.len()
            invariant
                i <= self.conflicts.len(),
                m.wf(),
                cs == self@.conflicts,
                decided_map(m@) == decisions(cs.subrange(0, i as int)),
            decreases self.conflicts.len() - i,
        {
            let c = &self.conflicts[i];
            proof {
                let t = cs.subrange(0, i + 1);
                assert(t.drop_last() =~= cs.subrange(0, i as int));
                assert(t.last() == c@);
            }
            match &c.resolution {
                Some(r) => {
                    let ghost before = m@;
                    let d = copy_resolution(r);
                    m.insert(c.conflict.path.clone(), d);
                    assert(decided_map(m@) =~= decided_map(before).insert(
                        c.conflict.path@,
                        decision(d),
                    ));
                },
                None => {},
            }
            i += 1;
        }
        assert(cs.subrange(0, i as int) =~= cs);
        m
    }

    /// Merges as it was decided.
    pub fn execute(&self, store: &mut ObjectStore, now: u64) -> (r: Result<MergeResult, MergeError>)
        requires
            old(store).wf(),
            self.analysis.base_tree.wf(),
            self.analysis.auto_resolved@.len() + self.analysis.conflicts@.len() <= usize::MAX,
        ensures
            final(store).wf(),
            exists|res: Map<Seq<char>, ConflictResolution>| #[trigger]
                decided_map(res) == decisions(self@.conflicts) && is_executed(
                    old(store)@,
                    final(store)@,
                    self.analysis,
                    res,
                    self.target_commit@,
                    self.sandbox_commit@,
                    self.author@,
                    merge_message(self.sandbox_name@, self.target_branch@),
                    now,
                    r,
                ),
    {
        let resolutions = self.resolutions();
        let mut message: String = "Merge sandbox '".to_owned();
        message.append(self.sandbox_name.as_str());
        message.append("' into '");
        message.append(self.target_branch.as_str());
        message.append("'");
        execute_merge(
            store,
            &self.analysis,
            &resolutions,
            &self.target_commit,
            &self.sandbox_commit,
            self.author.as_str(),
            message.as_str(),
            now,
        )
    }

    /// The selected conflict, to be changed in place.
    pub fn selected_conflict_mut(&mut self) -> (r: Option<&mut ConflictState>)
        ensures
            same_merge(*old(self), *final(self)),
            final(self).selected_conflict == old(self).selected_conflict,
            match r {
                Some(c) => {
                    &&& old(self).selected_conflict < old(self).conflicts@.len()
                    &&& *c == old(self).conflicts@[old(self).selected_conflict as int]
                    &&& final(self).conflicts@ == old(self).conflicts@.update(
                        old(self).selected_conflict as int,
                        *final(c),
                    )
                },
                None => old(self).selected_conflict >= old(self).conflicts@.len()
                    && final(self).conflicts@ == old(self).conflicts@,
            },
    {
        let i: usize = self.selected_conflict;
        if i < self.conflicts.len() {
            Some(&mut self.conflicts[i])
        } else {
            None
        }
    }
}

/// The view never leaves with a merge while a conflict is undecided.
pub proof fn merging_needs_every_decision(s: Screen)
    ensures
        outcome_of(s) == Outcome::Merge ==> is_decided(s.conflicts),
        outcome_of(s) == Outcome::Merge ==> !s.should_cancel,
{
}

/// Whether a decision or a selection is one of the conflicts, or there are none.
pub open spec fn is_valid(s: Screen) -> bool {
    (s.conflicts.len() == 0 && s.selected == 0) || 0 <= s.selected < s.conflicts.len()
}

pub proof fn lemma_undecided_inside(cs: Seq<StateView>, from: int, to: int)
    requires
        0 <= from,
        to <= cs.len(),
    ensures
        first_undecided(cs, from, to) matches Some(i) ==> from <= i < to && cs[i].resolution is None,
        last_undecided(cs, from, to) matches Some(i) ==> from <= i < to && cs[i].resolution is None,
        first_undecided(cs, from, to) is None ==> forall|j: int|
            from <= j < to ==> (#[trigger] cs[j]).resolution is Some,
    decreases to - from,
{
    if from < to {
        lemma_undecided_inside(cs, from + 1, to);
        lemma_undecided_inside(cs, from, to - 1);
    }
}

/// No key changes which conflicts there are, and the selected one stays among
/// them.
pub proof fn keys_keep_the_conflicts(s: Screen, key: KeyPress)
    requires
        is_valid(s),
    ensures
        is_valid(pressed(s, key)),
        pressed(s, key).conflicts.len() == s.conflicts.len(),
        forall|i: int|
            0 <= i < s.conflicts.len() ==> (#[trigger] pressed(s, key).conflicts[i]).conflict
                == s.conflicts[i].conflict,
{
    lemma_undecided_inside(s.conflicts, s.selected + 1, s.conflicts.len() as int);
    lemma_undecided_inside(s.conflicts, 0, s.selected);
    if s.selected < s.conflicts.len() && !s.show_help {
        let c = s.conflicts[s.selected];
        match key_action(key) {
            Some(Action::TakeTarget) => {
                lemma_deciding_keeps(s, Decision::TakeTarget);
            },
            Some(Action::TakeSandbox) => {
                lemma_deciding_keeps(s, Decision::TakeSandbox);
            },
            Some(Action::TakeBase) => {
                lemma_deciding_keeps(s, Decision::TakeBase);
            },
            Some(Action::TakeBoth) => {
                lemma_deciding_keeps(s, Decision::Merged(both_contents(c)));
            },
            _ => {},
        }
    }
}

proof fn lemma_deciding_keeps(s: Screen, d: Decision)
    requires
        is_valid(s),
        s.selected < s.conflicts.len(),
    ensures
        is_valid(deciding(s, d)),
        deciding(s, d).conflicts.len() == s.conflicts.len(),
        forall|i: int|
            0 <= i < s.conflicts.len() ==> (#[trigger] deciding(s, d).conflicts[i]).conflict
                == s.conflicts[i].conflict,
{
    let cs = s.conflicts.update(
        s.selected,
        StateView { resolution: Some(d), ..s.conflicts[s.selected] },
    );
    lemma_undecided_inside(cs, s.selected + 1, cs.len() as int);
    lemma_undecided_inside(cs, 0, s.selected);
}

/// Deciding a conflict decides it and no other, and the view goes on to one that
/// is undecided if there is one.
pub proof fn deciding_decides_one(s: Screen, d: Decision)
    requires
        is_valid(s),
        s.selected < s.conflicts.len(),
    ensures
        deciding(s, d).conflicts[s.selected].resolution == Some(d),
        forall|i: int|
            0 <= i < s.conflicts.len() && i != s.selected ==> (#[trigger] deciding(
                s,
                d,
            ).conflicts[i]) == s.conflicts[i],
        !is_decided(deciding(s, d).conflicts) ==> deciding(s, d).conflicts[deciding(
            s,
            d,
        ).selected].resolution is None,
{
    let cs = s.conflicts.update(
        s.selected,
        StateView { resolution: Some(d), ..s.conflicts[s.selected] },
    );
    lemma_undecided_inside(cs, s.selected + 1, cs.len() as int);
    lemma_undecided_inside(cs, 0, s.selected);
    if !is_decided(cs) {
        let i = choose|i: int| 0 <= i < cs.len() && (#[trigger] cs[i]).resolution is None;
        assert(i != s.selected);
    }
}

/// The selected row is always among those that are shown.
pub proof fn selected_is_shown(offset: int, selected: int, height: int)
    requires
        0 <= offset,
        0 <= selected,
        height >= 1,
    ensures
        scrolled(offset, selected, height) <= selected < scrolled(offset, selected, height)
            + height,
        0 <= scrolled(offset, selected, height),
{
}

} // verus!
