//! What keys do in the terminal views.
use vstd::prelude::*;

use crate::branch_command::{
    current_branch, delete_fault, head_on, head_ref, is_branch, rename_fault, switch_fault,
    with_renamed,
};
use crate::branch_tui::app as branch_view;
use crate::branch_tui::listing::current_branch_is_first;
use crate::helix_index::api::knows;
use crate::helix_index::reader::index_bytes;
use crate::keys::{KeyCode, KeyPress};
use crate::laws::adding::are_plain_entries;
use crate::laws::histories::history_follows_first_parents;
use crate::laws::tracking::staging_marks_the_files;
use crate::list_actions::{file_list_key, list_key};
use crate::merge_tui::app as merge_view;
use crate::path::is_regular;
use crate::sandbox_tui::app as sandbox_view;
use crate::status::app::{Effect, StatusError};
use crate::status::app as status_view;

verus! {

/// Whether a key is a character without the control key.
pub open spec fn is_plain(key: KeyPress, c: char) -> bool {
    key == KeyPress { code: KeyCode::Char(c), control: false }
}

/// In the view of a merge, `j` and `k` go one conflict down and up and stop at the ends; the
/// arrows scroll by one line, the page keys by ten, and `Home` and `End` to the ends; none of
/// them decides anything.
pub proof fn merge_keys_move(s: merge_view::Screen, key: KeyPress)
    requires
        !s.show_help,
        0 <= s.selected < s.conflicts.len(),
        0 <= s.diff_scroll <= s.diff_max_scroll,
    ensures
        ({
            let t = merge_view::pressed(s, key);
            let n = s.conflicts.len() as int;
            &&& is_plain(key, 'j') ==> t.selected == (if s.selected + 1 < n {
                s.selected + 1
            } else {
                s.selected
            }) && t.conflicts == s.conflicts
            &&& is_plain(key, 'k') ==> t.selected == (if s.selected > 0 {
                s.selected - 1
            } else {
                s.selected
            }) && t.conflicts == s.conflicts
            &&& key.code is Up ==> t == (merge_view::Screen {
                diff_scroll: if s.diff_scroll >= 1 {
                    s.diff_scroll - 1
                } else {
                    0
                },
                ..s
            })
            &&& key.code is Down ==> t == (merge_view::Screen {
                diff_scroll: if s.diff_scroll + 1 <= s.diff_max_scroll {
                    s.diff_scroll + 1
                } else {
                    s.diff_max_scroll
                },
                ..s
            })
            &&& key.code is PageUp ==> t == (merge_view::Screen {
                diff_scroll: if s.diff_scroll >= 10 {
                    s.diff_scroll - 10
                } else {
                    0
                },
                ..s
            })
            &&& key.code is PageDown ==> t == (merge_view::Screen {
                diff_scroll: if s.diff_scroll + 10 <= s.diff_max_scroll {
                    s.diff_scroll + 10
                } else {
                    s.diff_max_scroll
                },
                ..s
            })
            &&& key.code is Home ==> t == (merge_view::Screen { diff_scroll: 0, ..s })
            &&& key.code is End ==> t == (merge_view::Screen {
                diff_scroll: s.diff_max_scroll,
                ..s
            })
        }),
{
}

/// In the view of a merge, `n` goes on to the next conflict that is undecided, round the end,
/// and `p` back to the one before, round the start; where no other is undecided they do
/// nothing.
pub proof fn merge_keys_find_the_undecided(s: merge_view::Screen, key: KeyPress, j: int)
    requires
        !s.show_help,
        0 <= s.selected < s.conflicts.len(),
        0 <= j < s.conflicts.len(),
        j != s.selected,
    ensures
        ({
            let t = merge_view::pressed(s, key);
            let open = s.conflicts[j].resolution is None;
            let moved = t.selected != s.selected;
            &&& is_plain(key, 'n') || is_plain(key, 'p') ==> t.conflicts == s.conflicts && (moved
                ==> 0 <= t.selected < s.conflicts.len()
                && s.conflicts[t.selected].resolution is None) && (open ==> moved)
            &&& is_plain(key, 'n') && open && j > s.selected ==> s.selected < t.selected <= j
            &&& is_plain(key, 'n') && open && j < s.selected ==> t.selected > s.selected
                || t.selected <= j
            &&& is_plain(key, 'p') && open && j < s.selected ==> j <= t.selected < s.selected
            &&& is_plain(key, 'p') && open && j > s.selected ==> t.selected < s.selected
                || t.selected >= j
        }),
{
    let n = s.conflicts.len() as int;
    lemma_first(s.conflicts, s.selected + 1, n, j);
    lemma_first(s.conflicts, 0, s.selected, j);
    lemma_last(s.conflicts, s.selected + 1, n, j);
    lemma_last(s.conflicts, 0, s.selected, j);
}

proof fn lemma_first(cs: Seq<merge_view::StateView>, from: int, to: int, j: int)
    requires
        0 <= from,
        to <= cs.len(),
    ensures
        merge_view::first_undecided(cs, from, to) matches Some(i) ==> from <= i < to
            && cs[i].resolution is None,
        from <= j < to && cs[j].resolution is None ==> (merge_view::first_undecided(
            cs,
            from,
            to,
        ) matches Some(i) && i <= j),
    decreases to - from,
{
    if from < to {
        lemma_first(cs, from + 1, to, j);
    }
}

proof fn lemma_last(cs: Seq<merge_view::StateView>, from: int, to: int, j: int)
    requires
        0 <= from,
        to <= cs.len(),
    ensures
        merge_view::last_undecided(cs, from, to) matches Some(i) ==> from <= i < to
            && cs[i].resolution is None,
        from <= j < to && cs[j].resolution is None ==> (merge_view::last_undecided(
            cs,
            from,
            to,
        ) matches Some(i) && i >= j),
    decreases to - from,
{
    if from < to {
        lemma_last(cs, from, to - 1, j);
    }
}

/// The view of a merge is left with a merge by `q` or `Enter` just where every conflict is
/// decided, and without one by `Esc` and by `c` with the control key; `?` opens the help, and
/// any key closes it and does nothing else.
pub proof fn merge_keys_leave(s: merge_view::Screen, key: KeyPress)
    requires
        !s.should_quit && !s.should_cancel,
    ensures
        ({
            let t = merge_view::pressed(s, key);
            let all = forall|i: int|
                0 <= i < s.conflicts.len() ==> (#[trigger] s.conflicts[i]).resolution is Some;
            let leaves = key.code == KeyCode::Char('q') || key.code is Enter;
            let cancels = key.code is Esc || (key.code == KeyCode::Char('c') && key.control);
            &&& !s.show_help && leaves ==> t.conflicts == s.conflicts && (merge_view::outcome_of(t)
                == merge_view::Outcome::Merge <==> all) && merge_view::outcome_of(t)
                != merge_view::Outcome::Cancelled
            &&& !s.show_help && cancels ==> merge_view::outcome_of(t)
                == merge_view::Outcome::Cancelled
            &&& s.show_help || !(leaves || cancels) ==> merge_view::outcome_of(t)
                == merge_view::Outcome::Continue
            &&& !s.show_help && is_plain(key, '?') ==> t.show_help
            &&& s.show_help ==> t == (merge_view::Screen { show_help: false, ..s })
        }),
{
}

/// Only the keys that decide, or show more of a conflict, touch the conflicts.
pub proof fn merge_keys_decide_alone(s: merge_view::Screen, key: KeyPress)
    ensures
        s.show_help || !(key.code is Tab || (key.code matches KeyCode::Char(c) && (c == 't' || c
            == '1' || c == 's' || c == '2' || c == 'b' || c == '3' || c == 'a' || c == 'e')))
            ==> merge_view::pressed(s, key).conflicts == s.conflicts,
        !s.show_help && (key.code is Tab || is_plain(key, 'e')) && 0 <= s.selected
            < s.conflicts.len() ==> {
            let t = merge_view::pressed(s, key);
            &&& t.conflicts.len() == s.conflicts.len()
            &&& forall|i: int|
                0 <= i < s.conflicts.len() ==> (#[trigger] t.conflicts[i]) == (
                merge_view::StateView {
                    expanded: if i == s.selected {
                        !s.conflicts[i].expanded
                    } else {
                        s.conflicts[i].expanded
                    },
                    ..s.conflicts[i]
                })
        },
{
}

/// What a key does in the view of the files.
pub open spec fn file_key(
    s: status_view::Screen,
    t: status_view::Screen,
    key: KeyPress,
    r: Result<Effect, StatusError>,
) -> bool {
    match file_list_key(key) {
        Some(a) => status_view::is_acted(s, t, a, r),
        None => t == s && r matches Ok(Effect::Nothing),
    }
}

/// Where a key that moves a selection leads in a list of `n` rows: one row down or up, ten
/// rows, or to an end, and never past one.
pub open spec fn leads(key: KeyPress, i: int, n: int, j: int) -> bool {
    &&& key.code is Down || is_plain(key, 'j') ==> j == (if i + 1 < n {
        i + 1
    } else {
        i
    })
    &&& key.code is Up || is_plain(key, 'k') ==> j == (if i >= 1 {
        i - 1
    } else {
        i
    })
    &&& key.code is PageDown || key == (KeyPress { code: KeyCode::Char('d'), control: true }) ==> j
        == (if i + 10 <= n - 1 {
        i + 10
    } else {
        n - 1
    })
    &&& key.code is PageUp || key == (KeyPress { code: KeyCode::Char('u'), control: true }) ==> j
        == (if i >= 10 {
        i - 10
    } else {
        0
    })
    &&& key.code is Home || is_plain(key, 'g') ==> j == 0
    &&& key.code is End || is_plain(key, 'G') ==> j == n - 1
}

/// In the list of files, the keys that move lead as in every list; only the space bar, `Enter`,
/// `a` and `A` change the index; `q`, `Esc` and `c` with the control key leave; `t` shows or
/// hides untracked files and has the list made anew, as `r` has it; and no key but `Tab` goes
/// to another section.
pub proof fn file_keys_move(
    s: status_view::Screen,
    t: status_view::Screen,
    key: KeyPress,
    r: Result<Effect, StatusError>,
)
    requires
        file_key(s, t, key, r),
        0 <= s.selected < s.rows.len(),
    ensures
        leads(key, s.selected, s.rows.len() as int, t.selected),
        t.rows == s.rows,
        !(key.code is Enter || (key.code matches KeyCode::Char(c) && (c == ' ' || c == 'a' || c
            == 'A'))) ==> t.es == s.es && t.header == s.header && t.staged == s.staged && r is Ok
            && !(r->Ok_0 is Write),
        (key.code is Esc || is_plain(key, 'q') || key == (KeyPress {
            code: KeyCode::Char('c'),
            control: true,
        })) ==> t == (status_view::Screen { should_quit: true, ..s }),
        is_plain(key, 't') ==> t == (status_view::Screen { show_untracked: !s.show_untracked, ..s })
            && r == Ok::<Effect, StatusError>(Effect::Refresh(false)),
        is_plain(key, 'r') ==> t == s && r == Ok::<Effect, StatusError>(Effect::Refresh(true)),
        !(key.code is Tab) ==> t.section == s.section,
        key.code is Tab ==> t.selected == 0 && t.section != s.section,
{
}

/// In the list of files, `a` stages every listed file, and `A` unstages every staged one, where
/// the index knows them; no other flag and no other file changes, and the bytes to be written
/// are those of the index.
pub proof fn file_keys_stage(
    s: status_view::Screen,
    t: status_view::Screen,
    key: KeyPress,
    r: Result<Effect, StatusError>,
)
    requires
        file_key(s, t, key, r),
        s.rows.len() > 0,
        are_plain_entries(s.es),
        forall|i: int|
            0 <= i < s.rows.len() ==> is_regular((#[trigger] s.rows[i]).1) && exists|k: int|
                0 <= k < s.es.len() && (#[trigger] s.es[k]).path == s.rows[i].1,
        forall|i: int|
            0 <= i < s.staged.len() ==> is_regular(#[trigger] s.staged[i]) && exists|k: int|
                0 <= k < s.es.len() && (#[trigger] s.es[k]).path == s.staged[i],
    ensures
        is_plain(key, 'a') ==> t.es.len() == s.es.len() && forall|k: int|
            0 <= k < s.es.len() ==> (#[trigger] t.es[k]).flags.bits == (if exists|i: int|
                0 <= i < s.rows.len() && (#[trigger] s.rows[i]).1 == s.es[k].path {
                s.es[k].flags.bits | 2
            } else {
                s.es[k].flags.bits
            }) && t.es[k].path == s.es[k].path && t.es[k].oid == s.es[k].oid,
        is_plain(key, 'A') ==> t.es.len() == s.es.len() && t.staged.len() == 0 && forall|k: int|
            0 <= k < s.es.len() ==> (#[trigger] t.es[k]).flags.bits == (if s.staged.contains(
                s.es[k].path,
            ) {
                s.es[k].flags.bits & !2u32
            } else {
                s.es[k].flags.bits
            }) && t.es[k].path == s.es[k].path && t.es[k].oid == s.es[k].oid,
{
    let ps = status_view::row_paths(s.rows);
    let n = ps.len() as int;
    assert forall|i: int| 0 <= i < n implies is_regular(#[trigger] ps[i]) && (exists|k: int|
        0 <= k < s.es.len() && (#[trigger] s.es[k]).path == ps[i]) by {
        assert(s.rows[i].1 == ps[i]);
    }
    lemma_all_known(s.es, ps, 0);
    lemma_all_known(s.es, s.staged, 0);
    staging_marks_the_files(s.es, ps, n);
    staging_marks_the_files(s.es, s.staged, s.staged.len() as int);
    assert(ps.subrange(0, n) =~= ps);
    assert(s.staged.subrange(0, s.staged.len() as int) =~= s.staged);
    assert forall|p: Seq<char>| ps.contains(p) <==> exists|i: int|
        0 <= i < s.rows.len() && (#[trigger] s.rows[i]).1 == p by {
        if ps.contains(p) {
            let i = choose|i: int| 0 <= i < ps.len() && ps[i] == p;
            assert(s.rows[i].1 == p);
        }
        if exists|i: int| 0 <= i < s.rows.len() && (#[trigger] s.rows[i]).1 == p {
            let i = choose|i: int| 0 <= i < s.rows.len() && (#[trigger] s.rows[i]).1 == p;
            assert(ps[i] == p);
        }
    }
}

proof fn lemma_all_known(
    es: Seq<crate::helix_index::format::EntryView>,
    ps: Seq<Seq<char>>,
    at: int,
)
    requires
        0 <= at <= ps.len(),
        forall|i: int|
            0 <= i < ps.len() ==> is_regular(#[trigger] ps[i]) && exists|k: int|
                0 <= k < es.len() && (#[trigger] es[k]).path == ps[i],
    ensures
        status_view::known_prefix(es, ps, at) == ps.len(),
    decreases ps.len() - at,
{
    if at < ps.len() {
        assert(is_regular(ps[at]));
        let k = choose|k: int| 0 <= k < es.len() && (#[trigger] es[k]).path == ps[at];
        crate::helix_index::reader::lemma_first_entry(es, ps[at]);
        assert(crate::path::same_path(es[k].path, ps[at]));
        lemma_all_known(es, ps, at + 1);
    }
}

/// In the list of sandboxes, the keys that move lead as in every list, in the list of sandboxes
/// or in that of the changes of the selected one; another sandbox, one row on, is shown from
/// its first change; `Tab` goes to the other list; `q`, `Esc` and `c` with the control key
/// leave.
pub proof fn sandbox_keys_move(s: sandbox_view::Screen, key: KeyPress)
    requires
        0 <= s.sandbox < s.counts.len(),
        0 <= s.change,
        s.section is Changes ==> s.change < s.counts[s.sandbox],
    ensures
        ({
            let t = match list_key(key) {
                Some(a) => sandbox_view::acted(s, a),
                None => s,
            };
            let n = s.counts.len() as int;
            &&& t.counts == s.counts
            &&& s.section is Sandboxes ==> leads(key, s.sandbox, n, t.sandbox)
            &&& s.section is Changes ==> leads(
                key,
                s.change,
                s.counts[s.sandbox] as int,
                t.change,
            ) && t.sandbox == s.sandbox
            &&& s.section is Sandboxes && (key.code is Down || is_plain(key, 'j')) && s.sandbox + 1
                < n ==> t.change == 0
            &&& s.section is Sandboxes && (key.code is Up || is_plain(key, 'k')) && s.sandbox > 0
                ==> t.change == 0
            &&& key.code is Tab <==> t.section != s.section
            &&& (key.code is Esc || is_plain(key, 'q') || key == (KeyPress {
                code: KeyCode::Char('c'),
                control: true,
            })) ==> t == (sandbox_view::Screen { should_quit: true, ..s })
        }),
{
}

/// In the list of branches, keys that move go round the ends; `Enter` switches to the selected
/// branch where it is not the current one, and so does a yes to the question that `c` asks; a
/// yes to the question that `d` asks deletes it; a no, and any other key, changes no
/// reference.
pub proof fn branch_keys_act(
    a: branch_view::State,
    b: branch_view::State,
    m: crate::object_store::Objects,
    config: Option<Seq<char>>,
    key: KeyPress,
    t: Option<branch_view::TroubleView>,
)
    requires
        branch_view::pressed(a, b, m, config, key, t),
        0 <= a.screen.selected < a.screen.branches.len(),
        !a.screen.rename_mode,
    ensures
        ({
            let s = a.screen;
            let n = s.branches.len() as int;
            let chosen = s.branches[s.selected];
            let yes = key.code is Enter || key.code == KeyCode::Char('y') || key.code
                == KeyCode::Char('Y');
            let asked = s.checkout_mode || s.delete_mode;
            let switches = (s.checkout_mode && yes) || (!asked && key.code is Enter);
            let deletes = !s.checkout_mode && s.delete_mode && yes;
            &&& switches && !chosen.is_current && switch_fault(a.refs, chosen.name) is None ==> {
                &&& b.refs == (crate::refs::Refs { head: Some(head_on(chosen.name)), ..a.refs })
                &&& b.screen.should_quit
                &&& t is None
            }
            &&& deletes && !chosen.is_current && delete_fault(a.refs, chosen.name, true) is None ==> {
                &&& b.refs.refs == a.refs.without(head_ref(chosen.name)).refs
                &&& b.refs.head == a.refs.head
                &&& !b.refs.upstreams.contains_key(chosen.name)
                &&& t is None
                &&& forall|i: int|
                    0 <= i < b.screen.branches.len() ==> (#[trigger] b.screen.branches[i]).name
                        != chosen.name
            }
            &&& chosen.is_current || !(switches || deletes) ==> b.refs == a.refs
            &&& !asked && is_plain(key, 'c') ==> b.screen.checkout_mode == !chosen.is_current
                && b.screen.delete_mode == s.delete_mode
            &&& !asked && is_plain(key, 'd') ==> b.screen.delete_mode == !chosen.is_current
                && b.screen.checkout_mode == s.checkout_mode
            &&& !asked && is_plain(key, 'r') ==> b.screen.rename_mode && b.screen.new_name
                == chosen.name
            &&& !asked && s.focus is BranchList && (key.code is Down || is_plain(key, 'j'))
                ==> b.screen.selected == (if s.selected + 1 < n {
                s.selected + 1
            } else {
                0
            })
            &&& !asked && s.focus is BranchList && (key.code is Up || is_plain(key, 'k'))
                ==> b.screen.selected == (if s.selected > 0 {
                s.selected - 1
            } else {
                n - 1
            })
        }),
{
    lemma_gone(a.screen.branches, a.screen.branches[a.screen.selected].name);
}

proof fn lemma_gone(v: Seq<crate::branch_tui::listing::BranchView>, name: Seq<char>)
    ensures
        forall|i: int|
            0 <= i < branch_view::without_name(v, name).len() ==> (
            #[trigger] branch_view::without_name(v, name)[i]).name != name,
    decreases v.len(),
{
    if v.len() > 0 {
        lemma_gone(v.drop_last(), name);
    }
}

/// In the list of commits of a branch, the keys that move go one commit down or up, or to an
/// end, and stop there; `l` and the right arrow go to that list where it has commits, and `h`
/// and the left arrow go back; `q` and `Esc` leave. No key of these changes a reference.
pub proof fn branch_keys_walk_commits(
    a: branch_view::State,
    b: branch_view::State,
    m: crate::object_store::Objects,
    config: Option<Seq<char>>,
    key: KeyPress,
    t: Option<branch_view::TroubleView>,
)
    requires
        branch_view::pressed(a, b, m, config, key, t),
        0 <= a.screen.selected < a.screen.branches.len(),
        !a.screen.rename_mode && !a.screen.checkout_mode && !a.screen.delete_mode,
        a.screen.lists.contains_key(a.screen.branches[a.screen.selected].name),
        0 <= a.screen.selected_commit,
    ensures
        ({
            let s = a.screen;
            let n = s.lists[s.branches[s.selected].name].len() as int;
            let i = s.selected_commit;
            let j = b.screen.selected_commit;
            &&& s.focus is CommitList && (key.code is Down || is_plain(key, 'j')) ==> j == (if i + 1
                < n {
                i + 1
            } else {
                i
            }) && b.screen.selected == s.selected && b.refs == a.refs
            &&& s.focus is CommitList && (key.code is Up || is_plain(key, 'k')) ==> j == (if i > 0 {
                i - 1
            } else {
                0
            }) && b.screen.selected == s.selected && b.refs == a.refs
            &&& s.focus is CommitList && is_plain(key, 'g') ==> j == 0 && b.screen.selected
                == s.selected
            &&& s.focus is CommitList && is_plain(key, 'G') && n > 0 ==> j == n - 1
                && b.screen.selected == s.selected
            &&& key.code is Right || is_plain(key, 'l') ==> (b.screen.focus is CommitList
                <==> s.focus is CommitList || n > 0)
            &&& key.code is Left || is_plain(key, 'h') ==> b.screen.focus is BranchList
            &&& key.code is Esc || is_plain(key, 'q') ==> b.screen.should_quit && b.refs == a.refs
        }),
{
}

/// While a new name is typed, a character is put behind it, the backspace key takes the last
/// one away, `Esc` gives it up, and `Enter` renames the selected branch to it; no other key
/// changes a reference.
pub proof fn branch_keys_rename(
    a: branch_view::State,
    b: branch_view::State,
    m: crate::object_store::Objects,
    config: Option<Seq<char>>,
    key: KeyPress,
    t: Option<branch_view::TroubleView>,
)
    requires
        branch_view::pressed(a, b, m, config, key, t),
        0 <= a.screen.selected < a.screen.branches.len(),
        a.screen.rename_mode,
    ensures
        ({
            let s = a.screen;
            let name = s.branches[s.selected].name;
            &&& key.code matches KeyCode::Char(c) ==> b.screen.new_name == s.new_name.push(c)
                && b.screen.rename_mode
            &&& key.code is Backspace && s.new_name.len() > 0 ==> b.screen.new_name
                == s.new_name.drop_last() && b.screen.rename_mode
            &&& key.code is Esc ==> !b.screen.rename_mode && b.screen.new_name.len() == 0
            &&& !(key.code is Enter) ==> b.refs == a.refs
            &&& key.code is Enter ==> !b.screen.rename_mode
            &&& key.code is Enter && s.new_name.len() > 0 && rename_fault(
                a.refs,
                name,
                s.new_name,
                false,
            ) is None ==> b.refs == with_renamed(a.refs, name, s.new_name)
            &&& key.code is Enter && (s.new_name.len() == 0 || rename_fault(
                a.refs,
                name,
                s.new_name,
                false,
            ) is Some) ==> b.refs == a.refs
        }),
{
}

proof fn lemma_current(v: Seq<crate::branch_tui::listing::BranchView>, at: int, i: int)
    requires
        0 <= at <= i < v.len(),
        v[i].is_current,
        forall|j: int| at <= j < i ==> !(#[trigger] v[j]).is_current,
    ensures
        branch_view::current_from(v, at) == i,
    decreases i - at,
{
    if at < i {
        lemma_current(v, at + 1, i);
    }
}

/// The view of branches opens with the current branch selected, where it is listed, and with
/// the first of its commits, of which up to two hundred are listed.
pub proof fn branches_open_at_the_current(
    s: branch_view::Screen,
    m: crate::object_store::Objects,
    r: crate::refs::Refs,
    config: Option<Seq<char>>,
    path: Seq<char>,
    sandbox: Option<Seq<char>>,
)
    requires
        branch_view::is_opened(s, m, r, config, path, sandbox),
        is_branch(r, current_branch(r)),
    ensures
        s.selected == 0 && s.branches.len() > 0 && s.branches[0].name == current_branch(r),
        s.selected_commit == 0,
        s.lists.contains_key(current_branch(r)) && s.lists[current_branch(r)].len() <= 200,
        s.focus is BranchList,
        !s.rename_mode && !s.checkout_mode && !s.delete_mode && !s.should_quit,
{
    let t = choose|t: branch_view::Screen| #[trigger]
        branch_view::is_bare(t, m, r, config, path, sandbox) && branch_view::branch_selected(
            t,
            m,
            r,
        ) == (s, None::<crate::helix_index::commit_store::BranchReadError>);
    current_branch_is_first(m, r, config, t.branches);
    lemma_current(t.branches, 0, 0);
    let place = crate::helix_index::commit_store::branch_ref(current_branch(r));
    let id = crate::hash::decoded_hash(
        vstd::utf8::encode_utf8(crate::text::trim_spec(r.at(place))),
    );
    if let Ok(id) = id {
        history_follows_first_parents(m, id, 200, None);
    }
}

/// In the list of files, the space bar and `Enter` stage the selected file, or unstage it where
/// it is staged, if the index knows it; they, `a` and `A` give the bytes of the index to be
/// written, with the next generation, where all its paths fit.
pub proof fn file_keys_write(
    s: status_view::Screen,
    t: status_view::Screen,
    key: KeyPress,
    r: Result<Effect, StatusError>,
)
    requires
        file_key(s, t, key, r),
        0 <= s.selected < s.rows.len(),
        s.header.generation < u64::MAX,
    ensures
        (is_plain(key, ' ') || key.code is Enter) && knows(s.es, s.rows[s.selected].1) ==> t.es
            == status_view::toggled(s).es && t.staged == status_view::toggled(s).staged
            && t.header.generation == s.header.generation + 1,
        (is_plain(key, ' ') || key.code is Enter) && !knows(s.es, s.rows[s.selected].1) ==> t == s
            && r is Err,
        r matches Ok(Effect::Write(b)) ==> b@ == index_bytes(t.header, t.es) && t.header.generation
            == s.header.generation + 1,
{
}

} // verus!
