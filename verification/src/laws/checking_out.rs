//! What a checkout puts where, from the entries of the stored trees.
use vstd::prelude::*;
use vstd::utf8::{decode_utf8, valid_utf8};

use crate::checkout::{
    commit_step, continues, entries_step, made, tree_of_commit, tree_step, ActionView, Progress,
};
use crate::helix_index::tree::{EntryType, FileView, TreeEntryView};
use crate::helix_index::tree_walk::{
    depth_of, entry_files_to, files_to, grounded, tree_at, tree_files, within,
};
use crate::object_store::{ObjectType, Objects};
use crate::path::join_spec;

verus! {

/// Names with slashes between them.
pub open spec fn spelled(names: Seq<Seq<char>>) -> Seq<char>
    decreases names.len(),
{
    if names.len() == 0 {
        Seq::empty()
    } else if names.len() == 1 {
        names[0]
    } else {
        names[0].push('/') + spelled(names.subrange(1, names.len() as int))
    }
}

/// Whether names lead from a stored tree, down through its directories, to the entry `e`.
pub open spec fn leads_to(m: Objects, id: Seq<u8>, names: Seq<Seq<char>>, e: TreeEntryView) -> bool
    decreases names.len(),
{
    &&& names.len() > 0
    &&& tree_at(m, id) matches Ok(es)
    &&& exists|i: int|
        0 <= i < es.len() && (#[trigger] es[i]).name == names[0] && if names.len() == 1 {
            es[i] == e
        } else {
            es[i].entry_type == EntryType::Tree && leads_to(
                m,
                es[i].oid,
                names.subrange(1, names.len() as int),
                e,
            )
        }
}

/// Whether every name has characters.
pub open spec fn are_spelled(names: Seq<Seq<char>>) -> bool {
    forall|i: int| 0 <= i < names.len() ==> (#[trigger] names[i]).len() > 0
}

/// Names below a directory.
spec fn below(prefix: Seq<char>, names: Seq<Seq<char>>) -> Seq<char> {
    join_spec(prefix, spelled(names))
}

proof fn lemma_below(prefix: Seq<char>, names: Seq<Seq<char>>)
    requires
        names.len() > 1,
        are_spelled(names),
    ensures
        below(prefix, names) == below(
            join_spec(prefix, names[0]),
            names.subrange(1, names.len() as int),
        ),
{
    assert(names[0].len() > 0);
    assert(below(prefix, names) =~= below(
        join_spec(prefix, names[0]),
        names.subrange(1, names.len() as int),
    ));
}

/// The files of a stored tree are those that names lead to: each has the names, with slashes
/// between them, for its path, and the hash, the mode and the size of its entry.
pub proof fn files_are_what_names_lead_to(
    m: Objects,
    id: Seq<u8>,
    names: Seq<Seq<char>>,
    e: TreeEntryView,
)
    requires
        grounded(m, id),
        tree_files(m, id) is Ok,
        are_spelled(names),
        leads_to(m, id, names, e),
        e.entry_type != EntryType::Tree,
    ensures
        tree_files(m, id)->Ok_0.contains(
            FileView { path: spelled(names), oid: e.oid, mode: e.mode, size: e.size },
        ),
{
    lemma_files(m, id, Seq::empty(), depth_of(m, id), names, e);
}

proof fn lemma_files(
    m: Objects,
    id: Seq<u8>,
    prefix: Seq<char>,
    d: nat,
    names: Seq<Seq<char>>,
    e: TreeEntryView,
)
    requires
        within(m, id, d),
        files_to(m, id, prefix, d) is Ok,
        are_spelled(names),
        leads_to(m, id, names, e),
        e.entry_type != EntryType::Tree,
    ensures
        files_to(m, id, prefix, d)->Ok_0.contains(
            FileView { path: below(prefix, names), oid: e.oid, mode: e.mode, size: e.size },
        ),
    decreases d, 1nat, 0nat,
{
    let es = tree_at(m, id)->Ok_0;
    let i = choose|i: int|
        0 <= i < es.len() && (#[trigger] es[i]).name == names[0] && if names.len() == 1 {
            es[i] == e
        } else {
            es[i].entry_type == EntryType::Tree && leads_to(
                m,
                es[i].oid,
                names.subrange(1, names.len() as int),
                e,
            )
        };
    lemma_entry_files(m, es, prefix, d, i, names, e);
}

proof fn lemma_entry_files(
    m: Objects,
    es: Seq<TreeEntryView>,
    prefix: Seq<char>,
    d: nat,
    i: int,
    names: Seq<Seq<char>>,
    e: TreeEntryView,
)
    requires
        d > 0,
        forall|i: int|
            0 <= i < es.len() && (#[trigger] es[i]).entry_type == EntryType::Tree ==> within(
                m,
                es[i].oid,
                (d - 1) as nat,
            ),
        entry_files_to(m, es, prefix, d) is Ok,
        are_spelled(names),
        names.len() > 0,
        e.entry_type != EntryType::Tree,
        0 <= i < es.len(),
        es[i].name == names[0],
        if names.len() == 1 {
            es[i] == e
        } else {
            es[i].entry_type == EntryType::Tree && leads_to(
                m,
                es[i].oid,
                names.subrange(1, names.len() as int),
                e,
            )
        },
    ensures
        entry_files_to(m, es, prefix, d)->Ok_0.contains(
            FileView { path: below(prefix, names), oid: e.oid, mode: e.mode, size: e.size },
        ),
    decreases d, 0nat, es.len(),
{
    let f = FileView { path: below(prefix, names), oid: e.oid, mode: e.mode, size: e.size };
    let t = es.drop_last();
    let all = entry_files_to(m, es, prefix, d)->Ok_0;
    let before = entry_files_to(m, t, prefix, d)->Ok_0;
    assert forall|i: int|
        0 <= i < t.len() && (#[trigger] t[i]).entry_type == EntryType::Tree implies within(
        m,
        t[i].oid,
        (d - 1) as nat,
    ) by {
        assert(t[i] == es[i]);
    }
    if i < t.len() {
        assert(t[i] == es[i]);
        lemma_entry_files(m, t, prefix, d, i, names, e);
        let k = choose|k: int| 0 <= k < before.len() && before[k] == f;
        assert(all[k] == f);
    } else {
        let x = es.last();
        assert(es[i] == x);
        if names.len() == 1 {
            assert(all[before.len() as int] == f);
        } else {
            let rest = names.subrange(1, names.len() as int);
            let path = join_spec(prefix, x.name);
            assert forall|j: int| 0 <= j < rest.len() implies (#[trigger] rest[j]).len() > 0 by {
                assert(rest[j] == names[j + 1]);
            }
            lemma_below(prefix, names);
            lemma_files(m, x.oid, path, (d - 1) as nat, rest, e);
            let gs = files_to(m, x.oid, path, (d - 1) as nat)->Ok_0;
            let k = choose|k: int| 0 <= k < gs.len() && gs[k] == f;
            assert(all[before.len() + k] == f);
        }
    }
}

/// Whether a step makes a file or a directory at a path.
pub open spec fn makes(x: ActionView, path: Seq<char>) -> bool {
    x == ActionView::MakeDir(path) || (x matches ActionView::WriteFile { path: p, .. } && p == path)
}

/// Whether a step makes a link at a path.
pub open spec fn makes_link(x: ActionView, path: Seq<char>) -> bool {
    x matches ActionView::MakeLink { path: p, .. } && p == path
}

/// Whether there is a file or a directory at a path before a step, from the start of a
/// checkout or by an earlier step.
pub open spec fn is_taken(s: Progress, a: Seq<ActionView>, i: int, path: Seq<char>) -> bool {
    s.present.contains(path) || exists|j: int|
        s.actions.len() <= j < i && makes(#[trigger] a[j], path)
}

/// Whether there is a link at a path before a step.
pub open spec fn is_linked(s: Progress, a: Seq<ActionView>, i: int, path: Seq<char>) -> bool {
    s.links.contains(path) || exists|j: int|
        s.actions.len() <= j < i && makes_link(#[trigger] a[j], path)
}

/// Whether a step is the one for an entry at a path: it makes a directory; it writes the stored
/// contents, executable or not as the entry is; it makes a link to what the contents say; or,
/// unless it is forced, it leaves what is there.
pub open spec fn is_step_for(
    m: Objects,
    s: Progress,
    a: Seq<ActionView>,
    i: int,
    path: Seq<char>,
    e: TreeEntryView,
    force: bool,
) -> bool {
    let stored = m[(ObjectType::Blob, e.oid)];
    match e.entry_type {
        EntryType::Tree => a[i] == ActionView::MakeDir(path),
        EntryType::Symlink => {
            let there = is_taken(s, a, i, path) || is_linked(s, a, i, path);
            if there && !force {
                a[i] == ActionView::SkipLink(path)
            } else {
                a[i] matches ActionView::MakeLink { path: p, target, replace } && p == path
                    && valid_utf8(stored) && target == decode_utf8(stored) && replace == there
            }
        },
        _ => if is_taken(s, a, i, path) && !force {
            a[i] == ActionView::SkipFile(path)
        } else {
            a[i] matches ActionView::WriteFile { path: p, content, executable, .. } && p == path
                && content == stored && executable == (e.entry_type == EntryType::FileExecutable)
        },
    }
}

/// What is there after some steps is what was there and what they made.
spec fn is_run(s: Progress, t: Progress) -> bool {
    &&& continues(s.actions, t.actions)
    &&& forall|p: Seq<char>| #[trigger]
        t.present.contains(p) <==> is_taken(s, t.actions, t.actions.len() as int, p)
    &&& forall|p: Seq<char>| #[trigger]
        t.links.contains(p) <==> is_linked(s, t.actions, t.actions.len() as int, p)
}

proof fn lemma_run_start(s: Progress)
    ensures
        is_run(s, s),
{
}

proof fn lemma_run_push(s: Progress, t: Progress, u: Progress, x: ActionView, path: Seq<char>)
    requires
        is_run(s, t),
        u.actions == t.actions.push(x),
        u.present == (if makes(x, path) {
            t.present.push(path)
        } else {
            t.present
        }),
        u.links == (if makes_link(x, path) {
            t.links.push(path)
        } else {
            t.links
        }),
        forall|p: Seq<char>| #[trigger] makes(x, p) ==> p == path,
        forall|p: Seq<char>| #[trigger] makes_link(x, p) ==> p == path,
    ensures
        is_run(s, u),
{
    let n = t.actions.len() as int;
    assert(u.actions[n] == x);
    assert forall|i: int| 0 <= i < s.actions.len() implies #[trigger] s.actions[i]
        == u.actions[i] by {
        assert(s.actions[i] == t.actions[i]);
    }
    assert forall|p: Seq<char>| #[trigger]
        u.present.contains(p) <==> is_taken(s, u.actions, n + 1, p) by {
        lemma_push_contains(t.present, path, p);
        assert(t.present.contains(p) <==> is_taken(s, t.actions, n, p));
        if exists|j: int| s.actions.len() <= j < n && makes(#[trigger] t.actions[j], p) {
            let j = choose|j: int| s.actions.len() <= j < n && makes(#[trigger] t.actions[j], p);
            assert(makes(u.actions[j], p));
        }
        if exists|j: int| s.actions.len() <= j < n + 1 && makes(#[trigger] u.actions[j], p) {
            let j = choose|j: int|
                s.actions.len() <= j < n + 1 && makes(#[trigger] u.actions[j], p);
            if j < n {
                assert(makes(t.actions[j], p));
            }
        }
        if makes(x, path) && p == path {
            assert(makes(u.actions[n], p));
        }
    }
    assert forall|p: Seq<char>| #[trigger]
        u.links.contains(p) <==> is_linked(s, u.actions, n + 1, p) by {
        lemma_push_contains(t.links, path, p);
        assert(t.links.contains(p) <==> is_linked(s, t.actions, n, p));
        if exists|j: int| s.actions.len() <= j < n && makes_link(#[trigger] t.actions[j], p) {
            let j = choose|j: int|
                s.actions.len() <= j < n && makes_link(#[trigger] t.actions[j], p);
            assert(makes_link(u.actions[j], p));
        }
        if exists|j: int| s.actions.len() <= j < n + 1 && makes_link(#[trigger] u.actions[j], p) {
            let j = choose|j: int|
                s.actions.len() <= j < n + 1 && makes_link(#[trigger] u.actions[j], p);
            if j < n {
                assert(makes_link(t.actions[j], p));
            }
        }
        if makes_link(x, path) && p == path {
            assert(makes_link(u.actions[n], p));
        }
    }
}

proof fn lemma_push_contains(v: Seq<Seq<char>>, x: Seq<char>, p: Seq<char>)
    ensures
        v.push(x).contains(p) <==> v.contains(p) || p == x,
{
    let w = v.push(x);
    if v.contains(p) {
        let k = choose|k: int| 0 <= k < v.len() && v[k] == p;
        assert(w[k] == p);
    }
    assert(w[v.len() as int] == x);
}

/// What is there during later steps, seen from an earlier start.
proof fn lemma_from(s: Progress, t: Progress, a: Seq<ActionView>, i: int, path: Seq<char>)
    requires
        is_run(s, t),
        continues(t.actions, a),
        t.actions.len() <= i <= a.len(),
    ensures
        is_taken(t, a, i, path) <==> is_taken(s, a, i, path),
        is_linked(t, a, i, path) <==> is_linked(s, a, i, path),
{
    let n = t.actions.len() as int;
    assert(t.present.contains(path) <==> is_taken(s, t.actions, n, path));
    assert(t.links.contains(path) <==> is_linked(s, t.actions, n, path));
    if exists|j: int| s.actions.len() <= j < n && makes(#[trigger] t.actions[j], path) {
        let j = choose|j: int| s.actions.len() <= j < n && makes(#[trigger] t.actions[j], path);
        assert(makes(a[j], path));
    }
    if exists|j: int| s.actions.len() <= j < n && makes_link(#[trigger] t.actions[j], path) {
        let j = choose|j: int|
            s.actions.len() <= j < n && makes_link(#[trigger] t.actions[j], path);
        assert(makes_link(a[j], path));
    }
    if exists|j: int| s.actions.len() <= j < i && makes(#[trigger] a[j], path) {
        let j = choose|j: int| s.actions.len() <= j < i && makes(#[trigger] a[j], path);
        if j < n {
            assert(makes(t.actions[j], path));
        }
    }
    if exists|j: int| s.actions.len() <= j < i && makes_link(#[trigger] a[j], path) {
        let j = choose|j: int| s.actions.len() <= j < i && makes_link(#[trigger] a[j], path);
        if j < n {
            assert(makes_link(t.actions[j], path));
        }
    }
}

proof fn lemma_run_on(s: Progress, t: Progress, u: Progress)
    requires
        is_run(s, t),
        is_run(t, u),
    ensures
        is_run(s, u),
{
    let n = u.actions.len() as int;
    assert forall|i: int| 0 <= i < s.actions.len() implies #[trigger] s.actions[i]
        == u.actions[i] by {
        assert(s.actions[i] == t.actions[i]);
    }
    assert forall|p: Seq<char>| #[trigger]
        u.present.contains(p) <==> is_taken(s, u.actions, n, p) by {
        lemma_from(s, t, u.actions, n, p);
    }
    assert forall|p: Seq<char>| #[trigger]
        u.links.contains(p) <==> is_linked(s, u.actions, n, p) by {
        lemma_from(s, t, u.actions, n, p);
    }
}

proof fn lemma_tree_run(
    m: Objects,
    id: Seq<u8>,
    prefix: Seq<char>,
    force: bool,
    s: Progress,
    d: nat,
)
    requires
        within(m, id, d),
        tree_step(m, id, prefix, force, s, d).fault is None,
    ensures
        is_run(s, tree_step(m, id, prefix, force, s, d).progress),
    decreases d, 1nat, 0nat,
{
    lemma_entries_run(m, tree_at(m, id)->Ok_0, prefix, force, s, d);
}

proof fn lemma_entries_run(
    m: Objects,
    es: Seq<TreeEntryView>,
    prefix: Seq<char>,
    force: bool,
    s: Progress,
    d: nat,
)
    requires
        d > 0,
        forall|i: int|
            0 <= i < es.len() && (#[trigger] es[i]).entry_type == EntryType::Tree ==> within(
                m,
                es[i].oid,
                (d - 1) as nat,
            ),
        entries_step(m, es, prefix, force, s, d).fault is None,
    ensures
        is_run(s, entries_step(m, es, prefix, force, s, d).progress),
    decreases d, 0nat, es.len(),
{
    if es.len() == 0 {
        lemma_run_start(s);
    } else {
        let t = es.drop_last();
        assert forall|i: int|
            0 <= i < t.len() && (#[trigger] t[i]).entry_type == EntryType::Tree implies within(
            m,
            t[i].oid,
            (d - 1) as nat,
        ) by {
            assert(t[i] == es[i]);
        }
        lemma_entries_run(m, t, prefix, force, s, d);
        let before = entries_step(m, t, prefix, force, s, d).progress;
        let now = entries_step(m, es, prefix, force, s, d).progress;
        let e = es.last();
        assert(es[es.len() - 1] == e);
        let path = join_spec(prefix, e.name);
        let k = before.actions.len() as int;
        if e.entry_type == EntryType::Tree {
            let next = made(before, ActionView::MakeDir(path), path);
            lemma_run_push(s, before, next, ActionView::MakeDir(path), path);
            lemma_tree_run(m, e.oid, path, force, next, (d - 1) as nat);
            lemma_run_on(s, next, now);
        } else {
            lemma_run_push(s, before, now, now.actions[k], path);
        }
    }
}

/// A checkout that comes to its end has, for every entry that names lead to from the tree of
/// the commit, a step that puts it at the path that the names spell: directories, files with
/// their stored contents, executable where the entry is, and links. Unless it is forced, a
/// file or a link is left out just where something is there, from the start or by an earlier
/// step.
pub proof fn checkout_puts_entries_in_place(
    m: Objects,
    id: Seq<u8>,
    force: bool,
    s: Progress,
    names: Seq<Seq<char>>,
    e: TreeEntryView,
)
    requires
        tree_of_commit(m, id) is Ok,
        grounded(m, tree_of_commit(m, id)->Ok_0),
        commit_step(m, id, force, s).fault is None,
        are_spelled(names),
        leads_to(m, tree_of_commit(m, id)->Ok_0, names, e),
    ensures
        ({
            let a = commit_step(m, id, force, s).progress.actions;
            &&& continues(s.actions, a)
            &&& exists|i: int|
                s.actions.len() <= i < a.len() && #[trigger] is_step_for(
                    m,
                    s,
                    a,
                    i,
                    spelled(names),
                    e,
                    force,
                )
        }),
{
    let t = tree_of_commit(m, id)->Ok_0;
    lemma_tree_run(m, t, Seq::empty(), force, s, depth_of(m, t));
    lemma_placed(m, t, Seq::empty(), force, s, depth_of(m, t), names, e);
}

proof fn lemma_placed(
    m: Objects,
    id: Seq<u8>,
    prefix: Seq<char>,
    force: bool,
    s: Progress,
    d: nat,
    names: Seq<Seq<char>>,
    e: TreeEntryView,
)
    requires
        within(m, id, d),
        tree_step(m, id, prefix, force, s, d).fault is None,
        are_spelled(names),
        leads_to(m, id, names, e),
    ensures
        ({
            let a = tree_step(m, id, prefix, force, s, d).progress.actions;
            exists|i: int|
                s.actions.len() <= i < a.len() && #[trigger] is_step_for(
                    m,
                    s,
                    a,
                    i,
                    below(prefix, names),
                    e,
                    force,
                )
        }),
    decreases d, 1nat, 0nat,
{
    let es = tree_at(m, id)->Ok_0;
    let i = choose|i: int|
        0 <= i < es.len() && (#[trigger] es[i]).name == names[0] && if names.len() == 1 {
            es[i] == e
        } else {
            es[i].entry_type == EntryType::Tree && leads_to(
                m,
                es[i].oid,
                names.subrange(1, names.len() as int),
                e,
            )
        };
    lemma_entry_placed(m, es, prefix, force, s, d, i, names, e);
}

/// A step stays the one for its entry where it is seen from an earlier start and with later
/// steps behind it.
proof fn lemma_step_for(
    m: Objects,
    s: Progress,
    t: Progress,
    a: Seq<ActionView>,
    b: Seq<ActionView>,
    i: int,
    path: Seq<char>,
    e: TreeEntryView,
    force: bool,
)
    requires
        is_run(s, t),
        continues(t.actions, a),
        continues(a, b),
        t.actions.len() <= i < a.len(),
        is_step_for(m, t, a, i, path, e, force),
    ensures
        is_step_for(m, s, b, i, path, e, force),
{
    assert forall|j: int| 0 <= j < t.actions.len() implies #[trigger] t.actions[j] == b[j] by {
        assert(t.actions[j] == a[j]);
    }
    lemma_from(s, t, b, i, path);
    assert(a[i] == b[i]);
    if exists|j: int| t.actions.len() <= j < i && makes(#[trigger] a[j], path) {
        let j = choose|j: int| t.actions.len() <= j < i && makes(#[trigger] a[j], path);
        assert(makes(b[j], path));
    }
    if exists|j: int| t.actions.len() <= j < i && makes(#[trigger] b[j], path) {
        let j = choose|j: int| t.actions.len() <= j < i && makes(#[trigger] b[j], path);
        assert(a[j] == b[j]);
    }
    if exists|j: int| t.actions.len() <= j < i && makes_link(#[trigger] a[j], path) {
        let j = choose|j: int| t.actions.len() <= j < i && makes_link(#[trigger] a[j], path);
        assert(makes_link(b[j], path));
    }
    if exists|j: int| t.actions.len() <= j < i && makes_link(#[trigger] b[j], path) {
        let j = choose|j: int| t.actions.len() <= j < i && makes_link(#[trigger] b[j], path);
        assert(a[j] == b[j]);
    }
}

proof fn lemma_entry_placed(
    m: Objects,
    es: Seq<TreeEntryView>,
    prefix: Seq<char>,
    force: bool,
    s: Progress,
    d: nat,
    i: int,
    names: Seq<Seq<char>>,
    e: TreeEntryView,
)
    requires
        d > 0,
        forall|i: int|
            0 <= i < es.len() && (#[trigger] es[i]).entry_type == EntryType::Tree ==> within(
                m,
                es[i].oid,
                (d - 1) as nat,
            ),
        entries_step(m, es, prefix, force, s, d).fault is None,
        are_spelled(names),
        names.len() > 0,
        0 <= i < es.len(),
        es[i].name == names[0],
        if names.len() == 1 {
            es[i] == e
        } else {
            es[i].entry_type == EntryType::Tree && leads_to(
                m,
                es[i].oid,
                names.subrange(1, names.len() as int),
                e,
            )
        },
    ensures
        ({
            let a = entries_step(m, es, prefix, force, s, d).progress.actions;
            exists|i: int|
                s.actions.len() <= i < a.len() && #[trigger] is_step_for(
                    m,
                    s,
                    a,
                    i,
                    below(prefix, names),
                    e,
                    force,
                )
        }),
    decreases d, 0nat, es.len(),
{
    let t = es.drop_last();
    assert forall|i: int|
        0 <= i < t.len() && (#[trigger] t[i]).entry_type == EntryType::Tree implies within(
        m,
        t[i].oid,
        (d - 1) as nat,
    ) by {
        assert(t[i] == es[i]);
    }
    lemma_entries_run(m, t, prefix, force, s, d);
    let before = entries_step(m, t, prefix, force, s, d).progress;
    let now = entries_step(m, es, prefix, force, s, d).progress;
    let a = now.actions;
    let x = es.last();
    assert(es[es.len() - 1] == x);
    let path = join_spec(prefix, x.name);
    let k = before.actions.len() as int;
    let goal = below(prefix, names);
    let next = made(before, ActionView::MakeDir(path), path);
    if x.entry_type == EntryType::Tree {
        lemma_run_push(s, before, next, ActionView::MakeDir(path), path);
        lemma_tree_run(m, x.oid, path, force, next, (d - 1) as nat);
        assert(next.actions[k] == a[k]);
        assert forall|j: int| 0 <= j < k implies #[trigger] before.actions[j] == a[j] by {
            assert(next.actions[j] == a[j]);
        }
    }
    assert(continues(before.actions, a));
    lemma_run_start(s);
    if i < t.len() {
        assert(t[i] == es[i]);
        lemma_entry_placed(m, t, prefix, force, s, d, i, names, e);
        let j = choose|j: int|
            s.actions.len() <= j < before.actions.len() && #[trigger] is_step_for(
                m,
                s,
                before.actions,
                j,
                goal,
                e,
                force,
            );
        lemma_step_for(m, s, s, before.actions, a, j, goal, e, force);
    } else if names.len() == 1 {
        assert(goal == path);
        lemma_from(s, before, a, k, path);
        assert(is_step_for(m, s, a, k, goal, e, force));
    } else {
        let rest = names.subrange(1, names.len() as int);
        assert forall|j: int| 0 <= j < rest.len() implies (#[trigger] rest[j]).len() > 0 by {
            assert(rest[j] == names[j + 1]);
        }
        lemma_below(prefix, names);
        lemma_placed(m, x.oid, path, force, next, (d - 1) as nat, rest, e);
        let j = choose|j: int|
            next.actions.len() <= j < a.len() && #[trigger] is_step_for(
                m,
                next,
                a,
                j,
                goal,
                e,
                force,
            );
        lemma_step_for(m, s, next, a, a, j, goal, e, force);
    }
}

} // verus!
