//! What the status view lists, and what staging in it does.
use vstd::prelude::*;
use vstd::string::*;

use crate::helix_index::api::knows;
use crate::helix_index::format::EntryView;
use crate::helix_index::reader::{first_entry, lemma_first_entry};
use crate::ignore::any_matches;
use crate::order::{sorted, ByPath};
use crate::path::{are_distinct, has_path, last_at, lemma_last_at, name_spec, same_path};
use crate::status::app::{
    entry_rows, has_row, listed_rows, row_paths, toggled, with_new_row, with_untracked, Screen,
    StatusKind, StatusRow,
};
use crate::text::{after, first_at, lemma_first_at, split_spec};

verus! {

proof fn lemma_last_at_is(s: Seq<char>, c: char, i: int)
    requires
        -1 <= i < s.len(),
        i >= 0 ==> s[i] == c,
        forall|j: int| i < j < s.len() ==> s[j] != c,
    ensures
        last_at(s, c) == i,
{
    lemma_last_at(s, c);
    let k = last_at(s, c);
    if k > i {
        assert(s[k] != c);
    }
    if k < i {
        assert(s[i] != c);
    }
}

/// The last part of a path is what stands behind its last separator.
proof fn lemma_last_part(p: Seq<char>)
    ensures
        name_spec(p) == split_spec(p, '/').last(),
    decreases p.len(),
{
    lemma_first_at(p, '/');
    lemma_last_at(p, '/');
    let f = first_at(p, '/');
    if f < p.len() {
        let t = after(p, f + 1);
        lemma_last_part(t);
        assert(split_spec(t, '/').len() > 0);
        assert(split_spec(p, '/').last() == split_spec(t, '/').last());
        lemma_last_at(t, '/');
        let k = last_at(t, '/');
        assert forall|j: int| f + 1 + k < j < p.len() implies p[j] != '/' by {
            assert(t[j - f - 1] == p[j]);
        }
        if k >= 0 {
            assert(t[k] == p[f + 1 + k]);
            lemma_last_at_is(p, '/', f + 1 + k);
        } else {
            lemma_last_at_is(p, '/', f);
        }
        assert(name_spec(p) =~= name_spec(t));
    } else {
        assert(split_spec(p, '/').last() == p);
        if last_at(p, '/') >= 0 {
            assert(p[last_at(p, '/')] == '/');
        }
        assert(name_spec(p) =~= p);
    }
}

/// Whether the index tracks a file with this path.
pub open spec fn is_known(es: Seq<EntryView>, p: Seq<char>) -> bool {
    exists|i: int|
        0 <= i < es.len() && same_path((#[trigger] es[i]).path, p) && es[i].flags.bits & 1 == 1
}

/// Whether a file of the working tree, at whatever depth, is new: its last part is neither
/// `.git` nor `.helix`, the index does not track it, and no pattern ignores it.
pub open spec fn is_new(es: Seq<EntryView>, globs: Seq<Seq<char>>, p: Seq<char>) -> bool {
    &&& split_spec(p, '/').last() != ".git"@
    &&& split_spec(p, '/').last() != ".helix"@
    &&& !is_known(es, p)
    &&& !any_matches(globs, p)
}

/// Whether a row says of a path what an entry of the index says of it.
pub open spec fn is_row_of(row: StatusRow, e: EntryView) -> bool {
    &&& row.1 == e.path
    &&& e.flags.bits & 1 == 1
    &&& match row.0 {
        StatusKind::Modified => e.flags.bits & 4 == 4,
        StatusKind::Deleted => e.flags.bits & 4 != 4 && e.flags.bits & 8 == 8,
        StatusKind::Added => e.flags.bits & 4 != 4 && e.flags.bits & 8 != 8 && e.flags.bits & 2
            == 2,
        StatusKind::Untracked => false,
    }
}

/// Whether an entry of the index tells of a change: it is tracked, and modified, deleted or
/// staged.
pub open spec fn tells_change(e: EntryView) -> bool {
    e.flags.bits & 1 == 1 && (e.flags.bits & 4 == 4 || e.flags.bits & 8 == 8 || e.flags.bits & 2
        == 2)
}

proof fn lemma_row_kept(rows: Seq<StatusRow>, kind: Option<StatusKind>, path: Seq<char>)
    ensures
        forall|p: Seq<char>| #[trigger]
            has_row(rows, p) ==> has_row(with_new_row(rows, kind, path), p),
        kind is Some ==> has_row(with_new_row(rows, kind, path), path),
        are_distinct(row_paths(rows)) ==> are_distinct(
            row_paths(with_new_row(rows, kind, path)),
        ),
{
    let now = with_new_row(rows, kind, path);
    assert forall|p: Seq<char>| #[trigger] has_row(rows, p) implies has_row(now, p) by {
        let i = choose|i: int| 0 <= i < rows.len() && same_path((#[trigger] rows[i]).1, p);
        assert(now[i] == rows[i]);
        assert(same_path(now[i].1, p));
    }
    if kind is Some && !has_row(rows, path) {
        assert(same_path(now[rows.len() as int].1, path));
    }
    if are_distinct(row_paths(rows)) {
        assert forall|i: int, j: int| 0 <= i < j < now.len() implies !same_path(
            #[trigger] row_paths(now)[i],
            #[trigger] row_paths(now)[j],
        ) by {
            assert(row_paths(rows)[i] == row_paths(now)[i]);
            if j < rows.len() {
                assert(row_paths(rows)[j] == row_paths(now)[j]);
            } else {
                assert(same_path(rows[i].1, path) ==> has_row(rows, path));
            }
        }
    }
}

proof fn lemma_entry_rows(es: Seq<EntryView>)
    ensures
        are_distinct(row_paths(entry_rows(es))),
        forall|i: int|
            0 <= i < es.len() && tells_change(#[trigger] es[i]) ==> has_row(
                entry_rows(es),
                es[i].path,
            ),
        forall|k: int|
            0 <= k < entry_rows(es).len() ==> exists|i: int|
                0 <= i < es.len() && is_row_of(#[trigger] entry_rows(es)[k], #[trigger] es[i]),
    decreases es.len(),
{
    if es.len() > 0 {
        let d = es.drop_last();
        let e = es.last();
        lemma_entry_rows(d);
        let before = entry_rows(d);
        let now = entry_rows(es);
        let kind = crate::status::app::flag_status(e.flags);
        lemma_row_kept(before, kind, e.path);
        let n = es.len() - 1;
        assert(es[n] == e);
        assert forall|i: int| 0 <= i < es.len() && tells_change(#[trigger] es[i]) implies has_row(
            now,
            es[i].path,
        ) by {
            if i < n {
                assert(d[i] == es[i]);
                assert(has_row(before, es[i].path));
            }
        }
        assert forall|k: int| 0 <= k < now.len() implies exists|i: int|
            0 <= i < es.len() && is_row_of(#[trigger] now[k], #[trigger] es[i]) by {
            if k < before.len() {
                assert(now[k] == before[k]);
                let i = choose|i: int|
                    0 <= i < d.len() && is_row_of(before[k], #[trigger] d[i]);
                assert(es[i] == d[i]);
                assert(is_row_of(now[k], es[i]));
            } else {
                assert(is_row_of(now[k], es[n]));
            }
        }
    } else {
        assert(entry_rows(es).len() == 0);
    }
}

proof fn lemma_with_untracked(
    rows: Seq<StatusRow>,
    es: Seq<EntryView>,
    globs: Seq<Seq<char>>,
    walked: Seq<Seq<char>>,
)
    requires
        are_distinct(row_paths(rows)),
    ensures
        ({
            let now = with_untracked(rows, es, globs, walked);
            &&& are_distinct(row_paths(now))
            &&& now.len() >= rows.len()
            &&& forall|k: int| 0 <= k < rows.len() ==> #[trigger] now[k] == rows[k]
            &&& forall|i: int|
                0 <= i < walked.len() && is_new(es, globs, #[trigger] walked[i]) ==> has_row(
                    now,
                    walked[i],
                )
            &&& forall|k: int|
                rows.len() <= k < now.len() ==> (#[trigger] now[k]).0 == StatusKind::Untracked
                    && exists|i: int|
                    0 <= i < walked.len() && #[trigger] walked[i] == now[k].1 && is_new(
                        es,
                        globs,
                        walked[i],
                    )
        }),
    decreases walked.len(),
{
    if walked.len() > 0 {
        let d = walked.drop_last();
        let p = walked.last();
        lemma_with_untracked(rows, es, globs, d);
        lemma_last_part(p);
        let before = with_untracked(rows, es, globs, d);
        let now = with_untracked(rows, es, globs, walked);
        let n = walked.len() - 1;
        assert(walked[n] == p);
        assert(crate::diff_command::is_tracked_in(es, p) == is_known(es, p));
        assert(crate::status::app::is_new_file(es, globs, p) == is_new(es, globs, p));
        let kind = if is_new(es, globs, p) {
            Some(StatusKind::Untracked)
        } else {
            None
        };
        lemma_row_kept(before, kind, p);
        assert forall|i: int| 0 <= i < walked.len() && is_new(
            es,
            globs,
            #[trigger] walked[i],
        ) implies has_row(now, walked[i]) by {
            if i < n {
                assert(d[i] == walked[i]);
                assert(has_row(before, walked[i]));
            }
        }
        assert forall|k: int| rows.len() <= k < now.len() implies (#[trigger] now[k]).0
            == StatusKind::Untracked && exists|i: int|
            0 <= i < walked.len() && #[trigger] walked[i] == now[k].1 && is_new(
                es,
                globs,
                walked[i],
            ) by {
            if k < before.len() {
                assert(now[k] == before[k]);
                let i = choose|i: int|
                    0 <= i < d.len() && #[trigger] d[i] == before[k].1 && is_new(es, globs, d[i]);
                assert(walked[i] == d[i]);
            } else {
                assert(walked[n] == now[k].1);
            }
        }
    }
}

proof fn lemma_sorted_rows(a: Seq<StatusRow>)
    ensures
        ({
            let b = sorted::<ByPath, StatusRow>(a);
            &&& b.len() == a.len()
            &&& forall|r: StatusRow| #[trigger] b.contains(r) <==> a.contains(r)
            &&& forall|p: Seq<char>| #[trigger] has_row(b, p) <==> has_row(a, p)
            &&& are_distinct(row_paths(a)) ==> are_distinct(row_paths(b))
        }),
{
    broadcast use vstd::seq_lib::group_to_multiset_ensures;

    let b = sorted::<ByPath, StatusRow>(a);
    crate::order::lemma_sorted_in_order::<ByPath, StatusRow>(a);
    crate::order::lemma_sorted_permutation::<ByPath, StatusRow>(a);
    assert forall|r: StatusRow| #[trigger] b.contains(r) <==> a.contains(r) by {
        assert(b.to_multiset().count(r) == a.to_multiset().count(r));
    }
    assert forall|p: Seq<char>| #[trigger] has_row(b, p) <==> has_row(a, p) by {
        if has_row(b, p) {
            let i = choose|i: int| 0 <= i < b.len() && same_path((#[trigger] b[i]).1, p);
            assert(b.contains(b[i]));
            let k = choose|k: int| 0 <= k < a.len() && a[k] == b[i];
            assert(same_path(a[k].1, p));
        }
        if has_row(a, p) {
            let i = choose|i: int| 0 <= i < a.len() && same_path((#[trigger] a[i]).1, p);
            assert(a.contains(a[i]));
            assert(b.contains(a[i]));
            let k = choose|k: int| 0 <= k < b.len() && b[k] == a[i];
            assert(same_path(b[k].1, p));
        }
    }
    if are_distinct(row_paths(a)) {
        assert(a.no_duplicates()) by {
            assert forall|i: int, j: int| 0 <= i < a.len() && 0 <= j < a.len() && i != j implies a[i]
                != a[j] by {
                let x = if i < j {
                    i
                } else {
                    j
                };
                let y = if i < j {
                    j
                } else {
                    i
                };
                assert(!same_path(row_paths(a)[x], row_paths(a)[y]));
            }
        }
        a.lemma_multiset_has_no_duplicates();
        b.lemma_multiset_has_no_duplicates_conv();
        assert forall|i: int, j: int| 0 <= i < j < b.len() implies !same_path(
            #[trigger] row_paths(b)[i],
            #[trigger] row_paths(b)[j],
        ) by {
            assert(b.contains(b[i]) && b.contains(b[j]));
            let k = choose|k: int| 0 <= k < a.len() && a[k] == b[i];
            let l = choose|l: int| 0 <= l < a.len() && a[l] == b[j];
            assert(b[i] != b[j]);
            if k < l {
                assert(!same_path(row_paths(a)[k], row_paths(a)[l]));
            } else {
                assert(!same_path(row_paths(a)[l], row_paths(a)[k]));
            }
        }
    }
}

/// The status view lists every change, each path once: every tracked entry that is modified,
/// deleted or staged, and, where untracked files are shown, every new file that the walk
/// finds, at whatever depth. Each row says what its entry says, and every untracked row is a
/// new file of the walk.
pub proof fn status_lists_every_change(
    es: Seq<EntryView>,
    globs: Seq<Seq<char>>,
    walked: Seq<Seq<char>>,
    show_untracked: bool,
)
    ensures
        ({
            let rows = listed_rows(es, globs, walked, show_untracked);
            &&& are_distinct(row_paths(rows))
            &&& forall|i: int|
                0 <= i < es.len() && tells_change(#[trigger] es[i]) ==> has_row(rows, es[i].path)
            &&& show_untracked ==> forall|i: int|
                0 <= i < walked.len() && is_new(es, globs, #[trigger] walked[i]) ==> has_row(
                    rows,
                    walked[i],
                )
            &&& forall|k: int|
                0 <= k < rows.len() && (#[trigger] rows[k]).0 != StatusKind::Untracked ==> exists|
                    i: int,
                |
                    0 <= i < es.len() && is_row_of(rows[k], #[trigger] es[i])
            &&& forall|k: int|
                0 <= k < rows.len() && (#[trigger] rows[k]).0 == StatusKind::Untracked
                    ==> show_untracked && exists|i: int|
                    0 <= i < walked.len() && #[trigger] walked[i] == rows[k].1 && is_new(
                        es,
                        globs,
                        walked[i],
                    )
        }),
{
    let rows = listed_rows(es, globs, walked, show_untracked);
    let first = entry_rows(es);
    let all = if show_untracked {
        with_untracked(first, es, globs, walked)
    } else {
        first
    };
    lemma_entry_rows(es);
    lemma_with_untracked(first, es, globs, walked);
    lemma_sorted_rows(all);
    assert forall|i: int| 0 <= i < es.len() && tells_change(#[trigger] es[i]) implies has_row(
        rows,
        es[i].path,
    ) by {
        let k = choose|k: int| 0 <= k < first.len() && same_path((#[trigger] first[k]).1, es[i].path);
        assert(all[k] == first[k]);
        assert(has_row(all, es[i].path));
    }
    assert forall|k: int|
        0 <= k < rows.len() && (#[trigger] rows[k]).0 != StatusKind::Untracked implies exists|i: int|
        0 <= i < es.len() && is_row_of(rows[k], #[trigger] es[i]) by {
        assert(rows.contains(rows[k]));
        assert(all.contains(rows[k]));
        let j = choose|j: int| 0 <= j < all.len() && all[j] == rows[k];
        assert(j < first.len());
        assert(first[j] == rows[k]);
        let i = choose|i: int| 0 <= i < es.len() && is_row_of(first[j], #[trigger] es[i]);
        assert(is_row_of(rows[k], es[i]));
    }
    assert forall|k: int|
        0 <= k < rows.len() && (#[trigger] rows[k]).0 == StatusKind::Untracked implies show_untracked
        && exists|i: int|
        0 <= i < walked.len() && #[trigger] walked[i] == rows[k].1 && is_new(
            es,
            globs,
            walked[i],
        ) by {
        assert(rows.contains(rows[k]));
        assert(all.contains(rows[k]));
        let j = choose|j: int| 0 <= j < all.len() && all[j] == rows[k];
        if j < first.len() {
            assert(first[j] == rows[k]);
            let i = choose|i: int| 0 <= i < es.len() && is_row_of(first[j], #[trigger] es[i]);
        }
        assert(j >= first.len());
    }
}

/// Toggling the selected file, where the index knows it, sets or clears the staged flag of its
/// first entry and nothing else: set where it was not among the staged files, and cleared
/// where it was.
pub proof fn toggling_stages_the_selected_file(s: Screen)
    requires
        0 <= s.selected < s.rows.len(),
        knows(s.es, s.rows[s.selected].1),
    ensures
        ({
            let p = s.rows[s.selected].1;
            let k = first_entry(s.es, p);
            let t = toggled(s);
            &&& t.es.len() == s.es.len()
            &&& forall|i: int| 0 <= i < s.es.len() && i != k ==> #[trigger] t.es[i] == s.es[i]
            &&& same_path(s.es[k].path, p)
            &&& !has_path(s.staged, p) ==> t.es[k].flags.bits == s.es[k].flags.bits | 2
                && has_path(t.staged, p)
            &&& has_path(s.staged, p) ==> t.es[k].flags.bits == s.es[k].flags.bits & !2u32
                && !has_path(t.staged, p)
            &&& t.es[k] == (EntryView { flags: t.es[k].flags, ..s.es[k] })
            &&& forall|q: Seq<char>|
                !same_path(q, p) ==> (#[trigger] has_path(t.staged, q) <==> has_path(s.staged, q))
        }),
{
    let p = s.rows[s.selected].1;
    lemma_first_entry(s.es, p);
    let t = toggled(s);
    if has_path(s.staged, p) {
        lemma_without(s.staged, p);
    } else {
        assert(same_path(t.staged[s.staged.len() as int], p));
        assert forall|q: Seq<char>| !same_path(q, p) implies (#[trigger] has_path(t.staged, q)
            <==> has_path(s.staged, q)) by {
            if has_path(t.staged, q) {
                let i = choose|i: int|
                    0 <= i < t.staged.len() && same_path(#[trigger] t.staged[i], q);
                assert(i < s.staged.len());
                assert(same_path(s.staged[i], q));
            }
            if has_path(s.staged, q) {
                let i = choose|i: int|
                    0 <= i < s.staged.len() && same_path(#[trigger] s.staged[i], q);
                assert(same_path(t.staged[i], q));
            }
        }
    }
}

proof fn lemma_without(v: Seq<Seq<char>>, p: Seq<char>)
    ensures
        !has_path(crate::status::app::without_path(v, p), p),
        forall|q: Seq<char>|
            !same_path(q, p) ==> (#[trigger] has_path(crate::status::app::without_path(v, p), q)
                <==> has_path(v, q)),
    decreases v.len(),
{
    if v.len() > 0 {
        let d = v.drop_last();
        lemma_without(d, p);
        let a = crate::status::app::without_path(d, p);
        let b = crate::status::app::without_path(v, p);
        assert forall|q: Seq<char>| #[trigger] has_path(b, q) <==> has_path(v, q) && !same_path(
            q,
            p,
        ) by {
            if has_path(b, q) {
                let i = choose|i: int| 0 <= i < b.len() && same_path(#[trigger] b[i], q);
                if i < a.len() && b[i] == a[i] {
                    assert(has_path(a, q));
                    if same_path(q, p) {
                        assert(has_path(a, p)) by {
                            assert(same_path(a[i], p));
                        }
                    }
                    let j = choose|j: int| 0 <= j < d.len() && same_path(#[trigger] d[j], q);
                    assert(v[j] == d[j]);
                } else {
                    assert(v[v.len() - 1] == b[i]);
                }
            }
            if has_path(v, q) && !same_path(q, p) {
                let j = choose|j: int| 0 <= j < v.len() && same_path(#[trigger] v[j], q);
                if j < d.len() {
                    assert(same_path(d[j], q));
                    assert(has_path(d, q));
                    assert(has_path(a, q));
                    let i = choose|i: int| 0 <= i < a.len() && same_path(#[trigger] a[i], q);
                    assert(same_path(b[i], q));
                } else {
                    assert(same_path(b[a.len() as int], q));
                }
            }
        }
    }
}

} // verus!
