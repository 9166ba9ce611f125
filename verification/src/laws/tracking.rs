//! What the index answers of files, and how it takes note of changes.
use vstd::prelude::*;

use crate::helix_index::api::{
    blank_entry, is_blank_entry, is_deleted, is_unstaged, last_tracked, needs_adding, staged_upto,
    tracked_change, tracked_change_flags, unstaged_upto, untracked_change, untracked_change_flags,
    with_bits, with_change, with_changes, without_path, DirtyPath,
};
use crate::helix_index::format::{EntryFlags, EntryView};
use crate::helix_index::reader::{first_entry, lemma_first_entry};
use crate::ignore::any_matches;
use crate::laws::adding::are_plain_entries;
use crate::path::{is_regular, regular_paths_are_texts, same_path};

verus! {

/// A file has changes that are not staged where it is tracked and modified, and not staged; it
/// needs adding where it is untracked, or is tracked, modified or deleted, and not staged; and
/// it is deleted where it is tracked and gone.
pub proof fn questions_are_answered_by_flags(f: EntryFlags)
    ensures
        is_unstaged(f) <==> f.bits & 1 == 1 && f.bits & 4 == 4 && f.bits & 2 != 2,
        needs_adding(f) <==> f.bits & 16 == 16 || (f.bits & 1 == 1 && (f.bits & 4 == 4 || f.bits & 8
            == 8) && f.bits & 2 != 2),
        is_deleted(f) <==> f.bits & 8 == 8 && f.bits & 1 == 1,
{
}

proof fn lemma_bits(b: u32)
    ensures
        (b | 2u32) | 2u32 == b | 2u32,
        (b & !2u32) & !2u32 == b & !2u32,
        b & 1 == 1 || b & 1 == 0,
        b & 2 == 2 || b & 2 == 0,
        b & 8 == 8 || b & 8 == 0,
        b & 16 == 16 || b & 16 == 0,
        0u32 & 1 == 0,
{
    assert((b | 2u32) | 2u32 == b | 2u32 && (b & !2u32) & !2u32 == b & !2u32 && (b & 1 == 1 || b & 1
        == 0) && (b & 2 == 2 || b & 2 == 0) && (b & 8 == 8 || b & 8 == 0) && (b & 16 == 16 || b & 16
        == 0) && 0u32 & 1 == 0) by (bit_vector);
}

proof fn lemma_blank(path: Seq<char>)
    ensures
        is_blank_entry(blank_entry(path), path),
{
    broadcast use vstd::array::group_array_axioms;

    let e = EntryView {
        path,
        size: 0,
        mtime_sec: 0,
        mtime_nsec: 0,
        flags: EntryFlags { bits: 0 },
        oid: vstd::array::spec_array_fill_for_copy_type::<u8, 32>(0),
        merge_conflict_stage: 0,
        file_mode: 0o100644,
        reserved: vstd::array::spec_array_fill_for_copy_type::<u8, 33>(0),
    };
    assert(e.oid@ =~= crate::codec::zeros(32));
    assert(e.reserved@ =~= crate::codec::zeros(33));
    assert(is_blank_entry(e, path));
}

/// Where the only entry with a path is.
proof fn lemma_place(es: Seq<EntryView>, path: Seq<char>, k: int)
    requires
        are_plain_entries(es),
        is_regular(path),
        0 <= k < es.len(),
    ensures
        same_path(es[k].path, path) <==> es[k].path == path,
        es[k].path == path ==> first_entry(es, path) == k,
{
    regular_paths_are_texts(es[k].path, path);
    lemma_first_entry(es, path);
    let f = first_entry(es, path);
    if es[k].path == path && f != k {
        assert(f < k);
        regular_paths_are_texts(es[f].path, path);
        assert(es[f].path != es[k].path);
    }
}

/// Staging files marks each of them as staged and nothing else, and unstaging takes that mark
/// away and nothing else.
pub proof fn staging_marks_the_files(es: Seq<EntryView>, paths: Seq<Seq<char>>, n: int)
    requires
        are_plain_entries(es),
        0 <= n <= paths.len(),
        forall|i: int|
            0 <= i < n ==> is_regular(#[trigger] paths[i]) && exists|k: int|
                0 <= k < es.len() && (#[trigger] es[k]).path == paths[i],
    ensures
        staged_upto(es, paths, n).len() == es.len(),
        unstaged_upto(es, paths, n).len() == es.len(),
        forall|k: int|
            0 <= k < es.len() ==> (#[trigger] staged_upto(es, paths, n)[k]) == with_bits(
                es[k],
                if paths.subrange(0, n).contains(es[k].path) {
                    es[k].flags.bits | 2
                } else {
                    es[k].flags.bits
                },
            ),
        forall|k: int|
            0 <= k < es.len() ==> (#[trigger] unstaged_upto(es, paths, n)[k]) == with_bits(
                es[k],
                if paths.subrange(0, n).contains(es[k].path) {
                    es[k].flags.bits & !2u32
                } else {
                    es[k].flags.bits
                },
            ),
    decreases n,
{
    if n == 0 {
        assert(paths.subrange(0, 0).len() == 0);
        assert forall|k: int| 0 <= k < es.len() implies es[k] == with_bits(
            es[k],
            (#[trigger] es[k]).flags.bits,
        ) by {}
    } else {
        let p = paths[n - 1];
        let now = paths.subrange(0, n);
        let then = paths.subrange(0, n - 1);
        staging_marks_the_files(es, paths, n - 1);
        let s = staged_upto(es, paths, n - 1);
        let u = unstaged_upto(es, paths, n - 1);
        assert(now =~= then.push(p));
        assert forall|q: Seq<char>| now.contains(q) <==> then.contains(q) || q == p by {
            if then.contains(q) {
                let i = choose|i: int| 0 <= i < then.len() && then[i] == q;
                assert(now[i] == q);
            }
            assert(now[n - 1] == p);
        }
        assert(is_regular(paths[n - 1]));
        let at = choose|k: int| 0 <= k < es.len() && (#[trigger] es[k]).path == paths[n - 1];
        lemma_same_paths(es, s);
        lemma_same_paths(es, u);
        assert(s[at].path == es[at].path && u[at].path == es[at].path);
        lemma_place(s, p, at);
        lemma_place(u, p, at);
        let s2 = staged_upto(es, paths, n);
        let u2 = unstaged_upto(es, paths, n);
        assert forall|k: int| 0 <= k < es.len() implies (#[trigger] s2[k]) == with_bits(
            es[k],
            if now.contains(es[k].path) {
                es[k].flags.bits | 2
            } else {
                es[k].flags.bits
            },
        ) by {
            let b = es[k].flags.bits;
            lemma_bits(b);
            assert(s[k].path == es[k].path);
            if k != at {
                assert(es[k].path != es[at].path) by {
                    if k < at {
                        assert(es[k].path != es[at].path);
                    } else {
                        assert(es[at].path != es[k].path);
                    }
                }
                assert(s2[k] == s[k]);
            }
        }
        assert forall|k: int| 0 <= k < es.len() implies (#[trigger] u2[k]) == with_bits(
            es[k],
            if now.contains(es[k].path) {
                es[k].flags.bits & !2u32
            } else {
                es[k].flags.bits
            },
        ) by {
            let b = es[k].flags.bits;
            lemma_bits(b);
            assert(u[k].path == es[k].path);
            if k != at {
                assert(es[k].path != es[at].path) by {
                    if k < at {
                        assert(es[k].path != es[at].path);
                    } else {
                        assert(es[at].path != es[k].path);
                    }
                }
                assert(u2[k] == u[k]);
            }
        }
    }
}

proof fn lemma_same_paths(es: Seq<EntryView>, s: Seq<EntryView>)
    requires
        are_plain_entries(es),
        s.len() == es.len(),
        forall|k: int| 0 <= k < es.len() ==> (#[trigger] s[k]).path == es[k].path,
    ensures
        are_plain_entries(s),
{
    assert forall|i: int| 0 <= i < s.len() implies is_regular((#[trigger] s[i]).path) by {
        assert(is_regular(es[i].path));
    }
    assert forall|i: int, j: int| 0 <= i < j < s.len() implies (#[trigger] s[i]).path != (
    #[trigger] s[j]).path by {
        assert(es[i].path != es[j].path);
    }
}

/// Whether the entries tell of a change at a path, from what they told before: a tracked file
/// is modified, and deleted where it is gone, and all else of its entry stays; another file
/// that is there and not ignored is untracked and modified; one that is there and ignored is as
/// before; and one that is neither tracked nor there has no entry.
pub open spec fn tells_of(
    before: Seq<EntryView>,
    now: Seq<EntryView>,
    globs: Seq<Seq<char>>,
    path: Seq<char>,
    present: bool,
) -> bool {
    let held = exists|k: int|
        0 <= k < before.len() && (#[trigger] before[k]).path == path && before[k].flags.bits & 1
            == 1;
    if held {
        exists|k: int, j: int|
            #![trigger before[k], now[j]]
            0 <= k < before.len() && 0 <= j < now.len() && before[k].path == path && {
                let b = before[k].flags.bits;
                let c = now[j].flags.bits;
                &&& now[j] == with_bits(before[k], c)
                &&& c & 1 == 1
                &&& c & 2 == b & 2
                &&& c & 4 == 4
                &&& c & 8 == 8 <==> !present
                &&& c & 16 == 0
            }
    } else if !present {
        forall|j: int| 0 <= j < now.len() ==> (#[trigger] now[j]).path != path
    } else if any_matches(globs, path) {
        forall|e: EntryView|
            e.path == path ==> (#[trigger] now.contains(e) <==> before.contains(e))
    } else {
        exists|j: int|
            0 <= j < now.len() && (#[trigger] now[j]).path == path && now[j].flags.bits & 16 == 16
                && now[j].flags.bits & 4 == 4 && now[j].flags.bits & 8 == 0 && now[j].flags.bits & 1
                == 0
    }
}

proof fn lemma_last_tracked(es: Seq<EntryView>, path: Seq<char>)
    ensures
        -1 <= last_tracked(es, path) < es.len(),
        last_tracked(es, path) >= 0 ==> same_path(es[last_tracked(es, path)].path, path)
            && es[last_tracked(es, path)].flags.bits & 1 == 1,
        last_tracked(es, path) < 0 ==> forall|k: int|
            0 <= k < es.len() && same_path((#[trigger] es[k]).path, path) ==> es[k].flags.bits & 1
                != 1,
    decreases es.len(),
{
    if es.len() > 0 {
        let d = es.drop_last();
        lemma_last_tracked(d, path);
        if last_tracked(es, path) < 0 {
            assert forall|k: int|
                0 <= k < es.len() && same_path((#[trigger] es[k]).path, path) implies es[k].flags.bits
                & 1 != 1 by {
                if k < d.len() {
                    assert(d[k] == es[k]);
                }
            }
        }
    }
}

proof fn lemma_without(es: Seq<EntryView>, path: Seq<char>, e: EntryView)
    ensures
        without_path(es, path).contains(e) <==> es.contains(e) && !same_path(e.path, path),
    decreases es.len(),
{
    if es.len() > 0 {
        let d = es.drop_last();
        let w = without_path(d, path);
        let r = without_path(es, path);
        lemma_without(d, path, e);
        assert(es[es.len() - 1] == es.last());
        if es.contains(e) {
            let k = choose|k: int| 0 <= k < es.len() && es[k] == e;
            if k < d.len() {
                assert(d[k] == e);
            }
        }
        if d.contains(e) {
            let k = choose|k: int| 0 <= k < d.len() && d[k] == e;
            assert(es[k] == e);
        }
        if !same_path(es.last().path, path) {
            assert(r[w.len() as int] == es.last());
            if w.contains(e) {
                let k = choose|k: int| 0 <= k < w.len() && w[k] == e;
                assert(r[k] == e);
            }
            if r.contains(e) {
                let k = choose|k: int| 0 <= k < r.len() && r[k] == e;
                if k < w.len() {
                    assert(w[k] == e);
                }
            }
        }
    }
}

proof fn lemma_without_plain(es: Seq<EntryView>, path: Seq<char>)
    requires
        are_plain_entries(es),
    ensures
        are_plain_entries(without_path(es, path)),
    decreases es.len(),
{
    if es.len() > 0 {
        let d = es.drop_last();
        assert(are_plain_entries(d)) by {
            assert forall|i: int| 0 <= i < d.len() implies is_regular((#[trigger] d[i]).path) by {
                assert(d[i] == es[i]);
            }
            assert forall|i: int, j: int| 0 <= i < j < d.len() implies (#[trigger] d[i]).path != (
            #[trigger] d[j]).path by {
                assert(d[i] == es[i] && d[j] == es[j]);
            }
        }
        lemma_without_plain(d, path);
        if !same_path(es.last().path, path) {
            let w = without_path(d, path);
            let r = without_path(es, path);
            assert(es[es.len() - 1] == es.last());
            assert forall|i: int| 0 <= i < r.len() implies is_regular((#[trigger] r[i]).path) by {
                if i < w.len() {
                    assert(r[i] == w[i]);
                }
            }
            assert forall|i: int, j: int| 0 <= i < j < r.len() implies (#[trigger] r[i]).path != (
            #[trigger] r[j]).path by {
                assert(r[i] == w[i]);
                if j < w.len() {
                    assert(r[j] == w[j]);
                } else {
                    lemma_without(d, path, w[i]);
                    assert(w.contains(w[i]));
                    let k = choose|k: int| 0 <= k < d.len() && d[k] == w[i];
                    assert(es[k].path != es[es.len() - 1].path);
                }
            }
        }
    }
}

/// One change is told of, and what is told of other files stays.
pub proof fn change_is_noted(
    es: Seq<EntryView>,
    globs: Seq<Seq<char>>,
    path: Seq<char>,
    present: bool,
)
    requires
        are_plain_entries(es),
        is_regular(path),
    ensures
        are_plain_entries(with_change(es, globs, path, present)),
        tells_of(es, with_change(es, globs, path, present), globs, path, present),
        forall|e: EntryView|
            e.path != path ==> (#[trigger] with_change(es, globs, path, present).contains(e)
                <==> es.contains(e)),
{
    let now = with_change(es, globs, path, present);
    let k = last_tracked(es, path);
    let j = first_entry(es, path);
    lemma_last_tracked(es, path);
    lemma_first_entry(es, path);
    assert forall|i: int| 0 <= i < es.len() implies (same_path((#[trigger] es[i]).path, path)
        <==> es[i].path == path) by {
        regular_paths_are_texts(es[i].path, path);
    }
    if k >= 0 {
        let b = es[k].flags.bits;
        tracked_change_flags(b, present);
        let c = tracked_change(b, present);
        assert(now[k] == with_bits(es[k], c));
        assert(c & 1 == 1);
        assert(c & 2 == 2 <==> b & 2 == 2);
        lemma_bits(b);
        lemma_bits(c);
        assert(es[k].path == path);
        lemma_updated(es, k, now[k]);
        assert(es[k].path == path && now[k] == with_bits(es[k], c));
    } else if present && any_matches(globs, path) {
    } else if present {
        if j < es.len() {
            let b = es[j].flags.bits;
            untracked_change_flags(b);
            let c = untracked_change(b);
            assert(now[j] == with_bits(es[j], c));
            assert(b & 1 != 1);
            lemma_bits(c);
            lemma_updated(es, j, now[j]);
            assert(now[j].path == path);
        } else {
            lemma_appended(es, globs, path);
        }
    } else {
        assert forall|e: EntryView| e.path != path implies (#[trigger] now.contains(e)
            <==> es.contains(e)) by {
            lemma_without(es, path, e);
            if es.contains(e) {
                let i = choose|i: int| 0 <= i < es.len() && es[i] == e;
                assert(es[i].path != path);
            }
        }
        lemma_without_plain(es, path);
        assert forall|i: int| 0 <= i < now.len() implies (#[trigger] now[i]).path != path by {
            lemma_without(es, path, now[i]);
            assert(now.contains(now[i]));
            let l = choose|l: int| 0 <= l < es.len() && es[l] == now[i];
            assert(!same_path(es[l].path, path));
        }
    }
}

proof fn lemma_updated(es: Seq<EntryView>, k: int, x: EntryView)
    requires
        are_plain_entries(es),
        0 <= k < es.len(),
        x.path == es[k].path,
    ensures
        are_plain_entries(es.update(k, x)),
        forall|e: EntryView|
            e.path != x.path ==> (#[trigger] es.update(k, x).contains(e) <==> es.contains(e)),
{
    let now = es.update(k, x);
    lemma_same_paths(es, now);
    assert forall|e: EntryView| e.path != x.path implies (#[trigger] now.contains(e)
        <==> es.contains(e)) by {
        if now.contains(e) {
            let i = choose|i: int| 0 <= i < now.len() && now[i] == e;
            assert(es[i] == e);
        }
        if es.contains(e) {
            let i = choose|i: int| 0 <= i < es.len() && es[i] == e;
            assert(now[i] == e);
        }
    }
}

proof fn lemma_appended(es: Seq<EntryView>, globs: Seq<Seq<char>>, path: Seq<char>)
    requires
        are_plain_entries(es),
        is_regular(path),
        first_entry(es, path) == es.len(),
        last_tracked(es, path) < 0,
        !any_matches(globs, path),
    ensures
        are_plain_entries(with_change(es, globs, path, true)),
        tells_of(es, with_change(es, globs, path, true), globs, path, true),
        forall|e: EntryView|
            e.path != path ==> (#[trigger] with_change(es, globs, path, true).contains(e)
                <==> es.contains(e)),
{
    let now = with_change(es, globs, path, true);
    let n = es.len() as int;
    lemma_last_tracked(es, path);
    lemma_first_entry(es, path);
    lemma_blank(path);
    untracked_change_flags(0);
    let c = untracked_change(0);
    lemma_bits(c);
    assert(now.len() == n + 1);
    assert(now[n].path == path);
    assert(now[n].flags.bits == c);
    assert forall|i: int| 0 <= i < n implies (#[trigger] es[i]).path != path by {
        assert(!same_path(es[i].path, path));
        regular_paths_are_texts(es[i].path, path);
    }
    assert forall|i: int| 0 <= i < now.len() implies is_regular((#[trigger] now[i]).path) by {
        if i < n {
            assert(now[i] == es[i]);
        }
    }
    assert forall|i: int, j: int| 0 <= i < j < now.len() implies (#[trigger] now[i]).path != (
    #[trigger] now[j]).path by {
        assert(now[i] == es[i]);
        if j < n {
            assert(now[j] == es[j]);
        }
    }
    assert forall|e: EntryView| e.path != path implies (#[trigger] now.contains(e)
        <==> es.contains(e)) by {
        if now.contains(e) {
            let i = choose|i: int| 0 <= i < now.len() && now[i] == e;
            assert(es[i] == e);
        }
        if es.contains(e) {
            let i = choose|i: int| 0 <= i < es.len() && es[i] == e;
            assert(now[i] == e);
        }
    }
}

/// Of several changes, each at a path of its own, every one is told of from what was told
/// before them all, and what is told of other files stays.
pub proof fn changes_are_noted(es: Seq<EntryView>, globs: Seq<Seq<char>>, dirty: Seq<DirtyPath>)
    requires
        are_plain_entries(es),
        forall|i: int| 0 <= i < dirty.len() ==> is_regular((#[trigger] dirty[i]).path@),
        forall|i: int, j: int|
            0 <= i < j < dirty.len() ==> (#[trigger] dirty[i]).path@ != (#[trigger] dirty[j]).path@,
    ensures
        are_plain_entries(with_changes(es, globs, dirty)),
        forall|i: int|
            0 <= i < dirty.len() ==> tells_of(
                es,
                with_changes(es, globs, dirty),
                globs,
                (#[trigger] dirty[i]).path@,
                dirty[i].present,
            ),
        forall|e: EntryView|
            (forall|i: int| 0 <= i < dirty.len() ==> (#[trigger] dirty[i]).path@ != e.path) ==> (
            #[trigger] with_changes(es, globs, dirty).contains(e) <==> es.contains(e)),
    decreases dirty.len(),
{
    if dirty.len() > 0 {
        let d = dirty.drop_last();
        let x = dirty.last();
        let n = dirty.len() - 1;
        assert(dirty[n] == x);
        assert forall|i: int| 0 <= i < d.len() implies is_regular((#[trigger] d[i]).path@) by {
            assert(d[i] == dirty[i]);
        }
        assert forall|i: int, j: int| 0 <= i < j < d.len() implies (#[trigger] d[i]).path@ != (
        #[trigger] d[j]).path@ by {
            assert(d[i] == dirty[i] && d[j] == dirty[j]);
        }
        changes_are_noted(es, globs, d);
        let mid = with_changes(es, globs, d);
        let now = with_changes(es, globs, dirty);
        change_is_noted(mid, globs, x.path@, x.present);
        assert forall|i: int| 0 <= i < dirty.len() implies tells_of(
            es,
            now,
            globs,
            (#[trigger] dirty[i]).path@,
            dirty[i].present,
        ) by {
            let p = dirty[i].path@;
            if i < n {
                assert(d[i] == dirty[i]);
                assert(p != x.path@);
                lemma_told_on(es, mid, now, globs, p, dirty[i].present);
            } else {
                assert forall|e: EntryView| e.path == p implies (#[trigger] mid.contains(e)
                    <==> es.contains(e)) by {
                    assert forall|k: int| 0 <= k < d.len() implies (#[trigger] d[k]).path@
                        != e.path by {
                        assert(d[k] == dirty[k]);
                        assert(dirty[k].path@ != dirty[n].path@);
                    }
                }
                lemma_told_from(es, mid, now, globs, p, x.present);
            }
        }
        assert forall|e: EntryView|
            (forall|i: int| 0 <= i < dirty.len() ==> (#[trigger] dirty[i]).path@ != e.path) implies (
        #[trigger] now.contains(e) <==> es.contains(e)) by {
            assert(dirty[n].path@ != e.path);
            assert forall|k: int| 0 <= k < d.len() implies (#[trigger] d[k]).path@ != e.path by {
                assert(d[k] == dirty[k]);
            }
            assert(mid.contains(e) <==> es.contains(e));
        }
    }
}

/// What was told of a path stays told where the entries of the path stay.
proof fn lemma_told_on(
    es: Seq<EntryView>,
    mid: Seq<EntryView>,
    now: Seq<EntryView>,
    globs: Seq<Seq<char>>,
    path: Seq<char>,
    present: bool,
)
    requires
        tells_of(es, mid, globs, path, present),
        forall|e: EntryView| e.path == path ==> (#[trigger] now.contains(e) <==> mid.contains(e)),
    ensures
        tells_of(es, now, globs, path, present),
{
    assert forall|j: int| 0 <= j < mid.len() && (#[trigger] mid[j]).path == path implies exists|
        l: int,
    |
        0 <= l < now.len() && now[l] == mid[j] by {
        assert(mid.contains(mid[j]));
        assert(now.contains(mid[j]));
    }
    assert forall|l: int| 0 <= l < now.len() && (#[trigger] now[l]).path == path implies exists|
        j: int,
    |
        0 <= j < mid.len() && mid[j] == now[l] by {
        assert(now.contains(now[l]));
        assert(mid.contains(now[l]));
    }
    let held = exists|k: int|
        0 <= k < es.len() && (#[trigger] es[k]).path == path && es[k].flags.bits & 1 == 1;
    if held {
        let (k, j) = choose|k: int, j: int|
            #![trigger es[k], mid[j]]
            0 <= k < es.len() && 0 <= j < mid.len() && es[k].path == path && {
                let b = es[k].flags.bits;
                let c = mid[j].flags.bits;
                &&& mid[j] == with_bits(es[k], c)
                &&& c & 1 == 1
                &&& c & 2 == b & 2
                &&& c & 4 == 4
                &&& c & 8 == 8 <==> !present
                &&& c & 16 == 0
            };
        assert(mid[j].path == path);
        let l = choose|l: int| 0 <= l < now.len() && now[l] == mid[j];
        assert(es[k].path == path && now[l] == with_bits(es[k], now[l].flags.bits));
    } else if present && !any_matches(globs, path) {
        let j = choose|j: int|
            0 <= j < mid.len() && (#[trigger] mid[j]).path == path && mid[j].flags.bits & 16 == 16
                && mid[j].flags.bits & 4 == 4 && mid[j].flags.bits & 8 == 0 && mid[j].flags.bits & 1
                == 0;
        let l = choose|l: int| 0 <= l < now.len() && now[l] == mid[j];
        assert(now[l].path == path);
    }
}

/// What is told of a path from later entries is told from earlier ones where the entries of the
/// path are the same.
proof fn lemma_told_from(
    es: Seq<EntryView>,
    mid: Seq<EntryView>,
    now: Seq<EntryView>,
    globs: Seq<Seq<char>>,
    path: Seq<char>,
    present: bool,
)
    requires
        tells_of(mid, now, globs, path, present),
        forall|e: EntryView| e.path == path ==> (#[trigger] mid.contains(e) <==> es.contains(e)),
    ensures
        tells_of(es, now, globs, path, present),
{
    assert forall|j: int| 0 <= j < mid.len() && (#[trigger] mid[j]).path == path implies exists|
        l: int,
    |
        0 <= l < es.len() && es[l] == mid[j] by {
        assert(mid.contains(mid[j]));
        assert(es.contains(mid[j]));
    }
    assert forall|l: int| 0 <= l < es.len() && (#[trigger] es[l]).path == path implies exists|
        j: int,
    |
        0 <= j < mid.len() && mid[j] == es[l] by {
        assert(es.contains(es[l]));
        assert(mid.contains(es[l]));
    }
    let held = exists|k: int|
        0 <= k < es.len() && (#[trigger] es[k]).path == path && es[k].flags.bits & 1 == 1;
    let then = exists|k: int|
        0 <= k < mid.len() && (#[trigger] mid[k]).path == path && mid[k].flags.bits & 1 == 1;
    if held {
        let k = choose|k: int|
            0 <= k < es.len() && (#[trigger] es[k]).path == path && es[k].flags.bits & 1 == 1;
        let l = choose|l: int| 0 <= l < mid.len() && mid[l] == es[k];
        assert(mid[l].path == path && mid[l].flags.bits & 1 == 1);
    }
    if then {
        let (k, j) = choose|k: int, j: int|
            #![trigger mid[k], now[j]]
            0 <= k < mid.len() && 0 <= j < now.len() && mid[k].path == path && {
                let b = mid[k].flags.bits;
                let c = now[j].flags.bits;
                &&& now[j] == with_bits(mid[k], c)
                &&& c & 1 == 1
                &&& c & 2 == b & 2
                &&& c & 4 == 4
                &&& c & 8 == 8 <==> !present
                &&& c & 16 == 0
            };
        let h = choose|h: int|
            0 <= h < mid.len() && (#[trigger] mid[h]).path == path && mid[h].flags.bits & 1 == 1;
        let g = choose|g: int| 0 <= g < es.len() && es[g] == mid[h];
        assert(es[g].path == path && es[g].flags.bits & 1 == 1);
        let l = choose|l: int| 0 <= l < es.len() && es[l] == mid[k];
        assert(es[l].path == path && now[j] == with_bits(es[l], now[j].flags.bits));
    }
}

} // verus!
