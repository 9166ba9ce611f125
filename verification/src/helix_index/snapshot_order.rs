//! The trees of a snapshot do not depend on the order of its files.
use vstd::prelude::*;

use crate::helix_index::snapshot::{
    entry_of_file, lemma_dir_names, lemma_direct, lemma_snapshot_dir, lemma_snapshot_dirs_len,
};
use crate::helix_index::tree::{
    by_name, dir_entry, dir_names, direct_entries, files_below, lemma_files_below_shorter,
    lemma_files_below_some, lowered, snapshot, snapshot_dirs, total_len, tree_id, ByName, FileView,
    TreeEntryView,
};
use crate::order::{codes, lex_less, sorted, Ranking};
use crate::path::{has_slash, head, lemma_has_slash};

verus! {

/// Whether no two files have one path.
pub open spec fn distinct_paths(fs: Seq<FileView>) -> bool {
    forall|i: int, j: int|
        0 <= i < j < fs.len() ==> (#[trigger] fs[i]).path != (#[trigger] fs[j]).path
}

/// Whether `fs` and `gs` hold the same files.
pub open spec fn same_files(fs: Seq<FileView>, gs: Seq<FileView>) -> bool {
    forall|f: FileView| #[trigger] fs.contains(f) <==> gs.contains(f)
}

/// Whether no two entries have one name.
pub open spec fn distinct_names(es: Seq<TreeEntryView>) -> bool {
    forall|i: int, j: int|
        0 <= i < j < es.len() ==> (#[trigger] es[i]).name != (#[trigger] es[j]).name
}

spec fn same_entries(a: Seq<TreeEntryView>, b: Seq<TreeEntryView>) -> bool {
    forall|e: TreeEntryView| #[trigger] a.contains(e) <==> b.contains(e)
}

/// The order of names, with what is marked after what is not where names are equal.
spec fn fine(name: Seq<char>, mark: bool) -> Seq<int> {
    Seq::new(
        name.len() + 1,
        |i: int|
            if i < name.len() {
                name[i] as u32 as int + 2
            } else if mark {
                1int
            } else {
                0int
            },
    )
}

struct Coarse;

struct Fine;

impl Ranking<(TreeEntryView, bool)> for Coarse {
    open spec fn key(t: (TreeEntryView, bool)) -> Seq<int> {
        codes(t.0.name)
    }
}

impl Ranking<(TreeEntryView, bool)> for Fine {
    closed spec fn key(t: (TreeEntryView, bool)) -> Seq<int> {
        fine(t.0.name, t.1)
    }
}

proof fn lemma_fine_less(a: Seq<char>, x: bool, b: Seq<char>, y: bool)
    ensures
        lex_less(codes(a), codes(b)) ==> lex_less(fine(a, x), fine(b, y)),
        lex_less(fine(a, false), fine(a, true)),
        !lex_less(fine(a, true), fine(a, false)),
    decreases a.len(),
{
    let u = fine(a, false);
    let v = fine(a, true);
    if a.len() > 0 {
        let s = a.subrange(1, a.len() as int);
        assert(fine(s, x) =~= fine(a, x).subrange(1, a.len() as int + 1));
        assert(fine(s, true) =~= v.subrange(1, a.len() as int + 1));
        assert(fine(s, false) =~= u.subrange(1, a.len() as int + 1));
        assert(codes(s) =~= codes(a).subrange(1, a.len() as int));
        let t = if b.len() > 0 {
            b.subrange(1, b.len() as int)
        } else {
            b
        };
        lemma_fine_less(s, x, t, y);
        if b.len() > 0 {
            assert(fine(t, y) =~= fine(b, y).subrange(1, b.len() as int + 1));
            assert(codes(t) =~= codes(b).subrange(1, b.len() as int));
        }
    } else {
        assert(u[0] == 0 && v[0] == 1);
    }
}

proof fn lemma_fine_injective(a: Seq<char>, x: bool, b: Seq<char>, y: bool)
    requires
        fine(a, x) == fine(b, y),
    ensures
        a == b,
        x == y,
{
    assert(fine(a, x).len() == a.len() + 1 && fine(b, y).len() == b.len() + 1);
    assert(a.len() == b.len());
    assert(codes(a) =~= codes(b)) by {
        assert forall|i: int| 0 <= i < a.len() implies codes(a)[i] == codes(b)[i] by {
            let k = fine(a, x)[i];
            assert(k == fine(b, y)[i]);
            assert(k == a[i] as u32 as int + 2);
            assert(k == b[i] as u32 as int + 2);
        }
    }
    crate::order::lemma_codes_injective(a, b);
    let n = a.len() as int;
    let k = fine(a, x)[n];
    assert(k == fine(b, y)[n]);
    assert(k == if x { 1int } else { 0int });
    assert(k == if y { 1int } else { 0int });
}

/// `a` without a mark, then `b` with one.
spec fn marked(a: Seq<TreeEntryView>, b: Seq<TreeEntryView>) -> Seq<(TreeEntryView, bool)> {
    Seq::new(
        a.len() + b.len(),
        |i: int|
            if i < a.len() {
                (a[i], false)
            } else {
                (b[i - a.len()], true)
            },
    )
}

proof fn lemma_marked(a: Seq<TreeEntryView>, b: Seq<TreeEntryView>)
    requires
        distinct_names(a),
        distinct_names(b),
    ensures
        by_name(a + b) == sorted::<Fine, (TreeEntryView, bool)>(marked(a, b)).map_values(
            |t: (TreeEntryView, bool)| t.0,
        ),
        crate::order::distinct_keys::<Fine, (TreeEntryView, bool)>(marked(a, b)),
        marked(a, b).no_duplicates(),
        forall|t: (TreeEntryView, bool)| #[trigger]
            marked(a, b).contains(t) <==> if t.1 {
                b.contains(t.0)
            } else {
                a.contains(t.0)
            },
{
    let s = marked(a, b);
    let f = |t: (TreeEntryView, bool)| t.0;
    assert(s.map_values(f) =~= a + b);
    crate::order::lemma_sorted_mapped::<
        Coarse,
        (TreeEntryView, bool),
        ByName,
        TreeEntryView,
    >(s, f);
    assert forall|x: (TreeEntryView, bool), y: (TreeEntryView, bool)|
        lex_less(Coarse::key(x), Coarse::key(y)) implies lex_less(
        #[trigger] Fine::key(x),
        #[trigger] Fine::key(y),
    ) by {
        lemma_fine_less(x.0.name, x.1, y.0.name, y.1);
    }
    assert forall|i: int, j: int| 0 <= i < j < s.len() implies s[i].0.name != s[j].0.name || (
    !s[i].1 && s[j].1) by {
        if j < a.len() {
            assert(a[i].name != a[j].name);
        } else if i >= a.len() {
            assert(b[i - a.len()].name != b[j - a.len()].name);
        }
    }
    assert forall|i: int, j: int|
        0 <= i < j < s.len() && Coarse::key(s[i]) == Coarse::key(s[j]) implies !lex_less(
        Fine::key(#[trigger] s[j]),
        Fine::key(#[trigger] s[i]),
    ) by {
        crate::order::lemma_codes_injective(s[i].0.name, s[j].0.name);
        assert(s[i].0.name == s[j].0.name);
        assert(!s[i].1 && s[j].1);
        lemma_fine_less(s[i].0.name, s[i].1, s[j].0.name, s[j].1);
    }
    crate::order::lemma_sorted_refined::<Coarse, Fine, (TreeEntryView, bool)>(s);
    assert forall|i: int, j: int| 0 <= i < j < s.len() implies #[trigger] Fine::key(s[j])
        != #[trigger] Fine::key(s[i]) by {
        if Fine::key(s[j]) == Fine::key(s[i]) {
            lemma_fine_injective(s[j].0.name, s[j].1, s[i].0.name, s[i].1);
        }
    }
    assert forall|i: int, j: int| 0 <= i < s.len() && 0 <= j < s.len() && i != j implies s[i]
        != s[j] by {
        if i < j {
            assert(Fine::key(s[j]) != Fine::key(s[i]));
        } else {
            assert(Fine::key(s[i]) != Fine::key(s[j]));
        }
    }
    assert forall|t: (TreeEntryView, bool)| #[trigger]
        s.contains(t) <==> if t.1 {
            b.contains(t.0)
        } else {
            a.contains(t.0)
        } by {
        if t.1 && b.contains(t.0) {
            let i = choose|i: int| 0 <= i < b.len() && b[i] == t.0;
            assert(s[a.len() + i] == t);
        }
        if !t.1 && a.contains(t.0) {
            let i = choose|i: int| 0 <= i < a.len() && a[i] == t.0;
            assert(s[i] == t);
        }
    }
}

/// Sorting two groups by name, one after the other, does not depend on the order
/// within either.
proof fn lemma_groups(
    a: Seq<TreeEntryView>,
    b: Seq<TreeEntryView>,
    c: Seq<TreeEntryView>,
    d: Seq<TreeEntryView>,
)
    requires
        distinct_names(a),
        distinct_names(b),
        distinct_names(c),
        distinct_names(d),
        same_entries(a, c),
        same_entries(b, d),
    ensures
        by_name(a + b) == by_name(c + d),
{
    broadcast use vstd::seq_lib::group_to_multiset_ensures;

    lemma_marked(a, b);
    lemma_marked(c, d);
    let s = marked(a, b);
    let t = marked(c, d);
    s.lemma_multiset_has_no_duplicates();
    t.lemma_multiset_has_no_duplicates();
    assert(s.to_multiset() =~= t.to_multiset()) by {
        assert forall|x: (TreeEntryView, bool)|
            s.to_multiset().count(x) == t.to_multiset().count(x) by {
            assert(a.contains(x.0) <==> c.contains(x.0));
            assert(b.contains(x.0) <==> d.contains(x.0));
            assert(s.contains(x) <==> t.contains(x));
            assert(s.contains(x) <==> s.to_multiset().count(x) > 0);
            assert(t.contains(x) <==> t.to_multiset().count(x) > 0);
        }
    }
    crate::order::lemma_sorted_same::<Fine, (TreeEntryView, bool)>(s, t);
}

/// Whether `g` is the file `f` as seen from the subdirectory `name`.
pub open spec fn lies_below(g: FileView, f: FileView, name: Seq<char>) -> bool {
    &&& has_slash(f.path)
    &&& head(f.path) == name
    &&& g == lowered(f)
}

pub proof fn lemma_below(fs: Seq<FileView>, name: Seq<char>, g: FileView)
    ensures
        files_below(fs, name).contains(g) <==> exists|i: int|
            0 <= i < fs.len() && lies_below(g, #[trigger] fs[i], name),
    decreases fs.len(),
{
    if fs.len() > 0 {
        let t = fs.drop_last();
        let f = fs.last();
        lemma_below(t, name, g);
        let d = files_below(t, name);
        let r = files_below(fs, name);
        if r.contains(g) {
            let j = choose|j: int| 0 <= j < r.len() && r[j] == g;
            if j < d.len() {
                assert(d[j] == g);
                assert(d.contains(g));
                let i = choose|i: int| 0 <= i < t.len() && lies_below(g, #[trigger] t[i], name);
                assert(fs[i] == t[i]);
            } else {
                assert(lies_below(g, fs[fs.len() - 1], name));
            }
        }
        if exists|i: int| 0 <= i < fs.len() && lies_below(g, #[trigger] fs[i], name) {
            let i = choose|i: int| 0 <= i < fs.len() && lies_below(g, #[trigger] fs[i], name);
            if i < t.len() {
                assert(t[i] == fs[i]);
                assert(d.contains(g));
                let j = choose|j: int| 0 <= j < d.len() && d[j] == g;
                assert(r[j] == g);
            } else {
                assert(r[r.len() - 1] == g);
            }
        }
    }
}

pub proof fn lemma_below_distinct(fs: Seq<FileView>, name: Seq<char>)
    requires
        distinct_paths(fs),
    ensures
        distinct_paths(files_below(fs, name)),
    decreases fs.len(),
{
    if fs.len() > 0 {
        let t = fs.drop_last();
        let f = fs.last();
        lemma_below_distinct(t, name);
        let d = files_below(t, name);
        let r = files_below(fs, name);
        assert forall|i: int, j: int| 0 <= i < j < r.len() implies (#[trigger] r[i]).path != (
        #[trigger] r[j]).path by {
            assert(r[i] == d[i]);
            if j < d.len() {
                assert(r[j] == d[j]);
            } else {
                assert(d.contains(d[i]));
                lemma_below(t, name, d[i]);
                let k = choose|k: int| 0 <= k < t.len() && lies_below(d[i], #[trigger] t[k], name);
                assert(fs[k] == t[k] && fs[fs.len() - 1] == f);
                lemma_has_slash(t[k].path);
                lemma_has_slash(f.path);
            }
        }
    }
}

pub proof fn lemma_direct_distinct(fs: Seq<FileView>)
    requires
        distinct_paths(fs),
    ensures
        distinct_names(direct_entries(fs)),
    decreases fs.len(),
{
    if fs.len() > 0 {
        let t = fs.drop_last();
        let f = fs.last();
        lemma_direct_distinct(t);
        let d = direct_entries(t);
        let r = direct_entries(fs);
        assert forall|i: int, j: int| 0 <= i < j < r.len() implies (#[trigger] r[i]).name != (
        #[trigger] r[j]).name by {
            assert(r[i] == d[i]);
            if j < d.len() {
                assert(r[j] == d[j]);
            } else {
                assert(d.contains(d[i]));
                lemma_direct(t, d[i]);
                let k = choose|k: int| 0 <= k < t.len() && entry_of_file(d[i], #[trigger] t[k]);
                assert(fs[k] == t[k] && fs[fs.len() - 1] == f);
            }
        }
    }
}

proof fn lemma_dir_names_distinct(fs: Seq<FileView>)
    ensures
        dir_names(fs).no_duplicates(),
    decreases fs.len(),
{
    if fs.len() > 0 {
        lemma_dir_names_distinct(fs.drop_last());
        let d = dir_names(fs.drop_last());
        let r = dir_names(fs);
        assert forall|i: int, j: int| 0 <= i < r.len() && 0 <= j < r.len() && i != j implies r[i]
            != r[j] by {
            if i < d.len() {
                assert(r[i] == d[i] && d.contains(d[i]));
            }
            if j < d.len() {
                assert(r[j] == d[j] && d.contains(d[j]));
            }
        }
    }
}

/// The subdirectories of the same files have the same names and the same files.
proof fn lemma_same_below(fs: Seq<FileView>, gs: Seq<FileView>, name: Seq<char>)
    requires
        same_files(fs, gs),
    ensures
        same_files(files_below(fs, name), files_below(gs, name)),
        dir_names(fs).contains(name) ==> dir_names(gs).contains(name),
{
    assert forall|g: FileView| #[trigger]
        files_below(fs, name).contains(g) <==> files_below(gs, name).contains(g) by {
        lemma_below(fs, name, g);
        lemma_below(gs, name, g);
        if files_below(fs, name).contains(g) {
            let i = choose|i: int| 0 <= i < fs.len() && lies_below(g, #[trigger] fs[i], name);
            assert(fs.contains(fs[i]));
            let j = choose|j: int| 0 <= j < gs.len() && gs[j] == fs[i];
            assert(lies_below(g, gs[j], name));
        }
        if files_below(gs, name).contains(g) {
            let i = choose|i: int| 0 <= i < gs.len() && lies_below(g, #[trigger] gs[i], name);
            assert(gs.contains(gs[i]));
            assert(fs.contains(gs[i]));
            let j = choose|j: int| 0 <= j < fs.len() && fs[j] == gs[i];
            assert(lies_below(g, fs[j], name));
        }
    }
    if dir_names(fs).contains(name) {
        lemma_dir_names(fs, name);
        lemma_dir_names(gs, name);
        let i = choose|i: int|
            0 <= i < fs.len() && has_slash((#[trigger] fs[i]).path) && head(fs[i].path) == name;
        assert(fs.contains(fs[i]));
        let j = choose|j: int| 0 <= j < gs.len() && gs[j] == fs[i];
        assert(has_slash(gs[j].path));
    }
}

/// An entry for a file of `fs` is one for a file of `gs`.
proof fn lemma_same_direct(fs: Seq<FileView>, gs: Seq<FileView>, e: TreeEntryView)
    requires
        same_files(fs, gs),
        direct_entries(fs).contains(e),
    ensures
        direct_entries(gs).contains(e),
{
    lemma_direct(fs, e);
    lemma_direct(gs, e);
    let i = choose|i: int| 0 <= i < fs.len() && entry_of_file(e, #[trigger] fs[i]);
    assert(fs.contains(fs[i]));
    let j = choose|j: int| 0 <= j < gs.len() && gs[j] == fs[i];
    assert(entry_of_file(e, gs[j]));
}

/// The entries of subdirectories carry their names.
pub proof fn lemma_dirs_distinct(fs: Seq<FileView>)
    ensures
        distinct_names(snapshot_dirs(fs, dir_names(fs))),
        forall|e: TreeEntryView| #[trigger]
            snapshot_dirs(fs, dir_names(fs)).contains(e) <==> {
                &&& dir_names(fs).contains(e.name)
                &&& e == dir_entry(e.name, tree_id(snapshot(files_below(fs, e.name))))
            },
{
    let ns = dir_names(fs);
    let r = snapshot_dirs(fs, ns);
    lemma_dir_names_distinct(fs);
    lemma_snapshot_dirs_len(fs, ns);
    assert forall|k: int| 0 <= k < ns.len() implies #[trigger] r[k] == dir_entry(
        ns[k],
        tree_id(snapshot(files_below(fs, ns[k]))),
    ) by {
        assert(ns.contains(ns[k]));
        lemma_files_below_some(fs, ns[k]);
        lemma_files_below_shorter(fs, ns[k]);
        lemma_snapshot_dir(fs, ns, k);
    }
    assert forall|e: TreeEntryView| #[trigger] r.contains(e) <==> {
        &&& ns.contains(e.name)
        &&& e == dir_entry(e.name, tree_id(snapshot(files_below(fs, e.name))))
    } by {
        if r.contains(e) {
            let k = choose|k: int| 0 <= k < r.len() && r[k] == e;
            assert(ns[k] == e.name);
        }
        if ns.contains(e.name) && e == dir_entry(
            e.name,
            tree_id(snapshot(files_below(fs, e.name))),
        ) {
            let k = choose|k: int| 0 <= k < ns.len() && ns[k] == e.name;
            assert(r[k] == e);
        }
    }
}

/// The trees of the same files are the same, in whatever order the files are listed:
/// one set of files has one tree id.
pub proof fn snapshot_order_free(fs: Seq<FileView>, gs: Seq<FileView>)
    requires
        distinct_paths(fs),
        distinct_paths(gs),
        same_files(fs, gs),
    ensures
        snapshot(fs) == snapshot(gs),
        tree_id(snapshot(fs)) == tree_id(snapshot(gs)),
    decreases total_len(fs),
{
    let a = direct_entries(fs);
    let b = snapshot_dirs(fs, dir_names(fs));
    let c = direct_entries(gs);
    let d = snapshot_dirs(gs, dir_names(gs));
    lemma_direct_distinct(fs);
    lemma_direct_distinct(gs);
    lemma_dirs_distinct(fs);
    lemma_dirs_distinct(gs);
    assert forall|e: TreeEntryView| #[trigger] a.contains(e) <==> c.contains(e) by {
        if a.contains(e) {
            lemma_same_direct(fs, gs, e);
        }
        if c.contains(e) {
            lemma_same_direct(gs, fs, e);
        }
    }
    assert forall|e: TreeEntryView| #[trigger] b.contains(e) <==> d.contains(e) by {
        lemma_same_below(fs, gs, e.name);
        lemma_same_below(gs, fs, e.name);
        if dir_names(fs).contains(e.name) {
            lemma_files_below_some(fs, e.name);
            lemma_files_below_shorter(fs, e.name);
            lemma_below_distinct(fs, e.name);
            lemma_below_distinct(gs, e.name);
            snapshot_order_free(files_below(fs, e.name), files_below(gs, e.name));
        }
    }
    lemma_groups(a, b, c, d);
}

} // verus!
