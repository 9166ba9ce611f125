//! What reading the trees of a snapshot gives back.
use vstd::prelude::*;
use vstd::utf8::*;

use crate::helix_index::tree::{
    by_name, dir_entry, dir_names, direct_entries, entry_storable, file_entry, files_below,
    lemma_dir_names_len, lemma_files_below_shorter, lemma_files_below_some, lowered, put_dir_trees,
    put_trees, snapshot, snapshot_dirs, total_len, tree_bytes, tree_id, tree_round_trip,
    tree_storable, ByName, EntryType, FileView, TreeEntryView,
};
use crate::helix_index::tree_walk::{
    entry_files_to, files_to, grounded, lemma_files_to_stable, tree_at, tree_files, within,
    WalkFault,
};
use crate::object_store::{ObjectType, Objects};
use crate::path::{has_slash, head, join_spec, lemma_has_slash, tail};

verus! {

/// Whether the store holds the trees of a directory with the files `fs`, each
/// under its hash.
pub open spec fn holds_trees(m: Objects, fs: Seq<FileView>) -> bool
    decreases total_len(fs), fs.len() + 1,
{
    proof {
        lemma_dir_names_len(fs);
    }
    &&& m.contains_key((ObjectType::Tree, tree_id(snapshot(fs))))
    &&& m[(ObjectType::Tree, tree_id(snapshot(fs)))] == tree_bytes(snapshot(fs))
    &&& holds_dir_trees(m, fs, dir_names(fs))
}

/// Whether the store holds the trees of the subdirectories `names`.
pub open spec fn holds_dir_trees(m: Objects, fs: Seq<FileView>, names: Seq<Seq<char>>) -> bool
    decreases total_len(fs), names.len(),
{
    if names.len() == 0 {
        true
    } else {
        &&& holds_dir_trees(m, fs, names.drop_last())
        &&& total_len(files_below(fs, names.last())) < total_len(fs) ==> holds_trees(
            m,
            files_below(fs, names.last()),
        )
    }
}

/// Whether writing the trees of a directory with the files `fs` meets no other
/// object under the hash of one of them.
pub open spec fn no_clash(m: Objects, fs: Seq<FileView>) -> bool
    decreases total_len(fs), fs.len() + 1,
{
    proof {
        lemma_dir_names_len(fs);
    }
    let key = (ObjectType::Tree, tree_id(snapshot(fs)));
    let before = put_dir_trees(m, fs, dir_names(fs));
    &&& no_dir_clash(m, fs, dir_names(fs))
    &&& before.contains_key(key) ==> before[key] == tree_bytes(snapshot(fs))
}

/// Whether writing the trees of the subdirectories `names` meets no other
/// object under the hash of one of them.
pub open spec fn no_dir_clash(m: Objects, fs: Seq<FileView>, names: Seq<Seq<char>>) -> bool
    decreases total_len(fs), names.len(),
{
    if names.len() == 0 {
        true
    } else {
        &&& no_dir_clash(m, fs, names.drop_last())
        &&& total_len(files_below(fs, names.last())) < total_len(fs) ==> no_clash(
            put_dir_trees(m, fs, names.drop_last()),
            files_below(fs, names.last()),
        )
    }
}

/// Whether every object of `m` is in `n`.
pub open spec fn extends(m: Objects, n: Objects) -> bool {
    forall|k: (ObjectType, Seq<u8>)| #[trigger]
        m.contains_key(k) ==> n.contains_key(k) && n[k] == m[k]
}

/// Writing trees keeps every object that is there.
pub proof fn writing_trees_keeps(m: Objects, fs: Seq<FileView>)
    ensures
        extends(m, put_trees(m, fs)),
    decreases total_len(fs), fs.len() + 1,
{
    lemma_dir_names_len(fs);
    lemma_put_dirs_keeps(m, fs, dir_names(fs));
}

proof fn lemma_put_dirs_keeps(m: Objects, fs: Seq<FileView>, names: Seq<Seq<char>>)
    ensures
        extends(m, put_dir_trees(m, fs, names)),
    decreases total_len(fs), names.len(),
{
    if names.len() > 0 {
        lemma_put_dirs_keeps(m, fs, names.drop_last());
        let before = put_dir_trees(m, fs, names.drop_last());
        let below = files_below(fs, names.last());
        if total_len(below) < total_len(fs) {
            writing_trees_keeps(before, below);
        }
    }
}

pub proof fn lemma_holds_extends(m: Objects, n: Objects, fs: Seq<FileView>)
    requires
        holds_trees(m, fs),
        extends(m, n),
    ensures
        holds_trees(n, fs),
    decreases total_len(fs), fs.len() + 1,
{
    lemma_dir_names_len(fs);
    lemma_holds_dirs_extends(m, n, fs, dir_names(fs));
}

proof fn lemma_holds_dirs_extends(
    m: Objects,
    n: Objects,
    fs: Seq<FileView>,
    names: Seq<Seq<char>>,
)
    requires
        holds_dir_trees(m, fs, names),
        extends(m, n),
    ensures
        holds_dir_trees(n, fs, names),
    decreases total_len(fs), names.len(),
{
    if names.len() > 0 {
        lemma_holds_dirs_extends(m, n, fs, names.drop_last());
        let below = files_below(fs, names.last());
        if total_len(below) < total_len(fs) {
            lemma_holds_extends(m, n, below);
        }
    }
}

/// After the trees of a snapshot have been written, the store holds each of
/// them under its hash, where none clashes with another object.
pub proof fn written_trees_are_held(m: Objects, fs: Seq<FileView>)
    requires
        no_clash(m, fs),
    ensures
        holds_trees(put_trees(m, fs), fs),
    decreases total_len(fs), fs.len() + 1,
{
    lemma_dir_names_len(fs);
    lemma_written_dirs(m, fs, dir_names(fs));
    let before = put_dir_trees(m, fs, dir_names(fs));
    assert(extends(before, put_trees(m, fs)));
    lemma_holds_dirs_extends(before, put_trees(m, fs), fs, dir_names(fs));
}

proof fn lemma_written_dirs(m: Objects, fs: Seq<FileView>, names: Seq<Seq<char>>)
    requires
        no_dir_clash(m, fs, names),
    ensures
        holds_dir_trees(put_dir_trees(m, fs, names), fs, names),
    decreases total_len(fs), names.len(),
{
    if names.len() > 0 {
        let before = put_dir_trees(m, fs, names.drop_last());
        let below = files_below(fs, names.last());
        lemma_written_dirs(m, fs, names.drop_last());
        if total_len(below) < total_len(fs) {
            written_trees_are_held(before, below);
            writing_trees_keeps(before, below);
            lemma_holds_dirs_extends(before, put_trees(before, below), fs, names.drop_last());
        }
    }
}

/// Whether a path has components, and none of them is empty.
pub open spec fn clean_path(p: Seq<char>) -> bool
    decreases p.len(),
{
    if has_slash(p) {
        head(p).len() > 0 && tail(p).len() < p.len() && clean_path(tail(p))
    } else {
        p.len() > 0
    }
}

/// Whether the length of each component of a path can be written to a tree.
pub open spec fn components_fit(p: Seq<char>) -> bool
    decreases p.len(),
{
    if has_slash(p) && tail(p).len() < p.len() {
        encode_utf8(head(p)).len() < 0x1_0000 && components_fit(tail(p))
    } else {
        encode_utf8(p).len() < 0x1_0000
    }
}

/// Whether a file can be written to trees without loss.
pub open spec fn file_storable(f: FileView) -> bool {
    &&& clean_path(f.path)
    &&& components_fit(f.path)
    &&& f.oid.len() == 32
}

/// Whether the files of a directory can be written to trees without loss.
pub open spec fn files_storable(fs: Seq<FileView>) -> bool {
    &&& fs.len() < 0x1_0000_0000
    &&& forall|i: int| 0 <= i < fs.len() ==> file_storable(#[trigger] fs[i])
}

/// `f` by its path below `prefix`.
pub open spec fn moved(f: FileView, prefix: Seq<char>) -> FileView {
    FileView { path: join_spec(prefix, f.path), oid: f.oid, mode: f.mode, size: f.size }
}

/// Whether `g` is one of the files `fs` by its path below `prefix`.
pub open spec fn among(g: FileView, fs: Seq<FileView>, prefix: Seq<char>) -> bool {
    exists|i: int| 0 <= i < fs.len() && g == moved(#[trigger] fs[i], prefix)
}

/// The files below a subdirectory are those whose path starts with its name.
pub proof fn lemma_files_below(fs: Seq<FileView>, name: Seq<char>)
    requires
        files_storable(fs),
    ensures
        files_storable(files_below(fs, name)),
        files_below(fs, name).len() <= fs.len(),
        forall|g: FileView|
            #[trigger] files_below(fs, name).contains(g) <==> exists|i: int|
                {
                    &&& 0 <= i < fs.len()
                    &&& has_slash((#[trigger] fs[i]).path)
                    &&& head(fs[i].path) == name
                    &&& g == lowered(fs[i])
                },
    decreases fs.len(),
{
    if fs.len() > 0 {
        let t = fs.drop_last();
        assert forall|i: int| 0 <= i < t.len() implies file_storable(#[trigger] t[i]) by {
            assert(t[i] == fs[i]);
        }
        lemma_files_below(t, name);
        let d = files_below(t, name);
        let f = fs.last();
        assert(file_storable(fs[fs.len() - 1]));
        let r = files_below(fs, name);
        let h = lowered(f);
        let hit = has_slash(f.path) && head(f.path) == name;
        if hit {
            lemma_has_slash(f.path);
            assert(r =~= d.push(h));
            assert(file_storable(h));
        }
        assert forall|i: int| 0 <= i < r.len() implies file_storable(#[trigger] r[i]) by {
            if i < d.len() {
                assert(r[i] == d[i]);
            }
        }
        assert forall|g: FileView| #[trigger] r.contains(g) <==> exists|i: int|
            {
                &&& 0 <= i < fs.len()
                &&& has_slash((#[trigger] fs[i]).path)
                &&& head(fs[i].path) == name
                &&& g == lowered(fs[i])
            } by {
            if r.contains(g) {
                if hit && g == h {
                    assert(fs[fs.len() - 1] == f);
                } else {
                    assert(d.contains(g));
                    let i = choose|i: int|
                        {
                            &&& 0 <= i < t.len()
                            &&& has_slash((#[trigger] t[i]).path)
                            &&& head(t[i].path) == name
                            &&& g == lowered(t[i])
                        };
                    assert(fs[i] == t[i]);
                }
            }
            if exists|i: int|
                {
                    &&& 0 <= i < fs.len()
                    &&& has_slash((#[trigger] fs[i]).path)
                    &&& head(fs[i].path) == name
                    &&& g == lowered(fs[i])
                } {
                let i = choose|i: int|
                    {
                        &&& 0 <= i < fs.len()
                        &&& has_slash((#[trigger] fs[i]).path)
                        &&& head(fs[i].path) == name
                        &&& g == lowered(fs[i])
                    };
                if i < t.len() {
                    assert(t[i] == fs[i]);
                    assert(d.contains(g));
                    let j = choose|j: int| 0 <= j < d.len() && d[j] == g;
                    assert(r[j] == g);
                } else {
                    assert(hit && g == h);
                    assert(r[r.len() - 1] == h);
                }
            }
        }
    }
}

/// Whether `e` is the entry of the file `f` in the directory itself.
pub open spec fn entry_of_file(e: TreeEntryView, f: FileView) -> bool {
    !has_slash(f.path) && e == file_entry(f.path, f.oid, f.mode, f.size)
}

pub proof fn lemma_direct(fs: Seq<FileView>, e: TreeEntryView)
    ensures
        direct_entries(fs).contains(e) <==> exists|i: int|
            0 <= i < fs.len() && entry_of_file(e, #[trigger] fs[i]),
    decreases fs.len(),
{
    if fs.len() > 0 {
        let t = fs.drop_last();
        let f = fs.last();
        lemma_direct(t, e);
        let d = direct_entries(t);
        let r = direct_entries(fs);
        if r.contains(e) {
            let j = choose|j: int| 0 <= j < r.len() && r[j] == e;
            if j < d.len() {
                assert(d[j] == e);
                assert(d.contains(e));
                let i = choose|i: int| 0 <= i < t.len() && entry_of_file(e, #[trigger] t[i]);
                assert(fs[i] == t[i]);
            } else {
                assert(entry_of_file(e, fs[fs.len() - 1]));
            }
        }
        if exists|i: int| 0 <= i < fs.len() && entry_of_file(e, #[trigger] fs[i]) {
            let i = choose|i: int| 0 <= i < fs.len() && entry_of_file(e, #[trigger] fs[i]);
            if i < t.len() {
                assert(t[i] == fs[i]);
                assert(d.contains(e));
                let j = choose|j: int| 0 <= j < d.len() && d[j] == e;
                assert(r[j] == e);
            } else {
                assert(r[r.len() - 1] == e);
            }
        }
    }
}

pub proof fn lemma_dir_names(fs: Seq<FileView>, n: Seq<char>)
    ensures
        dir_names(fs).contains(n) <==> exists|i: int|
            0 <= i < fs.len() && has_slash((#[trigger] fs[i]).path) && head(fs[i].path) == n,
        direct_entries(fs).len() + dir_names(fs).len() <= fs.len(),
    decreases fs.len(),
{
    if fs.len() > 0 {
        let t = fs.drop_last();
        let f = fs.last();
        lemma_dir_names(t, n);
        let d = dir_names(t);
        let r = dir_names(fs);
        if r.contains(n) {
            let j = choose|j: int| 0 <= j < r.len() && r[j] == n;
            if j < d.len() {
                assert(d[j] == n);
                assert(d.contains(n));
                let i = choose|i: int|
                    0 <= i < t.len() && has_slash((#[trigger] t[i]).path) && head(t[i].path) == n;
                assert(fs[i] == t[i]);
            } else {
                assert(head(fs[fs.len() - 1].path) == n);
            }
        }
        if exists|i: int|
            0 <= i < fs.len() && has_slash((#[trigger] fs[i]).path) && head(fs[i].path) == n {
            let i = choose|i: int|
                0 <= i < fs.len() && has_slash((#[trigger] fs[i]).path) && head(fs[i].path) == n;
            if i < t.len() {
                assert(t[i] == fs[i]);
                assert(d.contains(n));
            }
            if d.contains(n) {
                let j = choose|j: int| 0 <= j < d.len() && d[j] == n;
                assert(r[j] == n);
            } else {
                assert(r[r.len() - 1] == n);
            }
        }
    }
}

pub proof fn lemma_snapshot_dir(fs: Seq<FileView>, names: Seq<Seq<char>>, k: int)
    requires
        0 <= k < names.len(),
        total_len(files_below(fs, names[k])) < total_len(fs),
    ensures
        snapshot_dirs(fs, names).len() == names.len(),
        snapshot_dirs(fs, names)[k] == dir_entry(
            names[k],
            tree_id(snapshot(files_below(fs, names[k]))),
        ),
    decreases names.len(),
{
    lemma_snapshot_dirs_len(fs, names.drop_last());
    if k < names.len() - 1 {
        assert(names.drop_last()[k] == names[k]);
        lemma_snapshot_dir(fs, names.drop_last(), k);
    }
}

pub proof fn lemma_snapshot_dirs_len(fs: Seq<FileView>, names: Seq<Seq<char>>)
    ensures
        snapshot_dirs(fs, names).len() == names.len(),
    decreases names.len(),
{
    if names.len() > 0 {
        lemma_snapshot_dirs_len(fs, names.drop_last());
    }
}

pub proof fn lemma_holds_dir(m: Objects, fs: Seq<FileView>, names: Seq<Seq<char>>, k: int)
    requires
        holds_dir_trees(m, fs, names),
        0 <= k < names.len(),
        total_len(files_below(fs, names[k])) < total_len(fs),
    ensures
        holds_trees(m, files_below(fs, names[k])),
    decreases names.len(),
{
    if k < names.len() - 1 {
        assert(names.drop_last()[k] == names[k]);
        lemma_holds_dir(m, fs, names.drop_last(), k);
    }
}

/// Whether reading the entry `e` below `prefix`, at most `d` deep, gives `g`.
spec fn entry_gives(
    m: Objects,
    e: TreeEntryView,
    prefix: Seq<char>,
    d: nat,
    g: FileView,
) -> bool {
    let path = join_spec(prefix, e.name);
    if e.entry_type == EntryType::Tree {
        files_to(m, e.oid, path, (d - 1) as nat)->Ok_0.contains(g)
    } else {
        g == FileView { path, oid: e.oid, mode: e.mode, size: e.size }
    }
}

proof fn lemma_entry_files(m: Objects, es: Seq<TreeEntryView>, prefix: Seq<char>, d: nat)
    requires
        d > 0,
        forall|i: int|
            0 <= i < es.len() && (#[trigger] es[i]).entry_type == EntryType::Tree ==> files_to(
                m,
                es[i].oid,
                join_spec(prefix, es[i].name),
                (d - 1) as nat,
            ) is Ok,
    ensures
        entry_files_to(m, es, prefix, d) is Ok,
        forall|g: FileView|
            #[trigger] entry_files_to(m, es, prefix, d)->Ok_0.contains(g) <==> exists|i: int|
                0 <= i < es.len() && entry_gives(m, #[trigger] es[i], prefix, d, g),
    decreases es.len(),
{
    if es.len() > 0 {
        let t = es.drop_last();
        let e = es.last();
        assert forall|i: int|
            0 <= i < t.len() && (#[trigger] t[i]).entry_type == EntryType::Tree implies files_to(
            m,
            t[i].oid,
            join_spec(prefix, t[i].name),
            (d - 1) as nat,
        ) is Ok by {
            assert(t[i] == es[i]);
        }
        lemma_entry_files(m, t, prefix, d);
        assert(es[es.len() - 1] == e);
        let a = entry_files_to(m, t, prefix, d)->Ok_0;
        let r = entry_files_to(m, es, prefix, d)->Ok_0;
        let path = join_spec(prefix, e.name);
        let f = FileView { path, oid: e.oid, mode: e.mode, size: e.size };
        let b = if e.entry_type == EntryType::Tree {
            files_to(m, e.oid, path, (d - 1) as nat)->Ok_0
        } else {
            seq![f]
        };
        assert(r =~= a + b);
        assert forall|g: FileView| #[trigger] r.contains(g) <==> exists|i: int|
            0 <= i < es.len() && entry_gives(m, #[trigger] es[i], prefix, d, g) by {
            if r.contains(g) {
                let j = choose|j: int| 0 <= j < r.len() && r[j] == g;
                if j < a.len() {
                    assert(a[j] == g);
                    assert(a.contains(g));
                    let i = choose|i: int|
                        0 <= i < t.len() && entry_gives(m, #[trigger] t[i], prefix, d, g);
                    assert(es[i] == t[i]);
                } else {
                    assert(b[j - a.len()] == g);
                    assert(b.contains(g));
                    assert(entry_gives(m, es[es.len() - 1], prefix, d, g));
                }
            }
            if exists|i: int|
                0 <= i < es.len() && entry_gives(m, #[trigger] es[i], prefix, d, g) {
                let i = choose|i: int|
                    0 <= i < es.len() && entry_gives(m, #[trigger] es[i], prefix, d, g);
                if i < t.len() {
                    assert(t[i] == es[i]);
                    assert(a.contains(g));
                    let j = choose|j: int| 0 <= j < a.len() && a[j] == g;
                    assert(r[j] == g);
                } else {
                    if e.entry_type != EntryType::Tree {
                        assert(b[0] == g);
                    }
                    assert(b.contains(g));
                    let j = choose|j: int| 0 <= j < b.len() && b[j] == g;
                    assert(r[a.len() + j] == g);
                }
            }
        }
    }
}

/// Every entry of a snapshot is that of a file or of a subdirectory.
pub proof fn lemma_snapshot_entry(fs: Seq<FileView>, e: TreeEntryView)
    requires
        files_storable(fs),
    ensures
        snapshot(fs).len() <= fs.len(),
        snapshot(fs).contains(e) <==> {
            ||| exists|i: int| 0 <= i < fs.len() && entry_of_file(e, #[trigger] fs[i])
            ||| exists|k: int|
                0 <= k < dir_names(fs).len() && e == dir_entry(
                    #[trigger] dir_names(fs)[k],
                    tree_id(snapshot(files_below(fs, dir_names(fs)[k]))),
                )
        },
{
    broadcast use vstd::seq_lib::group_to_multiset_ensures;

    let names = dir_names(fs);
    let a = direct_entries(fs);
    let b = snapshot_dirs(fs, names);
    let all = a + b;
    lemma_direct(fs, e);
    lemma_dir_names(fs, Seq::empty());
    lemma_snapshot_dirs_len(fs, names);
    crate::order::lemma_sorted_permutation::<ByName, TreeEntryView>(all);
    crate::order::lemma_sorted_in_order::<ByName, TreeEntryView>(all);
    assert(by_name(all).contains(e) <==> all.contains(e)) by {
        assert(by_name(all).to_multiset().count(e) == all.to_multiset().count(e));
    }
    assert forall|k: int| 0 <= k < names.len() implies b[k] == dir_entry(
        #[trigger] names[k],
        tree_id(snapshot(files_below(fs, names[k]))),
    ) by {
        assert(names.contains(names[k]));
        lemma_files_below_shorter(fs, names[k]);
        lemma_files_below_some(fs, names[k]);
        lemma_snapshot_dir(fs, names, k);
    }
    if all.contains(e) {
        let j = choose|j: int| 0 <= j < all.len() && all[j] == e;
        if j < a.len() {
            assert(a[j] == e);
            assert(a.contains(e));
        } else {
            let k = j - a.len();
            assert(b[k] == e);
            assert(e == dir_entry(names[k], tree_id(snapshot(files_below(fs, names[k])))));
        }
    }
    if a.contains(e) {
        let j = choose|j: int| 0 <= j < a.len() && a[j] == e;
        assert(all[j] == e);
    }
    if exists|k: int|
        0 <= k < names.len() && e == dir_entry(
            #[trigger] names[k],
            tree_id(snapshot(files_below(fs, names[k]))),
        ) {
        let k = choose|k: int|
            0 <= k < names.len() && e == dir_entry(
                #[trigger] names[k],
                tree_id(snapshot(files_below(fs, names[k]))),
            );
        assert(all[a.len() + k] == e);
    }
}

pub proof fn lemma_snapshot_storable(fs: Seq<FileView>)
    requires
        files_storable(fs),
    ensures
        tree_storable(snapshot(fs)),
{
    let s = snapshot(fs);
    lemma_snapshot_entry(fs, s[0]);
    assert forall|j: int| 0 <= j < s.len() implies entry_storable(#[trigger] s[j]) by {
        let e = s[j];
        assert(s.contains(e));
        lemma_snapshot_entry(fs, e);
        if exists|i: int| 0 <= i < fs.len() && entry_of_file(e, #[trigger] fs[i]) {
            let i = choose|i: int| 0 <= i < fs.len() && entry_of_file(e, #[trigger] fs[i]);
            assert(file_storable(fs[i]));
        } else {
            let k = choose|k: int|
                0 <= k < dir_names(fs).len() && e == dir_entry(
                    #[trigger] dir_names(fs)[k],
                    tree_id(snapshot(files_below(fs, dir_names(fs)[k]))),
                );
            let n = dir_names(fs)[k];
            assert(dir_names(fs).contains(n));
            lemma_dir_names(fs, n);
            let i = choose|i: int|
                0 <= i < fs.len() && has_slash((#[trigger] fs[i]).path) && head(fs[i].path) == n;
            assert(file_storable(fs[i]));
        }
    }
}

/// What the entries of a snapshot give: the files of the directory.
proof fn lemma_snapshot_gives(
    m: Objects,
    fs: Seq<FileView>,
    prefix: Seq<char>,
    d: nat,
    g: FileView,
)
    requires
        files_storable(fs),
        d > 0,
        forall|k: int|
            0 <= k < dir_names(fs).len() ==> {
                let n = #[trigger] dir_names(fs)[k];
                let below = files_below(fs, n);
                let r = files_to(
                    m,
                    tree_id(snapshot(below)),
                    join_spec(prefix, n),
                    (d - 1) as nat,
                );
                r is Ok && (forall|x: FileView| #[trigger]
                    r->Ok_0.contains(x) <==> among(x, below, join_spec(prefix, n)))
            },
    ensures
        (exists|j: int|
            0 <= j < snapshot(fs).len() && entry_gives(
                m,
                #[trigger] snapshot(fs)[j],
                prefix,
                d,
                g,
            )) <==> among(g, fs, prefix),
{
    let s = snapshot(fs);
    let names = dir_names(fs);
    if exists|j: int| 0 <= j < s.len() && entry_gives(m, #[trigger] s[j], prefix, d, g) {
        let j = choose|j: int| 0 <= j < s.len() && entry_gives(m, #[trigger] s[j], prefix, d, g);
        let e = s[j];
        assert(s.contains(e));
        lemma_snapshot_entry(fs, e);
        if exists|i: int| 0 <= i < fs.len() && entry_of_file(e, #[trigger] fs[i]) {
            let i = choose|i: int| 0 <= i < fs.len() && entry_of_file(e, #[trigger] fs[i]);
            assert(g == moved(fs[i], prefix));
        } else {
            let k = choose|k: int|
                0 <= k < names.len() && e == dir_entry(
                    #[trigger] names[k],
                    tree_id(snapshot(files_below(fs, names[k]))),
                );
            let n = names[k];
            let below = files_below(fs, n);
            assert(among(g, below, join_spec(prefix, n)));
            let q = choose|q: int|
                0 <= q < below.len() && g == moved(#[trigger] below[q], join_spec(prefix, n));
            assert(below.contains(below[q]));
            lemma_files_below(fs, n);
            let i = choose|i: int|
                {
                    &&& 0 <= i < fs.len()
                    &&& has_slash((#[trigger] fs[i]).path)
                    &&& head(fs[i].path) == n
                    &&& below[q] == lowered(fs[i])
                };
            lemma_moved(fs[i], prefix);
            assert(g == moved(fs[i], prefix));
        }
    }
    if among(g, fs, prefix) {
        let i = choose|i: int| 0 <= i < fs.len() && g == moved(#[trigger] fs[i], prefix);
        let f = fs[i];
        assert(file_storable(f));
        if has_slash(f.path) {
            let n = head(f.path);
            lemma_dir_names(fs, n);
            assert(names.contains(n));
            let k = choose|k: int| 0 <= k < names.len() && names[k] == n;
            let below = files_below(fs, n);
            let e = dir_entry(names[k], tree_id(snapshot(below)));
            lemma_snapshot_entry(fs, e);
            assert(s.contains(e));
            let j = choose|j: int| 0 <= j < s.len() && s[j] == e;
            lemma_files_below(fs, n);
            let h = lowered(f);
            assert(below.contains(h));
            let q = choose|q: int| 0 <= q < below.len() && below[q] == h;
            lemma_moved(f, prefix);
            assert(g == moved(below[q], join_spec(prefix, n)));
            assert(among(g, below, join_spec(prefix, n)));
            assert(entry_gives(m, s[j], prefix, d, g));
        } else {
            let e = file_entry(f.path, f.oid, f.mode, f.size);
            assert(entry_of_file(e, fs[i]));
            lemma_snapshot_entry(fs, e);
            assert(s.contains(e));
            let j = choose|j: int| 0 <= j < s.len() && s[j] == e;
            assert(entry_gives(m, s[j], prefix, d, g));
        }
    }
}

/// A path below a directory, taken apart and put together.
proof fn lemma_moved(f: FileView, prefix: Seq<char>)
    requires
        has_slash(f.path),
        clean_path(f.path),
    ensures
        moved(
            lowered(f),
            join_spec(prefix, head(f.path)),
        ) == moved(f, prefix),
{
    lemma_has_slash(f.path);
    let n = head(f.path);
    let whole = join_spec(join_spec(prefix, n), tail(f.path));
    assert(whole =~= join_spec(prefix, f.path));
}

proof fn lemma_read_back(m: Objects, fs: Seq<FileView>, prefix: Seq<char>, d: nat)
    requires
        holds_trees(m, fs),
        files_storable(fs),
        d > total_len(fs),
    ensures
        within(m, tree_id(snapshot(fs)), d),
        files_to(m, tree_id(snapshot(fs)), prefix, d) is Ok,
        forall|g: FileView|
            #[trigger] files_to(m, tree_id(snapshot(fs)), prefix, d)->Ok_0.contains(g) <==> among(
                g,
                fs,
                prefix,
            ),
    decreases total_len(fs),
{
    let id = tree_id(snapshot(fs));
    let s = snapshot(fs);
    let names = dir_names(fs);
    lemma_snapshot_storable(fs);
    tree_round_trip(s);
    assert(tree_at(m, id) == Ok::<Seq<TreeEntryView>, WalkFault>(s));
    assert forall|k: int| 0 <= k < names.len() implies {
        let n = #[trigger] names[k];
        let below = files_below(fs, n);
        let r = files_to(m, tree_id(snapshot(below)), join_spec(prefix, n), (d - 1) as nat);
        &&& within(m, tree_id(snapshot(below)), (d - 1) as nat)
        &&& r is Ok
        &&& forall|x: FileView| #[trigger]
            r->Ok_0.contains(x) <==> among(x, below, join_spec(prefix, n))
    } by {
        let n = names[k];
        assert(names.contains(n));
        lemma_files_below_shorter(fs, n);
        lemma_files_below_some(fs, n);
        lemma_files_below(fs, n);
        lemma_holds_dir(m, fs, names, k);
        lemma_read_back(m, files_below(fs, n), join_spec(prefix, n), (d - 1) as nat);
    }
    assert forall|j: int| 0 <= j < s.len() && (
    #[trigger] s[j]).entry_type == EntryType::Tree implies within(m, s[j].oid, (d - 1) as nat)
        && files_to(m, s[j].oid, join_spec(prefix, s[j].name), (d - 1) as nat) is Ok by {
        let e = s[j];
        assert(s.contains(e));
        lemma_snapshot_entry(fs, e);
        let k = choose|k: int|
            0 <= k < names.len() && e == dir_entry(
                #[trigger] names[k],
                tree_id(snapshot(files_below(fs, names[k]))),
            );
        assert(e == dir_entry(names[k], tree_id(snapshot(files_below(fs, names[k])))));
    }
    lemma_entry_files(m, s, prefix, d);
    assert forall|g: FileView|
        #[trigger] files_to(m, id, prefix, d)->Ok_0.contains(g) <==> among(g, fs, prefix) by {
        assert(entry_files_to(m, s, prefix, d)->Ok_0.contains(g) <==> exists|j: int|
            0 <= j < s.len() && entry_gives(m, #[trigger] s[j], prefix, d, g));
        lemma_snapshot_gives(m, fs, prefix, d, g);
    }
}

/// Reading the root tree of a snapshot, and all trees below it, gives back
/// exactly the files of the snapshot.
pub proof fn snapshot_reads_back(m: Objects, fs: Seq<FileView>)
    requires
        holds_trees(m, fs),
        files_storable(fs),
    ensures
        grounded(m, tree_id(snapshot(fs))),
        tree_files(m, tree_id(snapshot(fs))) is Ok,
        forall|g: FileView|
            #[trigger] tree_files(m, tree_id(snapshot(fs)))->Ok_0.contains(g) <==> fs.contains(g),
{
    let id = tree_id(snapshot(fs));
    let d = (total_len(fs) + 1) as nat;
    lemma_read_back(m, fs, Seq::empty(), d);
    lemma_files_to_stable(
        m,
        id,
        Seq::empty(),
        d,
        crate::helix_index::tree_walk::depth_of(m, id),
    );
    assert forall|g: FileView|
        #[trigger] tree_files(m, id)->Ok_0.contains(g) <==> fs.contains(g) by {
        assert(files_to(m, id, Seq::empty(), d)->Ok_0.contains(g) <==> among(
            g,
            fs,
            Seq::empty(),
        ));
        if fs.contains(g) {
            let i = choose|i: int| 0 <= i < fs.len() && fs[i] == g;
            assert(g == moved(fs[i], Seq::empty()));
        }
    }
}

/// Writing the trees of a snapshot and reading them again gives back exactly
/// its files, where no tree clashes with another object of the store.
pub proof fn snapshot_round_trip(m: Objects, fs: Seq<FileView>)
    requires
        no_clash(m, fs),
        files_storable(fs),
    ensures
        tree_files(put_trees(m, fs), tree_id(snapshot(fs))) is Ok,
        forall|g: FileView|
            #[trigger] tree_files(put_trees(m, fs), tree_id(snapshot(fs)))->Ok_0.contains(g)
                <==> fs.contains(g),
{
    written_trees_are_held(m, fs);
    snapshot_reads_back(put_trees(m, fs), fs);
}

} // verus!
