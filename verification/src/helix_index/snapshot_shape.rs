//! The shape of the trees of a snapshot: sorted, without a name twice, and none empty
//! below the root.
use vstd::prelude::*;

use crate::helix_index::snapshot::{
    entry_of_file, files_storable, holds_trees, lemma_dir_names, lemma_direct, lemma_files_below,
    lemma_holds_dir, lemma_snapshot_entry, lemma_snapshot_storable, no_clash,
    written_trees_are_held,
};
use crate::helix_index::snapshot_order::{
    distinct_names, distinct_paths, lemma_below, lemma_below_distinct, lemma_direct_distinct,
    lemma_dirs_distinct, lies_below,
};
use crate::helix_index::tree::{
    dir_entry, dir_names, direct_entries, file_entry, files_below,
    lemma_files_below_shorter, lemma_files_below_some, put_trees, snapshot, snapshot_dirs,
    total_len, tree_id, tree_round_trip, ByName, EntryType, FileView, TreeEntryView,
};
use crate::helix_index::tree_walk::{tree_at, WalkFault};
use crate::object_store::Objects;
use crate::order::{in_order, Ranking};
use crate::path::{has_slash, head, lemma_has_slash};

verus! {

/// Whether one path is that of a directory that another lies in.
pub open spec fn lies_in(p: Seq<char>, dir: Seq<char>) -> bool {
    dir.push('/').is_prefix_of(p)
}

/// Whether no file lies in another.
pub open spec fn no_file_is_a_directory(fs: Seq<FileView>) -> bool {
    forall|i: int, j: int|
        0 <= i < fs.len() && 0 <= j < fs.len() ==> !lies_in(
            (#[trigger] fs[i]).path,
            (#[trigger] fs[j]).path,
        )
}

/// Whether a stored tree, and the trees below it at most `d` deep, are sorted by name
/// and hold no name twice, and those below it are not empty.
pub open spec fn is_tidy(m: Objects, id: Seq<u8>, d: nat) -> bool
    decreases d,
{
    &&& tree_at(m, id) matches Ok(es)
    &&& in_order::<ByName, TreeEntryView>(es)
    &&& distinct_names(es)
    &&& forall|i: int|
        0 <= i < es.len() && (#[trigger] es[i]).entry_type == EntryType::Tree ==> {
            &&& tree_at(m, es[i].oid) matches Ok(sub)
            &&& sub.len() > 0
            &&& d > 0 ==> is_tidy(m, es[i].oid, (d - 1) as nat)
        }
}

proof fn lemma_below_shape(fs: Seq<FileView>, n: Seq<char>)
    requires
        no_file_is_a_directory(fs),
    ensures
        no_file_is_a_directory(files_below(fs, n)),
{
    let b = files_below(fs, n);
    assert forall|i: int, j: int| 0 <= i < b.len() && 0 <= j < b.len() implies !lies_in(
        (#[trigger] b[i]).path,
        (#[trigger] b[j]).path,
    ) by {
        assert(b.contains(b[i]) && b.contains(b[j]));
        lemma_below(fs, n, b[i]);
        lemma_below(fs, n, b[j]);
        let x = choose|x: int| 0 <= x < fs.len() && lies_below(b[i], #[trigger] fs[x], n);
        let y = choose|y: int| 0 <= y < fs.len() && lies_below(b[j], #[trigger] fs[y], n);
        let p = fs[x].path;
        let q = fs[y].path;
        lemma_has_slash(p);
        lemma_has_slash(q);
        assert(!lies_in(p, q));
        if lies_in(b[i].path, b[j].path) {
            let long = b[j].path.push('/');
            assert(q.push('/') =~= n.push('/') + long);
            assert(p =~= n.push('/') + b[i].path);
            assert(long =~= b[i].path.subrange(0, long.len() as int));
            assert(q.push('/') =~= p.subrange(0, q.push('/').len() as int));
        }
    }
}

/// No entry of a snapshot has the name of another.
proof fn lemma_names_once(fs: Seq<FileView>)
    requires
        distinct_paths(fs),
        no_file_is_a_directory(fs),
    ensures
        in_order::<ByName, TreeEntryView>(snapshot(fs)),
        distinct_names(snapshot(fs)),
{
    let a = direct_entries(fs);
    let b = snapshot_dirs(fs, dir_names(fs));
    let all = a + b;
    let s = snapshot(fs);
    lemma_direct_distinct(fs);
    lemma_dirs_distinct(fs);
    assert forall|i: int, j: int| 0 <= i < j < all.len() implies (#[trigger] all[i]).name != (
    #[trigger] all[j]).name by {
        if j < a.len() {
            assert(all[i] == a[i] && all[j] == a[j]);
        } else if i >= a.len() {
            assert(all[i] == b[i - a.len()] && all[j] == b[j - a.len()]);
        } else {
            let e = all[i];
            let f = all[j];
            assert(a[i] == e && a.contains(e));
            assert(b[j - a.len()] == f && b.contains(f));
            lemma_direct(fs, e);
            lemma_dir_names(fs, f.name);
            let x = choose|x: int| 0 <= x < fs.len() && entry_of_file(e, #[trigger] fs[x]);
            let y = choose|y: int|
                0 <= y < fs.len() && has_slash((#[trigger] fs[y]).path) && head(fs[y].path)
                    == f.name;
            lemma_has_slash(fs[y].path);
            let p = fs[y].path;
            let q = fs[x].path;
            if e.name == f.name {
                assert(q.push('/') =~= p.subrange(0, q.len() as int + 1));
                assert(lies_in(p, q));
            }
        }
    }
    assert forall|i: int, j: int| 0 <= i < j < all.len() implies #[trigger] <ByName as Ranking<
        TreeEntryView,
    >>::key(all[j]) != #[trigger] <ByName as Ranking<TreeEntryView>>::key(all[i]) by {
        crate::order::lemma_codes_injective(all[i].name, all[j].name);
    }
    crate::order::lemma_sorted_in_order::<ByName, TreeEntryView>(all);
    crate::order::lemma_sorted_permutation::<ByName, TreeEntryView>(all);
    crate::order::lemma_distinct_keys_permutation::<ByName, TreeEntryView>(all, s);
    assert forall|i: int, j: int| 0 <= i < j < s.len() implies (#[trigger] s[i]).name != (
    #[trigger] s[j]).name by {
        assert(<ByName as Ranking<TreeEntryView>>::key(s[j]) != <ByName as Ranking<
            TreeEntryView,
        >>::key(s[i]));
    }
}

/// The tree of a directory that has files is not empty.
proof fn lemma_not_empty(fs: Seq<FileView>)
    requires
        files_storable(fs),
        fs.len() > 0,
    ensures
        snapshot(fs).len() > 0,
{
    let f = fs[0];
    if has_slash(f.path) {
        let n = head(f.path);
        lemma_dir_names(fs, n);
        let k = choose|k: int| 0 <= k < dir_names(fs).len() && dir_names(fs)[k] == n;
        let e = dir_entry(dir_names(fs)[k], tree_id(snapshot(files_below(fs, dir_names(fs)[k]))));
        lemma_snapshot_entry(fs, e);
        assert(snapshot(fs).contains(e));
    } else {
        let e = file_entry(f.path, f.oid, f.mode, f.size);
        assert(entry_of_file(e, fs[0]));
        lemma_snapshot_entry(fs, e);
        assert(snapshot(fs).contains(e));
    }
}

/// Every tree of a snapshot is in the store, sorted by name and without a name twice,
/// and those below the root are not empty, where no path is given twice and no file
/// lies in another.
pub proof fn snapshot_trees_are_tidy(m: Objects, fs: Seq<FileView>, d: nat)
    requires
        holds_trees(m, fs),
        files_storable(fs),
        distinct_paths(fs),
        no_file_is_a_directory(fs),
    ensures
        is_tidy(m, tree_id(snapshot(fs)), d),
    decreases total_len(fs),
{
    let s = snapshot(fs);
    let names = dir_names(fs);
    lemma_snapshot_storable(fs);
    tree_round_trip(s);
    assert(tree_at(m, tree_id(s)) == Ok::<Seq<TreeEntryView>, WalkFault>(s));
    lemma_names_once(fs);
    assert forall|i: int|
        0 <= i < s.len() && (#[trigger] s[i]).entry_type == EntryType::Tree implies {
        &&& tree_at(m, s[i].oid) matches Ok(sub)
        &&& sub.len() > 0
        &&& d > 0 ==> is_tidy(m, s[i].oid, (d - 1) as nat)
    } by {
        let e = s[i];
        assert(s.contains(e));
        lemma_snapshot_entry(fs, e);
        let k = choose|k: int|
            0 <= k < names.len() && e == dir_entry(
                #[trigger] names[k],
                tree_id(snapshot(files_below(fs, names[k]))),
            );
        let n = names[k];
        let below = files_below(fs, n);
        assert(names.contains(n));
        lemma_files_below_shorter(fs, n);
        lemma_files_below_some(fs, n);
        lemma_files_below(fs, n);
        lemma_holds_dir(m, fs, names, k);
        lemma_below_distinct(fs, n);
        lemma_below_shape(fs, n);
        lemma_not_empty(below);
        lemma_snapshot_storable(below);
        tree_round_trip(snapshot(below));
        snapshot_trees_are_tidy(m, below, if d > 0 { (d - 1) as nat } else { 0 });
    }
}

/// The trees that writing a snapshot leaves in the store are sorted by name and without
/// a name twice, and those below the root are not empty, where no tree clashes with
/// another object of the store.
pub proof fn written_snapshot_is_tidy(m: Objects, fs: Seq<FileView>, d: nat)
    requires
        no_clash(m, fs),
        files_storable(fs),
        distinct_paths(fs),
        no_file_is_a_directory(fs),
    ensures
        is_tidy(put_trees(m, fs), tree_id(snapshot(fs)), d),
{
    written_trees_are_held(m, fs);
    snapshot_trees_are_tidy(put_trees(m, fs), fs, d);
}

} // verus!
