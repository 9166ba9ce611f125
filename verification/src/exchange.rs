//! What can be read of pushed objects where they arrive.
use vstd::prelude::*;

use crate::codec::{
    le_bytes, le_value, lemma_le_bytes_len, lemma_le_round_trip, lemma_pow256_values,
};
use crate::commit_graph::is_ancestor;
use crate::helix_index::commit_store::commit_at;
use crate::helix_index::tree::{
    entry_extent, lemma_entries_span, parse_tree, parse_tree_entries, spans, tree_bytes,
    tree_entries_bytes, tree_round_trip, tree_storable, EntryType, FileView, TreeEntryView,
};
use crate::helix_index::tree_walk::{
    depth_of, entry_files_to, files_to, grounded, lemma_files_to_stable, tree_at, tree_files,
    within,
};
use crate::lacking::{commit_holds, is_lacking, is_reached, is_there};
use crate::object_graph::{
    are_stored, below_one, has_tree, holds_blob, keys_of, lemma_of_kind, refs_at, refs_from,
    subtrees_of, tree_refs, EntryKind,
};
use crate::object_store::{object_key, ObjectType, Objects, StoredObject};
use crate::pull_command::{pulling_keeps_objects, put_received};
use crate::push_command::are_pushed;
use crate::reach::{reaches_further, reaches_itself};
use crate::rpc::{object_view, object_views, ObjectView};

verus! {

/// What an entry of a tree refers to.
pub open spec fn ref_of(e: TreeEntryView) -> (EntryKind, Seq<u8>) {
    (
        if e.entry_type == EntryType::Tree {
            EntryKind::Tree
        } else {
            EntryKind::File
        },
        e.oid,
    )
}

proof fn lemma_refs_from(b: Seq<u8>, at: int, n: nat)
    requires
        0 <= at <= b.len(),
        parse_tree_entries(b.subrange(at, b.len() as int), n) is Ok,
    ensures
        refs_from(b, at, n) is Ok,
        refs_from(b, at, n)->Ok_0 =~= parse_tree_entries(
            b.subrange(at, b.len() as int),
            n,
        )->Ok_0.map_values(|e: TreeEntryView| ref_of(e)),
    decreases n,
{
    let s = b.subrange(at, b.len() as int);
    if n > 0 {
        let ext = entry_extent(s);
        let first = s.subrange(0, ext);
        let rest = s.subrange(ext, s.len() as int);
        assert(s.subrange(13, 15) =~= b.subrange(at + 13, at + 15));
        assert(first.subrange(13, 15) =~= s.subrange(13, 15));
        assert(rest =~= b.subrange(at + ext, b.len() as int));
        lemma_refs_from(b, at + ext, (n - 1) as nat);
        let k = le_value(b.subrange(at + 13, at + 15)) as int;
        assert(first[0] == b[at]);
        assert(first.subrange(15 + k, 15 + k + 32) =~= b.subrange(
            at + 15 + k,
            at + 15 + k + 32,
        ));
    }
}

/// The references of a tree that can be read are those of its entries.
pub proof fn refs_of_a_tree(b: Seq<u8>)
    requires
        parse_tree(b) is Ok,
    ensures
        tree_refs(b) is Ok,
        tree_refs(b)->Ok_0 == parse_tree(b)->Ok_0.map_values(|e: TreeEntryView| ref_of(e)),
{
    lemma_refs_from(b, 4, le_value(b.subrange(0, 4)));
}

proof fn lemma_cut_refs(b: Seq<u8>, at: int, n: nat, k: int)
    requires
        0 <= at <= k < b.len(),
        spans(b.subrange(at, b.len() as int), n),
    ensures
        refs_from(b.subrange(0, k), at, n) is Err,
    decreases n,
{
    let p = b.subrange(0, k);
    let s = b.subrange(at, b.len() as int);
    if at + 15 <= k {
        assert(p.subrange(at + 13, at + 15) =~= s.subrange(13, 15));
        let x = entry_extent(s);
        if at + x <= k {
            assert(s.subrange(x, s.len() as int) =~= b.subrange(at + x, b.len() as int));
            lemma_cut_refs(b, at + x, (n - 1) as nat, k);
        }
    }
}

/// The references of a written tree are those of its entries, in order, and those of
/// its bytes with some cut off at the end cannot be read.
pub proof fn refs_of_a_written_tree(es: Seq<TreeEntryView>, k: int)
    requires
        tree_storable(es),
        0 <= k < tree_bytes(es).len(),
    ensures
        tree_refs(tree_bytes(es)) is Ok,
        tree_refs(tree_bytes(es))->Ok_0 == es.map_values(|e: TreeEntryView| ref_of(e)),
        tree_refs(tree_bytes(es).subrange(0, k)) is Err,
{
    let b = tree_bytes(es);
    let p = b.subrange(0, k);
    tree_round_trip(es);
    refs_of_a_tree(b);
    lemma_le_bytes_len(es.len(), 4);
    lemma_pow256_values();
    lemma_le_round_trip(es.len(), 4);
    if k >= 4 {
        assert(p.subrange(0, 4) =~= le_bytes(es.len(), 4));
        assert(b.subrange(4, b.len() as int) =~= tree_entries_bytes(es));
        lemma_entries_span(es);
        lemma_cut_refs(b, 4, es.len(), k);
    }
}

/// Whether `n` holds all that stands at or below a tree in `m`.
spec fn agree_below(m: Objects, n: Objects, root: Seq<u8>) -> bool {
    forall|k: (ObjectType, Seq<u8>)| #[trigger]
        below_one(m, root, k) ==> m.contains_key(k) && n.contains_key(k) && n[k] == m[k]
}

/// An entry of a tree below a root stands below the root.
proof fn lemma_entry_below(m: Objects, root: Seq<u8>, t: Seq<u8>, i: int)
    requires
        has_tree(m, root, t),
        tree_at(m, t) is Ok,
        0 <= i < tree_at(m, t)->Ok_0.len(),
    ensures
        ({
            let e = tree_at(m, t)->Ok_0[i];
            if e.entry_type == EntryType::Tree {
                has_tree(m, root, e.oid)
            } else {
                below_one(m, root, (ObjectType::Blob, e.oid))
            }
        }),
{
    let es = tree_at(m, t)->Ok_0;
    let e = es[i];
    refs_of_a_tree(m[(ObjectType::Tree, t)]);
    let l = refs_at(m, t);
    assert(l[i] == ref_of(e));
    if e.entry_type == EntryType::Tree {
        lemma_of_kind(l, EntryKind::Tree);
        let next = subtrees_of(m);
        assert(next(t).contains(e.oid));
        reaches_further(next, root, t, e.oid, None);
    } else {
        lemma_of_kind(l, EntryKind::File);
        assert(holds_blob(m, t, e.oid));
        assert(has_tree(m, root, t));
    }
}

/// Whether the contents of these files are in `n` as they are in `m`.
pub open spec fn contents_arrived(m: Objects, n: Objects, fs: Seq<FileView>) -> bool {
    forall|i: int|
        0 <= i < fs.len() ==> {
            let k = (ObjectType::Blob, (#[trigger] fs[i]).oid);
            m.contains_key(k) && n.contains_key(k) && n[k] == m[k]
        }
}

proof fn lemma_same_files(
    m: Objects,
    n: Objects,
    root: Seq<u8>,
    t: Seq<u8>,
    prefix: Seq<char>,
    d: nat,
)
    requires
        agree_below(m, n, root),
        has_tree(m, root, t),
        within(m, t, d),
    ensures
        tree_at(n, t) == tree_at(m, t),
        within(n, t, d),
        files_to(n, t, prefix, d) == files_to(m, t, prefix, d),
        files_to(m, t, prefix, d) matches Ok(fs) ==> contents_arrived(m, n, fs),
    decreases d, 1nat, 0nat,
{
    assert(below_one(m, root, (ObjectType::Tree, t)));
    if let Ok(es) = tree_at(m, t) {
        assert forall|i: int|
            0 <= i < es.len() && (#[trigger] es[i]).entry_type == EntryType::Tree implies within(
            n,
            es[i].oid,
            (d - 1) as nat,
        ) by {
            lemma_entry_below(m, root, t, i);
            lemma_same_files(m, n, root, es[i].oid, prefix, (d - 1) as nat);
        }
        assert(es.subrange(0, es.len() as int) =~= es);
        lemma_same_entries(m, n, root, t, es.len() as int, prefix, d);
    }
}

proof fn lemma_same_entries(
    m: Objects,
    n: Objects,
    root: Seq<u8>,
    t: Seq<u8>,
    i: int,
    prefix: Seq<char>,
    d: nat,
)
    requires
        agree_below(m, n, root),
        has_tree(m, root, t),
        within(m, t, d),
        tree_at(m, t) is Ok,
        0 <= i <= tree_at(m, t)->Ok_0.len(),
    ensures
        ({
            let es = tree_at(m, t)->Ok_0.subrange(0, i);
            &&& entry_files_to(n, es, prefix, d) == entry_files_to(m, es, prefix, d)
            &&& entry_files_to(m, es, prefix, d) matches Ok(fs) ==> contents_arrived(m, n, fs)
        }),
    decreases d, 0nat, i,
{
    let all = tree_at(m, t)->Ok_0;
    let es = all.subrange(0, i);
    if i > 0 {
        let x = all[i - 1];
        assert(es.last() == x);
        assert(es.drop_last() =~= all.subrange(0, i - 1));
        lemma_same_entries(m, n, root, t, i - 1, prefix, d);
        lemma_entry_below(m, root, t, i - 1);
        let path = crate::path::join_spec(prefix, x.name);
        if x.entry_type == EntryType::Tree {
            lemma_same_files(m, n, root, x.oid, path, (d - 1) as nat);
        } else {
            assert(below_one(m, root, (ObjectType::Blob, x.oid)));
        }
    }
}

/// Whether `n` holds what is reached from the commit that it had before, as `m` has it.
pub open spec fn had_before(m: Objects, n: Objects, stop: Option<Seq<u8>>) -> bool {
    forall|k: (ObjectType, Seq<u8>)| #[trigger]
        is_there(m, stop, k) && (k.0 == ObjectType::Commit ==> m.contains_key(k))
            ==> m.contains_key(k) && n.contains_key(k) && n[k] == m[k]
}

/// Every commit from the pushed one back can be read in full where the pushed objects
/// arrive, and what is reached from the commit that was there is there: the commit, the
/// files of its tree, and the contents of these files are what they are in the
/// repository that pushes.
pub proof fn pushed_commits_read_back(
    m: Objects,
    n: Objects,
    from: Seq<u8>,
    stop: Option<Seq<u8>>,
    v: Seq<StoredObject>,
    h: Seq<u8>,
)
    requires
        are_pushed(m, from, stop, v),
        are_stored(n, v),
        had_before(m, n, stop),
        is_ancestor(m, from, h, None),
        m.contains_key((ObjectType::Commit, h)),
        commit_at(m, h) matches Ok(c) ==> grounded(m, c.tree_hash),
    ensures
        commit_at(n, h) == commit_at(m, h),
        commit_at(m, h) matches Ok(c) ==> tree_files(n, c.tree_hash) == tree_files(m, c.tree_hash)
            && (tree_files(m, c.tree_hash) matches Ok(fs) ==> contents_arrived(m, n, fs)),
{
    assert forall|k: (ObjectType, Seq<u8>)|
        #[trigger] is_reached(m, from, k) && (k.0 == ObjectType::Commit ==> m.contains_key(
            k,
        )) implies m.contains_key(k) && n.contains_key(k) && n[k] == m[k] by {
        if is_there(m, stop, k) {
        } else {
            assert(is_lacking(m, from, stop, k));
            assert(keys_of(v).contains(k));
            let i = choose|i: int| 0 <= i < keys_of(v).len() && keys_of(v)[i] == k;
            assert(object_key(v[i]) == k);
        }
    }
    assert(is_reached(m, from, (ObjectType::Commit, h)));
    if let Ok(c) = commit_at(m, h) {
        let t = c.tree_hash;
        assert forall|k: (ObjectType, Seq<u8>)| #[trigger] below_one(m, t, k) implies m.contains_key(
            k,
        ) && n.contains_key(k) && n[k] == m[k] by {
            assert(commit_holds(m, h, k));
            assert(is_reached(m, from, k));
        }
        reaches_itself(subtrees_of(m), t, None);
        let d = depth_of(m, t);
        assert(within(m, t, d));
        lemma_same_files(m, n, t, t, Seq::empty(), d);
        assert(grounded(n, t));
        lemma_files_to_stable(n, t, Seq::empty(), d, depth_of(n, t));
    }
}

/// Whether the two stores have the same object wherever both have one.
pub open spec fn compatible(m: Objects, n: Objects) -> bool {
    forall|k: (ObjectType, Seq<u8>)| #[trigger]
        n.contains_key(k) && m.contains_key(k) ==> n[k] == m[k]
}

proof fn lemma_put_compatible(m: Objects, n: Objects, os: Seq<ObjectView>)
    requires
        compatible(m, n),
        forall|i: int|
            0 <= i < os.len() ==> m.contains_key(((#[trigger] os[i]).0, os[i].1)) && m[(
                os[i].0,
                os[i].1,
            )] == os[i].2,
    ensures
        compatible(m, put_received(n, os)),
    decreases os.len(),
{
    if os.len() > 0 {
        let d = os.drop_last();
        assert forall|i: int| 0 <= i < d.len() implies m.contains_key(
            ((#[trigger] d[i]).0, d[i].1),
        ) && m[(d[i].0, d[i].1)] == d[i].2 by {
            assert(d[i] == os[i]);
        }
        lemma_put_compatible(m, n, d);
        assert(os.last() == os[os.len() - 1]);
    }
}

/// The objects of a push that are pulled elsewhere are stored there, where no two
/// objects share a hash.
pub proof fn pushed_objects_are_pulled(
    m: Objects,
    n: Objects,
    from: Seq<u8>,
    stop: Option<Seq<u8>>,
    v: Seq<StoredObject>,
)
    requires
        are_pushed(m, from, stop, v),
        compatible(m, n),
    ensures
        are_stored(put_received(n, object_views(v)), v),
{
    let os = object_views(v);
    assert forall|i: int| 0 <= i < os.len() implies m.contains_key(
        ((#[trigger] os[i]).0, os[i].1),
    ) && m[(os[i].0, os[i].1)] == os[i].2 by {
        assert(m.contains_key(object_key(v[i])));
    }
    lemma_put_compatible(m, n, os);
    pulling_keeps_objects(n, os);
    assert forall|i: int| 0 <= i < v.len() implies put_received(n, os).contains_key(
        object_key(#[trigger] v[i]),
    ) && put_received(n, os)[object_key(v[i])] == v[i].data@ by {
        assert(os[i] == object_view(v[i]));
    }
}

} // verus!
