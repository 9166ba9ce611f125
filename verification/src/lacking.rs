//! Which objects are reached from a commit, and which of them a repository lacks that
//! has another commit.
use vstd::prelude::*;

use crate::commit_graph::{
    all_ancestors, id_of, is_ancestor, lemma_pushed, lemma_unseen, parents_of, unseen,
};
use crate::hash::ObjectId;
use crate::helix_index::commit::id_views;
use crate::helix_index::commit_store::{commit_at, read_commit};
use crate::object_graph::{
    are_stored, below_one, has_blob, has_tree, holds_blob, keys_of, lemma_below_above,
    lemma_fewer_unseen, lemma_of_kind, lemma_prefix, parse_tree_entries, ref_views, refs_at,
    refs_of_kind, subtrees_of, EntryKind,
};
use crate::object_store::{
    lemma_finitely_many, object_key, ObjectStore, ObjectType, Objects, StoredObject,
};
use crate::reach::{
    follows, has_id, is_line, reached_inside, reaches, reaches_further, reaches_itself, reaches_on,
};

verus! {

/// Whether an object stands at or below the tree of a commit.
pub open spec fn commit_holds(m: Objects, c: Seq<u8>, key: (ObjectType, Seq<u8>)) -> bool {
    commit_at(m, c) matches Ok(d) && below_one(m, d.tree_hash, key)
}

/// Whether an object is reached from a commit: the commit itself, a commit before it,
/// or a tree or blob of one of these.
pub open spec fn is_reached(m: Objects, from: Seq<u8>, key: (ObjectType, Seq<u8>)) -> bool {
    if key.0 == ObjectType::Commit {
        is_ancestor(m, from, key.1, None)
    } else {
        exists|c: Seq<u8>| #[trigger] is_ancestor(m, from, c, None) && commit_holds(m, c, key)
    }
}

/// Whether an object is reached from `from`, and not from the commit that the other
/// side has, if it has one.
pub open spec fn is_lacking(
    m: Objects,
    from: Seq<u8>,
    stop: Option<Seq<u8>>,
    key: (ObjectType, Seq<u8>),
) -> bool {
    is_reached(m, from, key) && !is_there(m, stop, key)
}

/// The objects that are reached from a commit.
pub struct Reached {
    pub commits: Vec<ObjectId>,
    pub trees: Vec<ObjectId>,
    pub blobs: Vec<ObjectId>,
}

impl Reached {
    /// Whether an object is among those that are reached.
    pub open spec fn has(&self, key: (ObjectType, Seq<u8>)) -> bool {
        match key.0 {
            ObjectType::Commit => id_views(self.commits@).contains(key.1),
            ObjectType::Tree => id_views(self.trees@).contains(key.1),
            ObjectType::Blob => id_views(self.blobs@).contains(key.1),
        }
    }

    /// Whether an object is among those that are reached.
    pub fn contains(&self, kind: ObjectType, hash: &ObjectId) -> (r: bool)
        ensures
            r == self.has((kind, hash@)),
    {
        match kind {
            ObjectType::Commit => has_id(&self.commits, hash),
            ObjectType::Tree => has_id(&self.trees, hash),
            ObjectType::Blob => has_id(&self.blobs, hash),
        }
    }
}

/// Whether everything that a tree refers to is among these trees and blobs.
spec fn is_followed(m: Objects, t: Seq<u8>, trees: Seq<Seq<u8>>, blobs: Seq<Seq<u8>>) -> bool {
    forall|i: int|
        0 <= i < refs_at(m, t).len() ==> match (#[trigger] refs_at(m, t)[i]).0 {
            EntryKind::Tree => trees.contains(refs_at(m, t)[i].1),
            EntryKind::File => blobs.contains(refs_at(m, t)[i].1),
        }
}

/// More trees and blobs leave a followed tree followed.
proof fn lemma_followed_grows(
    m: Objects,
    t: Seq<u8>,
    trees: Seq<Seq<u8>>,
    blobs: Seq<Seq<u8>>,
    trees_now: Seq<Seq<u8>>,
    blobs_now: Seq<Seq<u8>>,
)
    requires
        is_followed(m, t, trees, blobs),
        trees.is_prefix_of(trees_now),
        blobs.is_prefix_of(blobs_now),
    ensures
        is_followed(m, t, trees_now, blobs_now),
{
    lemma_prefix(trees, trees_now);
    lemma_prefix(blobs, blobs_now);
}

/// Notes a tree and everything below it. What cannot be read refers to nothing.
fn note_tree(
    store: &ObjectStore,
    tree_hash: &ObjectId,
    trees: &mut Vec<ObjectId>,
    blobs: &mut Vec<ObjectId>,
)
    requires
        store.wf(),
        store@.dom().finite(),
    ensures
        ({
            let m = store@;
            let t0 = id_views(old(trees)@);
            let b0 = id_views(old(blobs)@);
            let t1 = id_views(final(trees)@);
            let b1 = id_views(final(blobs)@);
            &&& t0.is_prefix_of(t1)
            &&& b0.is_prefix_of(b1)
            &&& t1.contains(tree_hash@)
            &&& forall|k: int|
                t0.len() <= k < t1.len() ==> has_tree(m, tree_hash@, #[trigger] t1[k])
                    && is_followed(m, t1[k], t1, b1)
            &&& forall|k: int|
                b0.len() <= k < b1.len() ==> has_blob(m, tree_hash@, #[trigger] b1[k])
        }),
    decreases unseen(store@, ObjectType::Tree, id_views(old(trees)@)).len(),
{
    let ghost m = store@;
    let ghost root = tree_hash@;
    let ghost t0 = id_views(trees@);
    let ghost b0 = id_views(blobs@);
    let ghost next = subtrees_of(m);
    if has_id(trees, tree_hash) {
        return;
    }
    proof {
        reaches_itself(next, root, None);
        assert(has_tree(m, root, root));
        lemma_unseen(m, ObjectType::Tree, t0, root);
    }
    trees.push(*tree_hash);
    proof {
        assert(id_views(trees@) =~= t0.push(root));
        lemma_pushed(t0, root);
        assert(t0.is_prefix_of(t0.push(root)));
        assert(t0.push(root)[t0.len() as int] == root);
    }
    let bytes = match store.read_object(ObjectType::Tree, tree_hash) {
        Some(b) => b,
        None => return,
    };
    let entries = match parse_tree_entries(bytes.as_slice()) {
        Ok(es) => es,
        Err(_) => return,
    };
    let ghost es = refs_at(m, root);
    proof {
        lemma_of_kind(es, EntryKind::Tree);
        lemma_of_kind(es, EntryKind::File);
    }
    let mut i: usize = 0;
    while i < entries.len()
        invariant
            store.wf(),
            m == store@,
            m.dom().finite(),
            root == tree_hash@,
            next == subtrees_of(m),
            es == refs_at(m, root),
            es == ref_views(entries@),
            has_tree(m, root, root),
            unseen(m, ObjectType::Tree, t0.push(root)).len() < unseen(
                m,
                ObjectType::Tree,
                t0,
            ).len(),
            t0 == id_views(old(trees)@),
            b0 == id_views(old(blobs)@),
            forall|h: Seq<u8>| #[trigger]
                refs_of_kind(es, EntryKind::Tree).contains(h) <==> exists|i: int|
                    0 <= i < es.len() && #[trigger] es[i] == (EntryKind::Tree, h),
            forall|h: Seq<u8>| #[trigger]
                refs_of_kind(es, EntryKind::File).contains(h) <==> exists|i: int|
                    0 <= i < es.len() && #[trigger] es[i] == (EntryKind::File, h),
            i <= entries.len(),
            t0.push(root).is_prefix_of(id_views(trees@)),
            b0.is_prefix_of(id_views(blobs@)),
            forall|k: int|
                t0.len() < k < trees@.len() ==> has_tree(m, root, #[trigger] id_views(trees@)[k])
                    && is_followed(m, id_views(trees@)[k], id_views(trees@), id_views(blobs@)),
            forall|k: int|
                b0.len() <= k < blobs@.len() ==> has_blob(m, root, #[trigger] id_views(blobs@)[k]),
            forall|j: int|
                0 <= j < i ==> match (#[trigger] es[j]).0 {
                    EntryKind::Tree => id_views(trees@).contains(es[j].1),
                    EntryKind::File => id_views(blobs@).contains(es[j].1),
                },
        decreases entries.len() - i,
    {
        let ghost t1 = id_views(trees@);
        let ghost b1 = id_views(blobs@);
        let kind = entries[i].0;
        let hash: ObjectId = entries[i].1;
        assert(es[i as int] == (kind, hash@));
        match kind {
            EntryKind::File => {
                proof {
                    assert(holds_blob(m, root, hash@));
                    assert(has_blob(m, root, hash@));
                }
                if !has_id(blobs, &hash) {
                    blobs.push(hash);
                    proof {
                        assert(id_views(blobs@) =~= b1.push(hash@));
                        lemma_pushed(b1, hash@);
                        assert(b1.is_prefix_of(b1.push(hash@)));
                    }
                }
            },
            EntryKind::Tree => {
                proof {
                    assert(next(root).contains(hash@));
                    reaches_further(next, root, root, hash@, None);
                    lemma_fewer_unseen(m, t0.push(root), t1);
                }
                note_tree(store, &hash, trees, blobs);
                proof {
                    let t2 = id_views(trees@);
                    let b2 = id_views(blobs@);
                    assert forall|k: int| t1.len() <= k < t2.len() implies has_tree(
                        m,
                        root,
                        #[trigger] t2[k],
                    ) by {
                        reaches_on(next, root, hash@, t2[k], None);
                    }
                    assert forall|k: int| b1.len() <= k < b2.len() implies has_blob(
                        m,
                        root,
                        #[trigger] b2[k],
                    ) by {
                        lemma_below_above(m, root, hash@, (ObjectType::Blob, b2[k]));
                    }
                }
            },
        }
        proof {
            let t2 = id_views(trees@);
            let b2 = id_views(blobs@);
            lemma_prefix(t1, t2);
            lemma_prefix(b1, b2);
            assert(t0.push(root).is_prefix_of(t2)) by {
                assert(t2.subrange(0, t0.len() as int + 1) =~= t1.subrange(0, t0.len() as int + 1));
            }
            assert(b0.is_prefix_of(b2)) by {
                assert(b2.subrange(0, b0.len() as int) =~= b1.subrange(0, b0.len() as int));
            }
            assert forall|k: int| t0.len() < k < t2.len() implies has_tree(
                m,
                root,
                #[trigger] t2[k],
            ) && is_followed(m, t2[k], t2, b2) by {
                if k < t1.len() {
                    assert(t2[k] == t1[k]);
                    lemma_followed_grows(m, t1[k], t1, b1, t2, b2);
                }
            }
            assert forall|k: int| b0.len() <= k < b2.len() implies has_blob(
                m,
                root,
                #[trigger] b2[k],
            ) by {
                if k < b1.len() {
                    assert(b2[k] == b1[k]);
                }
            }
        }
        i += 1;
    }
    proof {
        let t1 = id_views(trees@);
        let b1 = id_views(blobs@);
        assert(t1[t0.len() as int] == root) by {
            assert(t0.push(root)[t0.len() as int] == root);
        }
        assert(is_followed(m, root, t1, b1));
        assert(t0.is_prefix_of(t1)) by {
            assert(t1.subrange(0, t0.len() as int) =~= t0);
        }
    }
}

/// The objects that are reached from a commit. What is not stored, or cannot be read,
/// refers to nothing.
pub fn reached_from(store: &ObjectStore, from: &ObjectId) -> (r: Reached)
    requires
        store.wf(),
    ensures
        forall|k: (ObjectType, Seq<u8>)| #[trigger] r.has(k) <==> is_reached(store@, from@, k),
{
    let ghost m = store@;
    let commits = all_ancestors(store, from);
    let ghost cs = id_views(commits@);
    let mut trees: Vec<ObjectId> = Vec::new();
    let mut blobs: Vec<ObjectId> = Vec::new();
    let mut i: usize = 0;
    proof {
        lemma_finitely_many(store.objects@);
    }
    while i < commits.len()
        invariant
            i <= commits.len(),
            store.wf(),
            m == store@,
            m.dom().finite(),
            cs == id_views(commits@),
            forall|h: Seq<u8>| #[trigger] cs.contains(h) <==> is_ancestor(m, from@, h, None),
            forall|j: int|
                0 <= j < i && commit_at(m, #[trigger] cs[j]) is Ok ==> id_views(trees@).contains(
                    commit_at(m, cs[j])->Ok_0.tree_hash,
                ),
            forall|k: int|
                0 <= k < trees@.len() ==> is_reached(
                    m,
                    from@,
                    (ObjectType::Tree, #[trigger] id_views(trees@)[k]),
                ) && is_followed(m, id_views(trees@)[k], id_views(trees@), id_views(blobs@)),
            forall|k: int|
                0 <= k < blobs@.len() ==> is_reached(
                    m,
                    from@,
                    (ObjectType::Blob, #[trigger] id_views(blobs@)[k]),
                ),
        decreases commits.len() - i,
    {
        let ghost t0 = id_views(trees@);
        let ghost b0 = id_views(blobs@);
        let ghost c = cs[i as int];
        proof {
            assert(cs.contains(c));
            assert(c == commits@[i as int]@);
        }
        match read_commit(store, &commits[i]) {
            Ok(d) => {
                note_tree(store, &d.tree_hash, &mut trees, &mut blobs);
                proof {
                    let t1 = id_views(trees@);
                    let b1 = id_views(blobs@);
                    lemma_prefix(t0, t1);
                    assert forall|k: int| 0 <= k < t1.len() implies is_reached(
                        m,
                        from@,
                        (ObjectType::Tree, #[trigger] t1[k]),
                    ) && is_followed(m, t1[k], t1, b1) by {
                        if k < t0.len() {
                            assert(t1[k] == t0[k]);
                            lemma_followed_grows(m, t0[k], t0, b0, t1, b1);
                        } else {
                            assert(commit_holds(m, c, (ObjectType::Tree, t1[k])));
                        }
                    }
                    assert forall|k: int| 0 <= k < b1.len() implies is_reached(
                        m,
                        from@,
                        (ObjectType::Blob, #[trigger] b1[k]),
                    ) by {
                        if k < b0.len() {
                            assert(b1[k] == b0[k]);
                        } else {
                            assert(commit_holds(m, c, (ObjectType::Blob, b1[k])));
                        }
                    }
                }
            },
            Err(_) => {},
        }
        i += 1;
    }
    let r = Reached { commits, trees, blobs };
    proof {
        lemma_all_noted(m, from@, cs, id_views(r.trees@), id_views(r.blobs@));
        assert forall|k: (ObjectType, Seq<u8>)| #[trigger] r.has(k) <==> is_reached(
            m,
            from@,
            k,
        ) by {
            let ts = id_views(r.trees@);
            let bs = id_views(r.blobs@);
            if k.0 == ObjectType::Tree && ts.contains(k.1) {
                let j = choose|j: int| 0 <= j < ts.len() && ts[j] == k.1;
                assert(is_reached(m, from@, (ObjectType::Tree, ts[j])));
            }
            if k.0 == ObjectType::Blob && bs.contains(k.1) {
                let j = choose|j: int| 0 <= j < bs.len() && bs[j] == k.1;
                assert(is_reached(m, from@, (ObjectType::Blob, bs[j])));
            }
        }
    }
    r
}

/// Where the trees of all commits are noted and every noted tree is followed,
/// everything below the commits is noted.
proof fn lemma_all_noted(
    m: Objects,
    from: Seq<u8>,
    cs: Seq<Seq<u8>>,
    trees: Seq<Seq<u8>>,
    blobs: Seq<Seq<u8>>,
)
    requires
        forall|h: Seq<u8>| #[trigger] cs.contains(h) <==> is_ancestor(m, from, h, None),
        forall|j: int|
            0 <= j < cs.len() && commit_at(m, #[trigger] cs[j]) is Ok ==> trees.contains(
                commit_at(m, cs[j])->Ok_0.tree_hash,
            ),
        forall|k: int|
            0 <= k < trees.len() ==> is_followed(m, #[trigger] trees[k], trees, blobs),
    ensures
        forall|h: Seq<u8>| #[trigger]
            is_reached(m, from, (ObjectType::Tree, h)) ==> trees.contains(h),
        forall|h: Seq<u8>| #[trigger]
            is_reached(m, from, (ObjectType::Blob, h)) ==> blobs.contains(h),
{
    let next = subtrees_of(m);
    let s = Set::new(|h: Seq<u8>| trees.contains(h));
    assert forall|x: Seq<u8>, y: Seq<u8>|
        s.contains(x) && #[trigger] next(x).contains(y) implies s.contains(y) by {
        let k = choose|k: int| 0 <= k < trees.len() && trees[k] == x;
        assert(is_followed(m, trees[k], trees, blobs));
        lemma_of_kind(refs_at(m, x), EntryKind::Tree);
        let i = choose|i: int|
            0 <= i < refs_at(m, x).len() && #[trigger] refs_at(m, x)[i] == (EntryKind::Tree, y);
        assert(refs_at(m, x)[i].0 == EntryKind::Tree);
    }
    assert forall|k: (ObjectType, Seq<u8>)|
        k.0 != ObjectType::Commit && #[trigger] is_reached(m, from, k) implies if k.0
        == ObjectType::Tree {
        trees.contains(k.1)
    } else {
        blobs.contains(k.1)
    } by {
        let c = choose|c: Seq<u8>| #[trigger]
            is_ancestor(m, from, c, None) && commit_holds(m, c, k);
        assert(cs.contains(c));
        let j = choose|j: int| 0 <= j < cs.len() && cs[j] == c;
        let root = commit_at(m, cs[j])->Ok_0.tree_hash;
        assert(trees.contains(root));
        reached_inside(next, root, None, s);
        if k.0 == ObjectType::Tree {
            assert(reaches(next, root, k.1, None));
            assert(s.contains(k.1));
        } else {
            let t = choose|t: Seq<u8>| #[trigger] has_tree(m, root, t) && holds_blob(m, t, k.1);
            assert(reaches(next, root, t, None));
            assert(s.contains(t));
            let q = choose|q: int| 0 <= q < trees.len() && trees[q] == t;
            assert(is_followed(m, trees[q], trees, blobs));
            lemma_of_kind(refs_at(m, t), EntryKind::File);
            let x = choose|x: int|
                0 <= x < refs_at(m, t).len() && #[trigger] refs_at(m, t)[x] == (
                    EntryKind::File,
                    k.1,
                );
            assert(refs_at(m, t)[x].0 == EntryKind::File);
        }
    }
    assert forall|h: Seq<u8>| #[trigger]
        is_reached(m, from, (ObjectType::Tree, h)) implies trees.contains(h) by {
        let k = (ObjectType::Tree, h);
        assert(is_reached(m, from, k));
    }
    assert forall|h: Seq<u8>| #[trigger]
        is_reached(m, from, (ObjectType::Blob, h)) implies blobs.contains(h) by {
        let k = (ObjectType::Blob, h);
        assert(is_reached(m, from, k));
    }
}

/// What the other side has already, if it has a commit.
pub open spec fn is_there(m: Objects, stop: Option<Seq<u8>>, key: (ObjectType, Seq<u8>)) -> bool {
    stop matches Some(s) && is_reached(m, s, key)
}

/// The keys of objects without those that the other side has, in order.
pub open spec fn left_out(
    m: Objects,
    stop: Option<Seq<u8>>,
    ks: Seq<(ObjectType, Seq<u8>)>,
) -> Seq<(ObjectType, Seq<u8>)>
    decreases ks.len(),
{
    if ks.len() == 0 {
        ks
    } else if is_there(m, stop, ks.last()) {
        left_out(m, stop, ks.drop_last())
    } else {
        left_out(m, stop, ks.drop_last()).push(ks.last())
    }
}

pub proof fn lemma_left_out(m: Objects, stop: Option<Seq<u8>>, ks: Seq<(ObjectType, Seq<u8>)>)
    ensures
        forall|k: (ObjectType, Seq<u8>)| #[trigger]
            left_out(m, stop, ks).contains(k) <==> ks.contains(k) && !is_there(m, stop, k),
        ks.no_duplicates() ==> left_out(m, stop, ks).no_duplicates(),
    decreases ks.len(),
{
    if ks.len() > 0 {
        let d = ks.drop_last();
        let x = ks.last();
        lemma_left_out(m, stop, d);
        let l = left_out(m, stop, d);
        let r = left_out(m, stop, ks);
        assert forall|k: (ObjectType, Seq<u8>)| #[trigger]
            r.contains(k) <==> ks.contains(k) && !is_there(m, stop, k) by {
            if r.contains(k) {
                let j = choose|j: int| 0 <= j < r.len() && r[j] == k;
                if j < l.len() {
                    assert(l[j] == k);
                    assert(l.contains(k));
                    let i = choose|i: int| 0 <= i < d.len() && d[i] == k;
                    assert(ks[i] == k);
                } else {
                    assert(ks[ks.len() - 1] == k);
                }
            }
            if ks.contains(k) && !is_there(m, stop, k) {
                let i = choose|i: int| 0 <= i < ks.len() && ks[i] == k;
                if i < d.len() {
                    assert(d[i] == k);
                    assert(l.contains(k));
                    let j = choose|j: int| 0 <= j < l.len() && l[j] == k;
                    assert(r[j] == k);
                } else {
                    assert(r[r.len() - 1] == k);
                }
            }
        }
        if ks.no_duplicates() {
            assert forall|i: int, j: int| 0 <= i < d.len() && 0 <= j < d.len() && i != j implies
                d[i] != d[j] by {
                assert(ks[i] != ks[j]);
            }
            assert(!l.contains(x)) by {
                if l.contains(x) {
                    assert(d.contains(x));
                    let i = choose|i: int| 0 <= i < d.len() && d[i] == x;
                    assert(ks[i] != ks[ks.len() - 1]);
                }
            }
            assert forall|i: int, j: int| 0 <= i < r.len() && 0 <= j < r.len() && i != j implies
                r[i] != r[j] by {
                if i < l.len() {
                    assert(r[i] == l[i] && l.contains(l[i]));
                }
                if j < l.len() {
                    assert(r[j] == l[j] && l.contains(l[j]));
                }
            }
        }
    }
}

/// The objects without those that the other side has, in order.
pub fn leave_out(store: &ObjectStore, objects: Vec<StoredObject>, there: Option<ObjectId>) -> (r:
    Vec<StoredObject>)
    requires
        store.wf(),
        are_stored(store@, objects@),
    ensures
        keys_of(r@) == left_out(store@, id_of(there), keys_of(objects@)),
        are_stored(store@, r@),
{
    let s = match &there {
        Some(s) => s,
        None => {
            proof {
                lemma_nothing_there(store@, keys_of(objects@));
            }
            return objects;
        },
    };
    let reached = reached_from(store, s);
    let ghost ks = keys_of(objects@);
    let ghost stop = id_of(there);
    let mut r: Vec<StoredObject> = Vec::new();
    let mut i: usize = 0;
    assert(keys_of(r@) =~= left_out(store@, stop, ks.subrange(0, 0)));
    while i < objects.len()
        invariant
            i <= objects.len(),
            ks == keys_of(objects@),
            stop == Some(s@),
            are_stored(store@, objects@),
            are_stored(store@, r@),
            forall|k: (ObjectType, Seq<u8>)| #[trigger]
                reached.has(k) <==> is_reached(store@, s@, k),
            keys_of(r@) == left_out(store@, stop, ks.subrange(0, i as int)),
        decreases objects.len() - i,
    {
        let o = &objects[i];
        let ghost before = keys_of(r@);
        proof {
            let t = ks.subrange(0, i + 1);
            assert(t.drop_last() =~= ks.subrange(0, i as int));
            assert(t.last() == object_key(*o));
            assert(reached.has(object_key(*o)) == is_there(store@, stop, object_key(*o)));
        }
        if !reached.contains(o.kind, &o.hash) {
            let copy = StoredObject { kind: o.kind, hash: o.hash, data: o.data.clone() };
            r.push(copy);
            proof {
                assert(object_key(copy) == object_key(*o));
                assert(store@.contains_key(object_key(objects@[i as int])));
                assert(keys_of(r@) =~= before.push(object_key(*o)));
            }
        }
        i += 1;
    }
    assert(ks.subrange(0, i as int) =~= ks);
    r
}

proof fn lemma_nothing_there(m: Objects, ks: Seq<(ObjectType, Seq<u8>)>)
    ensures
        left_out(m, None, ks) == ks,
    decreases ks.len(),
{
    if ks.len() > 0 {
        lemma_nothing_there(m, ks.drop_last());
        assert(ks.drop_last().push(ks.last()) =~= ks);
    }
}

/// What is lacking is found on the way from `from` back to the commit that is there:
/// a line that goes through that commit leads to what is reached from it.
pub proof fn lemma_lacking_commit(
    m: Objects,
    from: Seq<u8>,
    stop: Option<Seq<u8>>,
    h: Seq<u8>,
)
    requires
        is_ancestor(m, from, h, None),
        !(stop matches Some(s) && is_ancestor(m, s, h, None)),
    ensures
        is_ancestor(m, from, h, stop),
{
    if let Some(s) = stop {
        let next = parents_of(m);
        let line = choose|line: Seq<Seq<u8>>| #[trigger] is_line(next, line, from, h, None);
        assert forall|k: int| 0 <= k < line.len() implies stop != Some(#[trigger] line[k]) by {
            if line[k] == s {
                let part = line.subrange(k, line.len() as int);
                assert forall|j: int| 1 <= j < part.len() implies #[trigger] follows(
                    next,
                    part,
                    j,
                ) by {
                    assert(follows(next, line, k + j));
                }
                assert(is_line(next, part, s, h, None));
            }
        }
        assert(is_line(next, line, from, h, stop));
    }
}

/// A commit that is found without going through another is found.
pub proof fn lemma_ancestor_anyway(m: Objects, from: Seq<u8>, stop: Option<Seq<u8>>, h: Seq<u8>)
    requires
        is_ancestor(m, from, h, stop),
    ensures
        is_ancestor(m, from, h, None),
{
    let next = parents_of(m);
    let line = choose|line: Seq<Seq<u8>>| #[trigger] is_line(next, line, from, h, stop);
    assert(is_line(next, line, from, h, None));
}

} // verus!
