//! Gathering the trees and blobs below commits.
use vstd::prelude::*;

use crate::codec::{le_value, read_array, read_u16, read_u32};
use crate::commit_graph::{lemma_pushed, lemma_unseen, unseen, CommitData};
use crate::hash::ObjectId;
use crate::helix_index::commit::id_views;
use crate::object_store::{
    lemma_finitely_many, object_key, ObjectStore, ObjectType, Objects, StoredObject,
};
use crate::reach::{
    has_id, reached_inside, reaches, reaches_further, reaches_itself, reaches_on, Next,
};

verus! {

/// What an entry of a tree refers to.
#[derive(Debug, Clone, Copy, PartialEq, Eq, Structural)]
pub enum EntryKind {
    File,
    Tree,
}

/// Why the references of a tree cannot be read.
#[derive(Debug, Clone, Copy, PartialEq, Eq, Structural)]
pub enum TreeRefsError {
    TooShort,
    HeaderTruncated,
    OidTruncated,
}

/// What the bytes of a tree refer to.
pub type TreeRefs = Result<Seq<(EntryKind, Seq<u8>)>, TreeRefsError>;

/// The kind of an entry, by its first byte: 2 is a tree.
pub open spec fn kind_of(b: u8) -> EntryKind {
    if b == 2 {
        EntryKind::Tree
    } else {
        EntryKind::File
    }
}

/// The references of `n` entries from `at` on. An entry is a type of 1 byte, a
/// mode of 4, a size of 8, the length of the name in 2, the name, and a hash of
/// 32.
pub open spec fn refs_from(b: Seq<u8>, at: int, n: nat) -> TreeRefs
    decreases n,
{
    if n == 0 {
        Ok(Seq::empty())
    } else if at + 15 > b.len() {
        Err(TreeRefsError::HeaderTruncated)
    } else {
        let oid_at = at + 15 + le_value(b.subrange(at + 13, at + 15));
        if oid_at + 32 > b.len() {
            Err(TreeRefsError::OidTruncated)
        } else {
            refs_before(
                seq![(kind_of(b[at]), b.subrange(oid_at, oid_at + 32))],
                refs_from(b, oid_at + 32, (n - 1) as nat),
            )
        }
    }
}

/// References behind others.
pub open spec fn refs_before(first: Seq<(EntryKind, Seq<u8>)>, r: TreeRefs) -> TreeRefs {
    match r {
        Ok(l) => Ok(first + l),
        Err(e) => Err(e),
    }
}

/// What the bytes of a tree refer to: a count of 4 bytes, and that many entries.
pub open spec fn tree_refs(b: Seq<u8>) -> TreeRefs {
    if b.len() < 4 {
        Err(TreeRefsError::TooShort)
    } else {
        refs_from(b, 4, le_value(b.subrange(0, 4)))
    }
}

pub open spec fn ref_views(v: Seq<(EntryKind, ObjectId)>) -> Seq<(EntryKind, Seq<u8>)> {
    Seq::new(v.len(), |i: int| (v[i].0, v[i].1@))
}

/// What the bytes of a tree refer to.
pub fn parse_tree_entries(bytes: &[u8]) -> (r: Result<Vec<(EntryKind, ObjectId)>, TreeRefsError>)
    ensures
        match tree_refs(bytes@) {
            Ok(l) => r matches Ok(v) && ref_views(v@) == l,
            Err(f) => r matches Err(e) && e == f,
        },
{
    if bytes.len() < 4 {
        return Err(TreeRefsError::TooShort);
    }
    let count: u32 = read_u32(bytes, 0);
    let mut left: u32 = count;
    let mut at: usize = 4;
    let mut v: Vec<(EntryKind, ObjectId)> = Vec::new();
    proof {
        assert(ref_views(v@) =~= Seq::empty());
        match refs_from(bytes@, 4, count as nat) {
            Ok(l) => {
                assert(Seq::<(EntryKind, Seq<u8>)>::empty() + l =~= l);
            },
            Err(_) => {},
        }
    }
    while left > 0
        invariant
            bytes.len() >= 4,
            at <= bytes.len(),
            tree_refs(bytes@) == refs_before(
                ref_views(v@),
                refs_from(bytes@, at as int, left as nat),
            ),
        decreases left,
    {
        let ghost before = ref_views(v@);
        let ghost start = at as int;
        let len: usize = bytes.len();
        if len - at < 15 {
            return Err(TreeRefsError::HeaderTruncated);
        }
        let kind = if bytes[at] == 2 {
            EntryKind::Tree
        } else {
            EntryKind::File
        };
        let name_len: usize = read_u16(bytes, at + 13) as usize;
        let name_at: usize = at + 15;
        if len - name_at < name_len || len - name_at - name_len < 32 {
            return Err(TreeRefsError::OidTruncated);
        }
        let oid_at: usize = name_at + name_len;
        let oid: ObjectId = read_array::<32>(bytes, oid_at);
        v.push((kind, oid));
        at = oid_at + 32;
        proof {
            let one = seq![(kind, oid@)];
            assert(ref_views(v@) =~= before + one);
            match refs_from(bytes@, at as int, (left - 1) as nat) {
                Ok(l) => {
                    assert(before + (one + l) =~= (before + one) + l);
                },
                Err(_) => {},
            }
        }
        left -= 1;
    }
    assert(ref_views(v@) + Seq::<(EntryKind, Seq<u8>)>::empty() =~= ref_views(v@));
    Ok(v)
}

/// What a stored tree refers to; nothing where it cannot be read.
pub open spec fn refs_at(m: Objects, h: Seq<u8>) -> Seq<(EntryKind, Seq<u8>)> {
    if m.contains_key((ObjectType::Tree, h)) {
        match tree_refs(m[(ObjectType::Tree, h)]) {
            Ok(l) => l,
            Err(_) => Seq::empty(),
        }
    } else {
        Seq::empty()
    }
}

/// The references of one kind.
pub open spec fn refs_of_kind(l: Seq<(EntryKind, Seq<u8>)>, kind: EntryKind) -> Seq<Seq<u8>>
    decreases l.len(),
{
    if l.len() == 0 {
        Seq::empty()
    } else if l.last().0 == kind {
        refs_of_kind(l.drop_last(), kind).push(l.last().1)
    } else {
        refs_of_kind(l.drop_last(), kind)
    }
}

pub proof fn lemma_of_kind(l: Seq<(EntryKind, Seq<u8>)>, kind: EntryKind)
    ensures
        forall|h: Seq<u8>| #[trigger]
            refs_of_kind(l, kind).contains(h) <==> exists|i: int|
                0 <= i < l.len() && #[trigger] l[i] == (kind, h),
    decreases l.len(),
{
    if l.len() > 0 {
        let d = l.drop_last();
        lemma_of_kind(d, kind);
        lemma_pushed(refs_of_kind(d, kind), l.last().1);
        assert forall|h: Seq<u8>| #[trigger]
            refs_of_kind(l, kind).contains(h) <==> exists|i: int|
            0 <= i < l.len() && #[trigger] l[i] == (kind, h) by {
            if refs_of_kind(d, kind).contains(h) {
                let i = choose|i: int| 0 <= i < d.len() && #[trigger] d[i] == (kind, h);
                assert(l[i] == (kind, h));
            }
            if l.last() == (kind, h) {
                assert(l[l.len() - 1] == (kind, h));
            }
            if exists|i: int| 0 <= i < l.len() && #[trigger] l[i] == (kind, h) {
                let i = choose|i: int| 0 <= i < l.len() && #[trigger] l[i] == (kind, h);
                if i < d.len() {
                    assert(d[i] == (kind, h));
                }
            }
        }
    }
}

/// From a tree to the trees directly below it.
pub open spec fn subtrees_of(m: Objects) -> Next {
    |h: Seq<u8>| refs_of_kind(refs_at(m, h), EntryKind::Tree)
}

/// Whether a tree is `root` or somewhere below it.
pub open spec fn has_tree(m: Objects, root: Seq<u8>, t: Seq<u8>) -> bool {
    reaches(subtrees_of(m), root, t, None)
}

/// Whether a tree itself holds a file with this blob.
pub open spec fn holds_blob(m: Objects, t: Seq<u8>, b: Seq<u8>) -> bool {
    refs_of_kind(refs_at(m, t), EntryKind::File).contains(b)
}

/// Whether `root` or a tree below it holds a file with this blob.
pub open spec fn has_blob(m: Objects, root: Seq<u8>, b: Seq<u8>) -> bool {
    exists|t: Seq<u8>| #[trigger] has_tree(m, root, t) && holds_blob(m, t, b)
}

/// Whether an object stands at or below one of these trees.
pub open spec fn is_below(m: Objects, roots: Seq<Seq<u8>>, key: (ObjectType, Seq<u8>)) -> bool {
    exists|i: int| 0 <= i < roots.len() && below_one(m, #[trigger] roots[i], key)
}

/// Whether an object stands at or below a tree.
pub open spec fn below_one(m: Objects, root: Seq<u8>, key: (ObjectType, Seq<u8>)) -> bool {
    match key.0 {
        ObjectType::Tree => has_tree(m, root, key.1),
        ObjectType::Blob => has_blob(m, root, key.1),
        ObjectType::Commit => false,
    }
}

/// Why objects cannot be gathered.
#[derive(Debug, Clone, Copy, PartialEq, Eq)]
pub enum GatherError {
    Missing(ObjectType, ObjectId),
    /// The bytes of a tree are damaged.
    Damaged(ObjectId, TreeRefsError),
}

/// Whether this is what is wrong with an object at or below `root`.
pub open spec fn is_fault_of(m: Objects, root: Seq<u8>, e: GatherError) -> bool {
    match e {
        GatherError::Missing(kind, h) => below_one(m, root, (kind, h@)) && !m.contains_key(
            (kind, h@),
        ),
        GatherError::Damaged(h, f) => has_tree(m, root, h@) && m.contains_key(
            (ObjectType::Tree, h@),
        ) && tree_refs(m[(ObjectType::Tree, h@)]) == TreeRefs::Err(f),
    }
}

/// The keys of objects.
pub open spec fn keys_of(v: Seq<StoredObject>) -> Seq<(ObjectType, Seq<u8>)> {
    Seq::new(v.len(), |i: int| object_key(v[i]))
}

/// Whether the objects are those of the store.
pub open spec fn are_stored(m: Objects, v: Seq<StoredObject>) -> bool {
    forall|i: int|
        0 <= i < v.len() ==> m.contains_key(object_key(#[trigger] v[i])) && m[object_key(v[i])]
            == v[i].data@
}

/// Whether the objects from `base` on are these trees and blobs, each once.
spec fn gathered(
    m: Objects,
    v: Seq<StoredObject>,
    trees: Seq<Seq<u8>>,
    blobs: Seq<Seq<u8>>,
) -> bool {
    &&& trees.no_duplicates()
    &&& blobs.no_duplicates()
    &&& keys_of(v).no_duplicates()
    &&& are_stored(m, v)
    &&& forall|k: (ObjectType, Seq<u8>)| #[trigger]
        keys_of(v).contains(k) <==> match k.0 {
            ObjectType::Tree => trees.contains(k.1),
            ObjectType::Blob => blobs.contains(k.1),
            ObjectType::Commit => false,
        }
}

/// Whether everything that a tree refers to is among these trees and blobs.
spec fn is_closed(m: Objects, t: Seq<u8>, trees: Seq<Seq<u8>>, blobs: Seq<Seq<u8>>) -> bool {
    &&& m.contains_key((ObjectType::Tree, t))
    &&& tree_refs(m[(ObjectType::Tree, t)]) is Ok
    &&& forall|i: int|
        0 <= i < refs_at(m, t).len() ==> match (#[trigger] refs_at(m, t)[i]).0 {
            EntryKind::Tree => trees.contains(refs_at(m, t)[i].1),
            EntryKind::File => blobs.contains(refs_at(m, t)[i].1),
        }
}

/// Adds an object that was not there.
proof fn lemma_gathered_push(
    m: Objects,
    v: Seq<StoredObject>,
    o: StoredObject,
    trees: Seq<Seq<u8>>,
    blobs: Seq<Seq<u8>>,
    trees_now: Seq<Seq<u8>>,
    blobs_now: Seq<Seq<u8>>,
)
    requires
        gathered(m, v, trees, blobs),
        m.contains_key(object_key(o)),
        m[object_key(o)] == o.data@,
        match o.kind {
            ObjectType::Tree => !trees.contains(o.hash@) && trees_now == trees.push(o.hash@)
                && blobs_now == blobs,
            ObjectType::Blob => !blobs.contains(o.hash@) && blobs_now == blobs.push(o.hash@)
                && trees_now == trees,
            ObjectType::Commit => false,
        },
    ensures
        gathered(m, v.push(o), trees_now, blobs_now),
{
    let k = object_key(o);
    assert(keys_of(v.push(o)) =~= keys_of(v).push(k));
    assert(!keys_of(v).contains(k));
    lemma_pushed(trees, o.hash@);
    lemma_pushed(blobs, o.hash@);
    assert forall|x: (ObjectType, Seq<u8>)| #[trigger]
        keys_of(v).push(k).contains(x) <==> keys_of(v).contains(x) || x == k by {
        if keys_of(v).contains(x) {
            let i = choose|i: int| 0 <= i < keys_of(v).len() && keys_of(v)[i] == x;
            assert(keys_of(v).push(k)[i] == x);
        }
        if x == k {
            assert(keys_of(v).push(k)[v.len() as int] == x);
        }
    }
    assert(are_stored(m, v.push(o)));
}

/// More trees and blobs leave a closed tree closed.
proof fn lemma_closed_grows(
    m: Objects,
    t: Seq<u8>,
    trees: Seq<Seq<u8>>,
    blobs: Seq<Seq<u8>>,
    trees_now: Seq<Seq<u8>>,
    blobs_now: Seq<Seq<u8>>,
)
    requires
        is_closed(m, t, trees, blobs),
        trees.is_prefix_of(trees_now),
        blobs.is_prefix_of(blobs_now),
    ensures
        is_closed(m, t, trees_now, blobs_now),
{
    lemma_prefix(trees, trees_now);
    lemma_prefix(blobs, blobs_now);
}

pub proof fn lemma_prefix(a: Seq<Seq<u8>>, b: Seq<Seq<u8>>)
    requires
        a.is_prefix_of(b),
    ensures
        forall|x: Seq<u8>| a.contains(x) ==> #[trigger] b.contains(x),
{
    assert forall|x: Seq<u8>| a.contains(x) implies #[trigger] b.contains(x) by {
        let i = choose|i: int| 0 <= i < a.len() && a[i] == x;
        assert(b[i] == a[i]);
    }
}

/// What a fault below a tree is to a tree above it.
proof fn lemma_fault_above(m: Objects, root: Seq<u8>, t: Seq<u8>, e: GatherError)
    requires
        has_tree(m, root, t),
        is_fault_of(m, t, e),
    ensures
        is_fault_of(m, root, e),
{
    match e {
        GatherError::Missing(kind, h) => {
            lemma_below_above(m, root, t, (kind, h@));
        },
        GatherError::Damaged(h, _) => {
            reaches_on(subtrees_of(m), root, t, h@, None);
        },
    }
}

/// What stands below a tree stands below every tree above it.
pub proof fn lemma_below_above(m: Objects, root: Seq<u8>, t: Seq<u8>, key: (ObjectType, Seq<u8>))
    requires
        has_tree(m, root, t),
        below_one(m, t, key),
    ensures
        below_one(m, root, key),
{
    match key.0 {
        ObjectType::Tree => {
            reaches_on(subtrees_of(m), root, t, key.1, None);
        },
        ObjectType::Blob => {
            let x = choose|x: Seq<u8>| #[trigger] has_tree(m, t, x) && holds_blob(m, x, key.1);
            reaches_on(subtrees_of(m), root, t, x, None);
            assert(has_tree(m, root, x));
        },
        ObjectType::Commit => {},
    }
}

/// Gathers a tree and everything below it that was not gathered before. No object
/// is gathered twice.
fn collect_tree_recursive(
    store: &ObjectStore,
    tree_hash: &ObjectId,
    trees: &mut Vec<ObjectId>,
    blobs: &mut Vec<ObjectId>,
    objects: &mut Vec<StoredObject>,
) -> (r: Result<(), GatherError>)
    requires
        store.wf(),
        store@.dom().finite(),
        gathered(store@, old(objects)@, id_views(old(trees)@), id_views(old(blobs)@)),
    ensures
        r matches Err(e) ==> is_fault_of(store@, tree_hash@, e),
        r is Ok ==> {
            let m = store@;
            let t0 = id_views(old(trees)@);
            let b0 = id_views(old(blobs)@);
            let t1 = id_views(final(trees)@);
            let b1 = id_views(final(blobs)@);
            &&& gathered(m, final(objects)@, t1, b1)
            &&& t0.is_prefix_of(t1)
            &&& b0.is_prefix_of(b1)
            &&& t1.contains(tree_hash@)
            &&& forall|k: int|
                t0.len() <= k < t1.len() ==> has_tree(m, tree_hash@, #[trigger] t1[k])
                    && is_closed(m, t1[k], t1, b1)
            &&& forall|k: int| b0.len() <= k < b1.len() ==> has_blob(m, tree_hash@, #[trigger] b1[k])
        },
    decreases unseen(store@, ObjectType::Tree, id_views(old(trees)@)).len(),
{
    let ghost m = store@;
    let ghost root = tree_hash@;
    let ghost t0 = id_views(trees@);
    let ghost b0 = id_views(blobs@);
    let ghost next = subtrees_of(m);
    if has_id(trees, tree_hash) {
        return Ok(());
    }
    proof {
        reaches_itself(next, root, None);
        assert(has_tree(m, root, root));
        lemma_unseen(m, ObjectType::Tree, t0, root);
    }
    let bytes = match store.read_object(ObjectType::Tree, tree_hash) {
        Some(b) => b,
        None => return Err(GatherError::Missing(ObjectType::Tree, *tree_hash)),
    };
    trees.push(*tree_hash);
    let object = StoredObject { kind: ObjectType::Tree, hash: *tree_hash, data: bytes.clone() };
    proof {
        assert(id_views(trees@) =~= t0.push(root));
        lemma_gathered_push(m, objects@, object, t0, b0, t0.push(root), b0);
        lemma_pushed(t0, root);
    }
    objects.push(object);
    let entries = match parse_tree_entries(bytes.as_slice()) {
        Ok(es) => es,
        Err(f) => return Err(GatherError::Damaged(*tree_hash, f)),
    };
    let ghost es = refs_at(m, root);
    proof {
        lemma_of_kind(es, EntryKind::Tree);
        lemma_of_kind(es, EntryKind::File);
    }
    let mut i: usize = 0;
    while i < entries.len()
        invariant
            store.wf(),
            m == store@,
            m.dom().finite(),
            root == tree_hash@,
            next == subtrees_of(m),
            es == refs_at(m, root),
            es == ref_views(entries@),
            m.contains_key((ObjectType::Tree, root)),
            tree_refs(m[(ObjectType::Tree, root)]) is Ok,
            has_tree(m, root, root),
            !t0.contains(root),
            unseen(m, ObjectType::Tree, t0.push(root)).len() < unseen(m, ObjectType::Tree, t0).len(),
            t0 == id_views(old(trees)@),
            b0 == id_views(old(blobs)@),
            forall|h: Seq<u8>| #[trigger]
                refs_of_kind(es, EntryKind::Tree).contains(h) <==> exists|i: int|
                    0 <= i < es.len() && #[trigger] es[i] == (EntryKind::Tree, h),
            forall|h: Seq<u8>| #[trigger]
                refs_of_kind(es, EntryKind::File).contains(h) <==> exists|i: int|
                    0 <= i < es.len() && #[trigger] es[i] == (EntryKind::File, h),
            i <= entries.len(),
            gathered(m, objects@, id_views(trees@), id_views(blobs@)),
            t0.push(root).is_prefix_of(id_views(trees@)),
            b0.is_prefix_of(id_views(blobs@)),
            forall|k: int|
                t0.len() < k < trees@.len() ==> has_tree(m, root, #[trigger] id_views(trees@)[k])
                    && is_closed(m, id_views(trees@)[k], id_views(trees@), id_views(blobs@)),
            forall|k: int|
                b0.len() <= k < blobs@.len() ==> has_blob(m, root, #[trigger] id_views(blobs@)[k]),
            forall|j: int|
                0 <= j < i ==> match (#[trigger] es[j]).0 {
                    EntryKind::Tree => id_views(trees@).contains(es[j].1),
                    EntryKind::File => id_views(blobs@).contains(es[j].1),
                },
        decreases entries.len() - i,
    {
        let ghost t1 = id_views(trees@);
        let ghost b1 = id_views(blobs@);
        let kind = entries[i].0;
        let hash: ObjectId = entries[i].1;
        assert(es[i as int] == (kind, hash@));
        match kind {
            EntryKind::File => {
                proof {
                    assert(holds_blob(m, root, hash@));
                    assert(has_blob(m, root, hash@));
                }
                if !has_id(blobs, &hash) {
                    let data = match store.read_object(ObjectType::Blob, &hash) {
                        Some(b) => b,
                        None => return Err(GatherError::Missing(ObjectType::Blob, hash)),
                    };
                    blobs.push(hash);
                    let object = StoredObject {
                        kind: ObjectType::Blob,
                        hash,
                        data: data.clone(),
                    };
                    proof {
                        assert(id_views(blobs@) =~= b1.push(hash@));
                        lemma_gathered_push(m, objects@, object, t1, b1, t1, b1.push(hash@));
                        lemma_pushed(b1, hash@);
                        assert(b1.is_prefix_of(b1.push(hash@)));
                    }
                    objects.push(object);
                }
            },
            EntryKind::Tree => {
                proof {
                    assert(next(root).contains(hash@));
                    reaches_further(next, root, root, hash@, None);
                    lemma_fewer_unseen(m, t0.push(root), t1);
                }
                match collect_tree_recursive(store, &hash, trees, blobs, objects) {
                    Ok(_) => {},
                    Err(e) => {
                        proof {
                            lemma_fault_above(m, root, hash@, e);
                        }
                        return Err(e);
                    },
                }
                proof {
                    let t2 = id_views(trees@);
                    let b2 = id_views(blobs@);
                    assert forall|k: int| t1.len() <= k < t2.len() implies has_tree(
                        m,
                        root,
                        #[trigger] t2[k],
                    ) by {
                        reaches_on(next, root, hash@, t2[k], None);
                    }
                    assert forall|k: int| b1.len() <= k < b2.len() implies has_blob(
                        m,
                        root,
                        #[trigger] b2[k],
                    ) by {
                        lemma_below_above(m, root, hash@, (ObjectType::Blob, b2[k]));
                    }
                }
            },
        }
        proof {
            let t2 = id_views(trees@);
            let b2 = id_views(blobs@);
            lemma_prefix(t1, t2);
            lemma_prefix(b1, b2);
            assert(t0.push(root).is_prefix_of(t2)) by {
                assert(t2.subrange(0, t0.len() as int + 1) =~= t1.subrange(0, t0.len() as int + 1));
            }
            assert forall|k: int| t0.len() < k < t2.len() implies has_tree(
                m,
                root,
                #[trigger] t2[k],
            ) && is_closed(m, t2[k], t2, b2) by {
                if k < t1.len() {
                    assert(t2[k] == t1[k]);
                    lemma_closed_grows(m, t1[k], t1, b1, t2, b2);
                }
            }
            assert forall|k: int| b0.len() <= k < b2.len() implies has_blob(
                m,
                root,
                #[trigger] b2[k],
            ) by {
                if k < b1.len() {
                    assert(b2[k] == b1[k]);
                }
            }
        }
        i += 1;
    }
    proof {
        let t1 = id_views(trees@);
        let b1 = id_views(blobs@);
        assert(t1[t0.len() as int] == root) by {
            assert(t0.push(root)[t0.len() as int] == root);
        }
        assert(is_closed(m, root, t1, b1));
        assert(t0.is_prefix_of(t1)) by {
            assert(t1.subrange(0, t0.len() as int) =~= t0);
        }
    }
    Ok(())
}

/// More trees seen, fewer left.
pub proof fn lemma_fewer_unseen(m: Objects, a: Seq<Seq<u8>>, b: Seq<Seq<u8>>)
    requires
        m.dom().finite(),
        a.is_prefix_of(b),
    ensures
        unseen(m, ObjectType::Tree, b).len() <= unseen(m, ObjectType::Tree, a).len(),
{
    lemma_prefix(a, b);
    let x = unseen(m, ObjectType::Tree, a);
    vstd::set_lib::lemma_len_subset(x, m.dom());
    assert(unseen(m, ObjectType::Tree, b).subset_of(x));
    vstd::set_lib::lemma_len_subset(unseen(m, ObjectType::Tree, b), x);
}

/// The trees of commits.
pub open spec fn roots_of(v: Seq<CommitData>) -> Seq<Seq<u8>> {
    Seq::new(v.len(), |i: int| v[i].tree_hash@)
}

/// Whether everything at or below these trees can be read.
pub open spec fn all_readable(m: Objects, roots: Seq<Seq<u8>>) -> bool {
    forall|k: (ObjectType, Seq<u8>)| #[trigger]
        is_below(m, roots, k) ==> m.contains_key(k) && (k.0 == ObjectType::Tree ==> tree_refs(
            m[k],
        ) is Ok)
}

/// Whether these are the objects of commits: the commits, and then the trees and
/// blobs below them, each once.
pub open spec fn are_objects_of(m: Objects, commits: Seq<CommitData>, v: Seq<StoredObject>) -> bool {
    let n = commits.len() as int;
    let rest = v.subrange(n, v.len() as int);
    &&& n <= v.len()
    &&& forall|i: int|
        0 <= i < n ==> (#[trigger] v[i]).kind == ObjectType::Commit && v[i].hash == commits[i].hash
            && v[i].data@ == commits[i].bytes@
    &&& are_stored(m, rest)
    &&& keys_of(rest).no_duplicates()
    &&& forall|k: (ObjectType, Seq<u8>)| #[trigger]
        keys_of(rest).contains(k) <==> is_below(m, roots_of(commits), k)
}

/// Whether this is what is wrong with an object at or below one of the trees.
pub open spec fn is_fault_below(m: Objects, roots: Seq<Seq<u8>>, e: GatherError) -> bool {
    exists|i: int| 0 <= i < roots.len() && is_fault_of(m, #[trigger] roots[i], e)
}

/// The objects of commits: the commits, and then the trees and blobs below them,
/// each once. It fails where one of them is missing or damaged, and only then.
pub fn collect_objects_from_commits(store: &ObjectStore, commits: &Vec<CommitData>) -> (r: Result<
    Vec<StoredObject>,
    GatherError,
>)
    requires
        store.wf(),
    ensures
        match r {
            Ok(v) => are_objects_of(store@, commits@, v@) && all_readable(
                store@,
                roots_of(commits@),
            ),
            Err(e) => is_fault_below(store@, roots_of(commits@), e),
        },
{
    let ghost m = store@;
    let ghost roots = roots_of(commits@);
    let ghost next = subtrees_of(m);
    let mut objects: Vec<StoredObject> = Vec::new();
    let mut rest: Vec<StoredObject> = Vec::new();
    let mut trees: Vec<ObjectId> = Vec::new();
    let mut blobs: Vec<ObjectId> = Vec::new();
    let mut i: usize = 0;
    while i < commits.len()
        invariant
            i <= commits.len(),
            objects@.len() == i,
            forall|j: int|
                0 <= j < i ==> (#[trigger] objects@[j]).kind == ObjectType::Commit
                    && objects@[j].hash == commits@[j].hash && objects@[j].data@
                    == commits@[j].bytes@,
        decreases commits.len() - i,
    {
        let data = commits[i].bytes.clone();
        objects.push(StoredObject { kind: ObjectType::Commit, hash: commits[i].hash, data });
        i += 1;
    }
    i = 0;
    proof {
        lemma_finitely_many(store.objects@);
        assert(gathered(m, rest@, id_views(trees@), id_views(blobs@)));
    }
    while i < commits.len()
        invariant
            i <= commits.len(),
            store.wf(),
            m == store@,
            m.dom().finite(),
            roots == roots_of(commits@),
            next == subtrees_of(m),
            gathered(m, rest@, id_views(trees@), id_views(blobs@)),
            forall|j: int| 0 <= j < i ==> id_views(trees@).contains(#[trigger] roots[j]),
            forall|k: int|
                0 <= k < trees@.len() ==> is_below(
                    m,
                    roots,
                    (ObjectType::Tree, #[trigger] id_views(trees@)[k]),
                ) && is_closed(m, id_views(trees@)[k], id_views(trees@), id_views(blobs@)),
            forall|k: int|
                0 <= k < blobs@.len() ==> is_below(
                    m,
                    roots,
                    (ObjectType::Blob, #[trigger] id_views(blobs@)[k]),
                ),
        decreases commits.len() - i,
    {
        let ghost t0 = id_views(trees@);
        let ghost b0 = id_views(blobs@);
        let tree: ObjectId = commits[i].tree_hash;
        assert(roots[i as int] == tree@);
        match collect_tree_recursive(store, &tree, &mut trees, &mut blobs, &mut rest) {
            Ok(_) => {},
            Err(e) => {
                assert(is_fault_of(m, roots[i as int], e));
                return Err(e);
            },
        }
        proof {
            let t1 = id_views(trees@);
            let b1 = id_views(blobs@);
            lemma_prefix(t0, t1);
            assert forall|k: int| 0 <= k < t1.len() implies is_below(
                m,
                roots,
                (ObjectType::Tree, #[trigger] t1[k]),
            ) && is_closed(m, t1[k], t1, b1) by {
                if k < t0.len() {
                    assert(t1[k] == t0[k]);
                    lemma_closed_grows(m, t0[k], t0, b0, t1, b1);
                } else {
                    assert(below_one(m, roots[i as int], (ObjectType::Tree, t1[k])));
                }
            }
            assert forall|k: int| 0 <= k < b1.len() implies is_below(
                m,
                roots,
                (ObjectType::Blob, #[trigger] b1[k]),
            ) by {
                if k < b0.len() {
                    assert(b1[k] == b0[k]);
                } else {
                    assert(below_one(m, roots[i as int], (ObjectType::Blob, b1[k])));
                }
            }
        }
        i += 1;
    }
    let ghost found = rest@;
    proof {
        lemma_gathered_all(m, roots, found, id_views(trees@), id_views(blobs@));
    }
    let ghost n = objects@.len() as int;
    objects.append(&mut rest);
    assert(objects@.subrange(n, objects@.len() as int) =~= found);
    Ok(objects)
}

/// Where the roots are gathered and every gathered tree is closed, everything
/// below the roots is gathered.
proof fn lemma_gathered_all(
    m: Objects,
    roots: Seq<Seq<u8>>,
    v: Seq<StoredObject>,
    trees: Seq<Seq<u8>>,
    blobs: Seq<Seq<u8>>,
)
    requires
        gathered(m, v, trees, blobs),
        forall|j: int| 0 <= j < roots.len() ==> trees.contains(#[trigger] roots[j]),
        forall|k: int|
            0 <= k < trees.len() ==> is_below(m, roots, (ObjectType::Tree, #[trigger] trees[k]))
                && is_closed(m, trees[k], trees, blobs),
        forall|k: int|
            0 <= k < blobs.len() ==> is_below(m, roots, (ObjectType::Blob, #[trigger] blobs[k])),
    ensures
        forall|k: (ObjectType, Seq<u8>)| #[trigger]
            keys_of(v).contains(k) <==> is_below(m, roots, k),
        all_readable(m, roots),
{
    let next = subtrees_of(m);
    let s = Set::new(|h: Seq<u8>| trees.contains(h));
    assert forall|x: Seq<u8>, y: Seq<u8>|
        s.contains(x) && #[trigger] next(x).contains(y) implies s.contains(y) by {
        let k = choose|k: int| 0 <= k < trees.len() && trees[k] == x;
        assert(is_closed(m, trees[k], trees, blobs));
        lemma_of_kind(refs_at(m, x), EntryKind::Tree);
        let i = choose|i: int|
            0 <= i < refs_at(m, x).len() && #[trigger] refs_at(m, x)[i] == (EntryKind::Tree, y);
        assert(refs_at(m, x)[i].0 == EntryKind::Tree);
    }
    assert forall|k: (ObjectType, Seq<u8>)| #[trigger]
        keys_of(v).contains(k) <==> is_below(m, roots, k) by {
        if is_below(m, roots, k) {
            let i = choose|i: int| 0 <= i < roots.len() && below_one(m, #[trigger] roots[i], k);
            reached_inside(next, roots[i], None, s);
            if k.0 == ObjectType::Tree {
                assert(reaches(next, roots[i], k.1, None));
                assert(s.contains(k.1));
            } else {
                let t = choose|t: Seq<u8>| #[trigger]
                    has_tree(m, roots[i], t) && holds_blob(m, t, k.1);
                assert(reaches(next, roots[i], t, None));
                assert(s.contains(t));
                let j = choose|j: int| 0 <= j < trees.len() && trees[j] == t;
                assert(is_closed(m, trees[j], trees, blobs));
                lemma_of_kind(refs_at(m, t), EntryKind::File);
                let x = choose|x: int|
                    0 <= x < refs_at(m, t).len() && #[trigger] refs_at(m, t)[x] == (
                        EntryKind::File,
                        k.1,
                    );
                assert(refs_at(m, t)[x].0 == EntryKind::File);
            }
        }
        if keys_of(v).contains(k) {
            if k.0 == ObjectType::Tree {
                let j = choose|j: int| 0 <= j < trees.len() && trees[j] == k.1;
                assert(is_below(m, roots, (ObjectType::Tree, trees[j])));
            } else {
                let j = choose|j: int| 0 <= j < blobs.len() && blobs[j] == k.1;
                assert(is_below(m, roots, (ObjectType::Blob, blobs[j])));
            }
        }
    }
    assert forall|k: (ObjectType, Seq<u8>)| #[trigger] is_below(m, roots, k) implies m.contains_key(
        k,
    ) && (k.0 == ObjectType::Tree ==> tree_refs(m[k]) is Ok) by {
        assert(keys_of(v).contains(k));
        let i = choose|i: int| 0 <= i < keys_of(v).len() && keys_of(v)[i] == k;
        assert(object_key(v[i]) == k);
        if k.0 == ObjectType::Tree {
            let j = choose|j: int| 0 <= j < trees.len() && trees[j] == k.1;
            assert(is_closed(m, trees[j], trees, blobs));
        }
    }
}

/// What stands below a tree that stands below the roots stands below the roots:
/// whoever receives the objects of commits can read every file of them.
pub proof fn objects_are_complete(
    m: Objects,
    roots: Seq<Seq<u8>>,
    t: Seq<u8>,
    i: int,
)
    requires
        is_below(m, roots, (ObjectType::Tree, t)),
        0 <= i < refs_at(m, t).len(),
    ensures
        is_below(
            m,
            roots,
            (
                match refs_at(m, t)[i].0 {
                    EntryKind::Tree => ObjectType::Tree,
                    EntryKind::File => ObjectType::Blob,
                },
                refs_at(m, t)[i].1,
            ),
        ),
{
    let j = choose|j: int|
        0 <= j < roots.len() && below_one(m, #[trigger] roots[j], (ObjectType::Tree, t));
    let (kind, h) = refs_at(m, t)[i];
    lemma_of_kind(refs_at(m, t), kind);
    assert(refs_at(m, t)[i] == (kind, h));
    match kind {
        EntryKind::Tree => {
            let next = subtrees_of(m);
            assert(next(t).contains(h));
            reaches_further(next, roots[j], t, h, None);
            assert(below_one(m, roots[j], (ObjectType::Tree, h)));
        },
        EntryKind::File => {
            assert(holds_blob(m, t, h));
            assert(has_tree(m, roots[j], t));
            assert(below_one(m, roots[j], (ObjectType::Blob, h)));
        },
    }
}

} // verus!
