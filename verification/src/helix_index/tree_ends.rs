//! Finding the trees of a store that contain themselves.
use vstd::prelude::*;

use crate::hash::ObjectId;
use crate::helix_index::commit::id_views;
use crate::helix_index::tree::{EntryType, Tree, TreeEntryView};
use crate::helix_index::tree_walk::{grounded, tree_at, within, WalkFault};
use crate::object_store::{ObjectStore, ObjectType, Objects};
use crate::reach::has_id;

verus! {

/// Whether the subdirectories below every tree end somewhere.
pub open spec fn all_grounded(m: Objects) -> bool {
    forall|id: Seq<u8>| #[trigger] grounded(m, id)
}

/// Whether the entry is a subdirectory with one of these hashes.
spec fn leads_into(e: TreeEntryView, ids: Seq<Seq<u8>>) -> bool {
    e.entry_type == EntryType::Tree && ids.contains(e.oid)
}

/// Whether a tree has a subdirectory with one of these hashes.
spec fn is_stuck(m: Objects, id: Seq<u8>, ids: Seq<Seq<u8>>) -> bool {
    tree_at(m, id) matches Ok(es) && exists|i: int|
        0 <= i < es.len() && #[trigger] leads_into(es[i], ids)
}

/// A chain that is no longer than one bound is no longer than a larger one.
proof fn lemma_within_more(m: Objects, id: Seq<u8>, d: nat, e: nat)
    requires
        within(m, id, d),
        d <= e,
    ensures
        within(m, id, e),
    decreases d,
{
    if let Ok(es) = tree_at(m, id) {
        assert forall|i: int|
            0 <= i < es.len() && (#[trigger] es[i]).entry_type == EntryType::Tree implies within(
            m,
            es[i].oid,
            (e - 1) as nat,
        ) by {
            lemma_within_more(m, es[i].oid, (d - 1) as nat, (e - 1) as nat);
        }
    }
}

/// Finitely many subdirectories that end somewhere have a common bound.
proof fn lemma_common_bound(m: Objects, es: Seq<TreeEntryView>) -> (d: nat)
    requires
        forall|i: int|
            0 <= i < es.len() && (#[trigger] es[i]).entry_type == EntryType::Tree ==> grounded(
                m,
                es[i].oid,
            ),
    ensures
        forall|i: int|
            0 <= i < es.len() && (#[trigger] es[i]).entry_type == EntryType::Tree ==> within(
                m,
                es[i].oid,
                d,
            ),
    decreases es.len(),
{
    if es.len() == 0 {
        0
    } else {
        let t = es.drop_last();
        assert forall|i: int|
            0 <= i < t.len() && (#[trigger] t[i]).entry_type == EntryType::Tree implies grounded(
            m,
            t[i].oid,
        ) by {
            assert(t[i] == es[i]);
        }
        let a = lemma_common_bound(m, t);
        let x = es.last();
        assert(es[es.len() - 1] == x);
        let b = if x.entry_type == EntryType::Tree {
            choose|b: nat| within(m, x.oid, b)
        } else {
            0
        };
        let d = a + b;
        assert forall|i: int|
            0 <= i < es.len() && (#[trigger] es[i]).entry_type == EntryType::Tree implies within(
            m,
            es[i].oid,
            d,
        ) by {
            if i < t.len() {
                assert(t[i] == es[i]);
                lemma_within_more(m, es[i].oid, a, d);
            } else {
                lemma_within_more(m, es[i].oid, b, d);
            }
        }
        d
    }
}

/// A tree ends somewhere where no subdirectory leads into what may not.
proof fn lemma_not_stuck(m: Objects, id: Seq<u8>, ids: Seq<Seq<u8>>)
    requires
        !is_stuck(m, id, ids),
        forall|k: Seq<u8>| !ids.contains(k) ==> #[trigger] grounded(m, k),
    ensures
        grounded(m, id),
{
    if let Ok(es) = tree_at(m, id) {
        assert forall|i: int|
            0 <= i < es.len() && (#[trigger] es[i]).entry_type == EntryType::Tree implies grounded(
            m,
            es[i].oid,
        ) by {
            assert(!leads_into(es[i], ids));
        }
        let d = lemma_common_bound(m, es);
        assert(within(m, id, d + 1));
    } else {
        assert(within(m, id, 1));
    }
}

/// Trees that lead into one another have no bound.
proof fn lemma_stuck(m: Objects, id: Seq<u8>, ids: Seq<Seq<u8>>, d: nat)
    requires
        ids.contains(id),
        forall|k: Seq<u8>| ids.contains(k) ==> #[trigger] is_stuck(m, k, ids),
    ensures
        !within(m, id, d),
    decreases d,
{
    if d > 0 {
        assert(is_stuck(m, id, ids));
        let es = tree_at(m, id)->Ok_0;
        let i = choose|i: int| 0 <= i < es.len() && #[trigger] leads_into(es[i], ids);
        lemma_stuck(m, es[i].oid, ids, (d - 1) as nat);
    }
}

/// Whether the stored tree has a subdirectory among `open`.
fn leads_back(store: &ObjectStore, id: &ObjectId, open: &Vec<ObjectId>) -> (r: bool)
    requires
        store.wf(),
    ensures
        r == is_stuck(store@, id@, id_views(open@)),
{
    let data = match store.read_object(ObjectType::Tree, id) {
        Some(data) => data,
        None => return false,
    };
    let tree: Tree = match Tree::from_bytes(data.as_slice()) {
        Ok(t) => t,
        Err(_) => return false,
    };
    let ghost es = tree@;
    let mut i: usize = 0;
    while i < tree.entries.len()
        invariant
            i <= tree.entries.len(),
            es == tree@,
            tree_at(store@, id@) == Ok::<Seq<TreeEntryView>, WalkFault>(es),
            forall|j: int| 0 <= j < i ==> !#[trigger] leads_into(es[j], id_views(open@)),
        decreases tree.entries.len() - i,
    {
        let e = &tree.entries[i];
        assert(es[i as int] == e@);
        if e.entry_type == EntryType::Tree && has_id(open, &e.oid) {
            proof {
                let ids = id_views(open@);
                assert(i < es.len() && leads_into(es[i as int], ids));
                assert(tree_at(store@, id@)->Ok_0 == es);
                assert(exists|k: int| 0 <= k < es.len() && #[trigger] leads_into(es[k], ids));
                assert(is_stuck(store@, id@, ids));
            }
            return true;
        }
        i += 1;
    }
    false
}

/// Whether the subdirectories below every tree of the store end somewhere. Reading
/// the files of a tree that contains itself would never end.
pub fn trees_end(store: &ObjectStore) -> (r: bool)
    requires
        store.wf(),
    ensures
        r == all_grounded(store@),
{
    let mut open: Vec<ObjectId> = store.list_object_hashes(ObjectType::Tree);
    proof {
        assert forall|k: Seq<u8>| !id_views(open@).contains(k) implies #[trigger] grounded(
            store@,
            k,
        ) by {
            if store@.contains_key((ObjectType::Tree, k)) {
                let i = choose|i: int| 0 <= i < open@.len() && (#[trigger] open@[i])@ == k;
                assert(id_views(open@)[i] == k);
            }
            assert(within(store@, k, 1));
        }
    }
    loop
        invariant
            store.wf(),
            forall|k: Seq<u8>| !id_views(open@).contains(k) ==> #[trigger] grounded(store@, k),
        decreases open.len(),
    {
        let mut left: Vec<ObjectId> = Vec::new();
        let mut i: usize = 0;
        while i < open.len()
            invariant
                i <= open.len(),
                store.wf(),
                left.len() <= i,
                forall|k: Seq<u8>| !id_views(open@).contains(k) ==> #[trigger] grounded(store@, k),
                forall|j: int|
                    0 <= j < i && is_stuck(store@, (#[trigger] open@[j])@, id_views(open@))
                        ==> id_views(left@).contains(open@[j]@),
                left.len() == i ==> forall|j: int|
                    0 <= j < i ==> is_stuck(store@, (#[trigger] open@[j])@, id_views(open@)),
            decreases open.len() - i,
        {
            let ghost before = id_views(left@);
            if leads_back(store, &open[i], &open) {
                left.push(open[i]);
                proof {
                    assert(id_views(left@) =~= before.push(open@[i as int]@));
                    assert forall|k: Seq<u8>| before.contains(k) implies id_views(left@).contains(
                        k,
                    ) by {
                        let j = choose|j: int| 0 <= j < before.len() && before[j] == k;
                        assert(id_views(left@)[j] == k);
                    }
                    assert(id_views(left@)[before.len() as int] == open@[i as int]@);
                }
            }
            i += 1;
        }
        if left.len() == open.len() {
            proof {
                let ids = id_views(open@);
                assert forall|k: Seq<u8>| ids.contains(k) implies #[trigger] is_stuck(
                    store@,
                    k,
                    ids,
                ) by {
                    let j = choose|j: int| 0 <= j < ids.len() && ids[j] == k;
                    assert(open@[j]@ == k);
                }
                if ids.len() > 0 {
                    let k = ids[0];
                    assert(ids.contains(k));
                    assert forall|d: nat| !within(store@, k, d) by {
                        lemma_stuck(store@, k, ids, d);
                    }
                    assert(!grounded(store@, k));
                }
            }
            return open.len() == 0;
        }
        proof {
            assert forall|k: Seq<u8>| !id_views(left@).contains(k) implies #[trigger] grounded(
                store@,
                k,
            ) by {
                if id_views(open@).contains(k) {
                    let j = choose|j: int| 0 <= j < open@.len() && id_views(open@)[j] == k;
                    assert(open@[j]@ == k);
                    lemma_not_stuck(store@, k, id_views(open@));
                }
            }
        }
        open = left;
    }
}

} // verus!
