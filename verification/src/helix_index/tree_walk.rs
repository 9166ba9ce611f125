//! Reading the files of a stored tree and all trees below it.
use vstd::prelude::*;
use vstd::string::*;

use crate::hash::ObjectId;
use crate::helix_index::tree::{parse_tree, EntryType, FileView, Tree, TreeEntryView, TreeError};
use crate::object_store::{ObjectStore, ObjectType, Objects};
use crate::path::{join, join_spec};
use crate::text_map::TextMap;

verus! {

/// A file that a tree holds, by its path below the tree.
#[derive(Debug)]
pub struct TreeFile {
    pub path: String,
    pub oid: ObjectId,
    pub mode: u32,
    pub size: u64,
}

impl View for TreeFile {
    type V = FileView;

    open spec fn view(&self) -> FileView {
        FileView { path: self.path@, oid: self.oid@, mode: self.mode, size: self.size }
    }
}

pub open spec fn tree_file_views(v: Seq<TreeFile>) -> Seq<FileView> {
    Seq::new(v.len(), |i: int| v[i]@)
}

/// Why the files of a tree cannot be read.
#[derive(Debug, Clone, Copy, PartialEq, Eq)]
pub enum WalkError {
    /// A tree is not in the store.
    Missing(ObjectId),
    /// The bytes of a tree are damaged.
    Damaged(TreeError),
}

/// A walk error, with the hash as bytes.
pub enum WalkFault {
    Missing(Seq<u8>),
    Damaged(TreeError),
}

impl View for WalkError {
    type V = WalkFault;

    open spec fn view(&self) -> WalkFault {
        match *self {
            WalkError::Missing(h) => WalkFault::Missing(h@),
            WalkError::Damaged(e) => WalkFault::Damaged(e),
        }
    }
}

/// The entries of a stored tree.
pub open spec fn tree_at(m: Objects, id: Seq<u8>) -> Result<Seq<TreeEntryView>, WalkFault> {
    if m.contains_key((ObjectType::Tree, id)) {
        match parse_tree(m[(ObjectType::Tree, id)]) {
            Ok(es) => Ok(es),
            Err(e) => Err(WalkFault::Damaged(e)),
        }
    } else {
        Err(WalkFault::Missing(id))
    }
}

/// Whether no chain of subdirectories from this tree on is longer than `d`.
pub open spec fn within(m: Objects, id: Seq<u8>, d: nat) -> bool
    decreases d,
{
    d > 0 && (tree_at(m, id) matches Ok(es) ==> forall|i: int|
        0 <= i < es.len() && (#[trigger] es[i]).entry_type == EntryType::Tree ==> within(
            m,
            es[i].oid,
            (d - 1) as nat,
        ))
}

/// Whether the subdirectories below a tree end somewhere. A store whose hashes
/// are those of its objects has no tree that contains itself.
pub open spec fn grounded(m: Objects, id: Seq<u8>) -> bool {
    exists|d: nat| within(m, id, d)
}

/// The files of a stored tree and of the trees below it, at most `d` deep, in
/// the order of the entries.
pub open spec fn files_to(m: Objects, id: Seq<u8>, prefix: Seq<char>, d: nat) -> Result<
    Seq<FileView>,
    WalkFault,
>
    decreases d, 1nat, 0nat,
{
    match tree_at(m, id) {
        Err(e) => Err(e),
        Ok(es) => if d == 0 {
            Ok(Seq::empty())
        } else {
            entry_files_to(m, es, prefix, d)
        },
    }
}

/// The files of the entries of a tree, at most `d` deep.
pub open spec fn entry_files_to(
    m: Objects,
    es: Seq<TreeEntryView>,
    prefix: Seq<char>,
    d: nat,
) -> Result<Seq<FileView>, WalkFault>
    decreases d, 0nat, es.len(),
    when d > 0
{
    if es.len() == 0 {
        Ok(Seq::empty())
    } else {
        match entry_files_to(m, es.drop_last(), prefix, d) {
            Err(e) => Err(e),
            Ok(before) => {
                let e = es.last();
                let path = join_spec(prefix, e.name);
                if e.entry_type == EntryType::Tree {
                    match files_to(m, e.oid, path, (d - 1) as nat) {
                        Err(f) => Err(f),
                        Ok(fs) => Ok(before + fs),
                    }
                } else {
                    Ok(before.push(FileView { path, oid: e.oid, mode: e.mode, size: e.size }))
                }
            },
        }
    }
}

/// A depth that no chain of subdirectories exceeds.
pub open spec fn depth_of(m: Objects, id: Seq<u8>) -> nat {
    choose|d: nat| within(m, id, d)
}

/// The files of a stored tree and of all trees below it.
pub open spec fn tree_files(m: Objects, id: Seq<u8>) -> Result<Seq<FileView>, WalkFault> {
    files_to(m, id, Seq::empty(), depth_of(m, id))
}

/// A larger bound on the depth changes nothing.
pub proof fn lemma_files_to_stable(m: Objects, id: Seq<u8>, prefix: Seq<char>, d: nat, e: nat)
    requires
        within(m, id, d),
        within(m, id, e),
    ensures
        files_to(m, id, prefix, d) == files_to(m, id, prefix, e),
    decreases d, 1nat, 0nat,
{
    if let Ok(es) = tree_at(m, id) {
        lemma_entry_files_stable(m, es, prefix, d, e);
    }
}

proof fn lemma_entry_files_stable(
    m: Objects,
    es: Seq<TreeEntryView>,
    prefix: Seq<char>,
    d: nat,
    e: nat,
)
    requires
        d > 0,
        e > 0,
        forall|i: int|
            0 <= i < es.len() && (#[trigger] es[i]).entry_type == EntryType::Tree ==> within(
                m,
                es[i].oid,
                (d - 1) as nat,
            ) && within(m, es[i].oid, (e - 1) as nat),
    ensures
        entry_files_to(m, es, prefix, d) == entry_files_to(m, es, prefix, e),
    decreases d, 0nat, es.len(),
{
    if es.len() > 0 {
        let t = es.drop_last();
        assert forall|i: int|
            0 <= i < t.len() && (#[trigger] t[i]).entry_type == EntryType::Tree implies within(
            m,
            t[i].oid,
            (d - 1) as nat,
        ) && within(m, t[i].oid, (e - 1) as nat) by {
            assert(t[i] == es[i]);
        }
        lemma_entry_files_stable(m, t, prefix, d, e);
        let x = es.last();
        if x.entry_type == EntryType::Tree {
            assert(es[es.len() - 1] == x);
            lemma_files_to_stable(
                m,
                x.oid,
                join_spec(prefix, x.name),
                (d - 1) as nat,
                (e - 1) as nat,
            );
        }
    }
}

/// Whether the result `r` of a walk that had `old` files is `spec`.
pub open spec fn walk_result(
    r: Result<(), WalkError>,
    spec: Result<Seq<FileView>, WalkFault>,
    old: Seq<FileView>,
    new: Seq<FileView>,
) -> bool {
    match spec {
        Ok(fs) => r is Ok && new == old + fs,
        Err(f) => r matches Err(e) && e@ == f,
    }
}

/// Adds the files of a stored tree and of all trees below it to `out`.
fn walk_tree(
    store: &ObjectStore,
    id: &ObjectId,
    prefix: &str,
    out: &mut Vec<TreeFile>,
    Ghost(d): Ghost<nat>,
) -> (r: Result<(), WalkError>)
    requires
        store.wf(),
        within(store@, id@, d),
    ensures
        walk_result(
            r,
            files_to(store@, id@, prefix@, d),
            tree_file_views(old(out)@),
            tree_file_views(final(out)@),
        ),
    decreases d,
{
    let data = match store.read_object(ObjectType::Tree, id) {
        Some(data) => data,
        None => return Err(WalkError::Missing(*id)),
    };
    let tree: Tree = match Tree::from_bytes(data.as_slice()) {
        Ok(t) => t,
        Err(e) => return Err(WalkError::Damaged(e)),
    };
    let ghost es = tree@;
    let ghost start = tree_file_views(out@);
    let mut i: usize = 0;
    proof {
        assert(es.subrange(0, 0) =~= Seq::empty());
        assert(start + Seq::<FileView>::empty() =~= start);
    }
    while i < tree.entries.len()
        invariant
            i <= tree.entries.len(),
            store.wf(),
            d > 0,
            es == tree@,
            tree_at(store@, id@) == Ok::<Seq<TreeEntryView>, WalkFault>(es),
            within(store@, id@, d),
            start == tree_file_views(old(out)@),
            walk_result(
                Ok(()),
                entry_files_to(store@, es.subrange(0, i as int), prefix@, d),
                start,
                tree_file_views(out@),
            ),
        decreases tree.entries.len() - i,
    {
        let e = &tree.entries[i];
        let ghost t = es.subrange(0, i + 1);
        proof {
            assert(t.drop_last() =~= es.subrange(0, i as int));
            assert(t.last() == es[i as int]);
            assert(es[i as int] == e@);
        }
        let path: String = join(prefix, e.name.as_str());
        let ghost before = tree_file_views(out@);
        if e.entry_type == EntryType::Tree {
            match walk_tree(store, &e.oid, path.as_str(), out, Ghost((d - 1) as nat)) {
                Ok(()) => {
                    proof {
                        let a = entry_files_to(store@, es.subrange(0, i as int), prefix@, d);
                        let b = files_to(store@, e.oid@, path@, (d - 1) as nat);
                        assert(start + (a->Ok_0 + b->Ok_0) =~= (start + a->Ok_0) + b->Ok_0);
                    }
                },
                Err(f) => {
                    proof {
                        lemma_entry_files_fail(store@, es, prefix@, d, i + 1);
                    }
                    return Err(f);
                },
            }
        } else {
            let file = TreeFile { path, oid: e.oid, mode: e.mode, size: e.size };
            out.push(file);
            proof {
                let a = entry_files_to(store@, es.subrange(0, i as int), prefix@, d)->Ok_0;
                assert(tree_file_views(out@) =~= before.push(file@));
                assert(start + a.push(file@) =~= (start + a).push(file@));
            }
        }
        i += 1;
    }
    assert(es.subrange(0, i as int) =~= es);
    Ok(())
}

/// A failure among the first entries is the failure of them all.
proof fn lemma_entry_files_fail(
    m: Objects,
    es: Seq<TreeEntryView>,
    prefix: Seq<char>,
    d: nat,
    i: int,
)
    requires
        d > 0,
        0 <= i <= es.len(),
        entry_files_to(m, es.subrange(0, i), prefix, d) is Err,
    ensures
        entry_files_to(m, es, prefix, d) == entry_files_to(m, es.subrange(0, i), prefix, d),
    decreases es.len(),
{
    if i == es.len() {
        assert(es.subrange(0, i) =~= es);
    } else {
        let t = es.drop_last();
        assert(t.subrange(0, i) =~= es.subrange(0, i));
        lemma_entry_files_fail(m, t, prefix, d, i);
    }
}

/// The files of a stored tree and of all trees below it.
pub fn collect_tree_files(store: &ObjectStore, id: &ObjectId) -> (r: Result<
    Vec<TreeFile>,
    WalkError,
>)
    requires
        store.wf(),
        grounded(store@, id@),
    ensures
        match tree_files(store@, id@) {
            Ok(fs) => r matches Ok(v) && tree_file_views(v@) == fs,
            Err(f) => r matches Err(e) && e@ == f,
        },
{
    let mut out: Vec<TreeFile> = Vec::new();
    let ghost d = depth_of(store@, id@);
    proof {
        assert(tree_file_views(out@) =~= Seq::empty());
        assert(within(store@, id@, d));
    }
    match walk_tree(store, id, "", &mut out, Ghost(d)) {
        Ok(()) => {
            proof {
                reveal_strlit("");
                assert(""@ =~= Seq::<char>::empty());
                let fs = tree_files(store@, id@)->Ok_0;
                assert(Seq::<FileView>::empty() + fs =~= fs);
            }
            Ok(out)
        },
        Err(e) => {
            proof {
                reveal_strlit("");
                assert(""@ =~= Seq::<char>::empty());
            }
            Err(e)
        },
    }
}

/// The files by their path; the last of two with one path counts.
pub open spec fn file_map(fs: Seq<FileView>) -> Map<Seq<char>, Seq<u8>>
    decreases fs.len(),
{
    if fs.len() == 0 {
        Map::empty()
    } else {
        file_map(fs.drop_last()).insert(fs.last().path, fs.last().oid)
    }
}

/// Hashes in a map, as bytes.
pub open spec fn id_values(m: Map<Seq<char>, ObjectId>) -> Map<Seq<char>, Seq<u8>> {
    m.map_values(|h: ObjectId| h@)
}

/// The files of a stored tree and of all trees below it, by their path.
pub fn collect_all_files(store: &ObjectStore, id: &ObjectId) -> (r: Result<
    TextMap<ObjectId>,
    WalkError,
>)
    requires
        store.wf(),
        grounded(store@, id@),
    ensures
        match tree_files(store@, id@) {
            Ok(fs) => r matches Ok(m) && m.wf() && id_values(m@) == file_map(fs),
            Err(f) => r matches Err(e) && e@ == f,
        },
{
    let files = match collect_tree_files(store, id) {
        Ok(files) => files,
        Err(e) => return Err(e),
    };
    let mut m: TextMap<ObjectId> = TextMap::new();
    let ghost fs = tree_file_views(files@);
    let mut i: usize = 0;
    assert(id_values(m@) =~= file_map(fs.subrange(0, 0)));
    while i < files.len()
        invariant
            i <= files.len(),
            m.wf(),
            fs == tree_file_views(files@),
            id_values(m@) == file_map(fs.subrange(0, i as int)),
        decreases files.len() - i,
    {
        let ghost before = m@;
        m.insert(files[i].path.clone(), files[i].oid);
        proof {
            let t = fs.subrange(0, i + 1);
            assert(t.drop_last() =~= fs.subrange(0, i as int));
            assert(t.last() == files@[i as int]@);
            assert(id_values(m@) =~= id_values(before).insert(
                files@[i as int].path@,
                files@[i as int].oid@,
            ));
        }
        i += 1;
    }
    assert(fs.subrange(0, i as int) =~= fs);
    Ok(m)
}

} // verus!
