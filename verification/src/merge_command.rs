//! Three-way merge: what changed on either side since the common ancestor, which
//! of these changes conflict, and the merged commit.
use vstd::prelude::*;
use vstd::string::*;
use vstd::utf8::*;

use crate::hash::{blake3_digest, hash_eq, ObjectId};
use crate::helix_index::commit::{commit_bytes, Commit, CommitView};
use crate::helix_index::commit_store::{commit_at, read_commit, ReadError, ReadFault};
use crate::helix_index::format::{entry_views, Entry, EntryFlags};
use crate::helix_index::snapshot_order::snapshot_order_free;
use crate::helix_index::tree::{
    entry_file, entry_files, put_trees, snapshot, tree_id, FileView, TreeBuilder,
};
use crate::helix_index::tree_walk::{
    collect_all_files, file_map, grounded, id_values, tree_files, WalkError, WalkFault,
};
use crate::object_store::{put_object, ObjectStore, ObjectType, Objects};
use crate::text::{str_eq, texts};
use crate::text_map::{lemma_pairs_at, lemma_pairs_from, pairs_map, TextMap};

verus! {

/// The mode of files in a merged tree.
pub const FILE_MODE: u32 = 0o100644;

/// The files of a tree, by path.
pub type FileMap = Map<Seq<char>, ObjectId>;

/// A change between two trees.
#[derive(Debug, Clone)]
pub enum TreeChange {
    Added { path: String, blob_hash: ObjectId, mode: u32 },
    Modified { path: String, old_hash: ObjectId, new_hash: ObjectId, mode: u32 },
    Deleted { path: String, old_hash: ObjectId },
}

/// A change between two trees, with the path as characters.
pub enum ChangeView {
    Added { path: Seq<char>, blob_hash: ObjectId, mode: u32 },
    Modified { path: Seq<char>, old_hash: ObjectId, new_hash: ObjectId, mode: u32 },
    Deleted { path: Seq<char>, old_hash: ObjectId },
}

impl ChangeView {
    pub open spec fn at(self) -> Seq<char> {
        match self {
            ChangeView::Added { path, .. } => path,
            ChangeView::Modified { path, .. } => path,
            ChangeView::Deleted { path, .. } => path,
        }
    }
}

impl View for TreeChange {
    type V = ChangeView;

    open spec fn view(&self) -> ChangeView {
        match *self {
            TreeChange::Added { path, blob_hash, mode } => ChangeView::Added {
                path: path@,
                blob_hash,
                mode,
            },
            TreeChange::Modified { path, old_hash, new_hash, mode } => ChangeView::Modified {
                path: path@,
                old_hash,
                new_hash,
                mode,
            },
            TreeChange::Deleted { path, old_hash } => ChangeView::Deleted {
                path: path@,
                old_hash,
            },
        }
    }
}

/// The file at a path, if there is one.
pub open spec fn file_at(m: FileMap, p: Seq<char>) -> Option<ObjectId> {
    if m.contains_key(p) {
        Some(m[p])
    } else {
        None
    }
}

/// The change at a path between two trees.
pub open spec fn change_at(base: FileMap, other: FileMap, p: Seq<char>) -> Option<ChangeView> {
    match (file_at(base, p), file_at(other, p)) {
        (None, None) => None,
        (None, Some(h)) => Some(ChangeView::Added { path: p, blob_hash: h, mode: FILE_MODE }),
        (Some(b), None) => Some(ChangeView::Deleted { path: p, old_hash: b }),
        (Some(b), Some(h)) => if b == h {
            None
        } else {
            Some(ChangeView::Modified { path: p, old_hash: b, new_hash: h, mode: FILE_MODE })
        },
    }
}

pub open spec fn change_views(v: Seq<TreeChange>) -> Seq<ChangeView> {
    Seq::new(v.len(), |i: int| v[i]@)
}

/// No two changes are at one path.
pub open spec fn distinct_changes(cs: Seq<ChangeView>) -> bool {
    forall|i: int, j: int|
        0 <= i < j < cs.len() ==> (#[trigger] cs[i]).at() != (#[trigger] cs[j]).at()
}

/// Whether `cs` are the changes between two trees, each once.
pub open spec fn is_diff(cs: Seq<ChangeView>, base: FileMap, other: FileMap) -> bool {
    &&& distinct_changes(cs)
    &&& forall|c: ChangeView| #[trigger]
        cs.contains(c) <==> change_at(base, other, c.at()) == Some(c)
}

impl TreeChange {
    /// The path of the change.
    pub fn path(&self) -> (r: &String)
        ensures
            r@ == self@.at(),
    {
        match self {
            TreeChange::Added { path, .. } => path,
            TreeChange::Modified { path, .. } => path,
            TreeChange::Deleted { path, .. } => path,
        }
    }

    /// A copy of the change.
    pub fn duplicate(&self) -> (r: TreeChange)
        ensures
            r@ == self@,
    {
        match self {
            TreeChange::Added { path, blob_hash, mode } => TreeChange::Added {
                path: path.clone(),
                blob_hash: *blob_hash,
                mode: *mode,
            },
            TreeChange::Modified { path, old_hash, new_hash, mode } => TreeChange::Modified {
                path: path.clone(),
                old_hash: *old_hash,
                new_hash: *new_hash,
                mode: *mode,
            },
            TreeChange::Deleted { path, old_hash } => TreeChange::Deleted {
                path: path.clone(),
                old_hash: *old_hash,
            },
        }
    }
}

/// The changes between two trees.
#[derive(Debug)]
pub struct TreeDiff {
    pub changes: Vec<TreeChange>,
}

impl Default for TreeDiff {
    /// No changes.
    fn default() -> (d: TreeDiff)
        ensures
            d.changes@.len() == 0,
    {
        TreeDiff { changes: Vec::new() }
    }
}

impl TreeDiff {
    pub fn is_empty(&self) -> (r: bool)
        ensures
            r == (self.changes@.len() == 0),
    {
        self.changes.len() == 0
    }

    pub fn len(&self) -> (r: usize)
        ensures
            r == self.changes@.len(),
    {
        self.changes.len()
    }

    /// The paths that were changed, each once.
    pub fn changed_paths(&self) -> (r: Vec<String>)
        ensures
            texts(r@).no_duplicates(),
            forall|x: Seq<char>| #[trigger]
                texts(r@).contains(x) <==> exists|i: int|
                    0 <= i < self.changes@.len() && (#[trigger] self.changes@[i])@.at() == x,
    {
        let mut r: Vec<String> = Vec::new();
        add_paths(&mut r, &self.changes);
        r
    }
}

/// Adds the paths of the changes that are not there yet.
fn add_paths(r: &mut Vec<String>, changes: &Vec<TreeChange>)
    requires
        texts(old(r)@).no_duplicates(),
    ensures
        texts(final(r)@).no_duplicates(),
        forall|x: Seq<char>| #[trigger]
            texts(final(r)@).contains(x) <==> texts(old(r)@).contains(x) || exists|i: int|
                0 <= i < changes@.len() && (#[trigger] changes@[i])@.at() == x,
{
    let ghost start = texts(r@);
    let mut i: usize = 0;
    while i < changes.len()
        invariant
            i <= changes.len(),
            start == texts(old(r)@),
            texts(r@).no_duplicates(),
            forall|x: Seq<char>| #[trigger]
                texts(r@).contains(x) <==> start.contains(x) || exists|j: int|
                    0 <= j < i && (#[trigger] changes@[j])@.at() == x,
        decreases changes.len() - i,
    {
        let ghost before = texts(r@);
        let p = changes[i].path();
        if !crate::text::has_text(r, p.as_str()) {
            r.push(p.clone());
            assert(texts(r@) =~= before.push(p@));
        }
        proof {
            assert forall|x: Seq<char>| #[trigger]
                texts(r@).contains(x) <==> start.contains(x) || exists|j: int|
                0 <= j < i + 1 && (#[trigger] changes@[j])@.at() == x by {
                if before.contains(x) {
                    let n = choose|n: int| 0 <= n < before.len() && before[n] == x;
                    assert(texts(r@)[n] == x);
                    if !start.contains(x) {
                        let j = choose|j: int| 0 <= j < i && (#[trigger] changes@[j])@.at() == x;
                        assert(changes@[j]@.at() == x);
                    }
                }
                if x == p@ {
                    assert(changes@[i as int]@.at() == x);
                    if !before.contains(x) {
                        assert(texts(r@)[before.len() as int] == x);
                    }
                }
                if texts(r@).contains(x) && !before.contains(x) {
                    assert(x == p@);
                }
            }
        }
        i += 1;
    }
}

/// What the two maps of files say of each key is what their pairs say.
proof fn lemma_file_at<V>(m: TextMap<V>, i: int)
    requires
        m.wf(),
        0 <= i < m.items@.len(),
    ensures
        m@.contains_key(m.items@[i].0@),
        m@[m.items@[i].0@] == m.items@[i].1,
{
    lemma_pairs_at(m.items@, i);
}

/// The changes from one map of files to another.
pub fn diff_files(base: &TextMap<ObjectId>, other: &TextMap<ObjectId>) -> (r: TreeDiff)
    requires
        base.wf(),
        other.wf(),
    ensures
        is_diff(change_views(r.changes@), base@, other@),
{
    let mut changes: Vec<TreeChange> = Vec::new();
    let mut i: usize = 0;
    while i < other.items.len()
        invariant
            i <= other.items.len(),
            base.wf(),
            other.wf(),
            distinct_changes(change_views(changes@)),
            forall|k: int|
                0 <= k < changes@.len() ==> exists|j: int|
                    0 <= j < i && (#[trigger] other.items@[j]).0@ == (
                    #[trigger] change_views(changes@)[k]).at(),
            forall|k: int|
                0 <= k < changes@.len() ==> change_at(
                    base@,
                    other@,
                    (#[trigger] change_views(changes@)[k]).at(),
                ) == Some(change_views(changes@)[k]),
            forall|j: int|
                0 <= j < i ==> (change_at(base@, other@, (#[trigger] other.items@[j]).0@)
                    matches Some(c) ==> change_views(changes@).contains(c)),
        decreases other.items.len() - i,
    {
        let ghost before = change_views(changes@);
        let path = &other.items[i].0;
        let hash: ObjectId = other.items[i].1;
        proof {
            lemma_file_at(*other, i as int);
        }
        match base.get(path.as_str()) {
            None => {
                changes.push(
                    TreeChange::Added { path: path.clone(), blob_hash: hash, mode: FILE_MODE },
                );
            },
            Some(old) => {
                if !hash_eq(old, &hash) {
                    changes.push(
                        TreeChange::Modified {
                            path: path.clone(),
                            old_hash: *old,
                            new_hash: hash,
                            mode: FILE_MODE,
                        },
                    );
                }
            },
        }
        proof {
            let after = change_views(changes@);
            if after.len() > before.len() {
                assert(after =~= before.push(after.last()));
            } else {
                assert(after =~= before);
            }
            assert forall|a: int, b: int| 0 <= a < b < after.len() implies (
            #[trigger] after[a]).at() != (#[trigger] after[b]).at() by {
                if b == before.len() {
                    assert(after[a] == before[a]);
                    let j = choose|j: int|
                        0 <= j < i && (#[trigger] other.items@[j]).0@ == before[a].at();
                    assert(other.items@[j].0@ != other.items@[i as int].0@);
                } else {
                    assert(after[a] == before[a] && after[b] == before[b]);
                }
            }
            assert forall|j: int| 0 <= j < i + 1 implies (change_at(
                base@,
                other@,
                (#[trigger] other.items@[j]).0@,
            ) matches Some(c) ==> after.contains(c)) by {
                if let Some(c) = change_at(base@, other@, other.items@[j].0@) {
                    if j < i {
                        assert(before.contains(c));
                        let n = choose|n: int| 0 <= n < before.len() && before[n] == c;
                        assert(after[n] == c);
                    } else {
                        assert(after[before.len() as int] == c);
                    }
                }
            }
            assert forall|k: int| 0 <= k < changes@.len() implies exists|j: int|
                0 <= j < i + 1 && (#[trigger] other.items@[j]).0@ == (
                #[trigger] after[k]).at() by {
                if k < before.len() {
                    assert(after[k] == before[k]);
                    let j = choose|j: int|
                        0 <= j < i && (#[trigger] other.items@[j]).0@ == before[k].at();
                    assert(other.items@[j].0@ == after[k].at());
                } else {
                    assert(other.items@[i as int].0@ == after[k].at());
                }
            }
            assert forall|k: int| 0 <= k < changes@.len() implies change_at(
                base@,
                other@,
                (#[trigger] after[k]).at(),
            ) == Some(after[k]) by {
                if k < before.len() {
                    assert(after[k] == before[k]);
                }
            }
        }
        i += 1;
    }
    let ghost added = change_views(changes@);
    let ghost first: int = changes@.len() as int;
    proof {
        assert forall|k: int| 0 <= k < changes@.len() implies other@.contains_key(
            (#[trigger] added[k]).at(),
        ) by {
            let j = choose|j: int|
                0 <= j < other.items@.len() && (#[trigger] other.items@[j]).0@ == added[k].at();
            lemma_file_at(*other, j);
        }
    }
    let mut i: usize = 0;
    while i < base.items.len()
        invariant
            i <= base.items.len(),
            base.wf(),
            other.wf(),
            first == added.len(),
            first <= changes@.len(),
            forall|k: int| 0 <= k < first ==> #[trigger] change_views(changes@)[k] == added[k],
            forall|k: int| 0 <= k < first ==> other@.contains_key((#[trigger] added[k]).at()),
            distinct_changes(change_views(changes@)),
            forall|k: int|
                first <= k < changes@.len() ==> exists|j: int|
                    0 <= j < i && (#[trigger] base.items@[j]).0@ == (
                    #[trigger] change_views(changes@)[k]).at(),
            forall|k: int|
                first <= k < changes@.len() ==> !other@.contains_key(
                    (#[trigger] change_views(changes@)[k]).at(),
                ),
            forall|k: int|
                0 <= k < changes@.len() ==> change_at(
                    base@,
                    other@,
                    (#[trigger] change_views(changes@)[k]).at(),
                ) == Some(change_views(changes@)[k]),
            forall|j: int|
                0 <= j < i && !other@.contains_key((#[trigger] base.items@[j]).0@) ==> (change_at(
                    base@,
                    other@,
                    base.items@[j].0@,
                ) matches Some(c) ==> change_views(changes@).contains(c)),
        decreases base.items.len() - i,
    {
        let ghost before = change_views(changes@);
        let path = &base.items[i].0;
        proof {
            lemma_file_at(*base, i as int);
        }
        if !other.has(path.as_str()) {
            changes.push(
                TreeChange::Deleted { path: path.clone(), old_hash: base.items[i].1 },
            );
        }
        proof {
            let after = change_views(changes@);
            if after.len() > before.len() {
                assert(after =~= before.push(after.last()));
            } else {
                assert(after =~= before);
            }
            assert forall|k: int| 0 <= k < first implies #[trigger] after[k] == added[k] by {
                assert(before[k] == added[k]);
            }
            assert forall|a: int, b: int| 0 <= a < b < after.len() implies (
            #[trigger] after[a]).at() != (#[trigger] after[b]).at() by {
                if b == before.len() {
                    assert(after[a] == before[a]);
                    if a < first {
                        assert(before[a] == added[a]);
                        assert(other@.contains_key(added[a].at()));
                    } else {
                        let j = choose|j: int|
                            0 <= j < i && (#[trigger] base.items@[j]).0@ == before[a].at();
                        assert(base.items@[j].0@ != base.items@[i as int].0@);
                    }
                } else {
                    assert(after[a] == before[a] && after[b] == before[b]);
                }
            }
            assert forall|k: int| first <= k < changes@.len() implies exists|j: int|
                0 <= j < i + 1 && (#[trigger] base.items@[j]).0@ == (
                #[trigger] after[k]).at() by {
                if k < before.len() {
                    assert(after[k] == before[k]);
                    let j = choose|j: int|
                        0 <= j < i && (#[trigger] base.items@[j]).0@ == before[k].at();
                    assert(base.items@[j].0@ == after[k].at());
                } else {
                    assert(base.items@[i as int].0@ == after[k].at());
                }
            }
            assert forall|k: int| first <= k < changes@.len() implies !other@.contains_key(
                (#[trigger] after[k]).at(),
            ) by {
                if k < before.len() {
                    assert(after[k] == before[k]);
                }
            }
            assert forall|k: int| 0 <= k < changes@.len() implies change_at(
                base@,
                other@,
                (#[trigger] after[k]).at(),
            ) == Some(after[k]) by {
                if k < before.len() {
                    assert(after[k] == before[k]);
                }
            }
            assert forall|j: int|
                0 <= j < i + 1 && !other@.contains_key(
                    (#[trigger] base.items@[j]).0@,
                ) implies (change_at(base@, other@, base.items@[j].0@) matches Some(
                c,
            ) ==> after.contains(c)) by {
                if let Some(c) = change_at(base@, other@, base.items@[j].0@) {
                    if j < i {
                        assert(before.contains(c));
                        let n = choose|n: int| 0 <= n < before.len() && before[n] == c;
                        assert(after[n] == c);
                    } else {
                        assert(after[before.len() as int] == c);
                    }
                }
            }
        }
        i += 1;
    }
    proof {
        let all = change_views(changes@);
        assert forall|c: ChangeView| #[trigger]
            all.contains(c) <==> change_at(base@, other@, c.at()) == Some(c) by {
            if all.contains(c) {
                let k = choose|k: int| 0 <= k < all.len() && all[k] == c;
                assert(change_at(base@, other@, all[k].at()) == Some(all[k]));
            }
            if change_at(base@, other@, c.at()) == Some(c) {
                let p = c.at();
                if other@.contains_key(p) {
                    lemma_pairs_from(other.items@, p);
                    let j = choose|j: int|
                        0 <= j < other.items@.len() && (#[trigger] other.items@[j]).0@ == p;
                    assert(added.contains(c));
                    let n = choose|n: int| 0 <= n < added.len() && added[n] == c;
                    assert(all[n] == added[n]);
                } else {
                    lemma_pairs_from(base.items@, p);
                    let j = choose|j: int|
                        0 <= j < base.items@.len() && (#[trigger] base.items@[j]).0@ == p;
                    assert(!other@.contains_key(base.items@[j].0@));
                    assert(all.contains(c));
                }
            }
        }
    }
    TreeDiff { changes }
}

/// How two sides conflict.
#[derive(Debug, Clone, Copy, PartialEq, Eq, Structural)]
pub enum ConflictType {
    /// Both sides changed a file, and differently.
    BothModified,
    /// One side changed a file, the other deleted it.
    ModifyDelete,
    /// Both sides added a file, and differently.
    BothAdded,
}

/// A path at which the two sides conflict.
#[derive(Debug, Clone)]
pub struct MergeConflict {
    pub path: String,
    /// None if the file did not exist in the common ancestor.
    pub base: Option<ObjectId>,
    /// None if the target deleted the file.
    pub target: Option<ObjectId>,
    /// None if the sandbox deleted the file.
    pub sandbox: Option<ObjectId>,
    pub conflict_type: ConflictType,
}

/// A conflict, with the path as characters.
pub struct ConflictView {
    pub path: Seq<char>,
    pub base: Option<ObjectId>,
    pub target: Option<ObjectId>,
    pub sandbox: Option<ObjectId>,
    pub conflict_type: ConflictType,
}

impl View for MergeConflict {
    type V = ConflictView;

    open spec fn view(&self) -> ConflictView {
        ConflictView {
            path: self.path@,
            base: self.base,
            target: self.target,
            sandbox: self.sandbox,
            conflict_type: self.conflict_type,
        }
    }
}

/// What a merge makes of a path without a conflict.
#[derive(Debug, Clone)]
pub struct ResolvedEntry {
    pub path: String,
    /// None if the file is deleted.
    pub blob_hash: Option<ObjectId>,
    pub mode: u32,
}

/// What a merge makes of a path, with the path as characters.
pub struct ResolvedView {
    pub path: Seq<char>,
    pub blob_hash: Option<ObjectId>,
    pub mode: u32,
}

impl View for ResolvedEntry {
    type V = ResolvedView;

    open spec fn view(&self) -> ResolvedView {
        ResolvedView { path: self.path@, blob_hash: self.blob_hash, mode: self.mode }
    }
}

pub open spec fn conflict_views(v: Seq<MergeConflict>) -> Seq<ConflictView> {
    Seq::new(v.len(), |i: int| v[i]@)
}

pub open spec fn resolved_views(v: Seq<ResolvedEntry>) -> Seq<ResolvedView> {
    Seq::new(v.len(), |i: int| v[i]@)
}

/// The conflict at a path: the two sides differ from the common ancestor and
/// from each other.
pub open spec fn conflict_at(
    base: FileMap,
    target: FileMap,
    sandbox: FileMap,
    p: Seq<char>,
) -> Option<ConflictView> {
    let b = file_at(base, p);
    let t = file_at(target, p);
    let s = file_at(sandbox, p);
    if b != t && b != s && t != s {
        Some(
            ConflictView {
                path: p,
                base: b,
                target: t,
                sandbox: s,
                conflict_type: if b is None {
                    ConflictType::BothAdded
                } else if t is None || s is None {
                    ConflictType::ModifyDelete
                } else {
                    ConflictType::BothModified
                },
            },
        )
    } else {
        None
    }
}

/// What a merge makes of a path that some side changed, without a conflict:
/// what the side that changed it has there.
pub open spec fn resolved_at(
    base: FileMap,
    target: FileMap,
    sandbox: FileMap,
    p: Seq<char>,
) -> Option<ResolvedView> {
    let b = file_at(base, p);
    let t = file_at(target, p);
    let s = file_at(sandbox, p);
    let v = if t != b {
        t
    } else {
        s
    };
    if conflict_at(base, target, sandbox, p) is None && (t != b || s != b) {
        Some(
            ResolvedView {
                path: p,
                blob_hash: v,
                mode: if v is Some {
                    FILE_MODE
                } else {
                    0
                },
            },
        )
    } else {
        None
    }
}

/// What a change leaves at its path.
pub open spec fn new_hash_of(c: ChangeView) -> Option<ObjectId> {
    match c {
        ChangeView::Added { blob_hash, .. } => Some(blob_hash),
        ChangeView::Modified { new_hash, .. } => Some(new_hash),
        ChangeView::Deleted { .. } => None,
    }
}

/// A change as the result of a merge.
pub open spec fn resolved_of(c: ChangeView) -> ResolvedView {
    match c {
        ChangeView::Added { path, blob_hash, mode } => ResolvedView {
            path,
            blob_hash: Some(blob_hash),
            mode,
        },
        ChangeView::Modified { path, new_hash, mode, .. } => ResolvedView {
            path,
            blob_hash: Some(new_hash),
            mode,
        },
        ChangeView::Deleted { path, .. } => ResolvedView { path, blob_hash: None, mode: 0 },
    }
}

/// The conflict between two changes at one path.
pub open spec fn conflict_of(
    path: Seq<char>,
    target: ChangeView,
    sandbox: ChangeView,
    base: Option<ObjectId>,
) -> Option<ConflictView> {
    match (target, sandbox) {
        (
            ChangeView::Modified { new_hash: t, .. },
            ChangeView::Modified { new_hash: s, .. },
        ) => if t == s {
            None
        } else {
            Some(
                ConflictView {
                    path,
                    base,
                    target: Some(t),
                    sandbox: Some(s),
                    conflict_type: ConflictType::BothModified,
                },
            )
        },
        (
            ChangeView::Added { blob_hash: t, .. },
            ChangeView::Added { blob_hash: s, .. },
        ) => if t == s {
            None
        } else {
            Some(
                ConflictView {
                    path,
                    base: None,
                    target: Some(t),
                    sandbox: Some(s),
                    conflict_type: ConflictType::BothAdded,
                },
            )
        },
        (ChangeView::Deleted { .. }, ChangeView::Deleted { .. }) => None,
        (ChangeView::Modified { new_hash, .. }, ChangeView::Deleted { old_hash, .. }) => Some(
            ConflictView {
                path,
                base: Some(old_hash),
                target: Some(new_hash),
                sandbox: None,
                conflict_type: ConflictType::ModifyDelete,
            },
        ),
        (ChangeView::Deleted { old_hash, .. }, ChangeView::Modified { new_hash, .. }) => Some(
            ConflictView {
                path,
                base: Some(old_hash),
                target: None,
                sandbox: Some(new_hash),
                conflict_type: ConflictType::ModifyDelete,
            },
        ),
        _ => Some(
            ConflictView {
                path,
                base,
                target: new_hash_of(target),
                sandbox: new_hash_of(sandbox),
                conflict_type: ConflictType::BothModified,
            },
        ),
    }
}

/// A change as the result of a merge.
pub fn change_to_resolved(change: &TreeChange) -> (r: ResolvedEntry)
    ensures
        r@ == resolved_of(change@),
{
    match change {
        TreeChange::Added { path, blob_hash, mode } => ResolvedEntry {
            path: path.clone(),
            blob_hash: Some(*blob_hash),
            mode: *mode,
        },
        TreeChange::Modified { path, new_hash, mode, .. } => ResolvedEntry {
            path: path.clone(),
            blob_hash: Some(*new_hash),
            mode: *mode,
        },
        TreeChange::Deleted { path, .. } => ResolvedEntry {
            path: path.clone(),
            blob_hash: None,
            mode: 0,
        },
    }
}

/// What a change leaves at its path.
fn get_new_hash(change: &TreeChange) -> (r: Option<ObjectId>)
    ensures
        r == new_hash_of(change@),
{
    match change {
        TreeChange::Added { blob_hash, .. } => Some(*blob_hash),
        TreeChange::Modified { new_hash, .. } => Some(*new_hash),
        TreeChange::Deleted { .. } => None,
    }
}

/// The conflict between two changes at one path, if there is one.
pub fn detect_conflict(
    path: &str,
    target_change: &TreeChange,
    sandbox_change: &TreeChange,
    base: Option<ObjectId>,
) -> (r: Option<MergeConflict>)
    ensures
        match conflict_of(path@, target_change@, sandbox_change@, base) {
            Some(v) => r matches Some(c) && c@ == v,
            None => r is None,
        },
{
    match (target_change, sandbox_change) {
        (
            TreeChange::Modified { new_hash: t, .. },
            TreeChange::Modified { new_hash: s, .. },
        ) => {
            if hash_eq(t, s) {
                None
            } else {
                Some(
                    MergeConflict {
                        path: path.to_owned(),
                        base,
                        target: Some(*t),
                        sandbox: Some(*s),
                        conflict_type: ConflictType::BothModified,
                    },
                )
            }
        },
        (TreeChange::Added { blob_hash: t, .. }, TreeChange::Added { blob_hash: s, .. }) => {
            if hash_eq(t, s) {
                None
            } else {
                Some(
                    MergeConflict {
                        path: path.to_owned(),
                        base: None,
                        target: Some(*t),
                        sandbox: Some(*s),
                        conflict_type: ConflictType::BothAdded,
                    },
                )
            }
        },
        (TreeChange::Deleted { .. }, TreeChange::Deleted { .. }) => None,
        (TreeChange::Modified { new_hash, .. }, TreeChange::Deleted { old_hash, .. }) => Some(
            MergeConflict {
                path: path.to_owned(),
                base: Some(*old_hash),
                target: Some(*new_hash),
                sandbox: None,
                conflict_type: ConflictType::ModifyDelete,
            },
        ),
        (TreeChange::Deleted { old_hash, .. }, TreeChange::Modified { new_hash, .. }) => Some(
            MergeConflict {
                path: path.to_owned(),
                base: Some(*old_hash),
                target: None,
                sandbox: Some(*new_hash),
                conflict_type: ConflictType::ModifyDelete,
            },
        ),
        _ => Some(
            MergeConflict {
                path: path.to_owned(),
                base,
                target: get_new_hash(target_change),
                sandbox: get_new_hash(sandbox_change),
                conflict_type: ConflictType::BothModified,
            },
        ),
    }
}

/// The changes of both sides at a path conflict just if the three trees differ
/// there pairwise.
proof fn lemma_conflict(base: FileMap, target: FileMap, sandbox: FileMap, p: Seq<char>)
    requires
        change_at(base, target, p) is Some,
        change_at(base, sandbox, p) is Some,
    ensures
        conflict_of(
            p,
            change_at(base, target, p)->0,
            change_at(base, sandbox, p)->0,
            file_at(base, p),
        ) == conflict_at(base, target, sandbox, p),
{
}

/// The outcome of comparing both sides of a merge with the common ancestor.
#[derive(Debug)]
pub struct MergeAnalysis {
    /// What can be applied without asking.
    pub auto_resolved: Vec<ResolvedEntry>,
    /// What needs a decision.
    pub conflicts: Vec<MergeConflict>,
    /// The files of the common ancestor and their modes.
    pub base_tree: TextMap<(ObjectId, u32)>,
}

impl MergeAnalysis {
    pub fn has_conflicts(&self) -> (r: bool)
        ensures
            r == (self.conflicts@.len() > 0),
    {
        self.conflicts.len() > 0
    }

    /// Whether the merge is a fast-forward: that is decided before the analysis.
    pub fn is_fast_forward(&self) -> (r: bool)
        ensures
            !r,
    {
        false
    }
}

/// Whether `v` are the conflicts between the two sides, each once.
pub open spec fn are_conflicts(
    v: Seq<ConflictView>,
    base: FileMap,
    target: FileMap,
    sandbox: FileMap,
) -> bool {
    &&& forall|i: int, j: int|
        0 <= i < j < v.len() ==> (#[trigger] v[i]).path != (#[trigger] v[j]).path
    &&& forall|c: ConflictView| #[trigger]
        v.contains(c) <==> conflict_at(base, target, sandbox, c.path) == Some(c)
}

/// Whether `v` are the paths that a merge resolves by itself, each once.
pub open spec fn are_resolved(
    v: Seq<ResolvedView>,
    base: FileMap,
    target: FileMap,
    sandbox: FileMap,
) -> bool {
    &&& forall|i: int, j: int|
        0 <= i < j < v.len() ==> (#[trigger] v[i]).path != (#[trigger] v[j]).path
    &&& forall|c: ResolvedView| #[trigger]
        v.contains(c) <==> resolved_at(base, target, sandbox, c.path) == Some(c)
}

/// Files with the mode that merged trees give them.
pub open spec fn with_modes(m: FileMap) -> Map<Seq<char>, (ObjectId, u32)> {
    m.map_values(|h: ObjectId| (h, FILE_MODE))
}

/// Whether `a` is the analysis of the merge of `target` and `sandbox`, which
/// come from `base`.
pub open spec fn is_analysis(
    a: MergeAnalysis,
    base: FileMap,
    target: FileMap,
    sandbox: FileMap,
) -> bool {
    &&& are_conflicts(conflict_views(a.conflicts@), base, target, sandbox)
    &&& are_resolved(resolved_views(a.auto_resolved@), base, target, sandbox)
    &&& a.base_tree.wf()
    &&& a.base_tree@ == with_modes(base)
}

/// The change at a path.
fn find_change<'a>(
    diff: &'a TreeDiff,
    path: &str,
    Ghost(base): Ghost<FileMap>,
    Ghost(other): Ghost<FileMap>,
) -> (r: Option<&'a TreeChange>)
    requires
        is_diff(change_views(diff.changes@), base, other),
    ensures
        match r {
            Some(c) => change_at(base, other, path@) == Some(c@),
            None => change_at(base, other, path@) is None,
        },
{
    let ghost cs = change_views(diff.changes@);
    let mut i: usize = 0;
    while i < diff.changes.len()
        invariant
            i <= diff.changes.len(),
            cs == change_views(diff.changes@),
            is_diff(cs, base, other),
            forall|j: int| 0 <= j < i ==> (#[trigger] cs[j]).at() != path@,
        decreases diff.changes.len() - i,
    {
        let p = diff.changes[i].path();
        if str_eq(p.as_str(), path) {
            proof {
                assert(cs[i as int] == diff.changes@[i as int]@);
                assert(cs.contains(cs[i as int]));
            }
            return Some(&diff.changes[i]);
        }
        i += 1;
    }
    proof {
        if let Some(c) = change_at(base, other, path@) {
            assert(c.at() == path@);
            assert(cs.contains(c));
            let j = choose|j: int| 0 <= j < cs.len() && cs[j] == c;
            assert(cs[j].at() != path@);
        }
    }
    None
}

/// A path that some side changed.
spec fn touched(base: FileMap, target: FileMap, sandbox: FileMap, p: Seq<char>) -> bool {
    change_at(base, target, p) is Some || change_at(base, sandbox, p) is Some
}

/// The paths that some side changed, each once.
fn touched_paths(
    target_diff: &TreeDiff,
    sandbox_diff: &TreeDiff,
    Ghost(base): Ghost<FileMap>,
    Ghost(target): Ghost<FileMap>,
    Ghost(sandbox): Ghost<FileMap>,
) -> (r: Vec<String>)
    requires
        is_diff(change_views(target_diff.changes@), base, target),
        is_diff(change_views(sandbox_diff.changes@), base, sandbox),
    ensures
        texts(r@).no_duplicates(),
        forall|x: Seq<char>| #[trigger]
            texts(r@).contains(x) <==> touched(base, target, sandbox, x),
{
    let mut r: Vec<String> = target_diff.changed_paths();
    let ghost mid = texts(r@);
    add_paths(&mut r, &sandbox_diff.changes);
    proof {
        let t = change_views(target_diff.changes@);
        let s = change_views(sandbox_diff.changes@);
        assert forall|x: Seq<char>| #[trigger]
            texts(r@).contains(x) <==> touched(base, target, sandbox, x) by {
            if mid.contains(x) {
                let i = choose|i: int|
                    0 <= i < target_diff.changes@.len() && (
                    #[trigger] target_diff.changes@[i])@.at() == x;
                assert(t[i] == target_diff.changes@[i]@);
                assert(t.contains(t[i]));
            }
            if exists|i: int|
                0 <= i < sandbox_diff.changes@.len() && (
                #[trigger] sandbox_diff.changes@[i])@.at() == x {
                let i = choose|i: int|
                    0 <= i < sandbox_diff.changes@.len() && (
                    #[trigger] sandbox_diff.changes@[i])@.at() == x;
                assert(s[i] == sandbox_diff.changes@[i]@);
                assert(s.contains(s[i]));
            }
            if let Some(c) = change_at(base, target, x) {
                assert(t.contains(c));
                let i = choose|i: int| 0 <= i < t.len() && t[i] == c;
                assert(target_diff.changes@[i]@.at() == x);
                assert(mid.contains(x));
            }
            if let Some(c) = change_at(base, sandbox, x) {
                assert(s.contains(c));
                let i = choose|i: int| 0 <= i < s.len() && s[i] == c;
                assert(sandbox_diff.changes@[i]@.at() == x);
            }
        }
    }
    r
}

/// Gives every file of a tree the mode of merged trees.
fn modes_of(m: &TextMap<ObjectId>) -> (r: TextMap<(ObjectId, u32)>)
    requires
        m.wf(),
    ensures
        r.wf(),
        r@ == with_modes(m@),
{
    let mut r: TextMap<(ObjectId, u32)> = TextMap::new();
    let mut i: usize = 0;
    let ghost pairs = m.items@;
    assert(r@ =~= with_modes(crate::text_map::pairs_map(pairs.subrange(0, 0))));
    while i < m.items.len()
        invariant
            i <= m.items.len(),
            r.wf(),
            pairs == m.items@,
            r@ == with_modes(crate::text_map::pairs_map(pairs.subrange(0, i as int))),
        decreases m.items.len() - i,
    {
        let ghost before = crate::text_map::pairs_map(pairs.subrange(0, i as int));
        r.insert(m.items[i].0.clone(), (m.items[i].1, FILE_MODE));
        proof {
            let t = pairs.subrange(0, i + 1);
            assert(t.drop_last() =~= pairs.subrange(0, i as int));
            assert(t.last() == pairs[i as int]);
            assert(with_modes(before.insert(pairs[i as int].0@, pairs[i as int].1))
                =~= with_modes(before).insert(pairs[i as int].0@, (pairs[i as int].1, FILE_MODE)));
        }
        i += 1;
    }
    assert(pairs.subrange(0, i as int) =~= pairs);
    r
}

/// Whether `v` lists what `f` says of the paths `ps`, each path once.
spec fn lists<T>(
    v: Seq<T>,
    at: spec_fn(T) -> Seq<char>,
    f: spec_fn(Seq<char>) -> Option<T>,
    ps: Seq<Seq<char>>,
) -> bool {
    &&& forall|i: int, j: int| 0 <= i < j < v.len() ==> #[trigger] at(v[i]) != #[trigger] at(v[j])
    &&& forall|k: int|
        0 <= k < v.len() ==> ps.contains(#[trigger] at(v[k])) && f(at(v[k])) == Some(v[k])
    &&& forall|n: int| 0 <= n < ps.len() ==> (f(#[trigger] ps[n]) matches Some(c) ==> v.contains(c))
}

proof fn lemma_lists_push<T>(
    v: Seq<T>,
    at: spec_fn(T) -> Seq<char>,
    f: spec_fn(Seq<char>) -> Option<T>,
    ps: Seq<Seq<char>>,
    p: Seq<char>,
    c: T,
)
    requires
        lists(v, at, f, ps),
        !ps.contains(p),
        f(p) == Some(c),
        at(c) == p,
    ensures
        lists(v.push(c), at, f, ps.push(p)),
{
    let w = v.push(c);
    let qs = ps.push(p);
    assert forall|i: int, j: int| 0 <= i < j < w.len() implies #[trigger] at(w[i])
        != #[trigger] at(w[j]) by {
        assert(w[i] == v[i]);
        assert(ps.contains(at(v[i])));
        if j < v.len() {
            assert(w[j] == v[j]);
        }
    }
    assert forall|k: int| 0 <= k < w.len() implies qs.contains(#[trigger] at(w[k])) && f(at(w[k]))
        == Some(w[k]) by {
        if k < v.len() {
            assert(w[k] == v[k]);
            let n = choose|n: int| 0 <= n < ps.len() && ps[n] == at(v[k]);
            assert(qs[n] == at(w[k]));
        } else {
            assert(qs[ps.len() as int] == p);
        }
    }
    assert forall|n: int| 0 <= n < qs.len() implies (f(#[trigger] qs[n]) matches Some(d)
        ==> w.contains(d)) by {
        if n < ps.len() {
            assert(qs[n] == ps[n]);
            if let Some(d) = f(ps[n]) {
                assert(v.contains(d));
                let m = choose|m: int| 0 <= m < v.len() && v[m] == d;
                assert(w[m] == d);
            }
        } else {
            assert(w[v.len() as int] == c);
        }
    }
}

proof fn lemma_lists_skip<T>(
    v: Seq<T>,
    at: spec_fn(T) -> Seq<char>,
    f: spec_fn(Seq<char>) -> Option<T>,
    ps: Seq<Seq<char>>,
    p: Seq<char>,
)
    requires
        lists(v, at, f, ps),
        f(p) is None,
    ensures
        lists(v, at, f, ps.push(p)),
{
    let qs = ps.push(p);
    assert forall|k: int| 0 <= k < v.len() implies qs.contains(#[trigger] at(v[k])) && f(at(v[k]))
        == Some(v[k]) by {
        let n = choose|n: int| 0 <= n < ps.len() && ps[n] == at(v[k]);
        assert(qs[n] == at(v[k]));
    }
    assert forall|n: int| 0 <= n < qs.len() implies (f(#[trigger] qs[n]) matches Some(d)
        ==> v.contains(d)) by {
        if n < ps.len() {
            assert(qs[n] == ps[n]);
        }
    }
}

proof fn lemma_lists_all<T>(
    v: Seq<T>,
    at: spec_fn(T) -> Seq<char>,
    f: spec_fn(Seq<char>) -> Option<T>,
    ps: Seq<Seq<char>>,
)
    requires
        lists(v, at, f, ps),
        forall|x: Seq<char>| (#[trigger] f(x)) is Some ==> ps.contains(x),
    ensures
        forall|c: T| #[trigger] v.contains(c) <==> f(at(c)) == Some(c),
{
    assert forall|c: T| #[trigger] v.contains(c) <==> f(at(c)) == Some(c) by {
        if v.contains(c) {
            let k = choose|k: int| 0 <= k < v.len() && v[k] == c;
            assert(f(at(v[k])) == Some(v[k]));
        }
        if f(at(c)) == Some(c) {
            assert(ps.contains(at(c)));
            let n = choose|n: int| 0 <= n < ps.len() && ps[n] == at(c);
            assert(f(ps[n]) == Some(c));
        }
    }
}

/// Compares both sides of a merge with the common ancestor.
pub fn analyze_files(
    base: &TextMap<ObjectId>,
    target: &TextMap<ObjectId>,
    sandbox: &TextMap<ObjectId>,
) -> (r: MergeAnalysis)
    requires
        base.wf(),
        target.wf(),
        sandbox.wf(),
    ensures
        is_analysis(r, base@, target@, sandbox@),
{
    let target_diff = diff_files(base, target);
    let sandbox_diff = diff_files(base, sandbox);
    let base_tree = modes_of(base);
    let ghost b = base@;
    let ghost t = target@;
    let ghost s = sandbox@;
    let paths = touched_paths(&target_diff, &sandbox_diff, Ghost(b), Ghost(t), Ghost(s));
    let mut auto_resolved: Vec<ResolvedEntry> = Vec::new();
    let mut conflicts: Vec<MergeConflict> = Vec::new();
    let ghost ps = texts(paths@);
    let ghost fc = |x: Seq<char>| conflict_at(b, t, s, x);
    let ghost fr = |x: Seq<char>| resolved_at(b, t, s, x);
    let ghost ac = |c: ConflictView| c.path;
    let ghost ar = |c: ResolvedView| c.path;
    let mut i: usize = 0;
    while i < paths.len()
        invariant
            i <= paths.len(),
            base.wf(),
            b == base@,
            ps == texts(paths@),
            ps.no_duplicates(),
            is_diff(change_views(target_diff.changes@), b, t),
            is_diff(change_views(sandbox_diff.changes@), b, s),
            forall|x: Seq<char>| #[trigger] ps.contains(x) <==> touched(b, t, s, x),
            forall|x: Seq<char>| #[trigger] fc(x) == conflict_at(b, t, s, x),
            forall|x: Seq<char>| #[trigger] fr(x) == resolved_at(b, t, s, x),
            forall|c: ConflictView| #[trigger] ac(c) == c.path,
            forall|c: ResolvedView| #[trigger] ar(c) == c.path,
            lists(conflict_views(conflicts@), ac, fc, ps.subrange(0, i as int)),
            lists(resolved_views(auto_resolved@), ar, fr, ps.subrange(0, i as int)),
        decreases paths.len() - i,
    {
        let path = &paths[i];
        let ghost p = path@;
        let ghost seen = ps.subrange(0, i as int);
        let ghost cs = conflict_views(conflicts@);
        let ghost rs = resolved_views(auto_resolved@);
        proof {
            assert(ps[i as int] == p);
            assert(ps.contains(p));
            assert(!seen.contains(p)) by {
                if seen.contains(p) {
                    let n = choose|n: int| 0 <= n < seen.len() && seen[n] == p;
                    assert(ps[n] == ps[i as int]);
                }
            }
            assert(ps.subrange(0, i + 1) =~= seen.push(p));
        }
        let tc = find_change(&target_diff, path.as_str(), Ghost(b), Ghost(t));
        let sc = find_change(&sandbox_diff, path.as_str(), Ghost(b), Ghost(s));
        let base_entry: Option<ObjectId> = match base.get(path.as_str()) {
            Some(h) => Some(*h),
            None => None,
        };
        match (tc, sc) {
            (Some(tc), None) => {
                let r = change_to_resolved(tc);
                auto_resolved.push(r);
                proof {
                    assert(resolved_views(auto_resolved@) =~= rs.push(r@));
                    lemma_lists_push(rs, ar, fr, seen, p, r@);
                    lemma_lists_skip(cs, ac, fc, seen, p);
                }
            },
            (None, Some(sc)) => {
                let r = change_to_resolved(sc);
                auto_resolved.push(r);
                proof {
                    assert(resolved_views(auto_resolved@) =~= rs.push(r@));
                    lemma_lists_push(rs, ar, fr, seen, p, r@);
                    lemma_lists_skip(cs, ac, fc, seen, p);
                }
            },
            (Some(tc), Some(sc)) => {
                proof {
                    lemma_conflict(b, t, s, p);
                }
                match detect_conflict(path.as_str(), tc, sc, base_entry) {
                    Some(c) => {
                        conflicts.push(c);
                        proof {
                            assert(conflict_views(conflicts@) =~= cs.push(c@));
                            lemma_lists_push(cs, ac, fc, seen, p, c@);
                            lemma_lists_skip(rs, ar, fr, seen, p);
                        }
                    },
                    None => {
                        let r = change_to_resolved(tc);
                        auto_resolved.push(r);
                        proof {
                            assert(resolved_views(auto_resolved@) =~= rs.push(r@));
                            lemma_lists_push(rs, ar, fr, seen, p, r@);
                            lemma_lists_skip(cs, ac, fc, seen, p);
                        }
                    },
                }
            },
            (None, None) => {
                proof {
                    assert(touched(b, t, s, p));
                }
            },
        }
        i += 1;
    }
    proof {
        assert(ps.subrange(0, i as int) =~= ps);
        assert forall|x: Seq<char>| (#[trigger] fc(x)) is Some implies ps.contains(x) by {
            assert(touched(b, t, s, x));
        }
        assert forall|x: Seq<char>| (#[trigger] fr(x)) is Some implies ps.contains(x) by {
            assert(touched(b, t, s, x));
        }
        lemma_lists_all(conflict_views(conflicts@), ac, fc, ps);
        lemma_lists_all(resolved_views(auto_resolved@), ar, fr, ps);
        let cs = conflict_views(conflicts@);
        assert forall|i: int, j: int| 0 <= i < j < cs.len() implies (#[trigger] cs[i]).path != (
        #[trigger] cs[j]).path by {
            assert(ac(cs[i]) != ac(cs[j]));
        }
        let rs = resolved_views(auto_resolved@);
        assert forall|i: int, j: int| 0 <= i < j < rs.len() implies (#[trigger] rs[i]).path != (
        #[trigger] rs[j]).path by {
            assert(ar(rs[i]) != ar(rs[j]));
        }
        assert forall|c: ConflictView| #[trigger] cs.contains(c) <==> conflict_at(b, t, s, c.path)
            == Some(c) by {
            assert(fc(ac(c)) == conflict_at(b, t, s, c.path));
        }
        assert forall|c: ResolvedView| #[trigger] rs.contains(c) <==> resolved_at(b, t, s, c.path)
            == Some(c) by {
            assert(fr(ar(c)) == resolved_at(b, t, s, c.path));
        }
    }
    MergeAnalysis { auto_resolved, conflicts, base_tree }
}

/// The files of a stored tree, by path.
pub open spec fn stored_files(m: Objects, id: Seq<u8>) -> FileMap {
    choose|f: FileMap| id_values(f) == file_map(tree_files(m, id)->Ok_0)
}

proof fn lemma_id_values(f: FileMap, g: FileMap)
    requires
        id_values(f) == id_values(g),
    ensures
        f == g,
{
    assert(id_values(f).dom() =~= f.dom());
    assert(id_values(g).dom() =~= g.dom());
    assert forall|k: Seq<char>| f.contains_key(k) implies f[k] == g[k] by {
        assert(id_values(f)[k] == id_values(g)[k]);
        assert(f[k] =~= g[k]);
    }
    assert(f =~= g);
}

/// The files of a stored tree, by path.
fn load_files(store: &ObjectStore, id: &ObjectId) -> (r: Result<TextMap<ObjectId>, WalkError>)
    requires
        store.wf(),
        grounded(store@, id@),
    ensures
        match tree_files(store@, id@) {
            Ok(_) => r matches Ok(m) && m.wf() && m@ == stored_files(store@, id@),
            Err(f) => r matches Err(e) && e@ == f,
        },
{
    match collect_all_files(store, id) {
        Ok(m) => {
            proof {
                lemma_id_values(m@, stored_files(store@, id@));
            }
            Ok(m)
        },
        Err(e) => Err(e),
    }
}

/// The changes from one stored tree to another.
pub fn diff_trees(store: &ObjectStore, base_tree_hash: &ObjectId, other_tree_hash: &ObjectId) -> (r:
    Result<TreeDiff, WalkError>)
    requires
        store.wf(),
        grounded(store@, base_tree_hash@),
        grounded(store@, other_tree_hash@),
    ensures
        match (tree_files(store@, base_tree_hash@), tree_files(store@, other_tree_hash@)) {
            (Err(f), _) => r matches Err(e) && e@ == f,
            (Ok(_), Err(f)) => r matches Err(e) && e@ == f,
            (Ok(_), Ok(_)) => r matches Ok(d) && is_diff(
                change_views(d.changes@),
                stored_files(store@, base_tree_hash@),
                stored_files(store@, other_tree_hash@),
            ),
        },
{
    let base = match load_files(store, base_tree_hash) {
        Ok(m) => m,
        Err(e) => return Err(e),
    };
    let other = match load_files(store, other_tree_hash) {
        Ok(m) => m,
        Err(e) => return Err(e),
    };
    Ok(diff_files(&base, &other))
}

/// Why a merge is not possible.
#[derive(Debug, Clone, PartialEq, Eq)]
pub enum MergeError {
    Commit(ReadError),
    Tree(WalkError),
    /// There is no decision for the conflict at this path.
    Unresolved(String),
}

/// Why a merge is not possible, with hashes as bytes and texts as characters.
pub enum MergeFault {
    Commit(ReadFault),
    Tree(WalkFault),
    Unresolved(Seq<char>),
}

impl View for MergeError {
    type V = MergeFault;

    open spec fn view(&self) -> MergeFault {
        match *self {
            MergeError::Commit(e) => MergeFault::Commit(e@),
            MergeError::Tree(e) => MergeFault::Tree(e@),
            MergeError::Unresolved(p) => MergeFault::Unresolved(p@),
        }
    }
}

/// The files of three commits: those of the first that cannot be read, the
/// commits before the trees, are the fault.
pub open spec fn merge_sides(
    m: Objects,
    base: Seq<u8>,
    target: Seq<u8>,
    sandbox: Seq<u8>,
) -> Result<(FileMap, FileMap, FileMap), MergeFault> {
    match (commit_at(m, base), commit_at(m, target), commit_at(m, sandbox)) {
        (Err(f), _, _) => Err(MergeFault::Commit(f)),
        (Ok(_), Err(f), _) => Err(MergeFault::Commit(f)),
        (Ok(_), Ok(_), Err(f)) => Err(MergeFault::Commit(f)),
        (Ok(b), Ok(t), Ok(s)) => match (
            tree_files(m, b.tree_hash),
            tree_files(m, t.tree_hash),
            tree_files(m, s.tree_hash),
        ) {
            (Err(f), _, _) => Err(MergeFault::Tree(f)),
            (Ok(_), Err(f), _) => Err(MergeFault::Tree(f)),
            (Ok(_), Ok(_), Err(f)) => Err(MergeFault::Tree(f)),
            (Ok(_), Ok(_), Ok(_)) => Ok(
                (
                    stored_files(m, b.tree_hash),
                    stored_files(m, t.tree_hash),
                    stored_files(m, s.tree_hash),
                ),
            ),
        },
    }
}

/// Whether the trees below the tree of a commit end somewhere.
pub open spec fn commit_grounded(m: Objects, id: Seq<u8>) -> bool {
    commit_at(m, id) matches Ok(c) ==> grounded(m, c.tree_hash)
}

/// Compares the commits of both sides of a merge with the common ancestor.
pub fn analyze_merge(
    store: &ObjectStore,
    base_commit_hash: &ObjectId,
    target_commit_hash: &ObjectId,
    sandbox_commit_hash: &ObjectId,
) -> (r: Result<MergeAnalysis, MergeError>)
    requires
        store.wf(),
        commit_grounded(store@, base_commit_hash@),
        commit_grounded(store@, target_commit_hash@),
        commit_grounded(store@, sandbox_commit_hash@),
    ensures
        match merge_sides(
            store@,
            base_commit_hash@,
            target_commit_hash@,
            sandbox_commit_hash@,
        ) {
            Ok((b, t, s)) => r matches Ok(a) && is_analysis(a, b, t, s),
            Err(f) => r matches Err(e) && e@ == f,
        },
{
    let base_commit = match read_commit(store, base_commit_hash) {
        Ok(c) => c,
        Err(e) => return Err(MergeError::Commit(e)),
    };
    let target_commit = match read_commit(store, target_commit_hash) {
        Ok(c) => c,
        Err(e) => return Err(MergeError::Commit(e)),
    };
    let sandbox_commit = match read_commit(store, sandbox_commit_hash) {
        Ok(c) => c,
        Err(e) => return Err(MergeError::Commit(e)),
    };
    let base = match load_files(store, &base_commit.tree_hash) {
        Ok(m) => m,
        Err(e) => return Err(MergeError::Tree(e)),
    };
    let target = match load_files(store, &target_commit.tree_hash) {
        Ok(m) => m,
        Err(e) => return Err(MergeError::Tree(e)),
    };
    let sandbox = match load_files(store, &sandbox_commit.tree_hash) {
        Ok(m) => m,
        Err(e) => return Err(MergeError::Tree(e)),
    };
    Ok(analyze_files(&base, &target, &sandbox))
}

/// How a conflict was decided.
#[derive(Debug, Clone, PartialEq, Eq)]
pub enum ConflictResolution {
    TakeTarget,
    TakeSandbox,
    TakeBase,
    /// Take this content.
    Merged(Vec<u8>),
    Delete,
}

/// A merge that has been carried out.
#[derive(Debug, Clone, PartialEq, Eq)]
pub struct MergeResult {
    pub commit_hash: ObjectId,
    pub merged_tree_hash: ObjectId,
    pub conflicts_resolved: usize,
    pub files_changed: usize,
}

/// Files of a tree with their modes, by path.
pub type ModeMap = Map<Seq<char>, (ObjectId, u32)>;

/// A map of files after one path has got a file, or has lost it.
pub open spec fn with_file(m: ModeMap, path: Seq<char>, v: Option<ObjectId>, mode: u32) -> ModeMap {
    match v {
        Some(h) => m.insert(path, (h, mode)),
        None => m.remove(path),
    }
}

/// The files after what could be applied without asking has been applied.
pub open spec fn apply_resolved(m: ModeMap, rs: Seq<ResolvedView>) -> ModeMap
    decreases rs.len(),
{
    if rs.len() == 0 {
        m
    } else {
        with_file(
            apply_resolved(m, rs.drop_last()),
            rs.last().path,
            rs.last().blob_hash,
            rs.last().mode,
        )
    }
}

/// The file that a decision puts at the path of a conflict.
pub open spec fn decided(c: ConflictView, r: ConflictResolution) -> Option<ObjectId> {
    match r {
        ConflictResolution::TakeTarget => c.target,
        ConflictResolution::TakeSandbox => c.sandbox,
        ConflictResolution::TakeBase => c.base,
        ConflictResolution::Merged(content) => Some(blake3_digest(content@)),
        ConflictResolution::Delete => None,
    }
}

/// The files after the conflicts have been decided.
pub open spec fn apply_decisions(
    m: ModeMap,
    cs: Seq<ConflictView>,
    rs: Map<Seq<char>, ConflictResolution>,
) -> ModeMap
    decreases cs.len(),
{
    if cs.len() == 0 {
        m
    } else {
        with_file(
            apply_decisions(m, cs.drop_last(), rs),
            cs.last().path,
            decided(cs.last(), rs[cs.last().path]),
            FILE_MODE,
        )
    }
}

/// What a store holds after the merged contents have been written to it.
pub open spec fn put_merged(
    m: Objects,
    cs: Seq<ConflictView>,
    rs: Map<Seq<char>, ConflictResolution>,
) -> Objects
    decreases cs.len(),
{
    if cs.len() == 0 {
        m
    } else {
        let before = put_merged(m, cs.drop_last(), rs);
        match rs[cs.last().path] {
            ConflictResolution::Merged(content) => put_object(
                before,
                ObjectType::Blob,
                content@,
            ),
            _ => before,
        }
    }
}

/// The file of a merged tree at a path.
pub open spec fn merged_file(path: Seq<char>, v: (ObjectId, u32)) -> FileView {
    FileView { path, oid: v.0@, mode: v.1, size: 0 }
}

/// Whether `fs` are the files of `m`, each once.
pub open spec fn lists_files(fs: Seq<FileView>, m: ModeMap) -> bool {
    &&& forall|i: int, j: int|
        0 <= i < j < fs.len() ==> (#[trigger] fs[i]).path != (#[trigger] fs[j]).path
    &&& forall|f: FileView| #[trigger]
        fs.contains(f) <==> m.contains_key(f.path) && f == merged_file(f.path, m[f.path])
}

/// The index entry of a file of a merged tree.
fn merged_entry(path: String, oid: ObjectId, mode: u32) -> (e: Entry)
    ensures
        entry_file(e@) == (FileView { path: path@, oid: oid@, mode, size: 0 }),
        e.flags.bits == EntryFlags::TRACKED,
{
    let mut e = Entry::new(path, 0, 0, oid, mode);
    e.flags = EntryFlags::from_bits_retain(EntryFlags::TRACKED);
    e
}

/// The index entries of the files of a merged tree.
fn merged_entries(m: &TextMap<(ObjectId, u32)>) -> (r: Vec<Entry>)
    requires
        m.wf(),
    ensures
        lists_files(entry_files(entry_views(r@)), m@),
{
    let mut r: Vec<Entry> = Vec::new();
    let mut i: usize = 0;
    while i < m.items.len()
        invariant
            i <= m.items.len(),
            r@.len() == i,
            forall|j: int|
                0 <= j < i ==> entry_file((#[trigger] r@[j])@) == merged_file(
                    m.items@[j].0@,
                    m.items@[j].1,
                ),
        decreases m.items.len() - i,
    {
        let e = merged_entry(m.items[i].0.clone(), m.items[i].1.0, m.items[i].1.1);
        r.push(e);
        i += 1;
    }
    proof {
        let fs = entry_files(entry_views(r@));
        assert forall|j: int| 0 <= j < fs.len() implies #[trigger] fs[j] == merged_file(
            m.items@[j].0@,
            m.items@[j].1,
        ) by {
            assert(entry_file(r@[j]@) == merged_file(m.items@[j].0@, m.items@[j].1));
        }
        assert forall|a: int, b: int| 0 <= a < b < fs.len() implies (#[trigger] fs[a]).path != (
        #[trigger] fs[b]).path by {
            assert(m.items@[a].0@ != m.items@[b].0@);
        }
        assert forall|f: FileView| #[trigger] fs.contains(f) <==> m@.contains_key(f.path) && f
            == merged_file(f.path, m@[f.path]) by {
            if fs.contains(f) {
                let j = choose|j: int| 0 <= j < fs.len() && fs[j] == f;
                lemma_pairs_at(m.items@, j);
            }
            if m@.contains_key(f.path) && f == merged_file(f.path, m@[f.path]) {
                lemma_pairs_from(m.items@, f.path);
                let j = choose|j: int|
                    0 <= j < m.items@.len() && (#[trigger] m.items@[j]).0@ == f.path;
                lemma_pairs_at(m.items@, j);
                assert(fs[j] == f);
            }
        }
    }
    r
}

/// Puts a file at a path, or takes it away.
fn set_file(m: &mut TextMap<(ObjectId, u32)>, path: &String, v: Option<ObjectId>, mode: u32)
    requires
        old(m).wf(),
    ensures
        final(m).wf(),
        final(m)@ == with_file(old(m)@, path@, v, mode),
{
    match v {
        Some(h) => m.insert(path.clone(), (h, mode)),
        None => m.remove(path.as_str()),
    }
}

/// A copy of a map of files.
fn copy_files(m: &TextMap<(ObjectId, u32)>) -> (r: TextMap<(ObjectId, u32)>)
    requires
        m.wf(),
    ensures
        r.wf(),
        r@ == m@,
{
    let mut r: TextMap<(ObjectId, u32)> = TextMap::new();
    let mut i: usize = 0;
    let ghost pairs = m.items@;
    assert(r@ =~= pairs_map(pairs.subrange(0, 0)));
    while i < m.items.len()
        invariant
            i <= m.items.len(),
            r.wf(),
            pairs == m.items@,
            r@ == pairs_map(pairs.subrange(0, i as int)),
        decreases m.items.len() - i,
    {
        r.insert(m.items[i].0.clone(), m.items[i].1);
        proof {
            let t = pairs.subrange(0, i + 1);
            assert(t.drop_last() =~= pairs.subrange(0, i as int));
            assert(t.last() == pairs[i as int]);
        }
        i += 1;
    }
    assert(pairs.subrange(0, i as int) =~= pairs);
    r
}

/// The bytes of a vector.
fn copy_bytes(b: &Vec<u8>) -> (r: Vec<u8>)
    ensures
        r@ == b@,
{
    let mut r: Vec<u8> = Vec::new();
    crate::codec::push_bytes(&mut r, b.as_slice());
    r
}

/// The first conflict without a decision.
pub open spec fn first_open(cs: Seq<ConflictView>, rs: Map<Seq<char>, ConflictResolution>) -> Option<
    Seq<char>,
>
    decreases cs.len(),
{
    if cs.len() == 0 {
        None
    } else {
        match first_open(cs.drop_last(), rs) {
            Some(p) => Some(p),
            None => if rs.contains_key(cs.last().path) {
                None
            } else {
                Some(cs.last().path)
            },
        }
    }
}

/// The files of a merge: those of the common ancestor, what could be applied
/// without asking, and what was decided.
pub open spec fn merged_files(
    a: MergeAnalysis,
    rs: Map<Seq<char>, ConflictResolution>,
) -> ModeMap {
    apply_decisions(
        apply_resolved(a.base_tree@, resolved_views(a.auto_resolved@)),
        conflict_views(a.conflicts@),
        rs,
    )
}

/// The commit of a merge with the files `fs`.
pub open spec fn merge_commit(
    fs: Seq<FileView>,
    target_commit: Seq<u8>,
    sandbox_commit: Seq<u8>,
    author: Seq<char>,
    message: Seq<char>,
    now: u64,
) -> CommitView {
    CommitView {
        commit_hash: Seq::empty(),
        tree_hash: tree_id(snapshot(fs)),
        parents: seq![target_commit, sandbox_commit],
        author,
        author_time: now,
        commit_time: now,
        message,
    }
}

/// What carrying out a merge does to a store: nothing where a conflict is
/// undecided, and else the merged contents, the trees and the commit are written.
pub open spec fn is_executed(
    before: Objects,
    after: Objects,
    analysis: MergeAnalysis,
    resolutions: Map<Seq<char>, ConflictResolution>,
    target_commit: Seq<u8>,
    sandbox_commit: Seq<u8>,
    author: Seq<char>,
    message: Seq<char>,
    now: u64,
    r: Result<MergeResult, MergeError>,
) -> bool {
    let cs = conflict_views(analysis.conflicts@);
    match first_open(cs, resolutions) {
        Some(p) => {
            &&& r matches Err(e)
            &&& e@ == MergeFault::Unresolved(p)
            &&& after == before
        },
        None => exists|fs: Seq<FileView>|
            {
                let c = merge_commit(fs, target_commit, sandbox_commit, author, message, now);
                &&& #[trigger] lists_files(fs, merged_files(analysis, resolutions))
                &&& r matches Ok(x)
                &&& x.merged_tree_hash@ == tree_id(snapshot(fs))
                &&& x.commit_hash == blake3_digest(commit_bytes(c))
                &&& x.conflicts_resolved == analysis.conflicts@.len()
                &&& x.files_changed == analysis.auto_resolved@.len() + analysis.conflicts@.len()
                &&& after == put_object(
                    put_trees(put_merged(before, cs, resolutions), fs),
                    ObjectType::Commit,
                    commit_bytes(c),
                )
            },
    }
}

/// Carries out a merge: writes the merged contents, the trees of the merged
/// files and a commit with both sides as parents.
pub fn execute_merge(
    store: &mut ObjectStore,
    analysis: &MergeAnalysis,
    resolutions: &TextMap<ConflictResolution>,
    target_commit_hash: &ObjectId,
    sandbox_commit_hash: &ObjectId,
    author: &str,
    message: &str,
    now: u64,
) -> (r: Result<MergeResult, MergeError>)
    requires
        old(store).wf(),
        analysis.base_tree.wf(),
        resolutions.wf(),
        analysis.auto_resolved@.len() + analysis.conflicts@.len() <= usize::MAX,
    ensures
        final(store).wf(),
        is_executed(
            old(store)@,
            final(store)@,
            *analysis,
            resolutions@,
            target_commit_hash@,
            sandbox_commit_hash@,
            author@,
            message@,
            now,
            r,
        ),
{
    let ghost cs = conflict_views(analysis.conflicts@);
    let ghost rs = resolved_views(analysis.auto_resolved@);
    let ghost res = resolutions@;
    let ghost start = store@;
    let mut i: usize = 0;
    while i < analysis.conflicts.len()
        invariant
            i <= analysis.conflicts.len(),
            store.wf(),
            store@ == start,
            start == old(store)@,
            resolutions.wf(),
            res == resolutions@,
            cs == conflict_views(analysis.conflicts@),
            first_open(cs.subrange(0, i as int), res) is None,
            forall|j: int| 0 <= j < i ==> res.contains_key((#[trigger] cs[j]).path),
        decreases analysis.conflicts.len() - i,
    {
        let c = &analysis.conflicts[i];
        proof {
            let t = cs.subrange(0, i + 1);
            assert(t.drop_last() =~= cs.subrange(0, i as int));
            assert(t.last() == cs[i as int]);
            assert(cs[i as int] == c@);
        }
        if !resolutions.has(c.path.as_str()) {
            proof {
                lemma_first_open(cs, res, i + 1);
            }
            return Err(MergeError::Unresolved(c.path.clone()));
        }
        i += 1;
    }
    assert(cs.subrange(0, i as int) =~= cs);
    let mut merged = copy_files(&analysis.base_tree);
    let ghost base = analysis.base_tree@;
    let mut i: usize = 0;
    assert(rs.subrange(0, 0) =~= Seq::empty());
    while i < analysis.auto_resolved.len()
        invariant
            i <= analysis.auto_resolved.len(),
            merged.wf(),
            rs == resolved_views(analysis.auto_resolved@),
            merged@ == apply_resolved(base, rs.subrange(0, i as int)),
        decreases analysis.auto_resolved.len() - i,
    {
        let e = &analysis.auto_resolved[i];
        set_file(&mut merged, &e.path, e.blob_hash, e.mode);
        proof {
            let t = rs.subrange(0, i + 1);
            assert(t.drop_last() =~= rs.subrange(0, i as int));
            assert(t.last() == e@);
        }
        i += 1;
    }
    assert(rs.subrange(0, i as int) =~= rs);
    let ghost plain = merged@;
    let mut i: usize = 0;
    assert(cs.subrange(0, 0) =~= Seq::empty());
    while i < analysis.conflicts.len()
        invariant
            i <= analysis.conflicts.len(),
            store.wf(),
            merged.wf(),
            resolutions.wf(),
            res == resolutions@,
            cs == conflict_views(analysis.conflicts@),
            forall|j: int| 0 <= j < cs.len() ==> res.contains_key((#[trigger] cs[j]).path),
            merged@ == apply_decisions(plain, cs.subrange(0, i as int), res),
            store@ == put_merged(start, cs.subrange(0, i as int), res),
        decreases analysis.conflicts.len() - i,
    {
        let c = &analysis.conflicts[i];
        proof {
            let t = cs.subrange(0, i + 1);
            assert(t.drop_last() =~= cs.subrange(0, i as int));
            assert(t.last() == cs[i as int]);
            assert(cs[i as int] == c@);
            assert(res.contains_key(cs[i as int].path));
        }
        match resolutions.get(c.path.as_str()) {
            Some(ConflictResolution::TakeTarget) => {
                set_file(&mut merged, &c.path, c.target, FILE_MODE);
            },
            Some(ConflictResolution::TakeSandbox) => {
                set_file(&mut merged, &c.path, c.sandbox, FILE_MODE);
            },
            Some(ConflictResolution::TakeBase) => {
                set_file(&mut merged, &c.path, c.base, FILE_MODE);
            },
            Some(ConflictResolution::Merged(content)) => {
                let h: ObjectId = store.write_object(ObjectType::Blob, copy_bytes(content));
                set_file(&mut merged, &c.path, Some(h), FILE_MODE);
            },
            Some(ConflictResolution::Delete) => {
                set_file(&mut merged, &c.path, None, FILE_MODE);
            },
            None => {},
        }
        i += 1;
    }
    assert(cs.subrange(0, i as int) =~= cs);
    let entries = merged_entries(&merged);
    let ghost fs = entry_files(entry_views(entries@));
    assert(lists_files(fs, merged_files(*analysis, res)));
    let merged_tree_hash: ObjectId = TreeBuilder::build_from_files(store, &entries);
    let mut parents: Vec<ObjectId> = Vec::new();
    parents.push(*target_commit_hash);
    parents.push(*sandbox_commit_hash);
    let commit = Commit::new(
        merged_tree_hash,
        parents,
        author.to_owned(),
        message.to_owned(),
        now,
    );
    proof {
        let c = merge_commit(
            fs,
            target_commit_hash@,
            sandbox_commit_hash@,
            author@,
            message@,
            now,
        );
        assert(commit@.parents =~= c.parents);
        assert(commit_bytes(commit@) == commit_bytes(c));
    }
    let commit_hash: ObjectId = store.write_object(ObjectType::Commit, commit.to_bytes());
    Ok(
        MergeResult {
            commit_hash,
            merged_tree_hash,
            conflicts_resolved: analysis.conflicts.len(),
            files_changed: analysis.auto_resolved.len() + analysis.conflicts.len(),
        },
    )
}

/// Carrying out one merge twice, with the same decisions, at one time and by one
/// author, gives one tree and one commit, or fails on the same conflict.
pub proof fn merge_is_determined(
    before: Objects,
    after: Objects,
    other_before: Objects,
    other_after: Objects,
    analysis: MergeAnalysis,
    resolutions: Map<Seq<char>, ConflictResolution>,
    target_commit: Seq<u8>,
    sandbox_commit: Seq<u8>,
    author: Seq<char>,
    message: Seq<char>,
    now: u64,
    r: Result<MergeResult, MergeError>,
    other: Result<MergeResult, MergeError>,
)
    requires
        is_executed(
            before,
            after,
            analysis,
            resolutions,
            target_commit,
            sandbox_commit,
            author,
            message,
            now,
            r,
        ),
        is_executed(
            other_before,
            other_after,
            analysis,
            resolutions,
            target_commit,
            sandbox_commit,
            author,
            message,
            now,
            other,
        ),
    ensures
        match r {
            Ok(x) => {
                &&& other matches Ok(y)
                &&& y.merged_tree_hash@ == x.merged_tree_hash@
                &&& y.commit_hash == x.commit_hash
                &&& y.conflicts_resolved == x.conflicts_resolved
                &&& y.files_changed == x.files_changed
            },
            Err(e) => other matches Err(f) && f@ == e@,
        },
{
    let cs = conflict_views(analysis.conflicts@);
    if first_open(cs, resolutions) is None {
        let m = merged_files(analysis, resolutions);
        let x = r->Ok_0;
        let y = other->Ok_0;
        let fs = choose|fs: Seq<FileView>|
            {
                &&& #[trigger] lists_files(fs, m)
                &&& x.merged_tree_hash@ == tree_id(snapshot(fs))
                &&& x.commit_hash == blake3_digest(
                    commit_bytes(
                        merge_commit(fs, target_commit, sandbox_commit, author, message, now),
                    ),
                )
            };
        let gs = choose|gs: Seq<FileView>|
            {
                &&& #[trigger] lists_files(gs, m)
                &&& y.merged_tree_hash@ == tree_id(snapshot(gs))
                &&& y.commit_hash == blake3_digest(
                    commit_bytes(
                        merge_commit(gs, target_commit, sandbox_commit, author, message, now),
                    ),
                )
            };
        snapshot_order_free(fs, gs);
    }
}

/// The first open conflict among some is the first among all.
proof fn lemma_first_open(cs: Seq<ConflictView>, rs: Map<Seq<char>, ConflictResolution>, i: int)
    requires
        0 <= i <= cs.len(),
        first_open(cs.subrange(0, i), rs) is Some,
    ensures
        first_open(cs, rs) == first_open(cs.subrange(0, i), rs),
    decreases cs.len(),
{
    if i == cs.len() {
        assert(cs.subrange(0, i) =~= cs);
    } else {
        assert(cs.drop_last().subrange(0, i) =~= cs.subrange(0, i));
        lemma_first_open(cs.drop_last(), rs, i);
    }
}

/// The file at a path, without its mode.
pub open spec fn hash_at(m: ModeMap, p: Seq<char>) -> Option<ObjectId> {
    if m.contains_key(p) {
        Some(m[p].0)
    } else {
        None
    }
}

/// What a merge leaves at a path: what was decided, where the two sides
/// conflict, and otherwise what the side that changed the path has there.
pub open spec fn merge_outcome(
    b: FileMap,
    t: FileMap,
    s: FileMap,
    rs: Map<Seq<char>, ConflictResolution>,
    p: Seq<char>,
) -> Option<ObjectId> {
    match conflict_at(b, t, s, p) {
        Some(c) => decided(c, rs[p]),
        None => if file_at(t, p) != file_at(b, p) {
            file_at(t, p)
        } else {
            file_at(s, p)
        },
    }
}

proof fn lemma_apply_resolved(m: ModeMap, rs: Seq<ResolvedView>, p: Seq<char>, k: int)
    requires
        forall|i: int, j: int|
            0 <= i < j < rs.len() ==> (#[trigger] rs[i]).path != (#[trigger] rs[j]).path,
        0 <= k <= rs.len(),
        k < rs.len() ==> rs[k].path == p,
        k == rs.len() ==> forall|i: int| 0 <= i < rs.len() ==> (#[trigger] rs[i]).path != p,
    ensures
        hash_at(apply_resolved(m, rs), p) == (if k < rs.len() {
            rs[k].blob_hash
        } else {
            hash_at(m, p)
        }),
        k < rs.len() && rs[k].blob_hash is Some ==> apply_resolved(m, rs)[p].1 == rs[k].mode,
        k == rs.len() && m.contains_key(p) ==> apply_resolved(m, rs)[p] == m[p],
    decreases rs.len(),
{
    if rs.len() > 0 {
        let d = rs.drop_last();
        assert forall|i: int, j: int| 0 <= i < j < d.len() implies (#[trigger] d[i]).path != (
        #[trigger] d[j]).path by {
            assert(d[i] == rs[i] && d[j] == rs[j]);
        }
        if k == rs.len() - 1 {
        } else if k < rs.len() - 1 {
            assert(d[k] == rs[k]);
            assert(rs[k].path != rs[rs.len() - 1].path);
            lemma_apply_resolved(m, d, p, k);
        } else {
            assert forall|i: int| 0 <= i < d.len() implies (#[trigger] d[i]).path != p by {
                assert(d[i] == rs[i]);
            }
            assert(rs[rs.len() - 1].path != p);
            lemma_apply_resolved(m, d, p, d.len() as int);
        }
    }
}

proof fn lemma_apply_decisions(
    m: ModeMap,
    cs: Seq<ConflictView>,
    rs: Map<Seq<char>, ConflictResolution>,
    p: Seq<char>,
    k: int,
)
    requires
        forall|i: int, j: int|
            0 <= i < j < cs.len() ==> (#[trigger] cs[i]).path != (#[trigger] cs[j]).path,
        0 <= k <= cs.len(),
        k < cs.len() ==> cs[k].path == p,
        k == cs.len() ==> forall|i: int| 0 <= i < cs.len() ==> (#[trigger] cs[i]).path != p,
    ensures
        hash_at(apply_decisions(m, cs, rs), p) == (if k < cs.len() {
            decided(cs[k], rs[p])
        } else {
            hash_at(m, p)
        }),
        k < cs.len() && decided(cs[k], rs[p]) is Some ==> apply_decisions(m, cs, rs)[p].1
            == FILE_MODE,
        k == cs.len() && m.contains_key(p) ==> apply_decisions(m, cs, rs)[p] == m[p],
    decreases cs.len(),
{
    if cs.len() > 0 {
        let d = cs.drop_last();
        assert forall|i: int, j: int| 0 <= i < j < d.len() implies (#[trigger] d[i]).path != (
        #[trigger] d[j]).path by {
            assert(d[i] == cs[i] && d[j] == cs[j]);
        }
        if k == cs.len() - 1 {
        } else if k < cs.len() - 1 {
            assert(d[k] == cs[k]);
            assert(cs[k].path != cs[cs.len() - 1].path);
            lemma_apply_decisions(m, d, rs, p, k);
        } else {
            assert forall|i: int| 0 <= i < d.len() implies (#[trigger] d[i]).path != p by {
                assert(d[i] == cs[i]);
            }
            assert(cs[cs.len() - 1].path != p);
            lemma_apply_decisions(m, d, rs, p, d.len() as int);
        }
    }
}

/// What a merge leaves at each path: what was decided where the two sides
/// conflict, and otherwise what the side that changed the path has there.
pub proof fn merge_leaves(
    a: MergeAnalysis,
    b: FileMap,
    t: FileMap,
    s: FileMap,
    rs: Map<Seq<char>, ConflictResolution>,
    p: Seq<char>,
)
    requires
        is_analysis(a, b, t, s),
    ensures
        hash_at(merged_files(a, rs), p) == merge_outcome(b, t, s, rs, p),
        merged_files(a, rs).contains_key(p) ==> merged_files(a, rs)[p].1 == FILE_MODE,
{
    let cs = conflict_views(a.conflicts@);
    let autos = resolved_views(a.auto_resolved@);
    let base = a.base_tree@;
    assert(base.dom() =~= b.dom());
    let plain = apply_resolved(base, autos);
    match resolved_at(b, t, s, p) {
        Some(r) => {
            assert(autos.contains(r));
            let k = choose|k: int| 0 <= k < autos.len() && autos[k] == r;
            lemma_apply_resolved(base, autos, p, k);
        },
        None => {
            assert forall|i: int| 0 <= i < autos.len() implies (#[trigger] autos[i]).path != p by {
                assert(autos.contains(autos[i]));
            }
            lemma_apply_resolved(base, autos, p, autos.len() as int);
        },
    }
    match conflict_at(b, t, s, p) {
        Some(c) => {
            assert(cs.contains(c));
            let k = choose|k: int| 0 <= k < cs.len() && cs[k] == c;
            lemma_apply_decisions(plain, cs, rs, p, k);
        },
        None => {
            assert forall|i: int| 0 <= i < cs.len() implies (#[trigger] cs[i]).path != p by {
                assert(cs.contains(cs[i]));
            }
            lemma_apply_decisions(plain, cs, rs, p, cs.len() as int);
        },
    }
}

/// Where only one side differs from the common ancestor, there is no conflict,
/// and the merge has that side's files.
pub proof fn one_sided_merge(
    b: FileMap,
    t: FileMap,
    s: FileMap,
    rs: Map<Seq<char>, ConflictResolution>,
    p: Seq<char>,
)
    ensures
        t == b ==> conflict_at(b, t, s, p) is None && merge_outcome(b, t, s, rs, p) == file_at(
            s,
            p,
        ),
        s == b ==> conflict_at(b, t, s, p) is None && merge_outcome(b, t, s, rs, p) == file_at(
            t,
            p,
        ),
        t == s ==> conflict_at(b, t, s, p) is None && merge_outcome(b, t, s, rs, p) == file_at(
            t,
            p,
        ),
{
}

/// The two sides conflict at the same paths whichever of them is the target,
/// and outside conflicts the outcome is the same.
pub proof fn merge_is_symmetric(
    b: FileMap,
    t: FileMap,
    s: FileMap,
    rs: Map<Seq<char>, ConflictResolution>,
    p: Seq<char>,
)
    ensures
        conflict_at(b, t, s, p) is Some <==> conflict_at(b, s, t, p) is Some,
        conflict_at(b, t, s, p) is None ==> merge_outcome(b, t, s, rs, p) == merge_outcome(
            b,
            s,
            t,
            rs,
            p,
        ),
        (conflict_at(b, t, s, p) matches Some(c) ==> conflict_at(b, s, t, p) matches Some(d)
            && c.conflict_type == d.conflict_type),
{
}

/// No path is both in conflict and resolved, and a path that neither side
/// changed is neither.
pub proof fn conflict_or_resolved(b: FileMap, t: FileMap, s: FileMap, p: Seq<char>)
    ensures
        !(conflict_at(b, t, s, p) is Some && resolved_at(b, t, s, p) is Some),
        (conflict_at(b, t, s, p) is Some || resolved_at(b, t, s, p) is Some) <==> (file_at(t, p)
            != file_at(b, p) || file_at(s, p) != file_at(b, p)),
{
}

/// Whether bytes end with a line feed.
pub open spec fn ends_line(b: Seq<u8>) -> bool {
    b.len() > 0 && b.last() == 10
}

/// Bytes up to the end of a line.
pub open spec fn as_lines(b: Seq<u8>) -> Seq<u8> {
    if ends_line(b) {
        b
    } else {
        b.push(10)
    }
}

/// A file with both sides of a conflict, and the common ancestor between them
/// if there is one.
pub open spec fn marked(
    target: Seq<u8>,
    base: Option<Seq<u8>>,
    sandbox: Seq<u8>,
    target_name: Seq<char>,
    sandbox_name: Seq<char>,
) -> Seq<u8> {
    encode_utf8("<<<<<<< "@ + target_name + " (target)\n"@) + as_lines(target) + (match base {
        Some(b) => encode_utf8("||||||| base\n"@) + as_lines(b),
        None => Seq::empty(),
    }) + encode_utf8("=======\n"@) + as_lines(sandbox) + encode_utf8(
        ">>>>>>> "@ + sandbox_name + " (sandbox)\n"@,
    )
}

fn push_as_lines(r: &mut Vec<u8>, b: &[u8])
    ensures
        final(r)@ == old(r)@ + as_lines(b@),
{
    crate::codec::push_bytes(r, b);
    if b.len() == 0 || b[b.len() - 1] != 10 {
        r.push(10);
        assert(r@ =~= old(r)@ + b@.push(10));
    }
}

fn push_text(r: &mut Vec<u8>, s: &str)
    ensures
        final(r)@ == old(r)@ + encode_utf8(s@),
{
    crate::codec::push_bytes(r, s.as_bytes());
}

/// The blob with this hash, or nothing where there is no hash.
pub open spec fn blob_or_none(m: Objects, h: Option<ObjectId>) -> Result<Option<Seq<u8>>, ObjectId> {
    match h {
        None => Ok(None),
        Some(id) => if m.contains_key((ObjectType::Blob, id@)) {
            Ok(Some(m[(ObjectType::Blob, id@)]))
        } else {
            Err(id)
        },
    }
}

fn read_blob(store: &ObjectStore, h: Option<ObjectId>) -> (r: Result<Option<Vec<u8>>, ObjectId>)
    requires
        store.wf(),
    ensures
        match blob_or_none(store@, h) {
            Ok(None) => r matches Ok(None),
            Ok(Some(d)) => r matches Ok(Some(v)) && v@ == d,
            Err(id) => r matches Err(e) && e == id,
        },
{
    match h {
        None => Ok(None),
        Some(id) => match store.read_object(ObjectType::Blob, &id) {
            Some(d) => Ok(Some(copy_bytes(d))),
            None => Err(id),
        },
    }
}

/// The bytes, or none.
pub open spec fn bytes_or_empty(b: Option<Seq<u8>>) -> Seq<u8> {
    match b {
        Some(d) => d,
        None => Seq::empty(),
    }
}

/// A file with both sides of a conflict marked. The error is the hash of a blob
/// that is not in the store.
pub fn generate_conflict_markers(
    store: &ObjectStore,
    conflict: &MergeConflict,
    target_name: &str,
    sandbox_name: &str,
) -> (r: Result<Vec<u8>, ObjectId>)
    requires
        store.wf(),
    ensures
        match (
            blob_or_none(store@, conflict.target),
            blob_or_none(store@, conflict.sandbox),
            blob_or_none(store@, conflict.base),
        ) {
            (Err(id), _, _) => r matches Err(e) && e == id,
            (Ok(_), Err(id), _) => r matches Err(e) && e == id,
            (Ok(_), Ok(_), Err(id)) => r matches Err(e) && e == id,
            (Ok(t), Ok(s), Ok(b)) => r matches Ok(v) && v@ == marked(
                bytes_or_empty(t),
                b,
                bytes_or_empty(s),
                target_name@,
                sandbox_name@,
            ),
        },
{
    let target: Vec<u8> = match read_blob(store, conflict.target) {
        Ok(Some(v)) => v,
        Ok(None) => Vec::new(),
        Err(id) => return Err(id),
    };
    let sandbox: Vec<u8> = match read_blob(store, conflict.sandbox) {
        Ok(Some(v)) => v,
        Ok(None) => Vec::new(),
        Err(id) => return Err(id),
    };
    let base: Option<Vec<u8>> = match read_blob(store, conflict.base) {
        Ok(v) => v,
        Err(id) => return Err(id),
    };
    let mut r: Vec<u8> = Vec::new();
    let mut open: String = "<<<<<<< ".to_owned();
    open.append(target_name);
    open.append(" (target)\n");
    push_text(&mut r, open.as_str());
    push_as_lines(&mut r, target.as_slice());
    let ghost g: Option<Seq<u8>> = if base is Some {
        Some(base->0@)
    } else {
        None
    };
    match &base {
        Some(v) => {
            push_text(&mut r, "||||||| base\n");
            push_as_lines(&mut r, v.as_slice());
        },
        None => {},
    }
    push_text(&mut r, "=======\n");
    push_as_lines(&mut r, sandbox.as_slice());
    let mut close: String = ">>>>>>> ".to_owned();
    close.append(sandbox_name);
    close.append(" (sandbox)\n");
    push_text(&mut r, close.as_str());
    assert(r@ =~= marked(target@, g, sandbox@, target_name@, sandbox_name@));
    Ok(r)
}

} // verus!
