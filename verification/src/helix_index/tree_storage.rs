//! Storing trees, in memory by their hash and packed for the disk.
use vstd::prelude::*;
use vstd::string::*;

use crate::hash::{decoded_hash, hash_to_hex, hex_text, hex_to_hash, ObjectId};
use crate::helix_index::tree::{
    parse_tree, tree_bytes, tree_id, tree_round_trip, tree_storable, Tree, TreeEntryView, TreeError,
};
use crate::helix_index::tree_walk::{tree_at, WalkError, WalkFault};
use crate::object_store::{put_object, ObjectStore, ObjectType, Objects};
use crate::path::{join, join_spec};

verus! {

/// The Zstandard frame of `data` at a compression level.
pub uninterp spec fn zstd_frame(data: Seq<u8>, level: int) -> Seq<u8>;

/// The data that the Zstandard frames `b` hold, if they are well formed.
pub uninterp spec fn zstd_content(b: Seq<u8>) -> Option<Seq<u8>>;

/// Calls `zstd::encode_all`: the frame is a function of the data and the level,
/// and it holds the data. Left unsaid is when the call fails, which is for want
/// of memory.
#[verifier::external_body]
pub(crate) fn zstd_encode(data: &[u8], level: i32) -> (r: Result<Vec<u8>, String>)
    ensures
        r matches Ok(c) ==> c@ == zstd_frame(data@, level as int) && zstd_content(c@) == Some(data@),
{
    zstd::encode_all(data, level).map_err(|e| e.to_string())
}

/// Calls `zstd::decode_all`: it gives the data that the frames hold. Left unsaid
/// is that it succeeds on every well-formed input, since it may fail for want of
/// memory.
#[verifier::external_body]
pub(crate) fn zstd_decode(frame: &[u8]) -> (r: Result<Vec<u8>, String>)
    ensures
        r matches Ok(d) ==> zstd_content(frame@) == Some(d@),
{
    zstd::decode_all(frame).map_err(|e| e.to_string())
}

/// The compression level of stored trees.
pub const TREE_LEVEL: i32 = 3;

/// Why a tree file cannot be read.
#[derive(Debug, Clone, PartialEq, Eq)]
pub enum UnpackError {
    /// The file cannot be decompressed.
    Compression(String),
    /// The contents are not a tree.
    Tree(TreeError),
}

/// The hash of a tree and the contents of its file.
pub fn pack_tree(tree: &Tree) -> (r: Result<(ObjectId, Vec<u8>), String>)
    ensures
        r matches Ok((h, c)) ==> {
            &&& h@ == tree_id(tree@)
            &&& c@ == zstd_frame(tree_bytes(tree@), TREE_LEVEL as int)
            &&& zstd_content(c@) == Some(tree_bytes(tree@))
        },
{
    let b = tree.to_bytes();
    packed_tree(tree, zstd_encode(b.as_slice(), TREE_LEVEL))
}

/// The hash of a tree and the contents of its file, once its bytes have been
/// compressed. It fails where the compression failed, with the same words, and
/// only there.
pub fn packed_tree(tree: &Tree, compressed: Result<Vec<u8>, String>) -> (r: Result<
    (ObjectId, Vec<u8>),
    String,
>)
    ensures
        match compressed {
            Ok(c) => r matches Ok((h, file)) && h@ == tree_id(tree@) && file == c,
            Err(e) => r == Err::<(ObjectId, Vec<u8>), String>(e),
        },
{
    match compressed {
        Ok(c) => {
            let h: ObjectId = tree.hash();
            Ok((h, c))
        },
        Err(e) => Err(e),
    }
}

/// What the file of a tree holds, once it has been decompressed.
pub fn tree_of_content(content: Result<Vec<u8>, String>) -> (r: Result<Tree, UnpackError>)
    ensures
        match content {
            Err(e) => r == Err::<Tree, UnpackError>(UnpackError::Compression(e)),
            Ok(d) => match parse_tree(d@) {
                Ok(es) => r matches Ok(t) && t@ == es,
                Err(f) => r == Err::<Tree, UnpackError>(UnpackError::Tree(f)),
            },
        },
{
    match content {
        Err(e) => Err(UnpackError::Compression(e)),
        Ok(d) => match Tree::from_bytes(d.as_slice()) {
            Ok(t) => Ok(t),
            Err(e) => Err(UnpackError::Tree(e)),
        },
    }
}

/// Reads the file of a tree.
pub fn unpack_tree(file: &[u8]) -> (r: Result<Tree, UnpackError>)
    ensures
        match r {
            Ok(t) => zstd_content(file@) matches Some(d) && parse_tree(d) == Ok::<
                Seq<TreeEntryView>,
                TreeError,
            >(t@),
            Err(UnpackError::Tree(f)) => zstd_content(file@) matches Some(d) && parse_tree(d)
                == Err::<Seq<TreeEntryView>, TreeError>(f),
            Err(UnpackError::Compression(_)) => true,
        },
{
    tree_of_content(zstd_decode(file))
}

/// Reading the file of a tree gives the tree back: a file that holds the bytes
/// of the tree is read as that tree, and as no other.
pub proof fn packed_tree_round_trip(es: Seq<TreeEntryView>, file: Seq<u8>)
    requires
        tree_storable(es),
        zstd_content(file) == Some(tree_bytes(es)),
    ensures
        zstd_content(file) matches Some(d) && parse_tree(d) == Ok::<Seq<TreeEntryView>, TreeError>(
            es,
        ),
{
    tree_round_trip(es);
}

/// The hash that a file in the directory of trees is named after: sixty-four
/// hexadecimal digits.
pub fn tree_of_filename(name: &str) -> (r: Option<ObjectId>)
    ensures
        match r {
            Some(h) => name.spec_bytes().len() == 64 && decoded_hash(name.spec_bytes()) == Ok::<
                Seq<u8>,
                crate::hash::HexError,
            >(h@),
            None => name.spec_bytes().len() != 64 || decoded_hash(name.spec_bytes()) is Err,
        },
{
    if name.as_bytes().len() != 64 {
        return None;
    }
    match hex_to_hash(name) {
        Ok(h) => Some(h),
        Err(_) => None,
    }
}

/// The trees of a repository.
#[derive(Debug)]
pub struct TreeStorage {
    pub store: ObjectStore,
}

/// What a store holds after several trees have been written to it.
pub open spec fn put_all_trees(m: Objects, trees: Seq<Tree>) -> Objects
    decreases trees.len(),
{
    if trees.len() == 0 {
        m
    } else {
        put_object(
            put_all_trees(m, trees.drop_last()),
            ObjectType::Tree,
            tree_bytes(trees.last()@),
        )
    }
}

/// What a store holds after several trees have been deleted from it.
pub open spec fn delete_all_trees(m: Objects, hashes: Seq<ObjectId>) -> Objects
    decreases hashes.len(),
{
    if hashes.len() == 0 {
        m
    } else {
        delete_all_trees(m, hashes.drop_last()).remove((ObjectType::Tree, hashes.last()@))
    }
}

impl TreeStorage {
    /// No two objects have one key.
    pub open spec fn wf(&self) -> bool {
        self.store.wf()
    }

    /// A storage without trees.
    pub fn new() -> (s: TreeStorage)
        ensures
            s.wf(),
            s.store@ == crate::object_store::no_objects(),
    {
        TreeStorage { store: ObjectStore::new() }
    }

    /// The path of the file of a tree, below the directory of trees.
    pub fn tree_path(trees_dir: &str, hash: &ObjectId) -> (p: String)
        ensures
            p@ == join_spec(trees_dir@, hex_text(hash@)),
    {
        let hex = hash_to_hex(hash);
        join(trees_dir, hex.as_str())
    }

    /// Writes a tree and gives its hash. A tree that is there already is kept.
    pub fn write(&mut self, tree: &Tree) -> (h: ObjectId)
        requires
            old(self).wf(),
        ensures
            final(self).wf(),
            h@ == tree_id(tree@),
            final(self).store@ == put_object(
                old(self).store@,
                ObjectType::Tree,
                tree_bytes(tree@),
            ),
    {
        self.store.write_object(ObjectType::Tree, tree.to_bytes())
    }

    /// The tree with this hash.
    pub fn read(&self, hash: &ObjectId) -> (r: Result<Tree, WalkError>)
        requires
            self.wf(),
        ensures
            match tree_at(self.store@, hash@) {
                Ok(es) => r matches Ok(t) && t@ == es,
                Err(f) => r matches Err(e) && e@ == f,
            },
    {
        match self.store.read_object(ObjectType::Tree, hash) {
            None => Err(WalkError::Missing(*hash)),
            Some(d) => match Tree::from_bytes(d.as_slice()) {
                Ok(t) => Ok(t),
                Err(e) => Err(WalkError::Damaged(e)),
            },
        }
    }

    /// Whether there is a tree with this hash.
    pub fn tree_exists(&self, hash: &ObjectId) -> (r: bool)
        requires
            self.wf(),
        ensures
            r == self.store@.contains_key((ObjectType::Tree, hash@)),
    {
        self.store.has_object(ObjectType::Tree, hash)
    }

    /// Removes a tree, if it is there.
    pub fn delete(&mut self, hash: &ObjectId)
        requires
            old(self).wf(),
        ensures
            final(self).wf(),
            final(self).store@ == old(self).store@.remove((ObjectType::Tree, hash@)),
    {
        self.store.delete_object(ObjectType::Tree, hash)
    }

    /// The hashes of all trees.
    pub fn list_all(&self) -> (r: Vec<ObjectId>)
        requires
            self.wf(),
        ensures
            forall|i: int|
                0 <= i < r@.len() ==> self.store@.contains_key(
                    (ObjectType::Tree, (#[trigger] r@[i])@),
                ),
            forall|k: Seq<u8>|
                self.store@.contains_key((ObjectType::Tree, k)) ==> exists|i: int|
                    0 <= i < r@.len() && (#[trigger] r@[i])@ == k,
            forall|i: int, j: int|
                0 <= i < j < r@.len() ==> (#[trigger] r@[i])@ != (#[trigger] r@[j])@,
    {
        self.store.list_object_hashes(ObjectType::Tree)
    }

    /// Writes several trees and gives their hashes.
    pub fn write_batch(&mut self, trees: &Vec<Tree>) -> (r: Vec<ObjectId>)
        requires
            old(self).wf(),
        ensures
            final(self).wf(),
            r@.len() == trees@.len(),
            forall|i: int| 0 <= i < r@.len() ==> (#[trigger] r@[i])@ == tree_id(trees@[i]@),
            final(self).store@ == put_all_trees(old(self).store@, trees@),
    {
        let mut r: Vec<ObjectId> = Vec::new();
        let mut i: usize = 0;
        while i < trees.len()
            invariant
                i <= trees.len(),
                self.wf(),
                r@.len() == i,
                forall|j: int| 0 <= j < i ==> (#[trigger] r@[j])@ == tree_id(trees@[j]@),
                self.store@ == put_all_trees(old(self).store@, trees@.subrange(0, i as int)),
            decreases trees.len() - i,
        {
            let h: ObjectId = self.write(&trees[i]);
            r.push(h);
            proof {
                let t = trees@.subrange(0, i + 1);
                assert(t.drop_last() =~= trees@.subrange(0, i as int));
                assert(t.last() == trees@[i as int]);
            }
            i += 1;
        }
        assert(trees@.subrange(0, i as int) =~= trees@);
        r
    }

    /// The trees with these hashes, or the error of the first that cannot be
    /// read.
    pub fn read_batch(&self, hashes: &Vec<ObjectId>) -> (r: Result<Vec<Tree>, WalkError>)
        requires
            self.wf(),
        ensures
            match r {
                Ok(v) => v@.len() == hashes@.len() && forall|i: int|
                    0 <= i < v@.len() ==> tree_at(self.store@, hashes@[i]@) == Ok::<
                        Seq<TreeEntryView>,
                        WalkFault,
                    >((#[trigger] v@[i])@),
                Err(e) => exists|k: int|
                    {
                        &&& 0 <= k < hashes@.len()
                        &&& tree_at(self.store@, (#[trigger] hashes@[k])@) == Err::<
                            Seq<TreeEntryView>,
                            WalkFault,
                        >(e@)
                        &&& forall|i: int|
                            0 <= i < k ==> tree_at(self.store@, (#[trigger] hashes@[i])@) is Ok
                    },
            },
    {
        let mut v: Vec<Tree> = Vec::new();
        let mut i: usize = 0;
        while i < hashes.len()
            invariant
                i <= hashes.len(),
                self.wf(),
                v@.len() == i,
                forall|j: int|
                    0 <= j < i ==> tree_at(self.store@, hashes@[j]@) == Ok::<
                        Seq<TreeEntryView>,
                        WalkFault,
                    >((#[trigger] v@[j])@),
            decreases hashes.len() - i,
        {
            match self.read(&hashes[i]) {
                Ok(t) => v.push(t),
                Err(e) => {
                    assert forall|j: int| 0 <= j < i implies tree_at(
                        self.store@,
                        (#[trigger] hashes@[j])@,
                    ) is Ok by {
                        assert(v@[j]@ == v@[j]@);
                    }
                    return Err(e);
                },
            }
            i += 1;
        }
        Ok(v)
    }

    /// For each hash, whether there is a tree with it.
    pub fn exists_batch(&self, hashes: &Vec<ObjectId>) -> (r: Vec<bool>)
        requires
            self.wf(),
        ensures
            r@.len() == hashes@.len(),
            forall|i: int|
                0 <= i < r@.len() ==> #[trigger] r@[i] == self.store@.contains_key(
                    (ObjectType::Tree, hashes@[i]@),
                ),
    {
        let mut r: Vec<bool> = Vec::new();
        let mut i: usize = 0;
        while i < hashes.len()
            invariant
                i <= hashes.len(),
                self.wf(),
                r@.len() == i,
                forall|j: int|
                    0 <= j < i ==> #[trigger] r@[j] == self.store@.contains_key(
                        (ObjectType::Tree, hashes@[j]@),
                    ),
            decreases hashes.len() - i,
        {
            r.push(self.tree_exists(&hashes[i]));
            i += 1;
        }
        r
    }

    /// Removes several trees.
    pub fn delete_batch(&mut self, hashes: &Vec<ObjectId>)
        requires
            old(self).wf(),
        ensures
            final(self).wf(),
            final(self).store@ == delete_all_trees(old(self).store@, hashes@),
    {
        let mut i: usize = 0;
        while i < hashes.len()
            invariant
                i <= hashes.len(),
                self.wf(),
                self.store@ == delete_all_trees(old(self).store@, hashes@.subrange(0, i as int)),
            decreases hashes.len() - i,
        {
            self.delete(&hashes[i]);
            proof {
                let t = hashes@.subrange(0, i + 1);
                assert(t.drop_last() =~= hashes@.subrange(0, i as int));
                assert(t.last() == hashes@[i as int]);
            }
            i += 1;
        }
        assert(hashes@.subrange(0, i as int) =~= hashes@);
    }
}

/// A tree that has been written is read back, where no other tree has its hash.
pub proof fn stored_tree_round_trip(m: Objects, es: Seq<TreeEntryView>)
    requires
        tree_storable(es),
        m.contains_key((ObjectType::Tree, tree_id(es))) ==> m[(ObjectType::Tree, tree_id(es))]
            == tree_bytes(es),
    ensures
        tree_at(put_object(m, ObjectType::Tree, tree_bytes(es)), tree_id(es)) == Ok::<
            Seq<TreeEntryView>,
            WalkFault,
        >(es),
{
    tree_round_trip(es);
}

/// A tree that has been deleted is missing.
pub proof fn deleted_tree_is_missing(m: Objects, id: Seq<u8>)
    ensures
        tree_at(m.remove((ObjectType::Tree, id)), id) == Err::<Seq<TreeEntryView>, WalkFault>(
            WalkFault::Missing(id),
        ),
{
}

/// Operations on several trees of one storage.
pub struct TreeBatch<'a> {
    pub storage: &'a mut TreeStorage,
}

impl<'a> TreeBatch<'a> {
    pub fn new(storage: &'a mut TreeStorage) -> (b: TreeBatch<'a>)
        ensures
            *b.storage == *old(storage),
            *final(b.storage) == *final(storage),
    {
        TreeBatch { storage }
    }

    /// Writes several trees.
    pub fn write_all(&mut self, trees: &Vec<Tree>) -> (r: Vec<ObjectId>)
        requires
            old(self).storage.wf(),
        ensures
            final(self).storage.wf(),
            r@.len() == trees@.len(),
            forall|i: int| 0 <= i < r@.len() ==> (#[trigger] r@[i])@ == tree_id(trees@[i]@),
            final(self).storage.store@ == put_all_trees(old(self).storage.store@, trees@),
    {
        self.storage.write_batch(trees)
    }

    /// The trees with these hashes, or the error of the first that cannot be
    /// read.
    pub fn read_all(&self, hashes: &Vec<ObjectId>) -> (r: Result<Vec<Tree>, WalkError>)
        requires
            self.storage.wf(),
        ensures
            match r {
                Ok(v) => v@.len() == hashes@.len() && forall|i: int|
                    0 <= i < v@.len() ==> tree_at(old(self.storage).store@, hashes@[i]@) == Ok::<
                        Seq<TreeEntryView>,
                        WalkFault,
                    >((#[trigger] v@[i])@),
                Err(e) => exists|k: int|
                    {
                        &&& 0 <= k < hashes@.len()
                        &&& tree_at(old(self.storage).store@, (#[trigger] hashes@[k])@) == Err::<
                            Seq<TreeEntryView>,
                            WalkFault,
                        >(e@)
                        &&& forall|i: int|
                            0 <= i < k ==> tree_at(
                                old(self.storage).store@,
                                (#[trigger] hashes@[i])@,
                            ) is Ok
                    },
            },
    {
        self.storage.read_batch(hashes)
    }

    /// For each hash, whether there is a tree with it.
    pub fn exists_all(&self, hashes: &Vec<ObjectId>) -> (r: Vec<bool>)
        requires
            self.storage.wf(),
        ensures
            r@.len() == hashes@.len(),
            forall|i: int|
                0 <= i < r@.len() ==> #[trigger] r@[i] == old(self.storage).store@.contains_key(
                    (ObjectType::Tree, hashes@[i]@),
                ),
    {
        self.storage.exists_batch(hashes)
    }

    /// Removes several trees.
    pub fn delete_all(&mut self, hashes: &Vec<ObjectId>)
        requires
            old(self).storage.wf(),
        ensures
            final(self).storage.wf(),
            final(self).storage.store@ == delete_all_trees(old(self).storage.store@, hashes@),
    {
        self.storage.delete_batch(hashes)
    }
}

} // verus!
