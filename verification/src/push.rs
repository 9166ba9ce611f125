//! Sending everything that a repository has.
use vstd::prelude::*;
use vstd::string::*;
use vstd::utf8::*;

use crate::hash::{decoded_hash, hash_to_hex, hex_text, hex_to_hash, HexError, ObjectId};
use crate::object_store::{ObjectType, StoredObject};
use crate::rpc::{object_view, object_views, ObjectView};
use crate::text::{trim, trim_spec};

verus! {

/// How to push.
#[derive(Debug, Clone, Copy, PartialEq, Eq)]
pub struct PushOptions {
    pub verbose: bool,
    pub dry_run: bool,
    pub force: bool,
}

impl Default for PushOptions {
    fn default() -> (o: PushOptions)
        ensures
            !o.verbose && !o.dry_run && !o.force,
    {
        PushOptions { verbose: false, dry_run: false, force: false }
    }
}

/// A file of a directory of objects.
#[derive(Debug, Clone, PartialEq, Eq)]
pub struct ObjectFile {
    pub name: String,
    pub data: Vec<u8>,
}

/// The objects in the files of a directory, which are named by their hashes. A
/// file with another name ends it.
pub open spec fn objects_in(files: Seq<ObjectFile>, kind: ObjectType) -> Result<
    Seq<ObjectView>,
    HexError,
>
    decreases files.len(),
{
    if files.len() == 0 {
        Ok(Seq::empty())
    } else {
        match objects_in(files.drop_last(), kind) {
            Err(e) => Err(e),
            Ok(before) => match decoded_hash(encode_utf8(trim_spec(files.last().name@))) {
                Err(e) => Err(e),
                Ok(h) => Ok(before.push((kind, h, files.last().data@))),
            },
        }
    }
}

/// A fault of the first files is one of all files.
proof fn lemma_fault_stays(files: Seq<ObjectFile>, kind: ObjectType, i: int)
    requires
        0 <= i <= files.len(),
        objects_in(files.subrange(0, i), kind) is Err,
    ensures
        objects_in(files, kind) == objects_in(files.subrange(0, i), kind),
    decreases files.len() - i,
{
    if i < files.len() {
        let t = files.subrange(0, i + 1);
        assert(t.drop_last() =~= files.subrange(0, i));
        lemma_fault_stays(files, kind, i + 1);
    } else {
        assert(files.subrange(0, i) =~= files);
    }
}

/// The objects in the files of a directory, which are named by their hashes.
pub fn load_objects(files: Vec<ObjectFile>, kind: ObjectType) -> (r: Result<
    Vec<StoredObject>,
    HexError,
>)
    ensures
        match objects_in(files@, kind) {
            Ok(os) => r matches Ok(v) && object_views(v@) == os,
            Err(f) => r matches Err(e) && e == f,
        },
{
    let ghost fs = files@;
    let mut v: Vec<StoredObject> = Vec::new();
    assert(object_views(v@) =~= Seq::empty());
    assert(fs.subrange(0, 0) =~= Seq::empty());
    for f in it: files
        invariant
            it.seq() == fs,
            objects_in(fs.subrange(0, it.index() as int), kind) == Ok::<Seq<ObjectView>, HexError>(
                object_views(v@),
            ),
    {
        let ghost before = object_views(v@);
        proof {
            let t = fs.subrange(0, it.index() + 1);
            assert(t.drop_last() =~= fs.subrange(0, it.index() as int));
            assert(t.last() == f);
        }
        let name = trim(f.name.as_str());
        match hex_to_hash(name.as_str()) {
            Ok(hash) => {
                let o = StoredObject { kind, hash, data: f.data };
                v.push(o);
                assert(object_views(v@) =~= before.push(object_view(o)));
            },
            Err(e) => {
                proof {
                    lemma_fault_stays(fs, kind, it.index() + 1);
                }
                return Err(e);
            },
        }
    }
    assert(fs.subrange(0, fs.len() as int) =~= fs);
    Ok(v)
}

/// Everything that a repository has: its commits, then its trees, then its blobs.
pub open spec fn frontier(
    commits: Seq<ObjectFile>,
    trees: Seq<ObjectFile>,
    blobs: Seq<ObjectFile>,
) -> Result<Seq<ObjectView>, HexError> {
    match objects_in(commits, ObjectType::Commit) {
        Err(e) => Err(e),
        Ok(a) => match objects_in(trees, ObjectType::Tree) {
            Err(e) => Err(e),
            Ok(b) => match objects_in(blobs, ObjectType::Blob) {
                Err(e) => Err(e),
                Ok(c) => Ok(a + b + c),
            },
        },
    }
}

/// Everything that a repository has: its commits, then its trees, then its blobs,
/// from the files of their directories.
pub fn compute_push_frontier(
    commits: Vec<ObjectFile>,
    trees: Vec<ObjectFile>,
    blobs: Vec<ObjectFile>,
) -> (r: Result<Vec<StoredObject>, HexError>)
    ensures
        match frontier(commits@, trees@, blobs@) {
            Ok(os) => r matches Ok(v) && object_views(v@) == os,
            Err(f) => r matches Err(e) && e == f,
        },
{
    let mut out = match load_objects(commits, ObjectType::Commit) {
        Ok(v) => v,
        Err(e) => return Err(e),
    };
    let mut b = match load_objects(trees, ObjectType::Tree) {
        Ok(v) => v,
        Err(e) => return Err(e),
    };
    let mut c = match load_objects(blobs, ObjectType::Blob) {
        Ok(v) => v,
        Err(e) => return Err(e),
    };
    let ghost x = object_views(out@);
    let ghost y = object_views(b@);
    let ghost z = object_views(c@);
    out.append(&mut b);
    out.append(&mut c);
    assert(object_views(out@) =~= x + y + z);
    Ok(out)
}

/// The hash that hexadecimal digits stand for.
pub fn convert_hex_to_hash32(s: &str) -> (r: Result<ObjectId, HexError>)
    ensures
        match decoded_hash(encode_utf8(s@)) {
            Ok(h) => r matches Ok(id) && id@ == h,
            Err(f) => r matches Err(e) && e == f,
        },
{
    hex_to_hash(s)
}

/// The hexadecimal digits of a hash.
pub fn convert_hash32_to_hex32(h: &ObjectId) -> (r: String)
    ensures
        r@ == hex_text(h@),
{
    hash_to_hex(h)
}

} // verus!
