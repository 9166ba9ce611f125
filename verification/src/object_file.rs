//! The files that objects are kept in: blobs are compressed, trees and commits are not.
use vstd::prelude::*;

use crate::helix_index::tree_storage::{zstd_content, zstd_decode, zstd_encode, zstd_frame};
use crate::object_store::ObjectType;

verus! {

/// The compression level of blobs.
pub const BLOB_LEVEL: i32 = 3;

/// Whether a file holds an object: a blob as a frame, any other as it is.
pub open spec fn file_holds(kind: ObjectType, file: Seq<u8>, data: Seq<u8>) -> bool {
    if kind == ObjectType::Blob {
        zstd_content(file) == Some(data)
    } else {
        file == data
    }
}

/// The contents of the file of an object. Compressing a blob may fail; the file of any
/// other object is its bytes.
pub fn object_file(kind: ObjectType, data: Vec<u8>) -> (r: Result<Vec<u8>, String>)
    ensures
        kind != ObjectType::Blob ==> r is Ok,
        r matches Ok(file) ==> file_holds(kind, file@, data@),
        kind == ObjectType::Blob ==> (r matches Ok(file) ==> file@ == zstd_frame(
            data@,
            BLOB_LEVEL as int,
        )),
{
    match kind {
        ObjectType::Blob => zstd_encode(data.as_slice(), BLOB_LEVEL),
        _ => Ok(data),
    }
}

/// The object that a file holds. A file of a blob that is no frame fails.
pub fn object_of_file(kind: ObjectType, file: Vec<u8>) -> (r: Result<Vec<u8>, String>)
    ensures
        kind != ObjectType::Blob ==> r is Ok,
        r matches Ok(data) ==> file_holds(kind, file@, data@),
{
    match kind {
        ObjectType::Blob => zstd_decode(file.as_slice()),
        _ => Ok(file),
    }
}

/// A file holds one object: what is read is what was written.
pub proof fn file_holds_one_object(kind: ObjectType, file: Seq<u8>, a: Seq<u8>, b: Seq<u8>)
    requires
        file_holds(kind, file, a),
        file_holds(kind, file, b),
    ensures
        a == b,
{
}

} // verus!
