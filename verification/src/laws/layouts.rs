//! Where each field stands in the bytes that are stored.
use vstd::prelude::*;
use vstd::utf8::{encode_utf8, valid_utf8};

use crate::codec::{
    le_bytes, le_value, lemma_le_bytes_len, lemma_le_round_trip, lemma_pow256_values,
};
use crate::hash::sha256_digest;
use crate::helix_index::commit::{commit_bytes, commit_storable, lemma_parents_bytes, CommitView};
use crate::helix_index::format::{
    entry_bytes, entry_round_trip, header_bytes, header_round_trip, holds_entry, holds_header,
    lemma_entry_len, lemma_header_len, EntryView, Header,
};
use crate::helix_index::reader::{index_bytes, lemma_entries_bytes_at, lemma_entries_bytes_len};
use crate::helix_index::snapshot::{
    entry_of_file, files_storable, lemma_dir_names, lemma_snapshot_entry,
};
use crate::helix_index::tree::{
    dir_entry, dir_names, entry_storable, files_below, snapshot, tree_bytes, tree_entry_bytes,
    tree_id, type_of_mode, EntryType, FileView, TreeEntryView,
};
use crate::path::{has_slash, head, lemma_has_slash};
use crate::text::{has_prefix, lemma_first_at};

verus! {

/// The number in two bytes, the low one first.
pub open spec fn number2(b: Seq<u8>, at: int) -> nat {
    b[at] as nat + 0x100 * b[at + 1] as nat
}

/// The number in four bytes, the lowest first.
pub open spec fn number4(b: Seq<u8>, at: int) -> nat {
    b[at] as nat + 0x100 * b[at + 1] as nat + 0x1_0000 * b[at + 2] as nat + 0x100_0000 * b[at
        + 3] as nat
}

/// The number in eight bytes, the lowest first.
pub open spec fn number8(b: Seq<u8>, at: int) -> nat {
    number4(b, at) + 0x1_0000_0000 * number4(b, at + 4)
}

proof fn lemma_next(b: Seq<u8>, at: int, end: int)
    requires
        0 <= at < end <= b.len(),
    ensures
        le_value(b.subrange(at, end)) == b[at] as nat + 256 * le_value(b.subrange(at + 1, end)),
{
    let s = b.subrange(at, end);
    assert(s.subrange(1, s.len() as int) =~= b.subrange(at + 1, end));
}

proof fn lemma_number2(b: Seq<u8>, at: int)
    requires
        0 <= at && at + 2 <= b.len(),
    ensures
        le_value(b.subrange(at, at + 2)) == number2(b, at),
{
    lemma_next(b, at, at + 2);
    lemma_next(b, at + 1, at + 2);
    assert(le_value(b.subrange(at + 2, at + 2)) == 0);
}

proof fn lemma_number4(b: Seq<u8>, at: int)
    requires
        0 <= at && at + 4 <= b.len(),
    ensures
        le_value(b.subrange(at, at + 4)) == number4(b, at),
{
    lemma_next(b, at, at + 4);
    lemma_next(b, at + 1, at + 4);
    lemma_next(b, at + 2, at + 4);
    lemma_next(b, at + 3, at + 4);
    assert(le_value(b.subrange(at + 4, at + 4)) == 0);
}

proof fn lemma_number8(b: Seq<u8>, at: int)
    requires
        0 <= at && at + 8 <= b.len(),
    ensures
        le_value(b.subrange(at, at + 8)) == number8(b, at),
{
    lemma_next(b, at, at + 8);
    lemma_next(b, at + 1, at + 8);
    lemma_next(b, at + 2, at + 8);
    lemma_next(b, at + 3, at + 8);
    lemma_next(b, at + 4, at + 8);
    lemma_next(b, at + 5, at + 8);
    lemma_next(b, at + 6, at + 8);
    lemma_next(b, at + 7, at + 8);
    assert(le_value(b.subrange(at + 8, at + 8)) == 0);
}

/// The header of an index: `HLIX`, the version, the generation, the hash, the number of
/// entries, the two times, and what is set aside.
pub proof fn header_fields(h: Header)
    requires
        h.magic == [72u8, 76u8, 73u8, 88u8],
        h.version == 2,
    ensures
        ({
            let b = header_bytes(h);
            &&& b.len() == 128
            &&& b[0] == 72 && b[1] == 76 && b[2] == 73 && b[3] == 88
            &&& number4(b, 4) == 2
            &&& number8(b, 8) == h.generation
            &&& b.subrange(16, 48) == h.checksum@
            &&& number4(b, 48) == h.entry_count
            &&& number8(b, 52) == h.created_at
            &&& number8(b, 60) == h.last_modified
            &&& b.subrange(68, 128) == h.reserved@
        }),
{
    let b = header_bytes(h);
    assert(h.magic == crate::helix_index::format::MAGIC);
    lemma_header_len(h);
    header_round_trip(h, Seq::empty());
    assert(b + Seq::<u8>::empty() =~= b);
    assert(b.subrange(0, 4)[0] == b[0] && b.subrange(0, 4)[1] == b[1] && b.subrange(0, 4)[2] == b[2]
        && b.subrange(0, 4)[3] == b[3]);
    lemma_number4(b, 4);
    lemma_number8(b, 8);
    lemma_number4(b, 48);
    lemma_number8(b, 52);
    lemma_number8(b, 60);
}

/// Bytes start with a header where there are enough, they start with `HLIX`, and the version
/// is the second.
pub proof fn headers_are_known(b: Seq<u8>)
    ensures
        holds_header(b) <==> b.len() >= 128 && b[0] == 72 && b[1] == 76 && b[2] == 73 && b[3] == 88
            && number4(b, 4) == 2,
{
    if b.len() >= 128 {
        lemma_number4(b, 4);
        let m = b.subrange(0, 4);
        assert(m[0] == b[0] && m[1] == b[1] && m[2] == b[2] && m[3] == b[3]);
        if b[0] == 72 && b[1] == 76 && b[2] == 73 && b[3] == 88 {
            assert(m =~= crate::helix_index::format::MAGIC@);
        }
    }
}

/// An entry of an index: the length of its path, the path, zeros up to 200 bytes, the size, the
/// time, the flags, the hash, the mode, the stage and what is set aside.
pub proof fn entry_fields(e: EntryView)
    requires
        encode_utf8(e.path).len() <= 200,
        e.flags.bits & !0xffffu32 == 0,
    ensures
        ({
            let b = entry_bytes(e);
            let n = encode_utf8(e.path).len() as int;
            &&& b.len() == 296
            &&& number2(b, 0) == n
            &&& b.subrange(2, 2 + n) == encode_utf8(e.path)
            &&& forall|i: int| 2 + n <= i < 202 ==> #[trigger] b[i] == 0
            &&& number8(b, 202) == e.size
            &&& number8(b, 210) == e.mtime_sec
            &&& number4(b, 218) == e.mtime_nsec
            &&& number4(b, 222) == e.flags.bits
            &&& b.subrange(226, 258) == e.oid@
            &&& number4(b, 258) == e.file_mode
            &&& b[262] == e.merge_conflict_stage
            &&& b.subrange(263, 296) == e.reserved@
        }),
{
    let b = entry_bytes(e);
    let p = encode_utf8(e.path);
    lemma_entry_len(e);
    entry_round_trip(e, Seq::empty());
    assert(b + Seq::<u8>::empty() =~= b);
    lemma_le_bytes_len(p.len(), 2);
    lemma_pow256_values();
    lemma_le_round_trip(p.len(), 2);
    assert(b.subrange(0, 2) =~= le_bytes(p.len(), 2));
    lemma_number2(b, 0);
    lemma_number8(b, 202);
    lemma_number8(b, 210);
    lemma_number4(b, 218);
    lemma_number4(b, 222);
    lemma_number4(b, 258);
    assert forall|i: int| 2 + p.len() <= i < 202 implies #[trigger] b[i] == 0 by {}
}

/// Bytes start with an entry where there are enough, the path is not longer than its field and
/// is UTF-8, and no flag above the lowest sixteen is set.
pub proof fn entries_are_known(b: Seq<u8>)
    ensures
        holds_entry(b) <==> b.len() >= 296 && number2(b, 0) <= 200 && valid_utf8(
            b.subrange(2, 2 + number2(b, 0) as int),
        ) && number4(b, 222) < 0x1_0000,
{
    if b.len() >= 296 {
        lemma_number2(b, 0);
        lemma_number4(b, 222);
        crate::codec::lemma_le_value_bound(b.subrange(222, 226));
        lemma_pow256_values();
        let n = number4(b, 222) as u32;
        assert(n & !0xffffu32 == 0 <==> n < 0x1_0000) by (bit_vector);
    }
}

/// An index file: the header, the entries behind each other, and the SHA-256 digest of all
/// that.
pub proof fn index_parts(h: Header, es: Seq<EntryView>)
    requires
        forall|i: int| 0 <= i < es.len() ==> encode_utf8((#[trigger] es[i]).path).len() <= 200,
    ensures
        ({
            let b = index_bytes(h, es);
            &&& b.len() == 128 + 296 * es.len() + 32
            &&& b.subrange(0, 128) == header_bytes(h)
            &&& forall|i: int|
                0 <= i < es.len() ==> b.subrange(128 + 296 * i, 128 + 296 * i + 296)
                    == entry_bytes(#[trigger] es[i])
            &&& b.subrange(b.len() - 32, b.len() as int) == sha256_digest(
                b.subrange(0, b.len() - 32),
            )@
        }),
{
    let b = index_bytes(h, es);
    lemma_header_len(h);
    lemma_entries_bytes_len(es);
    assert(b.subrange(0, 128) =~= header_bytes(h));
    assert forall|i: int| 0 <= i < es.len() implies b.subrange(128 + 296 * i, 128 + 296 * i + 296)
        == entry_bytes(#[trigger] es[i]) by {
        lemma_entries_bytes_at(es, i);
        lemma_entry_len(es[i]);
        assert(b.subrange(128 + 296 * i, 128 + 296 * i + 296) =~= entry_bytes(es[i]));
    }
    let body = b.subrange(0, b.len() - 32);
    assert(body =~= header_bytes(h) + crate::helix_index::reader::entries_bytes(es));
    assert(b.subrange(b.len() - 32, b.len() as int) =~= sha256_digest(body)@);
}

/// An entry of a tree: its type, the mode, the size, the length of the name, the name and the
/// hash.
pub proof fn tree_entry_fields(e: TreeEntryView)
    requires
        entry_storable(e),
    ensures
        ({
            let b = tree_entry_bytes(e);
            let n = encode_utf8(e.name).len() as int;
            &&& b.len() == 47 + n
            &&& b[0] == match e.entry_type {
                EntryType::File => 0u8,
                EntryType::FileExecutable => 1,
                EntryType::Tree => 2,
                EntryType::Symlink => 3,
            }
            &&& number4(b, 1) == e.mode
            &&& number8(b, 5) == e.size
            &&& number2(b, 13) == n
            &&& b.subrange(15, 15 + n) == encode_utf8(e.name)
            &&& b.subrange(15 + n, 47 + n) == e.oid
        }),
{
    let b = tree_entry_bytes(e);
    let name = encode_utf8(e.name);
    let n = name.len() as int;
    lemma_le_bytes_len(e.mode as nat, 4);
    lemma_le_bytes_len(e.size as nat, 8);
    lemma_le_bytes_len(name.len(), 2);
    lemma_pow256_values();
    lemma_le_round_trip(e.mode as nat, 4);
    lemma_le_round_trip(e.size as nat, 8);
    lemma_le_round_trip(name.len(), 2);
    assert(b.subrange(1, 5) =~= le_bytes(e.mode as nat, 4));
    assert(b.subrange(5, 13) =~= le_bytes(e.size as nat, 8));
    assert(b.subrange(13, 15) =~= le_bytes(name.len(), 2));
    lemma_number4(b, 1);
    lemma_number8(b, 5);
    lemma_number2(b, 13);
    assert(b.subrange(15, 15 + n) =~= name);
    assert(b.subrange(15 + n, 47 + n) =~= e.oid);
}

/// A tree: the number of its entries, and the entries behind each other.
pub proof fn tree_parts(es: Seq<TreeEntryView>, e: TreeEntryView)
    requires
        es.len() < 0x1_0000_0000,
    ensures
        number4(tree_bytes(es), 0) == es.len(),
        tree_bytes(es).len() >= 4,
        tree_bytes(Seq::empty()).len() == 4,
        after_four(tree_bytes(es.push(e))) == after_four(tree_bytes(es)) + tree_entry_bytes(e),
{
    let b = tree_bytes(es);
    let c = tree_bytes(es.push(e));
    let none = Seq::<TreeEntryView>::empty();
    lemma_le_bytes_len(es.len(), 4);
    lemma_le_bytes_len(es.push(e).len(), 4);
    lemma_le_bytes_len(none.len(), 4);
    lemma_pow256_values();
    lemma_le_round_trip(es.len(), 4);
    assert(b.subrange(0, 4) =~= le_bytes(es.len(), 4));
    lemma_number4(b, 0);
    assert(es.push(e).drop_last() =~= es);
    assert(after_four(c) =~= after_four(b) + tree_entry_bytes(e));
}

/// What follows the first four bytes.
pub open spec fn after_four(b: Seq<u8>) -> Seq<u8> {
    b.subrange(4, b.len() as int)
}

/// The type of a file by its mode: a link, an executable file, or a plain one.
pub proof fn modes_of_files()
    ensures
        type_of_mode(0o100644u32) == EntryType::File,
        type_of_mode(0o100755u32) == EntryType::FileExecutable,
        type_of_mode(0o120000u32) == EntryType::Symlink,
        forall|mode: u32|
            mode & 0o120000u32 != 0o120000u32 && mode & 0o111u32 == 0 ==> #[trigger] type_of_mode(
                mode,
            ) == EntryType::File,
        forall|p: u32|
            p < 0o1000 && p & 0o111u32 != 0 ==> #[trigger] type_of_mode(0o100000u32 | p)
                == EntryType::FileExecutable,
{
    crate::helix_index::tree::mode_round_trip(EntryType::File);
    crate::helix_index::tree::mode_round_trip(EntryType::FileExecutable);
    crate::helix_index::tree::mode_round_trip(EntryType::Symlink);
    assert forall|p: u32| p < 0o1000 && p & 0o111u32 != 0 implies #[trigger] type_of_mode(
        0o100000u32 | p,
    ) == EntryType::FileExecutable by {
        let q = 0o100000u32 | p;
        assert(q & 0o120000 != 0o120000 && q & 0o100000 == 0o100000 && q & 0o111 != 0)
            by (bit_vector)
            requires
                q == 0o100000u32 | p,
                p < 0o1000,
                p & 0o111u32 != 0,
        ;
    }
}

/// A commit: the hash of its tree, the number of its parents and their hashes, the author
/// behind its length, when it was written and when it was committed, and the message behind
/// its length.
#[verifier::rlimit(30)]
pub proof fn commit_fields(c: CommitView)
    requires
        commit_storable(c),
    ensures
        ({
            let b = commit_bytes(c);
            let n = c.parents.len() as int;
            let a = encode_utf8(c.author).len() as int;
            let l = encode_utf8(c.message).len() as int;
            let t = 38 + 32 * n + a;
            &&& b.len() == t + 20 + l
            &&& b.subrange(0, 32) == c.tree_hash
            &&& number4(b, 32) == n
            &&& forall|i: int|
                0 <= i < n ==> b.subrange(36 + 32 * i, 36 + 32 * i + 32) == #[trigger] c.parents[i]
            &&& number2(b, 36 + 32 * n) == a
            &&& b.subrange(38 + 32 * n, t) == encode_utf8(c.author)
            &&& number8(b, t) == c.author_time
            &&& number8(b, t + 8) == c.commit_time
            &&& number4(b, t + 16) == l
            &&& b.subrange(t + 20, t + 20 + l) == encode_utf8(c.message)
        }),
{
    let b = commit_bytes(c);
    let author = encode_utf8(c.author);
    let message = encode_utf8(c.message);
    let ps = crate::helix_index::commit::parents_bytes(c.parents);
    lemma_parents_bytes(c.parents);
    lemma_pow256_values();
    lemma_le_bytes_len(c.parents.len(), 4);
    lemma_le_bytes_len(author.len(), 2);
    lemma_le_bytes_len(c.author_time as nat, 8);
    lemma_le_bytes_len(c.commit_time as nat, 8);
    lemma_le_bytes_len(message.len(), 4);
    lemma_le_round_trip(c.parents.len(), 4);
    lemma_le_round_trip(author.len(), 2);
    lemma_le_round_trip(c.author_time as nat, 8);
    lemma_le_round_trip(c.commit_time as nat, 8);
    lemma_le_round_trip(message.len(), 4);
    let n = c.parents.len() as int;
    let a0 = 36 + 32 * n;
    let t = a0 + 2 + author.len() as int;
    assert(b.subrange(0, 32) =~= c.tree_hash);
    assert(b.subrange(32, 36) =~= le_bytes(c.parents.len(), 4));
    assert(b.subrange(36, a0) =~= ps);
    assert(b.subrange(a0, a0 + 2) =~= le_bytes(author.len(), 2));
    assert(b.subrange(a0 + 2, t) =~= author);
    assert(b.subrange(t, t + 8) =~= le_bytes(c.author_time as nat, 8));
    assert(b.subrange(t + 8, t + 16) =~= le_bytes(c.commit_time as nat, 8));
    assert(b.subrange(t + 16, t + 20) =~= le_bytes(message.len(), 4));
    assert(b.subrange(t + 20, t + 20 + message.len() as int) =~= message);
    lemma_number4(b, 32);
    lemma_number2(b, a0);
    lemma_number8(b, t);
    lemma_number8(b, t + 8);
    lemma_number4(b, t + 16);
    assert forall|i: int| 0 <= i < n implies b.subrange(36 + 32 * i, 36 + 32 * i + 32)
        == #[trigger] c.parents[i] by {
        let all = crate::helix_index::commit::parse_parents(ps, n as nat);
        assert(all[i] == c.parents[i]);
        assert(ps.subrange(32 * i, 32 * i + 32) =~= b.subrange(36 + 32 * i, 36 + 32 * i + 32));
    }
}

/// Every entry in the tree of a directory is that of a file in it, under its name, with its
/// hash, its mode and its size and the type of the mode, or that of a directory that some file
/// lies below.
pub proof fn entries_of_directories(fs: Seq<FileView>, e: TreeEntryView)
    requires
        files_storable(fs),
        snapshot(fs).contains(e),
    ensures
        e.entry_type == EntryType::Tree ==> e.mode == 0o040000 && e.size == 0 && exists|i: int|
            0 <= i < fs.len() && has_prefix((#[trigger] fs[i]).path, e.name.push('/')),
        e.entry_type != EntryType::Tree ==> exists|i: int|
            0 <= i < fs.len() && (#[trigger] fs[i]).path == e.name && e.oid == fs[i].oid && e.mode
                == fs[i].mode && e.size == fs[i].size && e.entry_type == (if e.mode & 0o120000
                == 0o120000 {
                EntryType::Symlink
            } else if e.mode & 0o100000 == 0o100000 && e.mode & 0o111 != 0 {
                EntryType::FileExecutable
            } else {
                EntryType::File
            }),
{
    lemma_snapshot_entry(fs, e);
    if exists|i: int| 0 <= i < fs.len() && entry_of_file(e, #[trigger] fs[i]) {
        let i = choose|i: int| 0 <= i < fs.len() && entry_of_file(e, #[trigger] fs[i]);
        assert(fs[i].path == e.name);
    } else {
        let k = choose|k: int|
            0 <= k < dir_names(fs).len() && e == dir_entry(
                #[trigger] dir_names(fs)[k],
                tree_id(snapshot(files_below(fs, dir_names(fs)[k]))),
            );
        assert(dir_names(fs).contains(e.name));
        lemma_dir_names(fs, e.name);
        let i = choose|i: int|
            0 <= i < fs.len() && has_slash((#[trigger] fs[i]).path) && head(fs[i].path) == e.name;
        lemma_has_slash(fs[i].path);
        lemma_first_at(fs[i].path, '/');
        assert(fs[i].path.subrange(0, e.name.len() as int + 1) =~= e.name.push('/'));
        assert(has_prefix(fs[i].path, e.name.push('/')));
    }
}

} // verus!
