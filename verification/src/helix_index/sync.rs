//! Taking over the index and the commits of a Git repository.
use vstd::prelude::*;
use vstd::string::*;

use crate::codec::zeros;
use crate::hash::{
    blake3_digest, bytes_to_hex, hash_to_hex, hex_text, zero_hash, HexError, ObjectId,
};
use crate::helix_index::commit::{
    commit_bytes, commit_views, id_views, Commit, CommitView,
};
use crate::helix_index::commit_store::put_commits;
use crate::helix_index::format::{
    blank_reserve, entry_views, Entry, EntryFlags, EntryView, FormatError, Header,
};
use crate::helix_index::git_refs::{
    import_git_config, import_git_branches, import_git_head, import_git_remotes, import_git_tags,
    imported_author, imported_head, imported_remotes, remote_count, taken_over, ConfigError,
    with_upstreams, GitHeadError, GitRef, GitRemote,
};
use crate::helix_index::reader::{
    all_fit, can_grow, file_bytes, generation_of, index_bytes, is_generation_of, is_misfit,
    HelixIndex,
};
use crate::helix_index::tree::{
    file_of, files_of, put_trees, snapshot, tree_id, FileView, TreeBuilder,
};
use crate::ignore::{any_matches, set_globs, IgnoreRules};
use crate::object_store::{put_object, ObjectStore, ObjectType, Objects};
use crate::order::{sort, sorted, Compares, Ranking};
use crate::path::plain_path;
use crate::refs::{with_head_commit, write_head, RefStore, Refs};
use crate::text::{concat, has_text, push_line, text_of, texts};
use crate::text_map::TextMap;

verus! {

/// What was taken over from a Git repository.
#[derive(Debug, Clone, PartialEq, Eq)]
pub struct ImportSummary {
    pub commits_count: usize,
    pub files_count: usize,
    pub remotes_count: usize,
    pub author: Option<String>,
}

/// A file of the working tree, as an import sees it.
#[derive(Debug, Clone, PartialEq, Eq)]
pub struct WorkingFile {
    /// Whether it is a regular file.
    pub is_file: bool,
    /// The contents of a regular file, if they can be read.
    pub content: Option<Vec<u8>>,
    /// When it was modified, in seconds since the Unix epoch, if that is known.
    pub mtime: Option<u64>,
    pub len: u64,
}

/// What a Git repository holds under the hash of an entry.
#[derive(Debug, Clone, PartialEq, Eq)]
pub enum GitObject {
    Blob(Vec<u8>),
    /// An object of another kind.
    Other,
    Missing,
}

/// An entry of the index of a Git repository, with what it stands for.
#[derive(Debug)]
pub struct GitIndexEntry {
    pub path: String,
    pub oid: [u8; 20],
    pub mtime: u32,
    pub size: u32,
    pub file_mode: u32,
    /// What the repository holds under its hash.
    pub object: GitObject,
    /// What is at its path in the working tree.
    pub working: Option<WorkingFile>,
}

/// The hash that Git gives to contents, if it gives one.
pub uninterp spec fn git_blob_id(content: Seq<u8>) -> Option<[u8; 20]>;

/// Calls `gix::objs::compute_hash` for SHA-1 and a blob: the hash is a function of the
/// contents. There is none where the call sees an attempt at a collision.
#[verifier::external_body]
fn compute_git_blob_id(content: &[u8]) -> (r: Option<[u8; 20]>)
    ensures
        r == git_blob_id(content@),
{
    match gix::objs::compute_hash(gix::hash::Kind::Sha1, gix::objs::Kind::Blob, content) {
        Ok(id) => <[u8; 20]>::try_from(id.as_bytes()).ok(),
        Err(_) => None,
    }
}

/// The hashes of the files of the current Git commit, by their path.
pub type HeadTree = Map<Seq<char>, [u8; 20]>;

/// Whether an entry is staged: it is not in the current commit, or differs from it.
pub open spec fn is_staged_in(head: HeadTree, e: GitIndexEntry) -> bool {
    !head.contains_key(e.path@) || head[e.path@]@ != e.oid@
}

/// Whether there is a regular file at the path of an entry.
pub open spec fn has_working_file(e: GitIndexEntry) -> bool {
    e.working matches Some(w) && w.is_file
}

/// The contents of the regular file at the path of an entry, if they can be read.
pub open spec fn working_content(e: GitIndexEntry) -> Option<Seq<u8>> {
    match e.working {
        Some(w) => match w.content {
            Some(c) => if w.is_file {
                Some(c@)
            } else {
                None
            },
            None => None,
        },
        None => None,
    }
}

/// The contents that an entry stands for: those of the blob, or else those of the file in
/// the working tree, or else nothing. There are none where the object is missing and the
/// file cannot be read.
pub open spec fn entry_content(e: GitIndexEntry) -> Option<Seq<u8>> {
    match e.object {
        GitObject::Blob(c) => Some(c@),
        GitObject::Other => match working_content(e) {
            Some(c) => Some(c),
            None => Some(Seq::empty()),
        },
        GitObject::Missing => if has_working_file(e) {
            working_content(e)
        } else {
            Some(Seq::empty())
        },
    }
}

/// Whether the contents in the working tree are not those of the entry.
pub open spec fn is_modified_in(e: GitIndexEntry) -> bool {
    working_content(e) matches Some(c) && git_blob_id(c) != Some(e.oid)
}

/// Whether a file of the current commit is missing in the working tree.
pub open spec fn is_deleted_in(head: HeadTree, e: GitIndexEntry) -> bool {
    !has_working_file(e) && head.contains_key(e.path@)
}

/// The flags of an imported entry.
pub open spec fn imported_flags(head: HeadTree, e: GitIndexEntry) -> u32 {
    EntryFlags::TRACKED | (if is_staged_in(head, e) {
        EntryFlags::STAGED
    } else {
        0
    }) | (if is_modified_in(e) {
        EntryFlags::MODIFIED
    } else {
        0
    }) | (if is_deleted_in(head, e) {
        EntryFlags::DELETED
    } else {
        0
    })
}

/// Whether what is at the path of an entry can be read: the contents of a file, and when
/// it was modified.
pub open spec fn is_readable(e: GitIndexEntry) -> bool {
    &&& has_working_file(e) ==> working_content(e) is Some
    &&& e.working matches Some(w) ==> w.mtime is Some
}

/// An imported entry. One that cannot be read is left out.
pub open spec fn imported_entry(head: HeadTree, e: GitIndexEntry) -> Option<EntryView> {
    match entry_content(e) {
        None => None,
        Some(content) => if !is_readable(e) {
            None
        } else {
            Some(
                EntryView {
                    path: e.path@,
                    size: match e.working {
                        Some(w) => w.len,
                        None => e.size as u64,
                    },
                    mtime_sec: match e.working {
                        Some(w) => w.mtime->0,
                        None => e.mtime as u64,
                    },
                    mtime_nsec: 0,
                    flags: EntryFlags { bits: imported_flags(head, e) },
                    oid: blake3_digest(content),
                    merge_conflict_stage: 0,
                    file_mode: e.file_mode,
                    reserved: blank_reserve(),
                },
            )
        },
    }
}

/// What a store holds after an entry has been taken over: the contents that it stands for
/// too.
pub open spec fn put_git_content(m: Objects, e: GitIndexEntry) -> Objects {
    match entry_content(e) {
        Some(c) => put_object(m, ObjectType::Blob, c),
        None => m,
    }
}

/// Whether two Git hashes are equal.
fn git_oid_eq(a: &[u8; 20], b: &[u8; 20]) -> (r: bool)
    ensures
        r == (a@ == b@),
{
    crate::codec::bytes_eq(a, b)
}

/// A copy of contents.
fn copied(content: &Vec<u8>) -> (r: Vec<u8>)
    ensures
        r@ == content@,
{
    let r = content.clone();
    assert(r@ =~= content@);
    r
}

/// The contents that an entry stands for.
fn content_of_entry(e: &GitIndexEntry) -> (r: Option<Vec<u8>>)
    ensures
        match entry_content(*e) {
            Some(c) => r matches Some(v) && v@ == c,
            None => r is None,
        },
{
    let (is_file, found): (bool, Option<&Vec<u8>>) = match &e.working {
        Some(w) => {
            if w.is_file {
                match &w.content {
                    Some(c) => (true, Some(c)),
                    None => (true, None),
                }
            } else {
                (false, None)
            }
        },
        None => (false, None),
    };
    match &e.object {
        GitObject::Blob(c) => Some(copied(c)),
        GitObject::Other => match found {
            Some(c) => Some(copied(c)),
            None => {
                let none: Vec<u8> = Vec::new();
                assert(none@ =~= Seq::empty());
                Some(none)
            },
        },
        GitObject::Missing => {
            if is_file {
                match found {
                    Some(c) => Some(copied(c)),
                    None => None,
                }
            } else {
                let none: Vec<u8> = Vec::new();
                assert(none@ =~= Seq::empty());
                Some(none)
            }
        },
    }
}

/// Whether contents have this Git hash.
fn has_git_oid(content: &Vec<u8>, oid: &[u8; 20]) -> (r: bool)
    ensures
        r == (git_blob_id(content@) == Some(*oid)),
{
    match compute_git_blob_id(content.as_slice()) {
        Some(id) => {
            proof {
                if id@ == oid@ {
                    assert(id =~= *oid);
                }
            }
            git_oid_eq(&id, oid)
        },
        None => false,
    }
}

/// Takes over an entry of the index of a Git repository: its contents are stored,
/// and its flags tell how the current commit, the index and the working tree
/// differ. One that cannot be read is left out.
pub fn build_helix_entry_from_git_entry(
    store: &mut ObjectStore,
    git_entry: &GitIndexEntry,
    head_tree: &TextMap<[u8; 20]>,
) -> (r: Option<Entry>)
    requires
        old(store).wf(),
        head_tree.wf(),
    ensures
        final(store).wf(),
        final(store)@ == put_git_content(old(store)@, *git_entry),
        match imported_entry(head_tree@, *git_entry) {
            Some(v) => r matches Some(e) && e@ == v,
            None => r is None,
        },
{
    let content: Vec<u8> = match content_of_entry(git_entry) {
        Some(c) => c,
        None => return None,
    };
    let in_head = head_tree.get(git_entry.path.as_str());
    let is_staged: bool = match in_head {
        Some(oid) => !git_oid_eq(oid, &git_entry.oid),
        None => true,
    };
    let was_in_head: bool = in_head.is_some();
    let oid: ObjectId = store.write_object(ObjectType::Blob, content);
    let mut is_file: bool = false;
    let mut is_modified: bool = false;
    let mut mtime: u64 = git_entry.mtime as u64;
    let mut size: u64 = git_entry.size as u64;
    match &git_entry.working {
        Some(w) => {
            if w.is_file {
                is_file = true;
                match &w.content {
                    Some(c) => {
                        is_modified = !has_git_oid(c, &git_entry.oid);
                    },
                    None => return None,
                }
            }
            mtime = match w.mtime {
                Some(t) => t,
                None => return None,
            };
            size = w.len;
        },
        None => {},
    }
    let staged: u32 = if is_staged {
        EntryFlags::STAGED
    } else {
        0
    };
    let modified: u32 = if is_modified {
        EntryFlags::MODIFIED
    } else {
        0
    };
    let deleted: u32 = if !is_file && was_in_head {
        EntryFlags::DELETED
    } else {
        0
    };
    let mut e = Entry::new(git_entry.path.clone(), size, mtime, oid, git_entry.file_mode);
    e.flags = EntryFlags::from_bits_retain(EntryFlags::TRACKED | staged | modified | deleted);
    Some(e)
}

/// The entries of the index of a Git repository that are taken over: those that
/// are not ignored and can be read.
pub open spec fn imported_entries(
    head: HeadTree,
    globs: Seq<Seq<char>>,
    es: Seq<GitIndexEntry>,
) -> Seq<EntryView>
    decreases es.len(),
{
    if es.len() == 0 {
        Seq::empty()
    } else {
        let before = imported_entries(head, globs, es.drop_last());
        if any_matches(globs, es.last().path@) {
            before
        } else {
            match imported_entry(head, es.last()) {
                Some(v) => before.push(v),
                None => before,
            }
        }
    }
}

/// What a store holds after the contents of those entries have been written.
pub open spec fn put_git_contents(
    m: Objects,
    globs: Seq<Seq<char>>,
    es: Seq<GitIndexEntry>,
) -> Objects
    decreases es.len(),
{
    if es.len() == 0 {
        m
    } else {
        let before = put_git_contents(m, globs, es.drop_last());
        if any_matches(globs, es.last().path@) {
            before
        } else {
            put_git_content(before, es.last())
        }
    }
}

/// The header of the index after an import.
pub open spec fn is_import_header(h: Header, generation: u64, count: nat, now: u64) -> bool {
    &&& h.magic == crate::helix_index::format::MAGIC
    &&& h.version == crate::helix_index::format::VERSION
    &&& h.generation == generation
    &&& h.checksum@ == zeros(32)
    &&& h.entry_count == count as u32
    &&& h.created_at == (if generation == 1 {
        now
    } else {
        0
    })
    &&& h.last_modified == now
    &&& h.reserved@ == zeros(60)
}

/// The index after an import.
#[derive(Debug)]
pub struct ImportedIndex {
    /// The index file, if it is to be written.
    pub file: Option<Vec<u8>>,
    pub files_count: usize,
}

/// Whether the index of a Git repository was taken over. One that does not exist
/// gives an empty index of the first generation, and one without entries gives
/// nothing to write.
pub open spec fn is_index_import(
    before: Objects,
    after: Objects,
    git_index: Option<Seq<GitIndexEntry>>,
    head: HeadTree,
    globs: Seq<Seq<char>>,
    generation: u64,
    now: u64,
    r: Result<ImportedIndex, FormatError>,
) -> bool {
    match git_index {
        None => {
            &&& after == before
            &&& r matches Ok(i)
            &&& i.files_count == 0
            &&& i.file matches Some(b)
            &&& exists|h: Header| #[trigger]
                is_import_header(h, 1, 0, now) && b@ == index_bytes(h, Seq::empty())
        },
        Some(es) => if es.len() == 0 {
            &&& after == before
            &&& r matches Ok(i)
            &&& i.files_count == 0
            &&& i.file is None
        } else {
            let out = imported_entries(head, globs, es);
            &&& after == put_git_contents(before, globs, es)
            &&& match r {
                Ok(i) => {
                    &&& all_fit(out)
                    &&& i.files_count == out.len()
                    &&& i.file matches Some(b)
                    &&& exists|h: Header| #[trigger]
                        is_import_header(h, (generation + 1) as u64, out.len(), now) && b@
                            == index_bytes(h, out)
                },
                Err(e) => is_misfit(out, e),
            }
        },
    }
}

/// Takes over the index of a Git repository. One that does not exist gives an
/// empty index of the first generation, and one without entries gives nothing to
/// write. `generation` is that of the index that is there, or zero.
pub fn import_git_index(
    store: &mut ObjectStore,
    git_index: Option<&Vec<GitIndexEntry>>,
    head_tree: &TextMap<[u8; 20]>,
    rules: &IgnoreRules,
    generation: u64,
    now: u64,
) -> (r: Result<ImportedIndex, FormatError>)
    requires
        old(store).wf(),
        head_tree.wf(),
        generation < u64::MAX,
    ensures
        final(store).wf(),
        is_index_import(
            old(store)@,
            final(store)@,
            match git_index {
                Some(v) => Some(v@),
                None => None,
            },
            head_tree@,
            set_globs(rules.globset),
            generation,
            now,
            r,
        ),
{
    let list = match git_index {
        None => {
            let header = Header::new(1, 0, now);
            assert(is_import_header(header, 1, 0, now));
            let index = HelixIndex { header, entries: Vec::new() };
            assert(entry_views(index.entries@) =~= Seq::empty());
            return match index.to_bytes() {
                Ok(b) => Ok(ImportedIndex { file: Some(b), files_count: 0 }),
                Err(e) => Err(e),
            };
        },
        Some(es) => es,
    };
    if list.len() == 0 {
        return Ok(ImportedIndex { file: None, files_count: 0 });
    }
    let ghost globs = set_globs(rules.globset);
    let ghost head = head_tree@;
    let ghost es = list@;
    let ghost start = store@;
    let mut entries: Vec<Entry> = Vec::new();
    let mut i: usize = 0;
    proof {
        assert(es.subrange(0, 0) =~= Seq::empty());
        assert(entry_views(entries@) =~= Seq::empty());
    }
    while i < list.len()
        invariant
            i <= list.len(),
            store.wf(),
            head_tree.wf(),
            globs == set_globs(rules.globset),
            head == head_tree@,
            es == list@,
            entries@.len() <= i,
            store@ == put_git_contents(start, globs, es.subrange(0, i as int)),
            entry_views(entries@) == imported_entries(head, globs, es.subrange(0, i as int)),
        decreases list.len() - i,
    {
        let e = &list[i];
        proof {
            let t = es.subrange(0, i + 1);
            assert(t.drop_last() =~= es.subrange(0, i as int));
            assert(t.last() == *e);
        }
        if !rules.should_ignore(e.path.as_str()) {
            let ghost before = entry_views(entries@);
            match build_helix_entry_from_git_entry(store, e, head_tree) {
                Some(entry) => {
                    entries.push(entry);
                    assert(entry_views(entries@) =~= before.push(entry@));
                },
                None => {},
            }
        }
        i += 1;
    }
    assert(es.subrange(0, i as int) =~= es);
    let count: usize = entries.len();
    let header = Header::new(generation + 1, count as u32, now);
    let ghost out = entry_views(entries@);
    assert(is_import_header(header, (generation + 1) as u64, out.len(), now));
    let index = HelixIndex { header, entries };
    match index.to_bytes() {
        Ok(b) => Ok(ImportedIndex { file: Some(b), files_count: count }),
        Err(e) => Err(e),
    }
}

/// An entry of a tree of a Git repository.
#[derive(Debug, Clone, PartialEq, Eq)]
pub struct GitRecord {
    pub path: String,
    pub oid: [u8; 20],
    /// Whether it is a file.
    pub is_blob: bool,
}

/// The files among the entries of a tree, by their path; of two at one path, the
/// later one.
pub open spec fn head_tree_of(v: Seq<GitRecord>) -> HeadTree
    decreases v.len(),
{
    if v.len() == 0 {
        Map::empty()
    } else if v.last().is_blob {
        head_tree_of(v.drop_last()).insert(v.last().path@, v.last().oid)
    } else {
        head_tree_of(v.drop_last())
    }
}

/// The files among the entries of the tree of the current commit, by their path.
pub fn load_full_head_tree(records: &Vec<GitRecord>) -> (r: TextMap<[u8; 20]>)
    ensures
        r.wf(),
        r@ == head_tree_of(records@),
{
    let ghost v = records@;
    let mut m: TextMap<[u8; 20]> = TextMap::new();
    let mut i: usize = 0;
    assert(v.subrange(0, 0) =~= Seq::empty());
    while i < records.len()
        invariant
            i <= records.len(),
            v == records@,
            m.wf(),
            m@ == head_tree_of(v.subrange(0, i as int)),
        decreases records.len() - i,
    {
        proof {
            let t = v.subrange(0, i + 1);
            assert(t.drop_last() =~= v.subrange(0, i as int));
            assert(t.last() == v[i as int]);
        }
        if records[i].is_blob {
            m.insert(records[i].path.clone(), records[i].oid);
        }
        i += 1;
    }
    assert(v.subrange(0, i as int) =~= v);
    m
}

/// What a file of a Git commit is.
#[derive(Debug, Clone, Copy, PartialEq, Eq, Structural)]
pub enum GitFileKind {
    Regular,
    Executable,
    Link,
    /// A directory, or a commit of another repository.
    Other,
}

/// A file of a Git commit.
#[derive(Debug, Clone, PartialEq, Eq)]
pub struct GitFile {
    pub path: String,
    pub kind: GitFileKind,
    /// Its contents, if they can be read.
    pub content: Option<Vec<u8>>,
}

/// A commit of a Git repository.
#[derive(Debug, Clone, PartialEq, Eq)]
pub struct GitCommit {
    /// Its Git hash.
    pub id: Vec<u8>,
    /// When it was committed, in seconds since the Unix epoch.
    pub time: i64,
    pub title: String,
    pub body: Option<String>,
    pub author_name: String,
    pub author_email: String,
    pub author_time: i64,
    pub parents: Vec<Vec<u8>>,
    pub files: Vec<GitFile>,
}

/// The mode of an imported file.
pub open spec fn git_mode(k: GitFileKind) -> u32 {
    match k {
        GitFileKind::Link => 0o120000,
        GitFileKind::Executable => 0o100755,
        _ => 0o100644,
    }
}

/// Whether a file of a Git commit is taken over.
pub open spec fn is_imported(f: GitFile) -> bool {
    f.kind != GitFileKind::Other && f.content is Some
}

/// The files of a Git commit that are taken over.
pub open spec fn git_files(fs: Seq<GitFile>) -> Seq<FileView>
    decreases fs.len(),
{
    if fs.len() == 0 {
        Seq::empty()
    } else if is_imported(fs.last()) {
        let f = fs.last();
        git_files(fs.drop_last()).push(
            FileView {
                path: plain_path(f.path@),
                oid: blake3_digest(f.content->0@)@,
                mode: git_mode(f.kind),
                size: f.content->0@.len() as u64,
            },
        )
    } else {
        git_files(fs.drop_last())
    }
}

/// What a store holds after the contents of those files have been written.
pub open spec fn put_git_files(m: Objects, fs: Seq<GitFile>) -> Objects
    decreases fs.len(),
{
    if fs.len() == 0 {
        m
    } else if is_imported(fs.last()) {
        put_object(put_git_files(m, fs.drop_last()), ObjectType::Blob, fs.last().content->0@)
    } else {
        put_git_files(m, fs.drop_last())
    }
}

/// Writes the files of a Git commit and the trees of them.
pub fn build_helix_tree_from_recorder(store: &mut ObjectStore, files: &Vec<GitFile>) -> (h: ObjectId)
    requires
        old(store).wf(),
    ensures
        final(store).wf(),
        h@ == tree_id(snapshot(git_files(files@))),
        final(store)@ == put_trees(put_git_files(old(store)@, files@), git_files(files@)),
{
    let ghost m = store@;
    let ghost fs = files@;
    let mut entries: Vec<Entry> = Vec::new();
    let mut i: usize = 0;
    proof {
        assert(fs.subrange(0, 0) =~= Seq::empty());
        assert(files_of(entry_views(entries@)) =~= Seq::empty());
    }
    while i < files.len()
        invariant
            i <= files.len(),
            fs == files@,
            store.wf(),
            store@ == put_git_files(m, fs.subrange(0, i as int)),
            files_of(entry_views(entries@)) == git_files(fs.subrange(0, i as int)),
        decreases files.len() - i,
    {
        let f = &files[i];
        proof {
            let t = fs.subrange(0, i + 1);
            assert(t.drop_last() =~= fs.subrange(0, i as int));
            assert(t.last() == *f);
        }
        let mode: u32 = match f.kind {
            GitFileKind::Link => 0o120000,
            GitFileKind::Executable => 0o100755,
            _ => 0o100644,
        };
        if f.kind != GitFileKind::Other {
            match &f.content {
                Some(c) => {
                    let ghost before = files_of(entry_views(entries@));
                    let data = c.clone();
                    assert(data@ =~= c@);
                    let len: usize = c.len();
                    let oid = store.write_object(ObjectType::Blob, data);
                    let mut e = Entry::new(f.path.clone(), len as u64, 0, oid, mode);
                    e.flags.insert(EntryFlags::TRACKED);
                    entries.push(e);
                    assert(files_of(entry_views(entries@)) =~= before.push(file_of(e@)));
                },
                None => {},
            }
        }
        i += 1;
    }
    assert(fs.subrange(0, i as int) =~= fs);
    TreeBuilder::build_from_entries(store, &entries)
}

/// The imported parents of a commit: those that were not imported are left out.
pub open spec fn imported_parents(
    m: Map<Seq<char>, ObjectId>,
    parents: Seq<Vec<u8>>,
) -> Seq<Seq<u8>>
    decreases parents.len(),
{
    if parents.len() == 0 {
        Seq::empty()
    } else {
        let before = imported_parents(m, parents.drop_last());
        let key = hex_text(parents.last()@);
        if m.contains_key(key) {
            before.push(m[key]@)
        } else {
            before
        }
    }
}

/// The message of a Git commit: the title, and behind an empty line the body.
pub open spec fn git_message(c: GitCommit) -> Seq<char> {
    match c.body {
        Some(b) => c.title@ + "\n\n"@ + b@,
        None => c.title@,
    }
}

/// What a Git commit becomes.
pub open spec fn imported_view(m: Map<Seq<char>, ObjectId>, c: GitCommit) -> CommitView {
    let v = CommitView {
        commit_hash: Seq::empty(),
        tree_hash: tree_id(snapshot(git_files(c.files@))),
        parents: imported_parents(m, c.parents@),
        author: c.author_name@ + " <"@ + c.author_email@ + ">"@,
        author_time: unsigned_time(c.author_time),
        commit_time: unsigned_time(c.time),
        message: git_message(c),
    };
    CommitView { commit_hash: blake3_digest(commit_bytes(v))@, ..v }
}

/// Makes a commit of a Git commit: its files and trees are stored, and its parents
/// are those that were imported.
pub fn build_helix_commit_from_git_commit(
    store: &mut ObjectStore,
    git_commit: &GitCommit,
    mapping: &TextMap<ObjectId>,
) -> (c: Commit)
    requires
        old(store).wf(),
        mapping.wf(),
    ensures
        final(store).wf(),
        c@ == imported_view(mapping@, *git_commit),
        c.commit_hash == blake3_digest(commit_bytes(c@)),
        final(store)@ == put_trees(
            put_git_files(old(store)@, git_commit.files@),
            git_files(git_commit.files@),
        ),
{
    let tree_hash: ObjectId = build_helix_tree_from_recorder(store, &git_commit.files);
    let ghost ps = git_commit.parents@;
    let ghost m = mapping@;
    let mut parents: Vec<ObjectId> = Vec::new();
    let mut i: usize = 0;
    proof {
        assert(ps.subrange(0, 0) =~= Seq::empty());
        assert(id_views(parents@) =~= Seq::empty());
    }
    while i < git_commit.parents.len()
        invariant
            i <= git_commit.parents.len(),
            mapping.wf(),
            m == mapping@,
            ps == git_commit.parents@,
            id_views(parents@) == imported_parents(m, ps.subrange(0, i as int)),
        decreases git_commit.parents.len() - i,
    {
        proof {
            let t = ps.subrange(0, i + 1);
            assert(t.drop_last() =~= ps.subrange(0, i as int));
            assert(t.last() == ps[i as int]);
        }
        let key = bytes_to_hex(git_commit.parents[i].as_slice());
        match mapping.get(key.as_str()) {
            Some(h) => {
                let ghost before = id_views(parents@);
                parents.push(*h);
                assert(id_views(parents@) =~= before.push(h@));
            },
            None => {},
        }
        i += 1;
    }
    assert(ps.subrange(0, i as int) =~= ps);
    let mut author: String = concat(git_commit.author_name.as_str(), " <");
    author.append(git_commit.author_email.as_str());
    author.append(">");
    let mut message: String = git_commit.title.clone();
    match &git_commit.body {
        Some(b) => {
            message.append("\n\n");
            message.append(b.as_str());
        },
        None => {},
    }
    let mut c = Commit {
        commit_hash: zero_hash(),
        tree_hash,
        parents,
        author,
        author_time: to_unsigned(git_commit.author_time),
        commit_time: to_unsigned(git_commit.time),
        message,
    };
    let ghost bytes = commit_bytes(c@);
    let hash: ObjectId = c.compute_hash();
    c.commit_hash = hash;
    proof {
        assert(commit_bytes(c@) == bytes);
        let v = CommitView {
            commit_hash: Seq::empty(),
            ..imported_view(m, *git_commit)
        };
        assert(commit_bytes(v) == bytes);
    }
    c
}

/// A time as an unsigned number of 64 bits: a time before the epoch wraps around.
pub open spec fn unsigned_time(t: i64) -> u64 {
    if t >= 0 {
        t as u64
    } else {
        (t + 0x1_0000_0000_0000_0000) as u64
    }
}

/// A time as an unsigned number of 64 bits.
fn to_unsigned(t: i64) -> (r: u64)
    ensures
        r == unsigned_time(t),
{
    if t >= 0 {
        t as u64
    } else {
        u64::MAX - ((-(t + 1)) as u64)
    }
}

/// The oldest first.
pub struct OldestFirst;

impl Ranking<GitCommit> for OldestFirst {
    open spec fn key(t: GitCommit) -> Seq<int> {
        seq![t.time as int]
    }
}

impl Compares<GitCommit> for OldestFirst {
    fn before(a: &GitCommit, b: &GitCommit) -> (r: bool) {
        proof {
            let x = <OldestFirst as Ranking<GitCommit>>::key(*a);
            let y = <OldestFirst as Ranking<GitCommit>>::key(*b);
            assert(!crate::order::lex_less(
                x.subrange(1, x.len() as int),
                y.subrange(1, y.len() as int),
            ));
        }
        a.time < b.time
    }
}

/// The Git hashes of commits, in hexadecimal.
pub open spec fn git_keys(cs: Seq<GitCommit>) -> Seq<Seq<char>> {
    Seq::new(cs.len(), |i: int| hex_text(cs[i].id@))
}

/// The commits, each once: one that several branches hold is found several times.
pub open spec fn each_once(cs: Seq<GitCommit>) -> Seq<GitCommit>
    decreases cs.len(),
{
    if cs.len() == 0 {
        cs
    } else {
        let before = each_once(cs.drop_last());
        if git_keys(before).contains(hex_text(cs.last().id@)) {
            before
        } else {
            before.push(cs.last())
        }
    }
}

/// What an import has come to: the store, the imported commits by their Git hash,
/// and the commits that are to be stored.
pub struct Import {
    pub store: Objects,
    pub mapping: Map<Seq<char>, ObjectId>,
    pub commits: Seq<CommitView>,
}

/// What an import comes to with one more commit.
pub open spec fn with_commit(i: Import, c: GitCommit) -> Import {
    let v = imported_view(i.mapping, c);
    Import {
        store: put_trees(put_git_files(i.store, c.files@), git_files(c.files@)),
        mapping: i.mapping.insert(
            hex_text(c.id@),
            blake3_digest(commit_bytes(v)),
        ),
        commits: i.commits.push(v),
    }
}

/// What an import of commits comes to, in their order.
pub open spec fn with_commits(m: Objects, cs: Seq<GitCommit>) -> Import
    decreases cs.len(),
{
    if cs.len() == 0 {
        Import { store: m, mapping: Map::empty(), commits: Seq::empty() }
    } else {
        with_commit(with_commits(m, cs.drop_last()), cs.last())
    }
}

/// The Git hashes of commits.
pub open spec fn git_ids(cs: Seq<GitCommit>) -> Seq<Seq<u8>> {
    Seq::new(cs.len(), |i: int| cs[i].id@)
}

/// Whether no parent of a commit is among those that are left.
pub open spec fn is_ready(c: GitCommit, left: Seq<GitCommit>) -> bool {
    forall|i: int| 0 <= i < c.parents@.len() ==> !git_ids(left).contains((#[trigger] c.parents@[i])@)
}

/// The place of the first commit from `at` on that has no parent among those that are
/// left; where there is none, the first place.
pub open spec fn next_ready(left: Seq<GitCommit>, at: int) -> int
    decreases left.len() - at,
{
    if at < 0 || at >= left.len() {
        0
    } else if is_ready(left[at], left) {
        at
    } else {
        next_ready(left, at + 1)
    }
}

proof fn lemma_next_ready(left: Seq<GitCommit>, at: int)
    requires
        0 <= at <= left.len(),
        left.len() > 0,
    ensures
        0 <= next_ready(left, at) < left.len(),
    decreases left.len() - at,
{
    if at < left.len() && !is_ready(left[at], left) {
        lemma_next_ready(left, at + 1);
    }
}

/// Commits in an order in which parents come before their children: the first one
/// without a parent among the others, and then the rest in the same way.
pub open spec fn parents_first(left: Seq<GitCommit>) -> Seq<GitCommit>
    decreases left.len(),
    via parents_first_decreases
{
    if left.len() == 0 {
        left
    } else {
        let k = next_ready(left, 0);
        seq![left[k]] + parents_first(left.remove(k))
    }
}

#[via_fn]
proof fn parents_first_decreases(left: Seq<GitCommit>) {
    if left.len() > 0 {
        lemma_next_ready(left, 0);
    }
}

/// The order in which commits are imported: each once, parents before their children,
/// and otherwise the oldest first.
pub open spec fn import_order(cs: Seq<GitCommit>) -> Seq<GitCommit> {
    parents_first(sorted::<OldestFirst, GitCommit>(each_once(cs)))
}

/// Whether one of the commits has this Git hash.
fn has_git_id(left: &Vec<GitCommit>, id: &Vec<u8>) -> (r: bool)
    ensures
        r == git_ids(left@).contains(id@),
{
    let ghost ids = git_ids(left@);
    let mut i: usize = 0;
    while i < left.len()
        invariant
            i <= left.len(),
            ids == git_ids(left@),
            forall|j: int| 0 <= j < i ==> ids[j] != id@,
        decreases left.len() - i,
    {
        assert(ids[i as int] == left@[i as int].id@);
        if crate::codec::bytes_eq(left[i].id.as_slice(), id.as_slice()) {
            return true;
        }
        i += 1;
    }
    false
}

/// Whether no parent of the commit at `at` is among those that are left.
fn ready_at(left: &Vec<GitCommit>, at: usize) -> (r: bool)
    requires
        at < left@.len(),
    ensures
        r == is_ready(left@[at as int], left@),
{
    let c = &left[at];
    let mut i: usize = 0;
    while i < c.parents.len()
        invariant
            i <= c.parents.len(),
            at < left@.len(),
            *c == left@[at as int],
            forall|j: int| 0 <= j < i ==> !git_ids(left@).contains((#[trigger] c.parents@[j])@),
        decreases c.parents.len() - i,
    {
        if has_git_id(left, &c.parents[i]) {
            assert(git_ids(left@).contains(left@[at as int].parents@[i as int]@));
            return false;
        }
        i += 1;
    }
    true
}

/// The commits with parents before their children.
fn order_parents_first(commits: Vec<GitCommit>) -> (r: Vec<GitCommit>)
    ensures
        r@ == parents_first(commits@),
{
    let ghost all = parents_first(commits@);
    let mut left: Vec<GitCommit> = commits;
    let mut r: Vec<GitCommit> = Vec::new();
    assert(r@ + parents_first(left@) =~= all);
    while left.len() > 0
        invariant
            r@ + parents_first(left@) == all,
        decreases left.len(),
    {
        let ghost l = left@;
        let ghost before = r@;
        let mut at: usize = 0;
        while at < left.len() && !ready_at(&left, at)
            invariant
                at <= left.len(),
                left@ == l,
                l.len() > 0,
                next_ready(l, 0) == next_ready(l, at as int),
            decreases left.len() - at,
        {
            at += 1;
        }
        if at == left.len() {
            at = 0;
        }
        proof {
            assert(at == next_ready(l, 0));
        }
        let c = left.remove(at);
        r.push(c);
        proof {
            assert(r@ + parents_first(left@) =~= before + (seq![c] + parents_first(left@)));
        }
    }
    assert(r@ =~= r@ + parents_first(left@));
    r
}

/// The commits, each once.
fn keep_each_once(commits: Vec<GitCommit>) -> (r: Vec<GitCommit>)
    ensures
        r@ == each_once(commits@),
{
    let ghost cs = commits@;
    let mut seen: Vec<String> = Vec::new();
    let mut r: Vec<GitCommit> = Vec::new();
    proof {
        assert(cs.subrange(0, 0) =~= Seq::empty());
        assert(texts(seen@) =~= git_keys(r@));
    }
    for c in it: commits
        invariant
            it.seq() == cs,
            texts(seen@) == git_keys(r@),
            r@ == each_once(cs.subrange(0, it.index() as int)),
    {
        proof {
            let t = cs.subrange(0, it.index() + 1);
            assert(t.drop_last() =~= cs.subrange(0, it.index() as int));
            assert(t.last() == c);
        }
        let key = bytes_to_hex(c.id.as_slice());
        if !has_text(&seen, key.as_str()) {
            let ghost before = git_keys(r@);
            push_line(&mut seen, key);
            r.push(c);
            assert(git_keys(r@) =~= before.push(hex_text(c.id@)));
        }
    }
    assert(cs.subrange(0, cs.len() as int) =~= cs);
    r
}

/// Stores commits under their hashes.
fn store_imported_commits(store: &mut ObjectStore, commits: &Vec<Commit>)
    requires
        old(store).wf(),
        forall|i: int|
            0 <= i < commits@.len() ==> (#[trigger] commits@[i]).commit_hash == blake3_digest(
                commit_bytes(commits@[i]@),
            ),
    ensures
        final(store).wf(),
        final(store)@ == put_commits(old(store)@, commit_views(commits@)),
{
    let ghost m = store@;
    let ghost cs = commit_views(commits@);
    let mut i: usize = 0;
    assert(cs.subrange(0, 0) =~= Seq::empty());
    while i < commits.len()
        invariant
            i <= commits.len(),
            store.wf(),
            cs == commit_views(commits@),
            forall|i: int|
                0 <= i < commits@.len() ==> (#[trigger] commits@[i]).commit_hash == blake3_digest(
                    commit_bytes(commits@[i]@),
                ),
            store@ == put_commits(m, cs.subrange(0, i as int)),
        decreases commits.len() - i,
    {
        proof {
            let t = cs.subrange(0, i + 1);
            assert(t.drop_last() =~= cs.subrange(0, i as int));
            assert(t.last() == commits@[i as int]@);
        }
        let bytes = commits[i].to_bytes();
        store.write_object_with_hash(ObjectType::Commit, &commits[i].commit_hash, bytes);
        i += 1;
    }
    assert(cs.subrange(0, i as int) =~= cs);
}

/// The references after an import: the commit that `HEAD` names is the one that it
/// names in Git, if that was imported.
pub open spec fn with_imported_head(
    r: Refs,
    m: Map<Seq<char>, ObjectId>,
    head: Option<Seq<u8>>,
) -> Refs {
    match head {
        Some(id) => if m.contains_key(hex_text(id)) {
            with_head_commit(r, hex_text(m[hex_text(id)]@))
        } else {
            r
        },
        None => r,
    }
}

/// The bytes of a vector, if there is one.
pub open spec fn bytes_of(v: Option<&Vec<u8>>) -> Option<Seq<u8>> {
    match v {
        Some(b) => Some(b@),
        None => None,
    }
}

/// Takes over the commits of a Git repository, as they are found from its
/// branches: each once, parents before their children, with their files, trees and
/// parents.
/// `head` is the Git hash of the current commit.
pub fn import_git_commits(
    store: &mut ObjectStore,
    refs: &mut RefStore,
    commits: Vec<GitCommit>,
    head: Option<&Vec<u8>>,
) -> (r: TextMap<ObjectId>)
    requires
        old(store).wf(),
        old(refs).wf(),
    ensures
        final(store).wf(),
        final(refs).wf(),
        r.wf(),
        ({
            let i = with_commits(old(store)@, import_order(commits@));
            &&& r@ == i.mapping
            &&& final(store)@ == put_commits(i.store, i.commits)
            &&& final(refs)@ == with_imported_head(old(refs)@, r@, bytes_of(head))
        }),
{
    let ghost all = commits@;
    let ghost m = store@;
    let mut list = keep_each_once(commits);
    sort::<OldestFirst, GitCommit>(&mut list);
    let list = order_parents_first(list);
    let ghost cs = list@;
    assert(cs == import_order(all));
    let mut mapping: TextMap<ObjectId> = TextMap::new();
    let mut made: Vec<Commit> = Vec::new();
    let mut i: usize = 0;
    proof {
        assert(cs.subrange(0, 0) =~= Seq::empty());
        assert(commit_views(made@) =~= Seq::empty());
    }
    while i < list.len()
        invariant
            i <= list.len(),
            store.wf(),
            mapping.wf(),
            cs == list@,
            forall|k: int|
                0 <= k < made@.len() ==> (#[trigger] made@[k]).commit_hash == blake3_digest(
                    commit_bytes(made@[k]@),
                ),
            with_commits(m, cs.subrange(0, i as int)) == (Import {
                store: store@,
                mapping: mapping@,
                commits: commit_views(made@),
            }),
        decreases list.len() - i,
    {
        let c = &list[i];
        let ghost before = commit_views(made@);
        let ghost now = mapping@;
        proof {
            let t = cs.subrange(0, i + 1);
            assert(t.drop_last() =~= cs.subrange(0, i as int));
            assert(t.last() == *c);
        }
        let commit = build_helix_commit_from_git_commit(store, c, &mapping);
        mapping.insert(bytes_to_hex(c.id.as_slice()), commit.commit_hash);
        made.push(commit);
        assert(commit_views(made@) =~= before.push(commit@));
        i += 1;
    }
    assert(cs.subrange(0, i as int) =~= cs);
    store_imported_commits(store, &made);
    match head {
        Some(id) => {
            let key = bytes_to_hex(id.as_slice());
            match mapping.get(key.as_str()) {
                Some(h) => write_head(refs, h),
                None => {},
            }
        },
        None => {},
    }
    mapping
}

/// The lines that keep which commit came from which Git commit.
pub open spec fn mapping_text(items: Seq<(String, ObjectId)>) -> Seq<char>
    decreases items.len(),
{
    if items.len() == 0 {
        Seq::empty()
    } else {
        mapping_text(items.drop_last()) + hex_text(items.last().1@) + " "@ + items.last().0@
            + "\n"@
    }
}

/// The text that keeps which commit came from which Git commit: a line for each,
/// with its own hash before that of Git.
pub fn git_helix_mapping(mapping: &TextMap<ObjectId>) -> (r: String)
    ensures
        r@ == mapping_text(mapping.items@),
{
    let ghost items = mapping.items@;
    let mut r: String = String::new();
    let mut i: usize = 0;
    assert(r@ =~= mapping_text(items.subrange(0, 0)));
    while i < mapping.items.len()
        invariant
            i <= mapping.items.len(),
            items == mapping.items@,
            r@ == mapping_text(items.subrange(0, i as int)),
        decreases mapping.items.len() - i,
    {
        proof {
            let t = items.subrange(0, i + 1);
            assert(t.drop_last() =~= items.subrange(0, i as int));
            assert(t.last() == items[i as int]);
        }
        r.append(hash_to_hex(&mapping.items[i].1).as_str());
        r.append(" ");
        r.append(mapping.items[i].0.as_str());
        r.append("\n");
        i += 1;
    }
    assert(items.subrange(0, i as int) =~= items);
    r
}

/// What to do while the index of a Git repository may be locked.
#[derive(Debug, Clone, Copy, PartialEq, Eq, Structural)]
pub enum LockStep {
    Ready,
    Wait,
    TimedOut,
}

/// What to do while the index of a Git repository may be locked: go on once it is
/// not, and give up once more time than `timeout` has passed.
pub fn lock_step(locked: bool, elapsed_ms: u64, timeout_ms: u64) -> (r: LockStep)
    ensures
        r == (if !locked {
            LockStep::Ready
        } else if elapsed_ms > timeout_ms {
            LockStep::TimedOut
        } else {
            LockStep::Wait
        }),
{
    if !locked {
        LockStep::Ready
    } else if elapsed_ms > timeout_ms {
        LockStep::TimedOut
    } else {
        LockStep::Wait
    }
}

proof fn lemma_each_once(cs: Seq<GitCommit>)
    ensures
        git_keys(each_once(cs)).no_duplicates(),
        forall|i: int|
            0 <= i < cs.len() ==> git_keys(each_once(cs)).contains(
                hex_text((#[trigger] cs[i]).id@),
            ),
    decreases cs.len(),
{
    if cs.len() > 0 {
        let d = cs.drop_last();
        lemma_each_once(d);
        let before = git_keys(each_once(d));
        let key = hex_text(cs.last().id@);
        let after = git_keys(each_once(cs));
        if before.contains(key) {
        } else {
            assert(after =~= before.push(key));
            assert(after[before.len() as int] == key);
        }
        assert forall|i: int| 0 <= i < cs.len() implies after.contains(
            hex_text((#[trigger] cs[i]).id@),
        ) by {
            if i < d.len() {
                assert(d[i] == cs[i]);
                let k = choose|k: int| 0 <= k < before.len() && before[k] == hex_text(cs[i].id@);
                assert(after[k] == hex_text(cs[i].id@));
            }
        }
    }
}

/// Putting parents first changes only the order.
proof fn lemma_parents_first(left: Seq<GitCommit>)
    ensures
        parents_first(left).to_multiset() == left.to_multiset(),
        parents_first(left).len() == left.len(),
    decreases left.len(),
{
    broadcast use vstd::seq_lib::group_to_multiset_ensures;

    if left.len() > 0 {
        let k = next_ready(left, 0);
        lemma_next_ready(left, 0);
        let rest = left.remove(k);
        lemma_parents_first(rest);
        let r = parents_first(rest);
        let c = left[k];
        assert((seq![c] + r) =~= r.insert(0, c));
        assert(rest.insert(k, c) =~= left);
        assert(r.insert(0, c).to_multiset() =~= r.to_multiset().insert(c));
        assert(rest.insert(k, c).to_multiset() =~= rest.to_multiset().insert(c));
    }
}

proof fn lemma_same_commits(a: Seq<GitCommit>, b: Seq<GitCommit>)
    requires
        a.to_multiset() == b.to_multiset(),
    ensures
        forall|c: GitCommit| #[trigger] a.contains(c) <==> b.contains(c),
        forall|id: Seq<u8>| #[trigger] git_ids(a).contains(id) <==> git_ids(b).contains(id),
{
    broadcast use vstd::seq_lib::group_to_multiset_ensures;

    assert forall|c: GitCommit| #[trigger] a.contains(c) <==> b.contains(c) by {
        assert(a.contains(c) <==> a.to_multiset().count(c) > 0);
        assert(b.contains(c) <==> b.to_multiset().count(c) > 0);
    }
    assert forall|id: Seq<u8>| #[trigger] git_ids(a).contains(id) <==> git_ids(b).contains(id) by {
        if git_ids(a).contains(id) {
            let i = choose|i: int| 0 <= i < git_ids(a).len() && git_ids(a)[i] == id;
            assert(a.contains(a[i]));
            let j = choose|j: int| 0 <= j < b.len() && b[j] == a[i];
            assert(git_ids(b)[j] == id);
        }
        if git_ids(b).contains(id) {
            let i = choose|i: int| 0 <= i < git_ids(b).len() && git_ids(b)[i] == id;
            assert(b.contains(b[i]));
            assert(a.contains(b[i]));
            let j = choose|j: int| 0 <= j < a.len() && a[j] == b[i];
            assert(git_ids(a)[j] == id);
        }
    }
}

/// Every commit that is found is imported once.
pub proof fn every_commit_is_imported_once(cs: Seq<GitCommit>)
    ensures
        git_keys(each_once(cs)).no_duplicates(),
        forall|i: int|
            0 <= i < cs.len() ==> git_keys(each_once(cs)).contains(
                hex_text((#[trigger] cs[i]).id@),
            ),
        import_order(cs).to_multiset() == each_once(cs).to_multiset(),
        import_order(cs).len() == each_once(cs).len(),
{
    lemma_each_once(cs);
    let v = sorted::<OldestFirst, GitCommit>(each_once(cs));
    crate::order::lemma_sorted_in_order::<OldestFirst, GitCommit>(each_once(cs));
    crate::order::lemma_sorted_permutation::<OldestFirst, GitCommit>(each_once(cs));
    lemma_parents_first(v);
}

/// Whether every commit has a higher rank than those of its parents that are among the
/// commits.
pub open spec fn ranks(cs: Seq<GitCommit>, rank: spec_fn(Seq<u8>) -> nat) -> bool {
    forall|i: int, p: int|
        0 <= i < cs.len() && 0 <= p < cs[i].parents@.len() && git_ids(cs).contains(
            cs[i].parents@[p]@,
        ) ==> rank((#[trigger] cs[i].parents@[p])@) < rank((#[trigger] cs[i]).id@)
}

/// Whether no commit is its own ancestor among the commits. Git has no such commits,
/// since a commit holds the hashes of its parents.
pub open spec fn is_history(cs: Seq<GitCommit>) -> bool {
    exists|rank: spec_fn(Seq<u8>) -> nat| #[trigger] ranks(cs, rank)
}

/// Some commit of a history has no parent among those that are left.
proof fn lemma_some_ready(left: Seq<GitCommit>, rank: spec_fn(Seq<u8>) -> nat, i: int)
    requires
        ranks(left, rank),
        0 <= i < left.len(),
    ensures
        exists|k: int| 0 <= k < left.len() && #[trigger] is_ready(left[k], left),
    decreases rank(left[i].id@),
{
    if !is_ready(left[i], left) {
        let p = choose|p: int|
            0 <= p < left[i].parents@.len() && git_ids(left).contains(
                (#[trigger] left[i].parents@[p])@,
            );
        let id = left[i].parents@[p]@;
        let j = choose|j: int| 0 <= j < git_ids(left).len() && git_ids(left)[j] == id;
        assert(left[j].id@ == id);
        lemma_some_ready(left, rank, j);
    } else {
        assert(is_ready(left[i], left));
    }
}

proof fn lemma_next_is_ready(left: Seq<GitCommit>, at: int)
    requires
        0 <= at <= left.len(),
        exists|k: int| at <= k < left.len() && #[trigger] is_ready(left[k], left),
    ensures
        is_ready(left[next_ready(left, at)], left),
    decreases left.len() - at,
{
    if at < left.len() && !is_ready(left[at], left) {
        let k = choose|k: int| at <= k < left.len() && #[trigger] is_ready(left[k], left);
        assert(at + 1 <= k);
        lemma_next_is_ready(left, at + 1);
    }
}

/// In what follows, a parent among the commits comes before its child.
proof fn lemma_parents_before(left: Seq<GitCommit>, j: int, p: int)
    requires
        is_history(left),
        0 <= j < parents_first(left).len(),
        0 <= p < parents_first(left)[j].parents@.len(),
        git_ids(left).contains(parents_first(left)[j].parents@[p]@),
    ensures
        exists|i: int|
            0 <= i < j && (#[trigger] parents_first(left)[i]).id@ == parents_first(
                left,
            )[j].parents@[p]@,
    decreases left.len(),
{
    if left.len() > 0 {
        let rank = choose|rank: spec_fn(Seq<u8>) -> nat| #[trigger] ranks(left, rank);
        let k = next_ready(left, 0);
        lemma_next_ready(left, 0);
        lemma_some_ready(left, rank, 0);
        lemma_next_is_ready(left, 0);
        let rest = left.remove(k);
        let v = parents_first(left);
        let r = parents_first(rest);
        lemma_parents_first(rest);
        assert(v[0] == left[k]);
        let id = v[j].parents@[p]@;
        if j == 0 {
            assert(is_ready(v[0], left));
            assert(!git_ids(left).contains((v[0].parents@[p])@));
        } else {
            assert(v[j] == r[j - 1]);
            if left[k].id@ == id {
                assert(v[0].id@ == id);
            } else {
                let x = choose|x: int| 0 <= x < git_ids(left).len() && git_ids(left)[x] == id;
                assert(left[x].id@ == id && x != k);
                let y = if x < k {
                    x
                } else {
                    x - 1
                };
                assert(rest[y] == left[x]);
                assert(git_ids(rest)[y] == id);
                assert(ranks(rest, rank)) by {
                    assert forall|i: int, q: int|
                        0 <= i < rest.len() && 0 <= q < rest[i].parents@.len() && git_ids(
                            rest,
                        ).contains(rest[i].parents@[q]@) implies rank(
                        (#[trigger] rest[i].parents@[q])@,
                    ) < rank((#[trigger] rest[i]).id@) by {
                        let w = if i < k {
                            i
                        } else {
                            i + 1
                        };
                        assert(rest[i] == left[w]);
                        let z = choose|z: int|
                            0 <= z < git_ids(rest).len() && git_ids(rest)[z]
                                == rest[i].parents@[q]@;
                        let u = if z < k {
                            z
                        } else {
                            z + 1
                        };
                        assert(rest[z] == left[u]);
                        assert(git_ids(left)[u] == rest[i].parents@[q]@);
                        assert(left[w].parents@[q]@ == rest[i].parents@[q]@);
                    }
                }
                lemma_parents_before(rest, j - 1, p);
                let i = choose|i: int|
                    0 <= i < j - 1 && (#[trigger] r[i]).id@ == r[j - 1].parents@[p]@;
                assert(v[i + 1] == r[i]);
            }
        }
    }
}

pub proof fn lemma_mapped(m: Objects, cs: Seq<GitCommit>, i: int)
    requires
        0 <= i < cs.len(),
    ensures
        with_commits(m, cs).mapping.contains_key(hex_text(cs[i].id@)),
    decreases cs.len(),
{
    if i < cs.len() - 1 {
        lemma_mapped(m, cs.drop_last(), i);
        assert(cs.drop_last()[i] == cs[i]);
    }
}

/// The whole graph of commits is taken over: every parent of a commit that is among the
/// commits was imported before it, whatever the times say, so that it is kept.
pub proof fn every_parent_is_kept(m: Objects, cs: Seq<GitCommit>, j: int, p: int)
    requires
        is_history(each_once(cs)),
        0 <= j < import_order(cs).len(),
        0 <= p < import_order(cs)[j].parents@.len(),
        git_ids(each_once(cs)).contains(import_order(cs)[j].parents@[p]@),
    ensures
        with_commits(m, import_order(cs).subrange(0, j)).mapping.contains_key(
            hex_text(import_order(cs)[j].parents@[p]@),
        ),
{
    let v = sorted::<OldestFirst, GitCommit>(each_once(cs));
    let o = import_order(cs);
    crate::order::lemma_sorted_permutation::<OldestFirst, GitCommit>(each_once(cs));
    lemma_same_commits(v, each_once(cs));
    let rank = choose|rank: spec_fn(Seq<u8>) -> nat| #[trigger] ranks(each_once(cs), rank);
    assert(ranks(v, rank)) by {
        assert forall|i: int, q: int|
            0 <= i < v.len() && 0 <= q < v[i].parents@.len() && git_ids(v).contains(
                v[i].parents@[q]@,
            ) implies rank((#[trigger] v[i].parents@[q])@) < rank((#[trigger] v[i]).id@) by {
            assert(v.contains(v[i]));
            let w = choose|w: int| 0 <= w < each_once(cs).len() && each_once(cs)[w] == v[i];
            assert(each_once(cs)[w].parents@[q]@ == v[i].parents@[q]@);
        }
    }
    lemma_parents_before(v, j, p);
    let i = choose|i: int| 0 <= i < j && (#[trigger] o[i]).id@ == o[j].parents@[p]@;
    lemma_mapped(m, o.subrange(0, j), i);
}

/// Where parents come before their children by their times, the commits are imported
/// the oldest first.
pub proof fn true_clocks_decide(left: Seq<GitCommit>)
    requires
        forall|i: int, j: int, p: int|
            0 <= i <= j < left.len() && 0 <= p < left[i].parents@.len() ==> (
            #[trigger] left[i].parents@[p])@ != (#[trigger] left[j]).id@,
    ensures
        parents_first(left) == left,
    decreases left.len(),
{
    if left.len() > 0 {
        assert(is_ready(left[0], left)) by {
            assert forall|p: int| 0 <= p < left[0].parents@.len() implies !git_ids(left).contains(
                (#[trigger] left[0].parents@[p])@,
            ) by {
                if git_ids(left).contains(left[0].parents@[p]@) {
                    let j = choose|j: int|
                        0 <= j < git_ids(left).len() && git_ids(left)[j] == left[0].parents@[p]@;
                    assert(left[j].id@ == left[0].parents@[p]@);
                }
            }
        }
        let rest = left.remove(0);
        assert forall|i: int, j: int, p: int|
            0 <= i <= j < rest.len() && 0 <= p < rest[i].parents@.len() implies (
        #[trigger] rest[i].parents@[p])@ != (#[trigger] rest[j]).id@ by {
            assert(rest[i] == left[i + 1] && rest[j] == left[j + 1]);
            assert(left[i + 1].parents@[p]@ != left[j + 1].id@);
        }
        true_clocks_decide(rest);
        assert(seq![left[0]] + rest =~= left);
    }
}

/// A file that is in the current commit, in the index and in the working tree with
/// the same contents is imported clean.
pub proof fn committed_file_is_clean(head: HeadTree, e: GitIndexEntry)
    requires
        head.contains_key(e.path@),
        head[e.path@]@ == e.oid@,
        working_content(e) matches Some(c) && git_blob_id(c) == Some(e.oid),
        is_readable(e),
    ensures
        imported_entry(head, e) matches Some(v) && v.flags.bits == EntryFlags::TRACKED,
{
    let t = EntryFlags::TRACKED;
    assert(t | 0u32 | 0u32 | 0u32 == t) by (bit_vector);
}

/// A file that is imported as modified has other contents than the blob of its entry.
pub proof fn modified_file_differs(head: HeadTree, e: GitIndexEntry, blob: Vec<u8>)
    requires
        e.object == GitObject::Blob(blob),
        git_blob_id(blob@) == Some(e.oid),
        imported_entry(head, e) matches Some(v) && v.flags.has(EntryFlags::MODIFIED),
    ensures
        working_content(e) matches Some(c) && c != blob@,
{
    if !is_modified_in(e) {
        let s = if is_staged_in(head, e) {
            2u32
        } else {
            0
        };
        let d = if is_deleted_in(head, e) {
            8u32
        } else {
            0
        };
        assert((1u32 | s | 0u32 | d) & 4u32 == 0) by (bit_vector)
            requires
                s == 2 || s == 0,
                d == 8 || d == 0,
        ;
    }
}

/// A Git repository, as far as it is taken over.
#[derive(Debug)]
pub struct GitRepository {
    /// The entries of its index, if it has one.
    pub index: Option<Vec<GitIndexEntry>>,
    /// The hashes of the files of its current commit, by their path.
    pub head_tree: TextMap<[u8; 20]>,
    /// The commits that are found from its branches.
    pub commits: Vec<GitCommit>,
    /// The hash of its current commit, if it has one.
    pub head_id: Option<Vec<u8>>,
    pub branches: Vec<GitRef>,
    pub tags: Vec<GitRef>,
    /// The text of its configuration, if it has one.
    pub config: Option<String>,
    /// The contents of its `HEAD`.
    pub head: String,
    pub remotes: Vec<GitRemote>,
    pub user_name: Option<String>,
    pub user_email: Option<String>,
}

/// The entries of the index of a Git repository, if it has one.
pub open spec fn index_of(git: GitRepository) -> Option<Seq<GitIndexEntry>> {
    match git.index {
        Some(v) => Some(v@),
        None => None,
    }
}

/// The hash of the current commit of a Git repository, if it has one.
pub open spec fn head_id_of(git: GitRepository) -> Option<Seq<u8>> {
    match git.head_id {
        Some(v) => Some(v@),
        None => None,
    }
}

/// Why a Git repository cannot be taken over.
#[derive(Debug)]
pub enum ImportError {
    Index(FormatError),
    /// A branch holds no hash.
    Branch(HexError),
    /// A tag holds no hash.
    Tag(HexError),
    Head(GitHeadError),
    Config(ConfigError),
}

/// What taking over a Git repository gives.
#[derive(Debug)]
pub struct Imported {
    pub summary: ImportSummary,
    pub mapping: TextMap<ObjectId>,
}

/// What taking over the references of a Git repository comes to: its branches with
/// their upstreams, its tags and its `HEAD`, in this order, up to the first fault.
pub open spec fn imported_refs(r: Refs, git: GitRepository, m: Map<Seq<char>, ObjectId>) -> (
    Refs,
    Option<ImportFault>,
) {
    let b = taken_over(r, "refs/heads/"@, git.branches@, m);
    match b.fault {
        Some(f) => (b.refs, Some(ImportFault::Branch(f))),
        None => {
            let up = with_upstreams(b.refs, b.taken, text_of(git.config), b.taken.len() as int);
            let t = taken_over(up, "refs/tags/"@, git.tags@, m);
            match t.fault {
                Some(f) => (t.refs, Some(ImportFault::Tag(f))),
                None => match imported_head(git.head@, m) {
                    Ok(h) => (Refs { head: Some(h), ..t.refs }, None),
                    Err(f) => (t.refs, Some(ImportFault::Head(f))),
                },
            }
        },
    }
}

/// Why the references of a Git repository cannot be taken over.
pub enum ImportFault {
    Branch(HexError),
    Tag(HexError),
    Head(GitHeadError),
}

/// Whether an error is this fault.
pub open spec fn is_import_fault(e: ImportError, f: ImportFault) -> bool {
    match f {
        ImportFault::Branch(x) => e == ImportError::Branch(x),
        ImportFault::Tag(x) => e == ImportError::Tag(x),
        ImportFault::Head(x) => e == ImportError::Head(x),
    }
}

/// What there is before an import and after it: the objects, the references, the
/// text of the configuration file, and the index file.
pub struct RepoState {
    pub store: Objects,
    pub refs: Refs,
    pub config: Option<Seq<char>>,
    pub file: Option<Seq<u8>>,
}

/// What taking over a Git repository does, and what it gives.
pub open spec fn is_import(
    a: RepoState,
    b: RepoState,
    git: GitRepository,
    globs: Seq<Seq<char>>,
    now: u64,
    r: Result<Imported, ImportError>,
) -> bool {
    exists|generation: u64, m: Objects, x: Result<ImportedIndex, FormatError>|
        {
            &&& is_generation_of(a.file, generation)
            &&& #[trigger] is_index_import(
                a.store,
                m,
                index_of(git),
                git.head_tree@,
                globs,
                generation,
                now,
                x,
            )
            &&& match x {
                Err(e) => {
                    &&& r == Err::<Imported, ImportError>(ImportError::Index(e))
                    &&& b == (RepoState { store: m, ..a })
                },
                Ok(index) => {
                    let i = with_commits(m, import_order(git.commits@));
                    let started = with_imported_head(a.refs, i.mapping, head_id_of(git));
                    let (rs, fault) = imported_refs(started, git, i.mapping);
                    &&& b.store == put_commits(i.store, i.commits)
                    &&& b.refs == rs
                    &&& b.file == (if index.file is Some {
                        file_bytes(index.file)
                    } else {
                        a.file
                    })
                    &&& match fault {
                        Some(f) => {
                            &&& r matches Err(e)
                            &&& is_import_fault(e, f)
                            &&& b.config == a.config
                        },
                        None => match imported_remotes(a.config, git.remotes@) {
                            Err(e) => {
                                &&& r == Err::<Imported, ImportError>(ImportError::Config(e))
                                &&& b.config == a.config
                            },
                            Ok(config) => match imported_author(
                                text_of(git.user_name),
                                text_of(git.user_email),
                                config,
                            ) {
                                Err(e) => {
                                    &&& r == Err::<Imported, ImportError>(ImportError::Config(e))
                                    &&& b.config == config
                                },
                                Ok(author) => {
                                    &&& b.config == (match author {
                                        Some((_, text)) => Some(text),
                                        None => config,
                                    })
                                    &&& r matches Ok(o)
                                    &&& o.mapping.wf()
                                    &&& o.mapping@ == i.mapping
                                    &&& o.summary.files_count == index.files_count
                                    &&& o.summary.commits_count == o.mapping.items@.len()
                                    &&& o.summary.remotes_count == remote_count(git.remotes@)
                                    &&& text_of(o.summary.author) == (match author {
                                        Some((shown, _)) => Some(shown),
                                        None => None,
                                    })
                                },
                            },
                        },
                    }
                },
            }
        }
}

/// Takes over Git repositories.
#[derive(Debug)]
pub struct SyncEngine {
    pub repo_path: String,
}

impl SyncEngine {
    pub fn new(repo_path: &str) -> (r: SyncEngine)
        ensures
            r.repo_path@ == repo_path@,
    {
        SyncEngine { repo_path: repo_path.to_owned() }
    }

    /// Takes over a Git repository: its index, its commits, its branches, tags and
    /// `HEAD`, its remotes and its author. `config` is the text of the configuration
    /// file, and `file` is the index file, if there is one.
    pub fn import_from_git(
        &self,
        store: &mut ObjectStore,
        refs: &mut RefStore,
        config: &mut Option<String>,
        file: &mut Option<Vec<u8>>,
        git: GitRepository,
        rules: &IgnoreRules,
        now: u64,
    ) -> (r: Result<Imported, ImportError>)
        requires
            old(store).wf(),
            old(refs).wf(),
            git.head_tree.wf(),
            can_grow(file_bytes(*old(file))),
        ensures
            final(store).wf(),
            final(refs).wf(),
            is_import(
                (RepoState {
                    store: old(store)@,
                    refs: old(refs)@,
                    config: text_of(*old(config)),
                    file: file_bytes(*old(file)),
                }),
                (RepoState {
                    store: final(store)@,
                    refs: final(refs)@,
                    config: text_of(*final(config)),
                    file: file_bytes(*final(file)),
                }),
                git,
                set_globs(rules.globset),
                now,
                r,
            ),
    {
        let ghost a = RepoState {
            store: store@,
            refs: refs@,
            config: text_of(*config),
            file: file_bytes(*file),
        };
        let generation: u64 = generation_of(file);
        assert(is_generation_of(a.file, generation));
        let listed = match &git.index {
            Some(v) => Some(v),
            None => None,
        };
        let x = import_git_index(store, listed, &git.head_tree, rules, generation, now);
        let ghost m = store@;
        assert(is_index_import(
            a.store,
            m,
            index_of(git),
            git.head_tree@,
            set_globs(rules.globset),
            generation,
            now,
            x,
        ));
        let index = match x {
            Ok(i) => i,
            Err(e) => return Err(ImportError::Index(e)),
        };
        if let Some(written) = index.file {
            *file = Some(written);
        }
        let head_id = match &git.head_id {
            Some(v) => Some(v),
            None => None,
        };
        let mapping = import_git_commits(store, refs, git.commits, head_id);
        match import_git_branches(refs, &git.branches, &git.config, &mapping) {
            Ok(_) => {},
            Err(e) => return Err(ImportError::Branch(e)),
        }
        match import_git_tags(refs, &git.tags, &mapping) {
            Ok(_) => {},
            Err(e) => return Err(ImportError::Tag(e)),
        }
        match import_git_head(refs, git.head.as_str(), &mapping) {
            Ok(_) => {},
            Err(e) => return Err(ImportError::Head(e)),
        }
        let remotes_count: usize = match import_git_remotes(config, &git.remotes) {
            Ok(n) => n,
            Err(e) => return Err(ImportError::Config(e)),
        };
        let author: Option<String> = match import_git_config(
            &git.user_name,
            &git.user_email,
            config,
        ) {
            Ok(Some(a)) => {
                *config = Some(a.config);
                Some(a.shown)
            },
            Ok(None) => None,
            Err(e) => return Err(ImportError::Config(e)),
        };
        let commits_count: usize = mapping.items.len();
        Ok(
            Imported {
                summary: ImportSummary {
                    commits_count,
                    files_count: index.files_count,
                    remotes_count,
                    author,
                },
                mapping,
            },
        )
    }
}

} // verus!
