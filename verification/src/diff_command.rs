//! Showing changes between the working tree, the index and the head commit.
use vstd::prelude::*;
use vstd::string::*;
use vstd::utf8::*;

use crate::add_command::WorkFile;
use crate::hash::{blake3_digest, decoded_hash, hash_bytes, hash_eq, hex_to_hash, HexError, ObjectId};
use crate::helix_index::api::{any_where, HelixIndexData};
use crate::helix_index::commit_store::{commit_at, read_commit, ReadError, ReadFault};
use crate::helix_index::format::{entry_views, EntryFlags, EntryView};
use crate::helix_index::tree_walk::{
    collect_all_files, file_map, grounded, id_values, tree_files, WalkError, WalkFault,
};
use crate::line_diff::{
    change_groups, compute_stat, create_stat_bar, groups_text, stat_bar, stat_of, unified_diff,
};
use crate::object_store::{ObjectStore, ObjectType, Objects};
use crate::path::{is_under, starts_with_dir};
use crate::refs::{ref_dir, RefStore, Refs};
use crate::text::{
    after, decimal, decimal_of, decimal_of_wide, has_prefix, lines, lines_spec, pad_left, pad_right,
    padded_left, padded_right, str_eq, strip_prefix, texts, trim, trim_spec,
};
use crate::text_map::TextMap;

verus! {

/// What to show, and how.
#[derive(Debug, Clone, Copy, PartialEq, Eq)]
pub struct DiffOptions {
    /// Compare the index with the head commit, not the working tree with the
    /// index.
    pub staged: bool,
    pub verbose: bool,
    pub no_color: bool,
    /// Show a summary.
    pub stat: bool,
}

impl Default for DiffOptions {
    fn default() -> (o: DiffOptions)
        ensures
            !o.staged && !o.verbose && !o.no_color && !o.stat,
    {
        DiffOptions { staged: false, verbose: false, no_color: false, stat: false }
    }
}

/// Why the files of the head commit cannot be read.
#[derive(Debug)]
pub enum DiffError {
    /// The reference that `HEAD` names is a directory.
    Unreadable(String),
    /// `HEAD`, or the reference that it names, holds no hash.
    Head(HexError),
    Commit(ReadError),
    Tree(WalkError),
}

/// Why the files of the head commit cannot be read, with texts as characters.
pub enum DiffFault {
    Unreadable(Seq<char>),
    Head(HexError),
    Commit(ReadFault),
    Tree(WalkFault),
}

impl View for DiffError {
    type V = DiffFault;

    open spec fn view(&self) -> DiffFault {
        match *self {
            DiffError::Unreadable(p) => DiffFault::Unreadable(p@),
            DiffError::Head(e) => DiffFault::Head(e),
            DiffError::Commit(e) => DiffFault::Commit(e@),
            DiffError::Tree(e) => DiffFault::Tree(e@),
        }
    }
}

/// The text of bytes that are no UTF-8, with the replacement character for what
/// is none.
pub uninterp spec fn lossy_text(bytes: Seq<u8>) -> Seq<char>;

/// The text of bytes: what they encode, where they are UTF-8.
pub open spec fn shown_text(bytes: Seq<u8>) -> Seq<char> {
    if valid_utf8(bytes) {
        decode_utf8(bytes)
    } else {
        lossy_text(bytes)
    }
}

/// Calls `String::from_utf8_lossy`: where the bytes are UTF-8 the text is what they
/// encode, and else it is a function of the bytes.
#[verifier::external_body]
pub(crate) fn from_utf8_lossy(bytes: &[u8]) -> (r: String)
    ensures
        valid_utf8(bytes@) ==> r@ == decode_utf8(bytes@),
        !valid_utf8(bytes@) ==> r@ == lossy_text(bytes@),
{
    String::from_utf8_lossy(bytes).to_string()
}

/// The text of a stored file; that of a missing one is empty.
pub open spec fn blob_text(m: Objects, oid: Seq<u8>) -> Seq<char> {
    if m.contains_key((ObjectType::Blob, oid)) {
        shown_text(m[(ObjectType::Blob, oid)])
    } else {
        Seq::empty()
    }
}

/// The text of a stored file; that of a missing one is empty.
pub fn read_blob_as_string(store: &ObjectStore, hash: &ObjectId) -> (r: String)
    requires
        store.wf(),
    ensures
        r@ == blob_text(store@, hash@),
{
    match store.read_object(ObjectType::Blob, hash) {
        Some(d) => from_utf8_lossy(d.as_slice()),
        None => String::new(),
    }
}

/// Whether one of the filters is the path, a directory above it, or `.`.
pub open spec fn matches_filters(path: Seq<char>, filters: Seq<Seq<char>>) -> bool {
    exists|i: int|
        0 <= i < filters.len() && (is_under(path, #[trigger] filters[i]) || filters[i] == "."@)
}

/// Whether one of the filters is the path, a directory above it, or `.`.
pub fn path_matches(path: &str, filter_paths: &Vec<String>) -> (r: bool)
    ensures
        r == matches_filters(path@, texts(filter_paths@)),
{
    let ghost fs = texts(filter_paths@);
    let mut i: usize = 0;
    while i < filter_paths.len()
        invariant
            i <= filter_paths.len(),
            fs == texts(filter_paths@),
            forall|j: int|
                0 <= j < i ==> !(is_under(path@, #[trigger] fs[j]) || fs[j] == "."@),
        decreases filter_paths.len() - i,
    {
        let f = filter_paths[i].as_str();
        assert(fs[i as int] == f@);
        if starts_with_dir(path, f) || str_eq(f, ".") {
            return true;
        }
        i += 1;
    }
    false
}

/// Filters are alternatives, and none match nothing.
pub proof fn filters_are_alternatives(path: Seq<char>, a: Seq<Seq<char>>, b: Seq<Seq<char>>)
    ensures
        !matches_filters(path, Seq::empty()),
        matches_filters(path, a + b) == (matches_filters(path, a) || matches_filters(path, b)),
{
    if matches_filters(path, a) {
        let i = choose|i: int|
            0 <= i < a.len() && (is_under(path, #[trigger] a[i]) || a[i] == "."@);
        assert((a + b)[i] == a[i]);
    }
    if matches_filters(path, b) {
        let i = choose|i: int|
            0 <= i < b.len() && (is_under(path, #[trigger] b[i]) || b[i] == "."@);
        assert((a + b)[a.len() + i] == b[i]);
    }
    if matches_filters(path, a + b) {
        let i = choose|i: int|
            0 <= i < (a + b).len() && (is_under(path, #[trigger] (a + b)[i]) || (a + b)[i]
                == "."@);
        if i < a.len() {
            assert(a[i] == (a + b)[i]);
        } else {
            assert(b[i - a.len()] == (a + b)[i]);
        }
    }
}

/// Whether a path is to be shown: every path is where there are no filters.
pub open spec fn wanted(path: Seq<char>, filters: Seq<Seq<char>>) -> bool {
    filters.len() == 0 || matches_filters(path, filters)
}

/// The contents of the first file with this path, from the file `at` on.
pub open spec fn content_from(wt: Seq<WorkFile>, path: Seq<char>, at: int) -> Option<Seq<u8>>
    decreases wt.len() - at,
{
    if at < 0 || at >= wt.len() {
        None
    } else if wt[at].path@ == path {
        Some(wt[at].content@)
    } else {
        content_from(wt, path, at + 1)
    }
}

/// The contents of the file with this path in the working tree.
pub open spec fn content_at(wt: Seq<WorkFile>, path: Seq<char>) -> Option<Seq<u8>> {
    content_from(wt, path, 0)
}

/// The contents of the file with this path in the working tree.
pub(crate) fn find_content<'a>(wt: &'a Vec<WorkFile>, path: &str) -> (r: Option<&'a Vec<u8>>)
    ensures
        match r {
            Some(c) => content_at(wt@, path@) == Some(c@),
            None => content_at(wt@, path@) is None,
        },
{
    let mut i: usize = 0;
    while i < wt.len()
        invariant
            i <= wt.len(),
            content_at(wt@, path@) == content_from(wt@, path@, i as int),
        decreases wt.len() - i,
    {
        if str_eq(wt[i].path.as_str(), path) {
            return Some(&wt[i].content);
        }
        i += 1;
    }
    None
}

/// The lines before the changes of a file.
pub open spec fn header_text(path: Seq<char>, change: Seq<char>, no_color: bool) -> Seq<char> {
    let (on, off) = if no_color {
        (""@, "\n"@)
    } else {
        ("\x1b[1m"@, "\x1b[0m\n"@)
    };
    on + "diff --helix a/"@ + path + " b/"@ + path + off + on + change + " mode 100644"@ + off + on
        + "--- a/"@ + path + off + on + "+++ b/"@ + path + off
}

/// The lines before the changes of a file.
pub fn diff_header(path: &str, change_type: &str, no_color: bool) -> (r: String)
    ensures
        r@ == header_text(path@, change_type@, no_color),
{
    let on = if no_color {
        ""
    } else {
        "\x1b[1m"
    };
    let off = if no_color {
        "\n"
    } else {
        "\x1b[0m\n"
    };
    let mut r: String = on.to_owned();
    r.append("diff --helix a/");
    r.append(path);
    r.append(" b/");
    r.append(path);
    r.append(off);
    r.append(on);
    r.append(change_type);
    r.append(" mode 100644");
    r.append(off);
    r.append(on);
    r.append("--- a/");
    r.append(path);
    r.append(off);
    r.append(on);
    r.append("+++ b/");
    r.append(path);
    r.append(off);
    r
}

/// What is shown of a changed file.
pub open spec fn file_diff(
    path: Seq<char>,
    change: Seq<char>,
    old: Seq<char>,
    new: Seq<char>,
    no_color: bool,
) -> Seq<char> {
    header_text(path, change, no_color) + groups_text(change_groups(old, new, 3), no_color)
}

/// Appends what is shown of a changed file.
fn show_file(out: &mut String, path: &str, change: &str, before: &str, now: &str, no_color: bool)
    ensures
        final(out)@ == old(out)@ + file_diff(path@, change@, before@, now@, no_color),
{
    let ghost start = out@;
    let header = diff_header(path, change, no_color);
    let body = unified_diff(before, now, no_color);
    out.append(header.as_str());
    out.append(body.as_str());
    assert(out@ =~= start + file_diff(path@, change@, before@, now@, no_color));
}

/// What is shown of an entry of the index next to the working tree.
pub open spec fn unstaged_entry(
    m: Objects,
    wt: Seq<WorkFile>,
    e: EntryView,
    filters: Seq<Seq<char>>,
    no_color: bool,
) -> Seq<char> {
    if !e.flags.has(EntryFlags::TRACKED) || !wanted(e.path, filters) {
        Seq::empty()
    } else {
        match content_at(wt, e.path) {
            None => if e.flags.has(EntryFlags::STAGED) && e.flags.has(EntryFlags::DELETED) {
                Seq::empty()
            } else {
                file_diff(e.path, "deleted"@, blob_text(m, e.oid@), Seq::empty(), no_color)
            },
            Some(c) => if blake3_digest(c) == e.oid {
                Seq::empty()
            } else {
                file_diff(e.path, "modified"@, blob_text(m, e.oid@), shown_text(c), no_color)
            },
        }
    }
}

/// What is shown of the entries of the index next to the working tree.
pub open spec fn unstaged_entries(
    m: Objects,
    wt: Seq<WorkFile>,
    es: Seq<EntryView>,
    filters: Seq<Seq<char>>,
    no_color: bool,
) -> Seq<char>
    decreases es.len(),
{
    if es.len() == 0 {
        Seq::empty()
    } else {
        unstaged_entries(m, wt, es.drop_last(), filters, no_color) + unstaged_entry(
            m,
            wt,
            es.last(),
            filters,
            no_color,
        )
    }
}

/// Whether the index holds a tracked entry for this path.
pub open spec fn is_tracked_in(es: Seq<EntryView>, path: Seq<char>) -> bool {
    any_where(es, path, |f: EntryFlags| f.has(EntryFlags::TRACKED))
}

/// What is shown of the filters that name files which are not tracked.
pub open spec fn new_files(
    wt: Seq<WorkFile>,
    es: Seq<EntryView>,
    filters: Seq<Seq<char>>,
    no_color: bool,
) -> Seq<char>
    decreases filters.len(),
{
    if filters.len() == 0 {
        Seq::empty()
    } else {
        let p = filters.last();
        let before = new_files(wt, es, filters.drop_last(), no_color);
        match content_at(wt, p) {
            Some(c) => if is_tracked_in(es, p) {
                before
            } else {
                before + file_diff(p, "new file"@, Seq::empty(), shown_text(c), no_color)
            },
            None => before,
        }
    }
}

/// What is shown where there may be no changes.
pub open spec fn or_note(shown: Seq<char>, verbose: bool, note: Seq<char>) -> Seq<char> {
    if shown.len() == 0 && verbose {
        note
    } else {
        shown
    }
}

/// The changes of the working tree next to the index.
pub open spec fn unstaged_text(
    m: Objects,
    wt: Seq<WorkFile>,
    es: Seq<EntryView>,
    filters: Seq<Seq<char>>,
    options: DiffOptions,
) -> Seq<char> {
    or_note(
        unstaged_entries(m, wt, es, filters, options.no_color) + new_files(
            wt,
            es,
            filters,
            options.no_color,
        ),
        options.verbose,
        "No unstaged changes\n"@,
    )
}

/// The changes of the working tree next to the index.
pub fn diff_unstaged(
    index: &HelixIndexData,
    store: &ObjectStore,
    worktree: &Vec<WorkFile>,
    filter_paths: &Vec<String>,
    options: &DiffOptions,
) -> (r: String)
    requires
        store.wf(),
    ensures
        r@ == unstaged_text(store@, worktree@, index.es(), texts(filter_paths@), *options),
{
    let ghost m = store@;
    let ghost fs = texts(filter_paths@);
    let ghost es = index.es();
    let no_color: bool = options.no_color;
    let entries = &index.data.entries;
    let mut out: String = String::new();
    let mut i: usize = 0;
    assert(out@ =~= unstaged_entries(m, worktree@, es.subrange(0, 0), fs, no_color));
    while i < entries.len()
        invariant
            i <= entries.len(),
            store.wf(),
            m == store@,
            fs == texts(filter_paths@),
            es == entry_views(entries@),
            out@ == unstaged_entries(m, worktree@, es.subrange(0, i as int), fs, no_color),
        decreases entries.len() - i,
    {
        let e = &entries[i];
        let ghost before = out@;
        proof {
            let t = es.subrange(0, i + 1);
            assert(t.drop_last() =~= es.subrange(0, i as int));
            assert(t.last() == entries@[i as int]@);
        }
        if e.flags.contains(EntryFlags::TRACKED) && (filter_paths.len() == 0 || path_matches(
            e.path.as_str(),
            filter_paths,
        )) {
            match find_content(worktree, e.path.as_str()) {
                None => {
                    if !(e.flags.contains(EntryFlags::STAGED) && e.flags.contains(
                        EntryFlags::DELETED,
                    )) {
                        let was = read_blob_as_string(store, &e.oid);
                        let now = String::new();
                        show_file(
                            &mut out,
                            e.path.as_str(),
                            "deleted",
                            was.as_str(),
                            now.as_str(),
                            no_color,
                        );
                    }
                },
                Some(c) => {
                    let hash = hash_bytes(c.as_slice());
                    if !hash_eq(&hash, &e.oid) {
                        let was = read_blob_as_string(store, &e.oid);
                        let now = from_utf8_lossy(c.as_slice());
                        show_file(
                            &mut out,
                            e.path.as_str(),
                            "modified",
                            was.as_str(),
                            now.as_str(),
                            no_color,
                        );
                    }
                },
            }
        }
        assert(out@ =~= before + unstaged_entry(m, worktree@, es[i as int], fs, no_color));
        i += 1;
    }
    assert(es.subrange(0, i as int) =~= es);
    let ghost base = out@;
    let mut j: usize = 0;
    assert(out@ =~= base + new_files(worktree@, es, fs.subrange(0, 0), no_color));
    while j < filter_paths.len()
        invariant
            j <= filter_paths.len(),
            fs == texts(filter_paths@),
            es == index.es(),
            out@ == base + new_files(worktree@, es, fs.subrange(0, j as int), no_color),
        decreases filter_paths.len() - j,
    {
        let p = filter_paths[j].as_str();
        let ghost before = out@;
        proof {
            let t = fs.subrange(0, j + 1);
            assert(t.drop_last() =~= fs.subrange(0, j as int));
            assert(t.last() == p@);
        }
        match find_content(worktree, p) {
            Some(c) => {
                if !index.is_tracked(p) {
                    let was = String::new();
                    let now = from_utf8_lossy(c.as_slice());
                    show_file(&mut out, p, "new file", was.as_str(), now.as_str(), no_color);
                }
            },
            None => {},
        }
        assert(out@ =~= base + new_files(worktree@, es, fs.subrange(0, j + 1), no_color));
        j += 1;
    }
    assert(fs.subrange(0, j as int) =~= fs);
    if out.as_str().is_empty() && options.verbose {
        return "No unstaged changes\n".to_owned();
    }
    out
}

/// The commit whose files the staged changes are held against: none where there
/// is no `HEAD`, or where the reference that it names does not exist.
pub open spec fn base_commit(r: Refs) -> Result<Option<Seq<u8>>, DiffFault> {
    match r.head {
        None => Ok(None),
        Some(content) => {
            let t = trim_spec(content);
            if has_prefix(t, "ref: "@) {
                let path = after(t, 5);
                if r.has(path) {
                    match decoded_hash(encode_utf8(trim_spec(r.at(path)))) {
                        Ok(h) => Ok(Some(h)),
                        Err(e) => Err(DiffFault::Head(e)),
                    }
                } else if ref_dir(r, path) {
                    Err(DiffFault::Unreadable(path))
                } else {
                    Ok(None)
                }
            } else {
                match decoded_hash(encode_utf8(t)) {
                    Ok(h) => Ok(Some(h)),
                    Err(e) => Err(DiffFault::Head(e)),
                }
            }
        },
    }
}

/// The commit whose files the staged changes are held against.
fn find_base(refs: &RefStore) -> (r: Result<Option<ObjectId>, DiffError>)
    requires
        refs.wf(),
    ensures
        match base_commit(refs@) {
            Ok(Some(h)) => r matches Ok(Some(id)) && id@ == h,
            Ok(None) => r matches Ok(None),
            Err(f) => r matches Err(e) && e@ == f,
        },
{
    let content = match &refs.head {
        None => return Ok(None),
        Some(c) => c,
    };
    let t = trim(content.as_str());
    proof {
        reveal_strlit("ref: ");
    }
    match strip_prefix(t.as_str(), "ref: ") {
        Some(path) => match refs.get_ref(path.as_str()) {
            Some(text) => {
                let h = trim(text.as_str());
                match hex_to_hash(h.as_str()) {
                    Ok(id) => Ok(Some(id)),
                    Err(e) => Err(DiffError::Head(e)),
                }
            },
            None => {
                if refs.has_dir(path.as_str()) {
                    Err(DiffError::Unreadable(path))
                } else {
                    Ok(None)
                }
            },
        },
        None => match hex_to_hash(t.as_str()) {
            Ok(id) => Ok(Some(id)),
            Err(e) => Err(DiffError::Head(e)),
        },
    }
}

/// Whether the trees of the head commit, if there is one, end somewhere.
pub open spec fn base_grounded(m: Objects, r: Refs) -> bool {
    base_commit(r) matches Ok(Some(h)) ==> (commit_at(m, h) matches Ok(c) ==> grounded(
        m,
        c.tree_hash,
    ))
}

/// The files of the head commit, by their path.
pub open spec fn head_files(m: Objects, r: Refs) -> Result<Map<Seq<char>, Seq<u8>>, DiffFault> {
    match base_commit(r) {
        Err(f) => Err(f),
        Ok(None) => Ok(Map::empty()),
        Ok(Some(h)) => match commit_at(m, h) {
            Err(f) => Err(DiffFault::Commit(f)),
            Ok(c) => match tree_files(m, c.tree_hash) {
                Err(f) => Err(DiffFault::Tree(f)),
                Ok(fs) => Ok(file_map(fs)),
            },
        },
    }
}

/// The files of the head commit, by their path. There are none before the first
/// commit.
pub fn get_head_tree_files(store: &ObjectStore, refs: &RefStore) -> (r: Result<
    TextMap<ObjectId>,
    DiffError,
>)
    requires
        store.wf(),
        refs.wf(),
        base_grounded(store@, refs@),
    ensures
        match head_files(store@, refs@) {
            Ok(m) => r matches Ok(t) && t.wf() && id_values(t@) == m,
            Err(f) => r matches Err(e) && e@ == f,
        },
{
    let id = match find_base(refs) {
        Ok(Some(id)) => id,
        Ok(None) => {
            let t: TextMap<ObjectId> = TextMap::new();
            assert(id_values(t@) =~= Map::empty());
            return Ok(t);
        },
        Err(e) => return Err(e),
    };
    match read_commit(store, &id) {
        Ok(c) => match collect_all_files(store, &c.tree_hash) {
            Ok(t) => Ok(t),
            Err(e) => Err(DiffError::Tree(e)),
        },
        Err(e) => Err(DiffError::Commit(e)),
    }
}

/// What is shown of a staged entry next to the files of the head commit.
pub open spec fn staged_entry(
    m: Objects,
    head: Map<Seq<char>, Seq<u8>>,
    e: EntryView,
    filters: Seq<Seq<char>>,
    no_color: bool,
) -> Seq<char> {
    if !e.flags.has(EntryFlags::STAGED) || !wanted(e.path, filters) {
        Seq::empty()
    } else if e.flags.has(EntryFlags::DELETED) {
        if head.contains_key(e.path) {
            file_diff(e.path, "deleted"@, blob_text(m, head[e.path]), Seq::empty(), no_color)
        } else {
            Seq::empty()
        }
    } else if !head.contains_key(e.path) {
        file_diff(e.path, "new file"@, Seq::empty(), blob_text(m, e.oid@), no_color)
    } else if head[e.path] == e.oid@ {
        Seq::empty()
    } else {
        file_diff(
            e.path,
            "modified"@,
            blob_text(m, head[e.path]),
            blob_text(m, e.oid@),
            no_color,
        )
    }
}

/// What is shown of the staged entries next to the files of the head commit.
pub open spec fn staged_entries_text(
    m: Objects,
    head: Map<Seq<char>, Seq<u8>>,
    es: Seq<EntryView>,
    filters: Seq<Seq<char>>,
    no_color: bool,
) -> Seq<char>
    decreases es.len(),
{
    if es.len() == 0 {
        Seq::empty()
    } else {
        staged_entries_text(m, head, es.drop_last(), filters, no_color) + staged_entry(
            m,
            head,
            es.last(),
            filters,
            no_color,
        )
    }
}

/// The changes of the index next to the files of the head commit.
pub open spec fn staged_text(
    m: Objects,
    head: Map<Seq<char>, Seq<u8>>,
    es: Seq<EntryView>,
    filters: Seq<Seq<char>>,
    options: DiffOptions,
) -> Seq<char> {
    or_note(
        staged_entries_text(m, head, es, filters, options.no_color),
        options.verbose,
        "No staged changes\n"@,
    )
}

/// Equal hashes have equal bytes, and only those.
proof fn lemma_same_id(a: ObjectId, b: ObjectId)
    ensures
        a == b <==> a@ == b@,
{
    if a@ == b@ {
        assert(a =~= b);
    }
}

/// The changes of the index next to these files of the head commit.
pub fn show_staged_changes(
    index: &HelixIndexData,
    store: &ObjectStore,
    head: &TextMap<ObjectId>,
    filter_paths: &Vec<String>,
    options: &DiffOptions,
) -> (r: String)
    requires
        store.wf(),
        head.wf(),
    ensures
        r@ == staged_text(
            store@,
            id_values(head@),
            index.es(),
            texts(filter_paths@),
            *options,
        ),
{
    let ghost m = store@;
    let ghost hs = id_values(head@);
    let ghost fs = texts(filter_paths@);
    let ghost es = index.es();
    let no_color: bool = options.no_color;
    let entries = &index.data.entries;
    let mut out: String = String::new();
    let mut i: usize = 0;
    assert(out@ =~= staged_entries_text(m, hs, es.subrange(0, 0), fs, no_color));
    while i < entries.len()
        invariant
            i <= entries.len(),
            store.wf(),
            head.wf(),
            m == store@,
            hs == id_values(head@),
            fs == texts(filter_paths@),
            es == entry_views(entries@),
            out@ == staged_entries_text(m, hs, es.subrange(0, i as int), fs, no_color),
        decreases entries.len() - i,
    {
        let e = &entries[i];
        let path = e.path.as_str();
        let ghost before = out@;
        proof {
            let t = es.subrange(0, i + 1);
            assert(t.drop_last() =~= es.subrange(0, i as int));
            assert(t.last() == entries@[i as int]@);
        }
        if e.flags.contains(EntryFlags::STAGED) && (filter_paths.len() == 0 || path_matches(
            path,
            filter_paths,
        )) {
            let empty = String::new();
            let was = head.get(path);
            assert(was is Some <==> hs.contains_key(path@));
            if e.flags.contains(EntryFlags::DELETED) {
                match was {
                    Some(h) => {
                        let text = read_blob_as_string(store, h);
                        show_file(
                            &mut out,
                            path,
                            "deleted",
                            text.as_str(),
                            empty.as_str(),
                            no_color,
                        );
                    },
                    None => {},
                }
            } else {
                match was {
                    Some(h) => {
                        proof {
                            lemma_same_id(*h, e.oid);
                        }
                        if !hash_eq(h, &e.oid) {
                            let text = read_blob_as_string(store, h);
                            let now = read_blob_as_string(store, &e.oid);
                            show_file(
                                &mut out,
                                path,
                                "modified",
                                text.as_str(),
                                now.as_str(),
                                no_color,
                            );
                        }
                    },
                    None => {
                        let now = read_blob_as_string(store, &e.oid);
                        show_file(
                            &mut out,
                            path,
                            "new file",
                            empty.as_str(),
                            now.as_str(),
                            no_color,
                        );
                    },
                }
            }
        }
        assert(out@ =~= before + staged_entry(m, hs, es[i as int], fs, no_color));
        i += 1;
    }
    assert(es.subrange(0, i as int) =~= es);
    if out.as_str().is_empty() && options.verbose {
        return "No staged changes\n".to_owned();
    }
    out
}

/// The changes of the index next to the head commit.
pub fn diff_staged(
    index: &HelixIndexData,
    store: &ObjectStore,
    refs: &RefStore,
    filter_paths: &Vec<String>,
    options: &DiffOptions,
) -> (r: Result<String, DiffError>)
    requires
        store.wf(),
        refs.wf(),
        base_grounded(store@, refs@),
    ensures
        match head_files(store@, refs@) {
            Ok(head) => r matches Ok(s) && s@ == staged_text(
                store@,
                head,
                index.es(),
                texts(filter_paths@),
                *options,
            ),
            Err(f) => r matches Err(e) && e@ == f,
        },
{
    match get_head_tree_files(store, refs) {
        Ok(head) => Ok(show_staged_changes(index, store, &head, filter_paths, options)),
        Err(e) => Err(e),
    }
}

/// What `diff` shows: the staged changes, or those of the working tree.
pub open spec fn diff_text(
    m: Objects,
    r: Refs,
    wt: Seq<WorkFile>,
    es: Seq<EntryView>,
    filters: Seq<Seq<char>>,
    options: DiffOptions,
) -> Result<Seq<char>, DiffFault> {
    if options.staged {
        match head_files(m, r) {
            Ok(head) => Ok(staged_text(m, head, es, filters, options)),
            Err(f) => Err(f),
        }
    } else {
        Ok(unstaged_text(m, wt, es, filters, options))
    }
}

/// Shows the staged changes, or those of the working tree that are not staged.
pub fn diff(
    index: &HelixIndexData,
    store: &ObjectStore,
    refs: &RefStore,
    worktree: &Vec<WorkFile>,
    paths: &Vec<String>,
    options: &DiffOptions,
) -> (r: Result<String, DiffError>)
    requires
        store.wf(),
        refs.wf(),
        base_grounded(store@, refs@),
    ensures
        match diff_text(store@, refs@, worktree@, index.es(), texts(paths@), *options) {
            Ok(s) => r matches Ok(t) && t@ == s,
            Err(f) => r matches Err(e) && e@ == f,
        },
{
    if options.staged {
        diff_staged(index, store, refs, paths, options)
    } else {
        Ok(diff_unstaged(index, store, worktree, paths, options))
    }
}

/// The insertions and deletions of a file.
#[derive(Debug, Clone, PartialEq, Eq)]
pub struct FileChanges {
    pub path: String,
    pub additions: usize,
    pub deletions: usize,
}

/// The path, insertions and deletions of a file.
pub type StatRow = (Seq<char>, nat, nat);

impl View for FileChanges {
    type V = StatRow;

    open spec fn view(&self) -> StatRow {
        (self.path@, self.additions as nat, self.deletions as nat)
    }
}

pub open spec fn stat_rows(v: Seq<FileChanges>) -> Seq<StatRow> {
    Seq::new(v.len(), |i: int| v[i]@)
}

/// The insertions and deletions of a staged entry.
pub open spec fn staged_stat(
    m: Objects,
    head: Map<Seq<char>, Seq<u8>>,
    e: EntryView,
    filters: Seq<Seq<char>>,
) -> (nat, nat) {
    if !e.flags.has(EntryFlags::STAGED) || !wanted(e.path, filters) {
        (0, 0)
    } else if e.flags.has(EntryFlags::DELETED) {
        if head.contains_key(e.path) {
            (0, lines_spec(blob_text(m, head[e.path])).len())
        } else {
            (0, 0)
        }
    } else if head.contains_key(e.path) {
        stat_of(blob_text(m, head[e.path]), blob_text(m, e.oid@))
    } else {
        (lines_spec(blob_text(m, e.oid@)).len(), 0)
    }
}

/// The insertions and deletions of an entry next to the working tree.
pub open spec fn unstaged_stat(
    m: Objects,
    wt: Seq<WorkFile>,
    e: EntryView,
    filters: Seq<Seq<char>>,
) -> (nat, nat) {
    if !e.flags.has(EntryFlags::TRACKED) || !wanted(e.path, filters) {
        (0, 0)
    } else {
        match content_at(wt, e.path) {
            None => (0, lines_spec(blob_text(m, e.oid@)).len()),
            Some(c) => if blake3_digest(c) == e.oid {
                (0, 0)
            } else {
                stat_of(blob_text(m, e.oid@), shown_text(c))
            },
        }
    }
}

/// The rows, and one more for a file with insertions or deletions.
pub open spec fn with_row(rows: Seq<StatRow>, path: Seq<char>, n: (nat, nat)) -> Seq<StatRow> {
    if n.0 > 0 || n.1 > 0 {
        rows.push((path, n.0, n.1))
    } else {
        rows
    }
}

/// The insertions and deletions of the staged entries.
pub open spec fn staged_rows(
    m: Objects,
    head: Map<Seq<char>, Seq<u8>>,
    es: Seq<EntryView>,
    filters: Seq<Seq<char>>,
) -> Seq<StatRow>
    decreases es.len(),
{
    if es.len() == 0 {
        Seq::empty()
    } else {
        with_row(
            staged_rows(m, head, es.drop_last(), filters),
            es.last().path,
            staged_stat(m, head, es.last(), filters),
        )
    }
}

/// The insertions and deletions of the entries next to the working tree.
pub open spec fn unstaged_rows(
    m: Objects,
    wt: Seq<WorkFile>,
    es: Seq<EntryView>,
    filters: Seq<Seq<char>>,
) -> Seq<StatRow>
    decreases es.len(),
{
    if es.len() == 0 {
        Seq::empty()
    } else {
        with_row(
            unstaged_rows(m, wt, es.drop_last(), filters),
            es.last().path,
            unstaged_stat(m, wt, es.last(), filters),
        )
    }
}

/// Each row's insertions and deletions fit in one count.
pub open spec fn rows_fit(v: Seq<FileChanges>) -> bool {
    forall|i: int|
        0 <= i < v.len() ==> (#[trigger] v[i]).additions + v[i].deletions <= usize::MAX
}

/// Adds a row for a file with insertions or deletions.
fn push_row(rows: &mut Vec<FileChanges>, path: &String, n: (usize, usize))
    requires
        rows_fit(old(rows)@),
        n.0 + n.1 <= usize::MAX,
    ensures
        rows_fit(final(rows)@),
        stat_rows(final(rows)@) == with_row(
            stat_rows(old(rows)@),
            path@,
            (n.0 as nat, n.1 as nat),
        ),
{
    let ghost before = stat_rows(rows@);
    if n.0 > 0 || n.1 > 0 {
        rows.push(FileChanges { path: path.clone(), additions: n.0, deletions: n.1 });
        assert(stat_rows(rows@) =~= before.push((path@, n.0 as nat, n.1 as nat)));
    }
}

/// How many lines a text has.
fn count_lines(s: &str) -> (r: usize)
    ensures
        r == lines_spec(s@).len(),
{
    let v = lines(s);
    assert(texts(v@).len() == v@.len());
    v.len()
}

/// The insertions and deletions of the staged entries, next to these files of the
/// head commit.
pub fn collect_staged_stat(
    index: &HelixIndexData,
    store: &ObjectStore,
    head: &TextMap<ObjectId>,
    paths: &Vec<String>,
) -> (r: Vec<FileChanges>)
    requires
        store.wf(),
        head.wf(),
    ensures
        rows_fit(r@),
        stat_rows(r@) == staged_rows(store@, id_values(head@), index.es(), texts(paths@)),
{
    let ghost m = store@;
    let ghost hs = id_values(head@);
    let ghost fs = texts(paths@);
    let ghost es = index.es();
    let entries = &index.data.entries;
    let mut rows: Vec<FileChanges> = Vec::new();
    let mut i: usize = 0;
    assert(stat_rows(rows@) =~= staged_rows(m, hs, es.subrange(0, 0), fs));
    while i < entries.len()
        invariant
            i <= entries.len(),
            store.wf(),
            head.wf(),
            m == store@,
            hs == id_values(head@),
            fs == texts(paths@),
            es == entry_views(entries@),
            rows_fit(rows@),
            stat_rows(rows@) == staged_rows(m, hs, es.subrange(0, i as int), fs),
        decreases entries.len() - i,
    {
        let e = &entries[i];
        let path = e.path.as_str();
        proof {
            let t = es.subrange(0, i + 1);
            assert(t.drop_last() =~= es.subrange(0, i as int));
            assert(t.last() == entries@[i as int]@);
        }
        if e.flags.contains(EntryFlags::STAGED) && (paths.len() == 0 || path_matches(path, paths)) {
            let was = head.get(path);
            assert(was is Some <==> hs.contains_key(path@));
            let n: (usize, usize) = if e.flags.contains(EntryFlags::DELETED) {
                match was {
                    Some(h) => {
                        let text = read_blob_as_string(store, h);
                        (0, count_lines(text.as_str()))
                    },
                    None => (0, 0),
                }
            } else {
                let now = read_blob_as_string(store, &e.oid);
                match was {
                    Some(h) => {
                        let text = read_blob_as_string(store, h);
                        compute_stat(text.as_str(), now.as_str())
                    },
                    None => (count_lines(now.as_str()), 0),
                }
            };
            assert((n.0 as nat, n.1 as nat) == staged_stat(m, hs, es[i as int], fs));
            push_row(&mut rows, &e.path, n);
        }
        i += 1;
    }
    assert(es.subrange(0, i as int) =~= es);
    rows
}

/// The insertions and deletions of the entries next to the working tree.
pub fn collect_unstaged_stat(
    index: &HelixIndexData,
    store: &ObjectStore,
    worktree: &Vec<WorkFile>,
    paths: &Vec<String>,
) -> (r: Vec<FileChanges>)
    requires
        store.wf(),
    ensures
        rows_fit(r@),
        stat_rows(r@) == unstaged_rows(store@, worktree@, index.es(), texts(paths@)),
{
    let ghost m = store@;
    let ghost fs = texts(paths@);
    let ghost es = index.es();
    let entries = &index.data.entries;
    let mut rows: Vec<FileChanges> = Vec::new();
    let mut i: usize = 0;
    assert(stat_rows(rows@) =~= unstaged_rows(m, worktree@, es.subrange(0, 0), fs));
    while i < entries.len()
        invariant
            i <= entries.len(),
            store.wf(),
            m == store@,
            fs == texts(paths@),
            es == entry_views(entries@),
            rows_fit(rows@),
            stat_rows(rows@) == unstaged_rows(m, worktree@, es.subrange(0, i as int), fs),
        decreases entries.len() - i,
    {
        let e = &entries[i];
        let path = e.path.as_str();
        proof {
            let t = es.subrange(0, i + 1);
            assert(t.drop_last() =~= es.subrange(0, i as int));
            assert(t.last() == entries@[i as int]@);
        }
        if e.flags.contains(EntryFlags::TRACKED) && (paths.len() == 0 || path_matches(path, paths)) {
            let n: (usize, usize) = match find_content(worktree, path) {
                None => {
                    let was = read_blob_as_string(store, &e.oid);
                    (0, count_lines(was.as_str()))
                },
                Some(c) => {
                    let hash = hash_bytes(c.as_slice());
                    if hash_eq(&hash, &e.oid) {
                        (0, 0)
                    } else {
                        let was = read_blob_as_string(store, &e.oid);
                        let now = from_utf8_lossy(c.as_slice());
                        compute_stat(was.as_str(), now.as_str())
                    }
                },
            };
            assert((n.0 as nat, n.1 as nat) == unstaged_stat(m, worktree@, es[i as int], fs));
            push_row(&mut rows, &e.path, n);
        }
        i += 1;
    }
    assert(es.subrange(0, i as int) =~= es);
    rows
}

/// The length in bytes of the longest path.
pub open spec fn path_width(rows: Seq<StatRow>) -> nat
    decreases rows.len(),
{
    if rows.len() == 0 {
        0
    } else {
        let w = path_width(rows.drop_last());
        let n = encode_utf8(rows.last().0).len();
        if n > w {
            n
        } else {
            w
        }
    }
}

/// All insertions, and all deletions.
pub open spec fn totals(rows: Seq<StatRow>) -> (nat, nat)
    decreases rows.len(),
{
    if rows.len() == 0 {
        (0, 0)
    } else {
        let t = totals(rows.drop_last());
        (t.0 + rows.last().1, t.1 + rows.last().2)
    }
}

/// The line of a file in a summary.
pub open spec fn row_text(row: StatRow, width: nat) -> Seq<char> {
    " "@ + padded_right(row.0, width) + " | "@ + padded_left(decimal(row.1 + row.2), 4) + " "@
        + stat_bar(row.1, row.2) + "\n"@
}

/// The lines of the files in a summary.
pub open spec fn rows_text(rows: Seq<StatRow>, width: nat) -> Seq<char>
    decreases rows.len(),
{
    if rows.len() == 0 {
        Seq::empty()
    } else {
        rows_text(rows.drop_last(), width) + row_text(rows.last(), width)
    }
}

/// The ending of a noun behind a number.
pub open spec fn plural(n: nat) -> Seq<char> {
    if n == 1 {
        ""@
    } else {
        "s"@
    }
}

/// A summary of the insertions and deletions of files; nothing where there are
/// none.
pub open spec fn summary_text(rows: Seq<StatRow>) -> Seq<char> {
    if rows.len() == 0 {
        Seq::empty()
    } else {
        let t = totals(rows);
        rows_text(rows, path_width(rows)) + " "@ + decimal(rows.len()) + " file"@ + plural(
            rows.len(),
        ) + " changed, "@ + decimal(t.0) + " insertion"@ + plural(t.0) + "(+), "@ + decimal(t.1)
            + " deletion"@ + plural(t.1) + "(-)\n"@
    }
}

/// The ending of a noun behind a number.
fn plural_of(n: u128) -> (r: &'static str)
    ensures
        r@ == plural(n as nat),
{
    if n == 1 {
        ""
    } else {
        "s"
    }
}

/// A summary of the insertions and deletions of files; nothing where there are
/// none.
pub fn show_stat(rows: &Vec<FileChanges>) -> (r: String)
    requires
        rows_fit(rows@),
    ensures
        r@ == summary_text(stat_rows(rows@)),
{
    let ghost v = stat_rows(rows@);
    let mut out: String = String::new();
    if rows.len() == 0 {
        assert(out@ =~= Seq::<char>::empty());
        return out;
    }
    let mut width: usize = 0;
    let mut additions: u128 = 0;
    let mut deletions: u128 = 0;
    let mut i: usize = 0;
    while i < rows.len()
        invariant
            i <= rows.len(),
            v == stat_rows(rows@),
            width == path_width(v.subrange(0, i as int)),
            (additions as nat, deletions as nat) == totals(v.subrange(0, i as int)),
            additions <= i * usize::MAX,
            deletions <= i * usize::MAX,
        decreases rows.len() - i,
    {
        let row = &rows[i];
        let n: usize = row.path.as_str().as_bytes().len();
        proof {
            let t = v.subrange(0, i + 1);
            assert(t.drop_last() =~= v.subrange(0, i as int));
            assert(t.last() == row@);
            assert((i + 1) * usize::MAX == i * usize::MAX + usize::MAX) by (nonlinear_arith);
            assert((i + 1) * usize::MAX <= usize::MAX * usize::MAX) by (nonlinear_arith)
                requires
                    i + 1 <= usize::MAX,
            ;
            assert(usize::MAX * usize::MAX <= u128::MAX) by (nonlinear_arith)
                requires
                    usize::MAX <= 0xffff_ffff_ffff_ffff,
            ;
        }
        if n > width {
            width = n;
        }
        additions = additions + row.additions as u128;
        deletions = deletions + row.deletions as u128;
        i += 1;
    }
    assert(v.subrange(0, i as int) =~= v);
    i = 0;
    assert(out@ =~= rows_text(v.subrange(0, 0), width as nat));
    while i < rows.len()
        invariant
            i <= rows.len(),
            v == stat_rows(rows@),
            rows_fit(rows@),
            out@ == rows_text(v.subrange(0, i as int), width as nat),
        decreases rows.len() - i,
    {
        let row = &rows[i];
        let ghost before = out@;
        proof {
            let t = v.subrange(0, i + 1);
            assert(t.drop_last() =~= v.subrange(0, i as int));
            assert(t.last() == row@);
        }
        out.append(" ");
        out.append(pad_right(row.path.as_str(), width).as_str());
        out.append(" | ");
        out.append(pad_left(decimal_of((row.additions + row.deletions) as u64).as_str(), 4).as_str());
        out.append(" ");
        out.append(create_stat_bar(row.additions, row.deletions).as_str());
        out.append("\n");
        assert(out@ =~= before + row_text(row@, width as nat));
        i += 1;
    }
    assert(v.subrange(0, i as int) =~= v);
    out.append(" ");
    out.append(decimal_of(rows.len() as u64).as_str());
    out.append(" file");
    out.append(plural_of(rows.len() as u128));
    out.append(" changed, ");
    out.append(decimal_of_wide(additions).as_str());
    out.append(" insertion");
    out.append(plural_of(additions));
    out.append("(+), ");
    out.append(decimal_of_wide(deletions).as_str());
    out.append(" deletion");
    out.append(plural_of(deletions));
    out.append("(-)\n");
    out
}

/// Shows a summary of the staged changes, or of those of the working tree.
pub fn diff_stat(
    index: &HelixIndexData,
    store: &ObjectStore,
    refs: &RefStore,
    worktree: &Vec<WorkFile>,
    paths: &Vec<String>,
    options: &DiffOptions,
) -> (r: Result<String, DiffError>)
    requires
        store.wf(),
        refs.wf(),
        base_grounded(store@, refs@),
    ensures
        options.staged ==> match head_files(store@, refs@) {
            Ok(head) => r matches Ok(s) && s@ == summary_text(
                staged_rows(store@, head, index.es(), texts(paths@)),
            ),
            Err(f) => r matches Err(e) && e@ == f,
        },
        !options.staged ==> (r matches Ok(s) && s@ == summary_text(
            unstaged_rows(store@, worktree@, index.es(), texts(paths@)),
        )),
{
    if options.staged {
        match get_head_tree_files(store, refs) {
            Ok(head) => {
                let rows = collect_staged_stat(index, store, &head, paths);
                Ok(show_stat(&rows))
            },
            Err(e) => Err(e),
        }
    } else {
        let rows = collect_unstaged_stat(index, store, worktree, paths);
        Ok(show_stat(&rows))
    }
}

/// Whether each tracked entry has the contents of its file in the working tree.
pub open spec fn is_up_to_date(wt: Seq<WorkFile>, es: Seq<EntryView>) -> bool {
    forall|i: int|
        0 <= i < es.len() && (#[trigger] es[i]).flags.has(EntryFlags::TRACKED) ==> (content_at(
            wt,
            es[i].path,
        ) matches Some(c) && blake3_digest(c) == es[i].oid)
}

proof fn lemma_nothing_to_show(
    m: Objects,
    wt: Seq<WorkFile>,
    es: Seq<EntryView>,
    filters: Seq<Seq<char>>,
    no_color: bool,
)
    requires
        is_up_to_date(wt, es),
    ensures
        unstaged_entries(m, wt, es, filters, no_color).len() == 0,
        unstaged_rows(m, wt, es, filters).len() == 0,
    decreases es.len(),
{
    if es.len() > 0 {
        let d = es.drop_last();
        assert forall|i: int|
            0 <= i < d.len() && (#[trigger] d[i]).flags.has(EntryFlags::TRACKED) implies content_at(
            wt,
            d[i].path,
        ) matches Some(c) && blake3_digest(c) == d[i].oid by {
            assert(d[i] == es[i]);
        }
        lemma_nothing_to_show(m, wt, d, filters, no_color);
        assert(es.last() == es[es.len() - 1]);
    }
}

/// Where every tracked file has the contents that the index records, there is
/// nothing to show: no changes, and an empty summary.
pub proof fn no_changes_no_diff(
    m: Objects,
    wt: Seq<WorkFile>,
    es: Seq<EntryView>,
    options: DiffOptions,
)
    requires
        is_up_to_date(wt, es),
    ensures
        unstaged_text(m, wt, es, Seq::empty(), options) == if options.verbose {
            "No unstaged changes\n"@
        } else {
            Seq::<char>::empty()
        },
        summary_text(unstaged_rows(m, wt, es, Seq::empty())) == Seq::<char>::empty(),
{
    lemma_nothing_to_show(m, wt, es, Seq::empty(), options.no_color);
    let shown = unstaged_entries(m, wt, es, Seq::empty(), options.no_color) + new_files(
        wt,
        es,
        Seq::empty(),
        options.no_color,
    );
    assert(shown =~= Seq::empty());
}

/// A changed tracked file is always shown: the header of its changes is never
/// empty.
pub proof fn changed_file_is_shown(
    m: Objects,
    wt: Seq<WorkFile>,
    e: EntryView,
    filters: Seq<Seq<char>>,
    no_color: bool,
)
    requires
        e.flags.has(EntryFlags::TRACKED),
        wanted(e.path, filters),
        content_at(wt, e.path) matches Some(c) && blake3_digest(c) != e.oid,
    ensures
        unstaged_entry(m, wt, e, filters, no_color).len() > 0,
{
    reveal_strlit("diff --helix a/");
}

} // verus!
