//! Sandboxes: working directories of their own, each on its own branch.
use vstd::prelude::*;
use vstd::string::*;
use vstd::utf8::*;

use crate::add_command::{file_mode_of, get_file_mode, WorkFile};
use crate::checkout::{
    action_views, checkout_line, checkout_tree_to_path, commit_step, files_written, opening_text,
    parse_tree_hash_from_commit, tree_of_commit, writes, ActionView, Checkout, CheckoutAction,
    CheckoutError, CheckoutFault, CheckoutOptions, Progress,
};
use crate::diff_command::{content_at, content_from};
use crate::hash::{
    blake3_digest, decoded_hash, hash_bytes, hash_eq, hash_to_hex, hex_text, hex_to_hash, HexError,
    ObjectId,
};
use crate::helix_index::commit::{commit_bytes, parse_commit, Commit, CommitError, CommitView};
use crate::helix_index::format::{
    entry_views, Entry, EntryFlags, EntryView, FileStat, FormatError, Header,
};
use crate::helix_index::reader::{index_bytes, is_misfit, HelixIndex};
use crate::helix_index::tree::{files_of, put_trees, snapshot, tree_id, TreeBuilder};
use crate::helix_index::tree_walk::{
    collect_all_files, file_map, grounded, id_values, tree_files, WalkError, WalkFault,
};
use crate::object_store::{put_object, ObjectStore, ObjectType, Objects};
use crate::order::{in_order, path_codes, path_less, sort, sorted, ByPath, Compares, Ranking};
use crate::refs::{head_commit, read_head, ref_present, HeadError, HeadFault, RefStore, Refs};
use crate::path::plain_path;
use crate::repo_context::{below, path_below};
use crate::text::{
    concat, concat3, decimal, decimal_of, from_chars, has_prefix, push_line, split, split_spec,
    starts_with, str_eq, text_of, texts, to_chars, trim, trim_spec,
};
use crate::text_map::{lemma_pairs_at, lemma_pairs_from, TextMap};
use crate::toml_text::{read_toml_text, toml_text};

verus! {

/// What is kept of a sandbox.
#[derive(Debug, Clone, PartialEq, Eq)]
pub struct SandboxManifest {
    pub id: String,
    pub name: String,
    /// The commit that it starts from, in hexadecimal.
    pub base_commit: String,
    pub created_at: u64,
    pub description: Option<String>,
    pub branch: Option<String>,
}

/// A sandbox and its directories.
#[derive(Debug, Clone, PartialEq, Eq)]
pub struct Sandbox {
    pub manifest: SandboxManifest,
    pub root: String,
    pub workdir: String,
}

/// How to create a sandbox.
#[derive(Debug, Clone, Copy, PartialEq, Eq)]
pub struct CreateOptions {
    /// The commit to start from, in place of the current one.
    pub base_commit: Option<ObjectId>,
    pub verbose: bool,
}

impl Default for CreateOptions {
    fn default() -> (o: CreateOptions)
        ensures
            o.base_commit is None && !o.verbose,
    {
        CreateOptions { base_commit: None, verbose: false }
    }
}

/// How to destroy a sandbox.
#[derive(Debug, Clone, Copy, PartialEq, Eq)]
pub struct DestroyOptions {
    /// Destroy it though it has changes.
    pub force: bool,
    pub verbose: bool,
}

impl Default for DestroyOptions {
    fn default() -> (o: DestroyOptions)
        ensures
            !o.force && !o.verbose,
    {
        DestroyOptions { force: false, verbose: false }
    }
}

/// How to merge a sandbox.
#[derive(Debug, Clone, PartialEq, Eq)]
pub struct MergeOptions {
    /// The branch to merge into, in place of `main`.
    pub into_branch: Option<String>,
    pub verbose: bool,
}

impl Default for MergeOptions {
    fn default() -> (o: MergeOptions)
        ensures
            o.into_branch is None && !o.verbose,
    {
        MergeOptions { into_branch: None, verbose: false }
    }
}

/// How to list sandboxes.
#[derive(Debug, Clone, Copy, PartialEq, Eq)]
pub struct ListOptions {
    pub verbose: bool,
}

impl Default for ListOptions {
    fn default() -> (o: ListOptions)
        ensures
            !o.verbose,
    {
        ListOptions { verbose: false }
    }
}

/// How to commit the changes of a sandbox.
#[derive(Debug, Clone, PartialEq, Eq)]
pub struct CommitOptions {
    pub message: String,
    pub author: Option<String>,
    pub verbose: bool,
}

impl SandboxManifest {
    /// The manifest of a new sandbox with this identifier, made at the time `now`.
    pub fn new(name: &str, base_commit: &ObjectId, id: String, now: u64) -> (m: SandboxManifest)
        ensures
            m.id == id,
            m.name@ == name@,
            m.base_commit@ == hex_text(base_commit@),
            m.created_at == now,
            m.description is None,
            m.branch is None,
    {
        SandboxManifest {
            id,
            name: name.to_owned(),
            base_commit: hash_to_hex(base_commit),
            created_at: now,
            description: None,
            branch: None,
        }
    }

    /// The commit that the sandbox starts from.
    pub fn base_commit_hash(&self) -> (r: Result<ObjectId, HexError>)
        ensures
            match decoded_hash(encode_utf8(self.base_commit@)) {
                Ok(h) => r matches Ok(id) && id@ == h,
                Err(f) => r matches Err(e) && e == f,
            },
    {
        hex_to_hash(self.base_commit.as_str())
    }
}

/// What a manifest says of the commit that a sandbox starts from is read back.
pub proof fn base_commit_round_trip(h: ObjectId)
    ensures
        decoded_hash(encode_utf8(hex_text(h@))) == Ok::<Seq<u8>, HexError>(h@),
{
    crate::hash::hex_round_trip(h@);
}

/// What happened to a file of a sandbox.
#[derive(Debug, Clone, Copy, PartialEq, Eq, Structural)]
pub enum SandboxChangeKind {
    Added,
    Modified,
    Deleted,
}

/// A changed file of a sandbox.
#[derive(Debug, Clone, PartialEq, Eq)]
pub struct SandboxChange {
    pub path: String,
    pub kind: SandboxChangeKind,
}

/// The letter of a change.
pub open spec fn change_letter(k: SandboxChangeKind) -> char {
    match k {
        SandboxChangeKind::Added => 'A',
        SandboxChangeKind::Modified => 'M',
        SandboxChangeKind::Deleted => 'D',
    }
}

impl View for SandboxChange {
    type V = (Seq<char>, SandboxChangeKind);

    open spec fn view(&self) -> (Seq<char>, SandboxChangeKind) {
        (self.path@, self.kind)
    }
}

pub open spec fn change_views(v: Seq<SandboxChange>) -> Seq<(Seq<char>, SandboxChangeKind)> {
    Seq::new(v.len(), |i: int| v[i]@)
}

impl SandboxChange {
    /// The letter of the change.
    pub fn status_char(&self) -> (c: char)
        ensures
            c == change_letter(self.kind),
    {
        match self.kind {
            SandboxChangeKind::Added => 'A',
            SandboxChangeKind::Modified => 'M',
            SandboxChangeKind::Deleted => 'D',
        }
    }
}

/// Why a sandbox operation is refused.
#[derive(Debug)]
pub enum SandboxError {
    EmptyName,
    NameTooLong,
    InvalidName(String),
    AlreadyExists(String),
    /// There is no commit to start from.
    NoHead(HeadError),
    Checkout(CheckoutError),
    /// There is no such sandbox.
    Missing(String),
    /// There is no such sandbox to switch to.
    CannotSwitch(String),
    /// The manifest holds no hash.
    InvalidBase(HexError),
    /// The commit that the sandbox starts from is not stored.
    NoCommit(ObjectId),
    CommitTooShort,
    Damaged(CommitError),
    Tree(WalkError),
    /// It has this many changes that are not committed.
    HasChanges(String, usize),
    EmptyMessage,
    NoChanges(String),
    NoAuthor,
    /// The manifest names no branch.
    NoBranch,
    /// The branch of the sandbox does not exist.
    BranchMissing,
    /// A branch holds no hash.
    InvalidBranch(HexError),
    /// Nothing was committed in the sandbox.
    NothingCommitted(String, String),
    /// The branch has gone on from the commit that the sandbox starts from.
    Diverged(String),
    /// The index cannot be written.
    Index(FormatError),
}

/// Why a sandbox operation is refused, with texts as characters.
pub enum SandboxFault {
    EmptyName,
    NameTooLong,
    InvalidName(Seq<char>),
    AlreadyExists(Seq<char>),
    NoHead(HeadFault),
    Checkout(CheckoutFault),
    Missing(Seq<char>),
    CannotSwitch(Seq<char>),
    InvalidBase(HexError),
    NoCommit(Seq<u8>),
    CommitTooShort,
    Damaged(CommitError),
    Tree(WalkFault),
    HasChanges(Seq<char>, nat),
    EmptyMessage,
    NoChanges(Seq<char>),
    NoAuthor,
    NoBranch,
    BranchMissing,
    InvalidBranch(HexError),
    NothingCommitted(Seq<char>, Seq<char>),
    Diverged(Seq<char>),
    Index(FormatError),
}

impl View for SandboxError {
    type V = SandboxFault;

    open spec fn view(&self) -> SandboxFault {
        match *self {
            SandboxError::EmptyName => SandboxFault::EmptyName,
            SandboxError::NameTooLong => SandboxFault::NameTooLong,
            SandboxError::InvalidName(s) => SandboxFault::InvalidName(s@),
            SandboxError::AlreadyExists(s) => SandboxFault::AlreadyExists(s@),
            SandboxError::NoHead(e) => SandboxFault::NoHead(e@),
            SandboxError::Checkout(e) => SandboxFault::Checkout(e@),
            SandboxError::Missing(s) => SandboxFault::Missing(s@),
            SandboxError::CannotSwitch(s) => SandboxFault::CannotSwitch(s@),
            SandboxError::InvalidBase(e) => SandboxFault::InvalidBase(e),
            SandboxError::NoCommit(h) => SandboxFault::NoCommit(h@),
            SandboxError::CommitTooShort => SandboxFault::CommitTooShort,
            SandboxError::Damaged(e) => SandboxFault::Damaged(e),
            SandboxError::Tree(e) => SandboxFault::Tree(e@),
            SandboxError::HasChanges(s, n) => SandboxFault::HasChanges(s@, n as nat),
            SandboxError::EmptyMessage => SandboxFault::EmptyMessage,
            SandboxError::NoChanges(s) => SandboxFault::NoChanges(s@),
            SandboxError::NoAuthor => SandboxFault::NoAuthor,
            SandboxError::NoBranch => SandboxFault::NoBranch,
            SandboxError::BranchMissing => SandboxFault::BranchMissing,
            SandboxError::InvalidBranch(e) => SandboxFault::InvalidBranch(e),
            SandboxError::NothingCommitted(s, w) => SandboxFault::NothingCommitted(s@, w@),
            SandboxError::Diverged(s) => SandboxFault::Diverged(s@),
            SandboxError::Index(e) => SandboxFault::Index(e),
        }
    }
}

/// Whether a character beyond ASCII is a letter or a digit of some script.
pub uninterp spec fn alphanumeric(c: char) -> bool;

/// Whether a character is a letter or a digit.
pub open spec fn is_letter_or_digit(c: char) -> bool {
    if (c as u32) < 128 {
        ('0' <= c && c <= '9') || ('A' <= c && c <= 'Z') || ('a' <= c && c <= 'z')
    } else {
        alphanumeric(c)
    }
}

/// Calls `char::is_alphanumeric`: among the ASCII characters it holds of the
/// letters and digits alone, and beyond them the answer is a function of the
/// character.
#[verifier::external_body]
fn is_alphanumeric(c: char) -> (r: bool)
    ensures
        (c as u32) < 128 ==> r == is_letter_or_digit(c),
        (c as u32) >= 128 ==> r == alphanumeric(c),
{
    c.is_alphanumeric()
}

/// Whether a character may stand in the name of a sandbox.
pub open spec fn in_name(c: char) -> bool {
    is_letter_or_digit(c) || c == '-' || c == '_'
}

/// Why a name is none for a sandbox.
pub open spec fn sandbox_name_fault(name: Seq<char>) -> Option<SandboxFault> {
    if name.len() == 0 {
        Some(SandboxFault::EmptyName)
    } else if encode_utf8(name).len() > 64 {
        Some(SandboxFault::NameTooLong)
    } else if forall|i: int| 0 <= i < name.len() ==> in_name(#[trigger] name[i]) {
        None
    } else {
        Some(SandboxFault::InvalidName(name))
    }
}

/// Whether each character may stand in the name of a sandbox.
fn all_in_name(name: &str) -> (r: bool)
    ensures
        r == forall|i: int| 0 <= i < name@.len() ==> in_name(#[trigger] name@[i]),
        r ==> forall|i: int| 0 <= i < name@.len() ==> name@[i] != '/',
{
    let v = to_chars(name);
    let mut i: usize = 0;
    while i < v.len()
        invariant
            v@ == name@,
            i <= v.len(),
            forall|j: int| 0 <= j < i ==> in_name(#[trigger] name@[j]) && name@[j] != '/',
        decreases v.len() - i,
    {
        let c: char = v[i];
        let known: bool = is_alphanumeric(c);
        if !(known || c == '-' || c == '_') {
            return false;
        }
        i += 1;
    }
    true
}

/// Checks the name of a sandbox: letters, digits, hyphens and underscores, and at
/// most 64 bytes. A name that passes holds no separator.
pub fn validate_sandbox_name(name: &str) -> (r: Result<(), SandboxError>)
    ensures
        match sandbox_name_fault(name@) {
            Some(f) => r matches Err(e) && e@ == f,
            None => r is Ok,
        },
        r is Ok ==> forall|i: int| 0 <= i < name@.len() ==> name@[i] != '/',
{
    if name.is_empty() {
        return Err(SandboxError::EmptyName);
    }
    if name.as_bytes().len() > 64 {
        return Err(SandboxError::NameTooLong);
    }
    if !all_in_name(name) {
        return Err(SandboxError::InvalidName(name.to_owned()));
    }
    Ok(())
}

/// Whether a file or directory of this name is left out of a sandbox: hidden ones,
/// and those that tools fill.
pub open spec fn is_left_out(name: Seq<char>) -> bool {
    ||| has_prefix(name, "."@)
    ||| name == "node_modules"@
    ||| name == "target"@
    ||| name == "__pycache__"@
    ||| name == "venv"@
}

/// Whether a file is one of those that count: it is not left out, nor is a
/// directory above it.
pub open spec fn counts(path: Seq<char>) -> bool {
    forall|i: int|
        0 <= i < split_spec(path, '/').len() ==> !is_left_out(#[trigger] split_spec(path, '/')[i])
}

/// Whether a file is one of those that count.
fn is_counted(path: &str) -> (r: bool)
    ensures
        r == counts(path@),
{
    let parts = split(path, '/');
    let ghost ps = texts(parts@);
    let mut i: usize = 0;
    while i < parts.len()
        invariant
            i <= parts.len(),
            ps == texts(parts@),
            ps == split_spec(path@, '/'),
            forall|j: int| 0 <= j < i ==> !is_left_out(#[trigger] ps[j]),
        decreases parts.len() - i,
    {
        let p = parts[i].as_str();
        assert(ps[i as int] == p@);
        if starts_with(p, ".") || str_eq(p, "node_modules") || str_eq(p, "target") || str_eq(
            p,
            "__pycache__",
        ) || str_eq(p, "venv") {
            return false;
        }
        i += 1;
    }
    true
}

/// The contents of a file that counts.
pub open spec fn counted_content(files: Seq<WorkFile>, path: Seq<char>) -> Option<Seq<u8>> {
    if counts(path) {
        content_at(files, path)
    } else {
        None
    }
}

/// What happened to the file at a path between a commit and a working directory.
pub open spec fn change_at(
    base: Map<Seq<char>, Seq<u8>>,
    files: Seq<WorkFile>,
    path: Seq<char>,
) -> Option<SandboxChangeKind> {
    match counted_content(files, path) {
        Some(c) => if !base.contains_key(path) {
            Some(SandboxChangeKind::Added)
        } else if base[path] != blake3_digest(c)@ {
            Some(SandboxChangeKind::Modified)
        } else {
            None
        },
        None => if base.contains_key(path) {
            Some(SandboxChangeKind::Deleted)
        } else {
            None
        },
    }
}

/// Changes in the order of their paths.
impl Ranking<(Seq<char>, SandboxChangeKind)> for ByPath {
    open spec fn key(t: (Seq<char>, SandboxChangeKind)) -> Seq<int> {
        path_codes(t.0)
    }
}

impl Ranking<SandboxChange> for ByPath {
    open spec fn key(t: SandboxChange) -> Seq<int> {
        path_codes(t.path@)
    }
}

impl Compares<SandboxChange> for ByPath {
    fn before(a: &SandboxChange, b: &SandboxChange) -> (r: bool) {
        path_less(a.path.as_str(), b.path.as_str())
    }
}

/// Whether these are the changes between a commit and a working directory: each
/// changed path once, in the order of the paths.
pub open spec fn are_changes(
    base: Map<Seq<char>, Seq<u8>>,
    files: Seq<WorkFile>,
    v: Seq<(Seq<char>, SandboxChangeKind)>,
) -> bool {
    &&& v.no_duplicates()
    &&& in_order::<ByPath, (Seq<char>, SandboxChangeKind)>(v)
    &&& forall|c: (Seq<char>, SandboxChangeKind)| #[trigger]
        v.contains(c) <==> change_at(base, files, c.0) == Some(c.1)
}

/// Whether a path is among the changes.
fn has_change(v: &Vec<SandboxChange>, path: &str) -> (r: bool)
    ensures
        r == exists|i: int| 0 <= i < v@.len() && (#[trigger] v@[i]).path@ == path@,
{
    let mut i: usize = 0;
    while i < v.len()
        invariant
            i <= v.len(),
            forall|j: int| 0 <= j < i ==> (#[trigger] v@[j]).path@ != path@,
        decreases v.len() - i,
    {
        if str_eq(v[i].path.as_str(), path) {
            return true;
        }
        i += 1;
    }
    false
}

/// Whether these are the changes at the paths of a set.
spec fn changes_on(
    base: Map<Seq<char>, Seq<u8>>,
    files: Seq<WorkFile>,
    v: Seq<SandboxChange>,
    paths: Set<Seq<char>>,
) -> bool {
    &&& change_views(v).no_duplicates()
    &&& forall|c: (Seq<char>, SandboxChangeKind)| #[trigger]
        change_views(v).contains(c) <==> change_at(base, files, c.0) == Some(c.1)
            && paths.contains(c.0)
}

/// Looks at one more path, and adds its change if there is one.
fn add_change(
    base: &TextMap<ObjectId>,
    files: &Vec<WorkFile>,
    v: &mut Vec<SandboxChange>,
    path: &str,
    Ghost(paths): Ghost<Set<Seq<char>>>,
)
    requires
        base.wf(),
        changes_on(id_values(base@), files@, old(v)@, paths),
    ensures
        changes_on(id_values(base@), files@, final(v)@, paths.insert(path@)),
{
    let ghost b = id_values(base@);
    let ghost before = change_views(v@);
    let content = if is_counted(path) {
        crate::diff_command::find_content(files, path)
    } else {
        None
    };
    let was = base.get(path);
    assert(was is Some <==> b.contains_key(path@));
    let kind: Option<SandboxChangeKind> = match content {
        Some(c) => match was {
            None => Some(SandboxChangeKind::Added),
            Some(h) => {
                let now = hash_bytes(c.as_slice());
                proof {
                    if now@ == h@ {
                        assert(now =~= *h);
                    }
                }
                if hash_eq(&now, h) {
                    None
                } else {
                    Some(SandboxChangeKind::Modified)
                }
            },
        },
        None => match was {
            Some(_) => Some(SandboxChangeKind::Deleted),
            None => None,
        },
    };
    assert(kind == change_at(b, files@, path@));
    let known: bool = has_change(v, path);
    match kind {
        Some(k) => {
            if !known {
                v.push(SandboxChange { path: path.to_owned(), kind: k });
                assert(change_views(v@) =~= before.push((path@, k)));
                proof {
                    let now = change_views(v@);
                    assert forall|c: (Seq<char>, SandboxChangeKind)| #[trigger]
                        now.contains(c) <==> before.contains(c) || c == (path@, k) by {
                        if before.contains(c) {
                            let j = choose|j: int| 0 <= j < before.len() && before[j] == c;
                            assert(now[j] == c);
                        }
                        if c == (path@, k) {
                            assert(now[before.len() as int] == c);
                        }
                    }
                    assert(!before.contains((path@, k))) by {
                        if before.contains((path@, k)) {
                            let j = choose|j: int|
                                0 <= j < before.len() && before[j] == (path@, k);
                            assert(v@[j].path@ == path@);
                        }
                    }
                }
            } else {
                proof {
                    let j = choose|j: int| 0 <= j < v@.len() && (#[trigger] v@[j]).path@ == path@;
                    assert(before[j] == v@[j]@);
                    assert(before.contains(before[j]));
                }
            }
        },
        None => {},
    }
}

/// The changes between the files of a commit and those of a working directory: each
/// changed path once, in the order of the paths.
pub fn compute_sandbox_diff(base_files: &TextMap<ObjectId>, workdir_files: &Vec<WorkFile>) -> (r: Vec<
    SandboxChange,
>)
    requires
        base_files.wf(),
    ensures
        are_changes(id_values(base_files@), workdir_files@, change_views(r@)),
{
    let ghost b = id_values(base_files@);
    let ghost fs = workdir_files@;
    let mut v: Vec<SandboxChange> = Vec::new();
    let ghost mut paths: Set<Seq<char>> = Set::empty();
    let mut i: usize = 0;
    while i < workdir_files.len()
        invariant
            i <= workdir_files.len(),
            base_files.wf(),
            b == id_values(base_files@),
            fs == workdir_files@,
            changes_on(b, fs, v@, paths),
            forall|k: int| 0 <= k < i ==> paths.contains((#[trigger] fs[k]).path@),
        decreases workdir_files.len() - i,
    {
        add_change(
            base_files,
            workdir_files,
            &mut v,
            workdir_files[i].path.as_str(),
            Ghost(paths),
        );
        proof {
            paths = paths.insert(fs[i as int].path@);
        }
        i += 1;
    }
    let mut j: usize = 0;
    while j < base_files.items.len()
        invariant
            j <= base_files.items.len(),
            base_files.wf(),
            b == id_values(base_files@),
            fs == workdir_files@,
            changes_on(b, fs, v@, paths),
            forall|k: int| 0 <= k < fs.len() ==> paths.contains((#[trigger] fs[k]).path@),
            forall|k: int| 0 <= k < j ==> paths.contains((#[trigger] base_files.items@[k]).0@),
        decreases base_files.items.len() - j,
    {
        add_change(
            base_files,
            workdir_files,
            &mut v,
            base_files.items[j].0.as_str(),
            Ghost(paths),
        );
        proof {
            paths = paths.insert(base_files.items@[j as int].0@);
        }
        j += 1;
    }
    let ghost start = v@;
    sort::<ByPath, SandboxChange>(&mut v);
    proof {
        lemma_sorted_changes(start, v@);
        assert forall|c: (Seq<char>, SandboxChangeKind)| #[trigger]
            change_views(v@).contains(c) <==> change_at(b, fs, c.0) == Some(c.1) by {
            assert(change_views(v@).contains(c) <==> change_views(start).contains(c));
            if change_at(b, fs, c.0) is Some {
                if b.contains_key(c.0) {
                    lemma_pairs_from(base_files.items@, c.0);
                } else {
                    lemma_content_from(fs, c.0, 0);
                }
            }
        }
    }
    v
}

/// Contents come from a file with that path.
proof fn lemma_content_from(files: Seq<WorkFile>, path: Seq<char>, at: int)
    requires
        content_from(files, path, at) is Some,
    ensures
        exists|k: int| 0 <= k < files.len() && (#[trigger] files[k]).path@ == path,
    decreases files.len() - at,
{
    if 0 <= at < files.len() {
        if files[at].path@ != path {
            lemma_content_from(files, path, at + 1);
        }
    }
}

/// What sorting does to changes.
proof fn lemma_sorted_changes(a: Seq<SandboxChange>, b: Seq<SandboxChange>)
    requires
        b == sorted::<ByPath, SandboxChange>(a),
        change_views(a).no_duplicates(),
    ensures
        in_order::<ByPath, (Seq<char>, SandboxChangeKind)>(change_views(b)),
        change_views(b).no_duplicates(),
        forall|c: (Seq<char>, SandboxChangeKind)| #[trigger]
            change_views(b).contains(c) <==> change_views(a).contains(c),
{
    broadcast use vstd::seq_lib::group_to_multiset_ensures;

    let f = |s: SandboxChange| s@;
    crate::order::lemma_sorted_mapped::<
        ByPath,
        SandboxChange,
        ByPath,
        (Seq<char>, SandboxChangeKind),
    >(a, f);
    assert(change_views(a) =~= a.map_values(f));
    assert(change_views(b) =~= b.map_values(f));
    crate::order::lemma_sorted_in_order::<ByPath, (Seq<char>, SandboxChangeKind)>(change_views(a));
    crate::order::lemma_sorted_permutation::<ByPath, (Seq<char>, SandboxChangeKind)>(
        change_views(a),
    );
    change_views(a).lemma_multiset_has_no_duplicates();
    change_views(b).lemma_multiset_has_no_duplicates_conv();
    assert forall|c: (Seq<char>, SandboxChangeKind)| #[trigger]
        change_views(b).contains(c) <==> change_views(a).contains(c) by {
        assert(change_views(b).to_multiset().count(c) == change_views(a).to_multiset().count(c));
    }
}

/// The files of a commit, by their path.
pub open spec fn commit_files(m: Objects, id: Seq<u8>) -> Result<
    Map<Seq<char>, Seq<u8>>,
    SandboxFault,
> {
    let key = (ObjectType::Commit, id);
    if !m.contains_key(key) {
        Err(SandboxFault::NoCommit(id))
    } else if m[key].len() < 32 {
        Err(SandboxFault::CommitTooShort)
    } else {
        match parse_commit(m[key]) {
            Err(e) => Err(SandboxFault::Damaged(e)),
            Ok(c) => match tree_files(m, c.tree_hash) {
                Err(f) => Err(SandboxFault::Tree(f)),
                Ok(fs) => Ok(file_map(fs)),
            },
        }
    }
}

/// Whether the trees of a commit, if it can be read, end somewhere.
pub open spec fn commit_ends(m: Objects, id: Seq<u8>) -> bool {
    let key = (ObjectType::Commit, id);
    m.contains_key(key) ==> (parse_commit(m[key]) matches Ok(c) ==> grounded(m, c.tree_hash))
}

/// The files of a commit, by their path.
pub fn collect_files_from_commit(store: &ObjectStore, base_commit: &ObjectId) -> (r: Result<
    TextMap<ObjectId>,
    SandboxError,
>)
    requires
        store.wf(),
        commit_ends(store@, base_commit@),
    ensures
        match commit_files(store@, base_commit@) {
            Ok(m) => r matches Ok(t) && t.wf() && id_values(t@) == m,
            Err(f) => r matches Err(e) && e@ == f,
        },
{
    let bytes = match store.read_object(ObjectType::Commit, base_commit) {
        Some(b) => b,
        None => return Err(SandboxError::NoCommit(*base_commit)),
    };
    if bytes.len() < 32 {
        return Err(SandboxError::CommitTooShort);
    }
    match Commit::from_bytes(bytes.as_slice()) {
        Ok(c) => match collect_all_files(store, &c.tree_hash) {
            Ok(t) => Ok(t),
            Err(e) => Err(SandboxError::Tree(e)),
        },
        Err(e) => Err(SandboxError::Damaged(e)),
    }
}

/// The files that the changes of a sandbox are held against.
pub open spec fn base_files(m: Objects, manifest: SandboxManifest) -> Result<
    Map<Seq<char>, Seq<u8>>,
    SandboxFault,
> {
    match decoded_hash(encode_utf8(manifest.base_commit@)) {
        Err(e) => Err(SandboxFault::InvalidBase(e)),
        Ok(h) => commit_files(m, h),
    }
}

/// Whether the trees of the commit that a sandbox starts from end somewhere.
pub open spec fn base_ends(m: Objects, manifest: SandboxManifest) -> bool {
    decoded_hash(encode_utf8(manifest.base_commit@)) matches Ok(h) ==> commit_ends(m, h)
}

/// The changes of a sandbox: its working directory next to the commit that it
/// starts from.
pub fn get_sandbox_changes(
    store: &ObjectStore,
    manifest: &SandboxManifest,
    files: &Vec<WorkFile>,
) -> (r: Result<Vec<SandboxChange>, SandboxError>)
    requires
        store.wf(),
        base_ends(store@, *manifest),
    ensures
        match base_files(store@, *manifest) {
            Ok(b) => r matches Ok(v) && are_changes(b, files@, change_views(v@)),
            Err(f) => r matches Err(e) && e@ == f,
        },
{
    let base: ObjectId = match manifest.base_commit_hash() {
        Ok(h) => h,
        Err(e) => return Err(SandboxError::InvalidBase(e)),
    };
    match collect_files_from_commit(store, &base) {
        Ok(b) => Ok(compute_sandbox_diff(&b, files)),
        Err(e) => Err(e),
    }
}

/// Two lists of the changes of a sandbox are the same.
pub proof fn changes_are_determined(
    base: Map<Seq<char>, Seq<u8>>,
    files: Seq<WorkFile>,
    a: Seq<(Seq<char>, SandboxChangeKind)>,
    b: Seq<(Seq<char>, SandboxChangeKind)>,
)
    requires
        are_changes(base, files, a),
        are_changes(base, files, b),
    ensures
        a == b,
{
    broadcast use vstd::seq_lib::group_to_multiset_ensures;

    a.lemma_multiset_has_no_duplicates();
    b.lemma_multiset_has_no_duplicates();
    assert(a.to_multiset() =~= b.to_multiset()) by {
        assert forall|c: (Seq<char>, SandboxChangeKind)|
            a.to_multiset().count(c) == b.to_multiset().count(c) by {
            assert(a.contains(c) <==> b.contains(c));
            assert(a.contains(c) <==> a.to_multiset().count(c) > 0);
            assert(b.contains(c) <==> b.to_multiset().count(c) > 0);
        }
    }
    assert forall|i: int, j: int| 0 <= i < j < a.len() implies #[trigger] ByPath::key(a[j])
        != #[trigger] ByPath::key(a[i]) by {
        crate::order::lemma_codes_injective(a[i].0, a[j].0);
        assert(a.contains(a[i]) && a.contains(a[j]));
        if a[i].0 == a[j].0 {
            assert(a[i] == a[j]);
        }
    }
    crate::order::lemma_order_unique::<ByPath, (Seq<char>, SandboxChangeKind)>(a, b);
}

/// A working directory with the files of the commit, and no others that count, has
/// no changes; and one without changes has the files of the commit.
pub proof fn no_changes_means_equal(
    base: Map<Seq<char>, Seq<u8>>,
    files: Seq<WorkFile>,
    v: Seq<(Seq<char>, SandboxChangeKind)>,
)
    requires
        are_changes(base, files, v),
    ensures
        v.len() == 0 <==> forall|p: Seq<char>|
            match #[trigger] counted_content(files, p) {
                Some(c) => base.contains_key(p) && base[p] == blake3_digest(c)@,
                None => !base.contains_key(p),
            },
{
    if v.len() == 0 {
        assert forall|p: Seq<char>|
            match #[trigger] counted_content(files, p) {
                Some(c) => base.contains_key(p) && base[p] == blake3_digest(c)@,
                None => !base.contains_key(p),
            } by {
            if let Some(k) = change_at(base, files, p) {
                assert(v.contains((p, k)));
            }
        }
    } else {
        assert(v.contains(v[0]));
        assert(change_at(base, files, v[0].0) == Some(v[0].1));
        let x = counted_content(files, v[0].0);
    }
}

/// Entries of an index in the order of their paths.
impl Ranking<EntryView> for ByPath {
    open spec fn key(t: EntryView) -> Seq<int> {
        path_codes(t.path)
    }
}

impl Ranking<Entry> for ByPath {
    open spec fn key(t: Entry) -> Seq<int> {
        path_codes(t.path@)
    }
}

impl Compares<Entry> for ByPath {
    fn before(a: &Entry, b: &Entry) -> (r: bool) {
        path_less(a.path.as_str(), b.path.as_str())
    }
}

/// Whether this is the entry of a tracked file with these contents, by what the
/// file system says of it, if it is there.
pub open spec fn is_blob_entry(e: EntryView, oid: Seq<u8>, stat: Option<FileStat>) -> bool {
    &&& e.oid@ == oid
    &&& e.flags.bits == EntryFlags::TRACKED
    &&& e.mtime_nsec == 0
    &&& e.merge_conflict_stage == 0
    &&& e.reserved@ == crate::codec::zeros(33)
    &&& match stat {
        Some(s) => {
            &&& e.size == s.len
            &&& e.mtime_sec == (match s.mtime {
                Some(t) => t,
                None => 0,
            })
            &&& e.file_mode == file_mode_of(s.permissions)
        },
        None => e.size == 0 && e.mtime_sec == 0 && e.file_mode == 0o100644,
    }
}

/// What the file system says of a path, if it is there.
pub open spec fn stat_at(stats: Map<Seq<char>, FileStat>, path: Seq<char>) -> Option<FileStat> {
    if stats.contains_key(path) {
        Some(stats[path])
    } else {
        None
    }
}

/// The paths of entries.
pub open spec fn entry_paths(es: Seq<EntryView>) -> Seq<Seq<char>> {
    Seq::new(es.len(), |i: int| es[i].path)
}

/// Whether these are the entries of the files of a commit: one for each file, in
/// the order of the paths.
pub open spec fn are_commit_entries(
    files: Map<Seq<char>, Seq<u8>>,
    stats: Map<Seq<char>, FileStat>,
    es: Seq<EntryView>,
) -> bool {
    &&& entry_paths(es).no_duplicates()
    &&& in_order::<ByPath, EntryView>(es)
    &&& forall|p: Seq<char>| #[trigger] entry_paths(es).contains(p) <==> files.contains_key(p)
    &&& forall|i: int|
        0 <= i < es.len() ==> is_blob_entry(
            #[trigger] es[i],
            files[es[i].path],
            stat_at(stats, es[i].path),
        )
}

/// The files of the tree that a commit starts with.
pub open spec fn raw_commit_files(m: Objects, id: Seq<u8>) -> Result<
    Map<Seq<char>, Seq<u8>>,
    SandboxFault,
> {
    match tree_of_commit(m, id) {
        Err(CheckoutFault::NoCommit(h)) => Err(SandboxFault::NoCommit(h)),
        Err(_) => Err(SandboxFault::CommitTooShort),
        Ok(t) => match tree_files(m, t) {
            Err(f) => Err(SandboxFault::Tree(f)),
            Ok(fs) => Ok(file_map(fs)),
        },
    }
}

proof fn lemma_entries_permuted(a: Seq<EntryView>, b: Seq<EntryView>)
    requires
        a.to_multiset() == b.to_multiset(),
        entry_paths(a).no_duplicates(),
    ensures
        entry_paths(b).no_duplicates(),
        forall|p: Seq<char>| #[trigger] entry_paths(b).contains(p) <==> entry_paths(a).contains(p),
        forall|i: int| 0 <= i < b.len() ==> a.contains(#[trigger] b[i]),
{
    broadcast use vstd::seq_lib::group_to_multiset_ensures;

    assert(a.no_duplicates()) by {
        assert forall|i: int, j: int|
            0 <= i < a.len() && 0 <= j < a.len() && i != j implies a[i] != a[j] by {
            assert(entry_paths(a)[i] != entry_paths(a)[j]);
        }
    }
    a.lemma_multiset_has_no_duplicates();
    b.lemma_multiset_has_no_duplicates_conv();
    assert forall|i: int| 0 <= i < b.len() implies a.contains(#[trigger] b[i]) by {
        assert(b.contains(b[i]));
        assert(b.to_multiset().count(b[i]) > 0);
    }
    assert forall|i: int| 0 <= i < a.len() implies b.contains(#[trigger] a[i]) by {
        assert(a.contains(a[i]));
        assert(a.to_multiset().count(a[i]) > 0);
    }
    assert forall|i: int, j: int|
        0 <= i < b.len() && 0 <= j < b.len() && i != j implies entry_paths(b)[i] != entry_paths(
        b,
    )[j] by {
        let x = choose|x: int| 0 <= x < a.len() && a[x] == b[i];
        let y = choose|y: int| 0 <= y < a.len() && a[y] == b[j];
        if b[i].path == b[j].path {
            assert(entry_paths(a)[x] == entry_paths(a)[y]);
            assert(x == y);
        }
    }
    assert forall|p: Seq<char>| #[trigger]
        entry_paths(b).contains(p) <==> entry_paths(a).contains(p) by {
        if entry_paths(b).contains(p) {
            let i = choose|i: int| 0 <= i < b.len() && entry_paths(b)[i] == p;
            let x = choose|x: int| 0 <= x < a.len() && a[x] == b[i];
            assert(entry_paths(a)[x] == p);
        }
        if entry_paths(a).contains(p) {
            let i = choose|i: int| 0 <= i < a.len() && entry_paths(a)[i] == p;
            let x = choose|x: int| 0 <= x < b.len() && b[x] == a[i];
            assert(entry_paths(b)[x] == p);
        }
    }
}

/// The entries of the files of a commit, in the order of the paths, with what the
/// file system says of each file.
pub fn build_index_entries_from_commit(
    store: &ObjectStore,
    commit_hash: &ObjectId,
    stats: &TextMap<FileStat>,
) -> (r: Result<Vec<Entry>, SandboxError>)
    requires
        store.wf(),
        stats.wf(),
        tree_of_commit(store@, commit_hash@) matches Ok(t) ==> grounded(store@, t),
    ensures
        match raw_commit_files(store@, commit_hash@) {
            Ok(m) => r matches Ok(v) && are_commit_entries(m, stats@, entry_views(v@)),
            Err(f) => r matches Err(e) && e@ == f,
        },
{
    let bytes = match store.read_object(ObjectType::Commit, commit_hash) {
        Some(b) => b,
        None => return Err(SandboxError::NoCommit(*commit_hash)),
    };
    let tree: ObjectId = match parse_tree_hash_from_commit(bytes.as_slice()) {
        Some(t) => t,
        None => return Err(SandboxError::CommitTooShort),
    };
    let files = match collect_all_files(store, &tree) {
        Ok(t) => t,
        Err(e) => return Err(SandboxError::Tree(e)),
    };
    let ghost m = id_values(files@);
    let ghost items = files.items@;
    let mut v: Vec<Entry> = Vec::new();
    let mut i: usize = 0;
    while i < files.items.len()
        invariant
            i <= files.items.len(),
            files.wf(),
            stats.wf(),
            items == files.items@,
            m == id_values(files@),
            v@.len() == i,
            forall|k: int|
                0 <= k < i ==> (#[trigger] v@[k]).path@ == items[k].0@ && is_blob_entry(
                    v@[k]@,
                    m[items[k].0@],
                    stat_at(stats@, items[k].0@),
                ),
        decreases files.items.len() - i,
    {
        let path = files.items[i].0.clone();
        let oid: ObjectId = files.items[i].1;
        let stat: Option<FileStat> = match stats.get(path.as_str()) {
            Some(s) => Some(*s),
            None => None,
        };
        proof {
            lemma_pairs_at(items, i as int);
            assert(m[items[i as int].0@] == oid@);
        }
        v.push(Entry::from_blob(path, oid, stat));
        i += 1;
    }
    let ghost e0 = v@;
    sort::<ByPath, Entry>(&mut v);
    proof {
        let f = |e: Entry| e@;
        crate::order::lemma_sorted_mapped::<ByPath, Entry, ByPath, EntryView>(e0, f);
        let a = entry_views(e0);
        let b = entry_views(v@);
        assert(a =~= e0.map_values(f));
        assert(b =~= v@.map_values(f));
        crate::order::lemma_sorted_in_order::<ByPath, EntryView>(a);
        crate::order::lemma_sorted_permutation::<ByPath, EntryView>(a);
        assert forall|x: int, y: int|
            0 <= x < a.len() && 0 <= y < a.len() && x != y implies entry_paths(a)[x]
            != entry_paths(a)[y] by {
            assert(entry_paths(a)[x] == e0[x].path@ && entry_paths(a)[y] == e0[y].path@);
            assert(items[x].0@ != items[y].0@);
        }
        lemma_entries_permuted(a, b);
        assert forall|p: Seq<char>| #[trigger]
            entry_paths(b).contains(p) <==> m.contains_key(p) by {
            if m.contains_key(p) {
                lemma_pairs_from(items, p);
                let k = choose|k: int| 0 <= k < items.len() && (#[trigger] items[k]).0@ == p;
                assert(e0[k].path@ == p);
                assert(entry_paths(a)[k] == p);
            }
            if entry_paths(a).contains(p) {
                let k = choose|k: int| 0 <= k < a.len() && entry_paths(a)[k] == p;
                assert(e0[k].path@ == p);
                lemma_pairs_at(items, k);
            }
        }
        assert forall|k: int| 0 <= k < b.len() implies is_blob_entry(
            #[trigger] b[k],
            m[b[k].path],
            stat_at(stats@, b[k].path),
        ) by {
            let x = choose|x: int| 0 <= x < a.len() && a[x] == b[k];
            assert(a[x] == e0[x]@);
        }
    }
    Ok(v)
}

/// A refusal in words, where it is one of this module's own.
pub open spec fn sandbox_fault_text(f: SandboxFault) -> Option<Seq<char>> {
    match f {
        SandboxFault::EmptyName => Some("Sandbox name cannot be empty"@),
        SandboxFault::NameTooLong => Some("Sandbox name too long (max 64 characters)"@),
        SandboxFault::InvalidName(n) => Some(
            "Invalid sandbox name '"@ + n
                + "'. Use only alphanumeric characters, hyphens, and underscores."@,
        ),
        SandboxFault::AlreadyExists(n) => Some("Sandbox '"@ + n + "' already exists"@),
        SandboxFault::NoHead(_) => Some("No HEAD found. Create a commit first."@),
        SandboxFault::Missing(n) => Some("Sandbox '"@ + n + "' does not exist"@),
        SandboxFault::CannotSwitch(n) => Some(
            "Sandbox '"@ + n + "' does not exist. Create it with 'helix sandbox create "@ + n
                + "'"@,
        ),
        SandboxFault::CommitTooShort => Some("Commit too short"@),
        SandboxFault::HasChanges(n, k) => Some(
            "Sandbox '"@ + n + "' has "@ + decimal(k)
                + " uncommitted change(s).\nUse --force to destroy anyway, or commit first with:\nhelix sandbox commit "@
                + n + " -m <message>"@,
        ),
        SandboxFault::EmptyMessage => Some("Commit message cannot be empty"@),
        SandboxFault::NoChanges(n) => Some("No changes to commit in sandbox '"@ + n + "'"@),
        SandboxFault::NoAuthor => Some(
            "Author not configured. Add [user] section to helix.toml"@,
        ),
        SandboxFault::NoBranch => Some("Sandbox has no branch"@),
        SandboxFault::BranchMissing => Some("Sandbox branch not found"@),
        SandboxFault::NothingCommitted(n, w) => Some(
            "Sandbox '"@ + n + "' has no commits. Make changes and commit first:\ncd "@ + w
                + "\nhelix add .\nhelix commit -m \"message\""@,
        ),
        SandboxFault::Diverged(b) => Some(
            "Cannot fast-forward: '"@ + b
                + "' has diverged from sandbox base.\nManual merge required."@,
        ),
        _ => None,
    }
}

impl SandboxError {
    /// The refusal in words, where it is one of this module's own.
    pub fn message(&self) -> (r: Option<String>)
        ensures
            text_of(r) == sandbox_fault_text(self@),
    {
        match self {
            SandboxError::EmptyName => Some("Sandbox name cannot be empty".to_owned()),
            SandboxError::NameTooLong =>
                Some("Sandbox name too long (max 64 characters)".to_owned()),
            SandboxError::InvalidName(n) => Some(
                concat3(
                    "Invalid sandbox name '",
                    n.as_str(),
                    "'. Use only alphanumeric characters, hyphens, and underscores.",
                ),
            ),
            SandboxError::AlreadyExists(n) => Some(
                concat3("Sandbox '", n.as_str(), "' already exists"),
            ),
            SandboxError::NoHead(_) => Some("No HEAD found. Create a commit first.".to_owned()),
            SandboxError::Missing(n) => Some(concat3("Sandbox '", n.as_str(), "' does not exist")),
            SandboxError::CannotSwitch(n) => {
                let mut r = concat3(
                    "Sandbox '",
                    n.as_str(),
                    "' does not exist. Create it with 'helix sandbox create ",
                );
                r.append(n.as_str());
                r.append("'");
                Some(r)
            },
            SandboxError::CommitTooShort => Some("Commit too short".to_owned()),
            SandboxError::HasChanges(n, k) => {
                let mut r = concat3("Sandbox '", n.as_str(), "' has ");
                r.append(decimal_of(*k as u64).as_str());
                r.append(
                    " uncommitted change(s).\nUse --force to destroy anyway, or commit first with:\nhelix sandbox commit ",
                );
                r.append(n.as_str());
                r.append(" -m <message>");
                Some(r)
            },
            SandboxError::EmptyMessage => Some("Commit message cannot be empty".to_owned()),
            SandboxError::NoChanges(n) => Some(
                concat3("No changes to commit in sandbox '", n.as_str(), "'"),
            ),
            SandboxError::NoAuthor => Some(
                "Author not configured. Add [user] section to helix.toml".to_owned(),
            ),
            SandboxError::NoBranch => Some("Sandbox has no branch".to_owned()),
            SandboxError::BranchMissing => Some("Sandbox branch not found".to_owned()),
            SandboxError::NothingCommitted(n, w) => {
                let mut r = concat3(
                    "Sandbox '",
                    n.as_str(),
                    "' has no commits. Make changes and commit first:\ncd ",
                );
                r.append(w.as_str());
                r.append("\nhelix add .\nhelix commit -m \"message\"");
                Some(r)
            },
            SandboxError::Diverged(b) => Some(
                concat3(
                    "Cannot fast-forward: '",
                    b.as_str(),
                    "' has diverged from sandbox base.\nManual merge required.",
                ),
            ),
            _ => None,
        }
    }
}

/// The directory of a sandbox.
pub open spec fn sandbox_dir(repo: Seq<char>, name: Seq<char>) -> Seq<char> {
    below(below(below(repo, ".helix"@), "sandboxes"@), name)
}

/// The directory of a sandbox.
pub fn sandbox_path(repo_path: &str, name: &str) -> (r: String)
    ensures
        r@ == sandbox_dir(repo_path@, name@),
{
    let helix = path_below(repo_path, ".helix");
    let all = path_below(helix.as_str(), "sandboxes");
    path_below(all.as_str(), name)
}

/// What making a sandbox the active one gives to write and to say.
#[derive(Debug, Clone, PartialEq, Eq)]
pub struct Activation {
    /// What is kept of the active sandbox.
    pub active_file: String,
    pub headline: String,
    pub branch_line: String,
    pub workdir_line: String,
}

/// What is said of the files of a sandbox.
pub open spec fn files_suffix(count: Option<u64>) -> Seq<char> {
    match count {
        Some(n) => " ("@ + decimal(n as nat) + " files)"@,
        None => Seq::empty(),
    }
}

/// Whether this is what making a sandbox the active one gives.
pub open spec fn is_activation(
    a: Activation,
    name: Seq<char>,
    branch: Option<Seq<char>>,
    workdir: Seq<char>,
    created: bool,
    count: Option<u64>,
) -> bool {
    &&& a.active_file@ == "name="@ + name + "\nworkdir="@ + workdir + "\n"@
    &&& a.headline@ == (if created {
        "Created and switched to sandbox "@ + name + files_suffix(count)
    } else {
        "Switched to sandbox "@ + name
    })
    &&& a.branch_line@ == "Branch:  "@ + (match branch {
        Some(b) => b,
        None => "(none)"@,
    })
    &&& a.workdir_line@ == "Workdir: "@ + workdir
}

/// The references after a sandbox has become the active one: `HEAD` names its
/// branch, if it has one.
pub open spec fn with_active(r: Refs, branch: Option<Seq<char>>) -> Refs {
    match branch {
        Some(b) => Refs { head: Some("ref: refs/heads/"@ + b + "\n"@), ..r },
        None => r,
    }
}

/// Makes a sandbox the active one.
pub fn activate_sandbox(
    refs: &mut RefStore,
    name: &str,
    manifest: &SandboxManifest,
    workdir: &str,
    created: bool,
    files_count: Option<u64>,
) -> (a: Activation)
    requires
        old(refs).wf(),
    ensures
        final(refs).wf(),
        final(refs)@ == with_active(old(refs)@, text_of(manifest.branch)),
        is_activation(a, name@, text_of(manifest.branch), workdir@, created, files_count),
{
    match &manifest.branch {
        Some(b) => {
            refs.set_head(concat3("ref: refs/heads/", b.as_str(), "\n"));
        },
        None => {},
    }
    let mut active_file: String = concat3("name=", name, "\nworkdir=");
    active_file.append(workdir);
    active_file.append("\n");
    let headline = if created {
        let mut h: String = concat("Created and switched to sandbox ", name);
        match files_count {
            Some(n) => {
                h.append(concat3(" (", decimal_of(n).as_str(), " files)").as_str());
            },
            None => {
                assert(h@ + Seq::<char>::empty() =~= h@);
            },
        }
        h
    } else {
        concat("Switched to sandbox ", name)
    };
    let branch_line = match &manifest.branch {
        Some(b) => concat("Branch:  ", b.as_str()),
        None => concat("Branch:  ", "(none)"),
    };
    Activation { active_file, headline, branch_line, workdir_line: concat("Workdir: ", workdir) }
}

/// What comes before a sandbox is created: the commit that it starts from, and how
/// its files are laid down.
#[derive(Debug)]
pub struct SandboxSetup {
    pub base_commit: ObjectId,
    pub lines: Vec<String>,
    pub actions: Vec<CheckoutAction>,
}

/// The commit that a sandbox starts from: the current one, if no other is named.
pub open spec fn starting_commit(r: Refs, named: Option<ObjectId>) -> Result<Seq<u8>, SandboxFault> {
    match named {
        Some(h) => Ok(h@),
        None => match head_commit(r) {
            Ok(h) => Ok(h),
            Err(f) => Err(SandboxFault::NoHead(f)),
        },
    }
}

/// A destination with nothing in it.
pub open spec fn empty_destination() -> Progress {
    Progress { present: Seq::empty(), links: Seq::empty(), actions: Seq::empty() }
}

/// What is to be laid down for a sandbox, and from which commit.
pub open spec fn sandbox_setup(
    m: Objects,
    r: Refs,
    name: Seq<char>,
    taken: bool,
    named: Option<ObjectId>,
) -> Result<(Seq<u8>, Seq<ActionView>), SandboxFault> {
    match sandbox_name_fault(name) {
        Some(f) => Err(f),
        None => if taken {
            Err(SandboxFault::AlreadyExists(name))
        } else {
            match starting_commit(r, named) {
                Err(f) => Err(f),
                Ok(h) => {
                    let st = commit_step(m, h, true, empty_destination());
                    match st.fault {
                        Some(f) => Err(SandboxFault::Checkout(f)),
                        None => Ok((h, st.progress.actions)),
                    }
                },
            }
        },
    }
}

/// Whether the trees of the commit that a sandbox would start from end somewhere.
pub open spec fn start_ends(m: Objects, r: Refs, named: Option<ObjectId>) -> bool {
    starting_commit(r, named) matches Ok(h) ==> (tree_of_commit(m, h) matches Ok(t) ==> grounded(
        m,
        t,
    ))
}

/// Prepares a sandbox: checks its name, finds the commit that it starts from, and
/// plans how the files are laid down. `taken` tells whether its directory exists.
pub fn prepare_sandbox(
    store: &ObjectStore,
    refs: &RefStore,
    repo_path: &str,
    name: &str,
    taken: bool,
    options: CreateOptions,
) -> (r: Result<SandboxSetup, SandboxError>)
    requires
        store.wf(),
        refs.wf(),
        start_ends(store@, refs@, options.base_commit),
    ensures
        match sandbox_setup(store@, refs@, name@, taken, options.base_commit) {
            Err(f) => r matches Err(e) && e@ == f,
            Ok((h, actions)) => {
                &&& r matches Ok(s)
                &&& s.base_commit@ == h
                &&& action_views(s.actions@) == actions
                &&& texts(s.lines@) == (if options.verbose {
                    seq![
                        "Creating sandbox '"@ + name@ + "' from commit "@ + hex_text(h).subrange(
                            0,
                            8,
                        ),
                        opening_text(
                            tree_of_commit(store@, h)->Ok_0,
                            repo_path@,
                            below(sandbox_dir(repo_path@, name@), "workdir"@),
                        ),
                    ]
                } else {
                    Seq::empty()
                })
            },
        },
{
    match validate_sandbox_name(name) {
        Ok(_) => {},
        Err(e) => return Err(e),
    }
    if taken {
        return Err(SandboxError::AlreadyExists(name.to_owned()));
    }
    let base: ObjectId = match options.base_commit {
        Some(h) => h,
        None => match read_head(refs) {
            Ok(h) => h,
            Err(e) => return Err(SandboxError::NoHead(e)),
        },
    };
    let mut lines: Vec<String> = Vec::new();
    assert(texts(lines@) =~= Seq::empty());
    if options.verbose {
        let hex = to_chars(hash_to_hex(&base).as_str());
        let mut line = concat3("Creating sandbox '", name, "' from commit ");
        line.append(from_chars(&hex, 0, 8).as_str());
        push_line(&mut lines, line);
        let root = sandbox_path(repo_path, name);
        let workdir = path_below(root.as_str(), "workdir");
        match checkout_line(store, &base, repo_path, workdir.as_str()) {
            Some(opening) => {
                push_line(&mut lines, opening);
                assert(texts(lines@) =~= seq![line@, opening@]);
            },
            None => {},
        }
    }
    let mut dest = Checkout { present: Vec::new(), links: Vec::new(), actions: Vec::new() };
    proof {
        assert(dest@.present =~= Seq::empty());
        assert(dest@.links =~= Seq::empty());
        assert(dest@.actions =~= Seq::empty());
    }
    match checkout_tree_to_path(
        store,
        &base,
        &mut dest,
        CheckoutOptions { verbose: options.verbose, force: true },
    ) {
        Ok(_) => {},
        Err(e) => return Err(SandboxError::Checkout(e)),
    }
    Ok(SandboxSetup { base_commit: base, lines, actions: dest.actions })
}

/// A created sandbox, and what is to be written and said.
#[derive(Debug)]
pub struct CreatedSandbox {
    pub sandbox: Sandbox,
    pub index_file: Vec<u8>,
    pub lines: Vec<String>,
    pub activation: Activation,
}

/// Whether this is the header of a new index.
pub open spec fn is_first_header(h: Header, count: u32, now: u64) -> bool {
    &&& h.magic == crate::helix_index::format::MAGIC
    &&& h.version == crate::helix_index::format::VERSION
    &&& h.generation == 1
    &&& h.checksum@ == crate::codec::zeros(32)
    &&& h.entry_count == count
    &&& h.created_at == now
    &&& h.last_modified == now
    &&& h.reserved@ == crate::codec::zeros(60)
}

/// The references after a sandbox was created: its branch names the commit that it
/// starts from, and `HEAD` names its branch.
pub open spec fn with_sandbox(r: Refs, name: Seq<char>, base: Seq<u8>) -> Refs {
    with_active(
        r.with("refs/heads/"@ + ("sandboxes/"@ + name), hex_text(base)),
        Some("sandboxes/"@ + name),
    )
}

/// Whether this is the manifest of a new sandbox.
pub open spec fn is_new_manifest(
    m: SandboxManifest,
    name: Seq<char>,
    base: Seq<u8>,
    id: String,
    now: u64,
) -> bool {
    &&& m.id == id
    &&& m.name@ == name
    &&& m.base_commit@ == hex_text(base)
    &&& m.created_at == now
    &&& m.description is None
    &&& text_of(m.branch) == Some("sandboxes/"@ + name)
}

/// Finishes a sandbox whose files were laid down: its index lists them, its branch
/// is made, and it becomes the active one. `stats` is what the file system says of
/// the files, and `id` names the sandbox.
pub fn create_sandbox(
    store: &ObjectStore,
    refs: &mut RefStore,
    repo_path: &str,
    name: &str,
    setup: &SandboxSetup,
    stats: &TextMap<FileStat>,
    id: String,
    now: u64,
    options: CreateOptions,
) -> (r: Result<CreatedSandbox, SandboxError>)
    requires
        store.wf(),
        old(refs).wf(),
        stats.wf(),
        tree_of_commit(store@, setup.base_commit@) matches Ok(t) ==> grounded(store@, t),
    ensures
        final(refs).wf(),
        match raw_commit_files(store@, setup.base_commit@) {
            Err(f) => r matches Err(e) && e@ == f && final(refs)@ == old(refs)@,
            Ok(files) => exists|es: Seq<EntryView>|
                {
                    &&& #[trigger] are_commit_entries(files, stats@, es)
                    &&& match r {
                        Err(e) => {
                            &&& e matches SandboxError::Index(f)
                            &&& is_misfit(es, f)
                            &&& final(refs)@ == old(refs)@
                        },
                        Ok(c) => {
                            let root = sandbox_dir(repo_path@, name@);
                            &&& final(refs)@ == with_sandbox(
                                old(refs)@,
                                name@,
                                setup.base_commit@,
                            )
                            &&& is_new_manifest(
                                c.sandbox.manifest,
                                name@,
                                setup.base_commit@,
                                id,
                                now,
                            )
                            &&& c.sandbox.root@ == root
                            &&& c.sandbox.workdir@ == below(root, "workdir"@)
                            &&& exists|h: Header|
                                {
                                    &&& #[trigger] is_first_header(h, es.len() as u32, now)
                                    &&& c.index_file@ == index_bytes(h, es)
                                }
                            &&& texts(c.lines@) == (if options.verbose {
                                seq![
                                    "Created sandbox index with "@ + decimal(es.len())
                                        + " entries"@,
                                ]
                            } else {
                                Seq::empty()
                            })
                            &&& is_activation(
                                c.activation,
                                name@,
                                Some("sandboxes/"@ + name@),
                                below(root, "workdir"@),
                                true,
                                Some(writes(action_views(setup.actions@)) as u64),
                            )
                        },
                    }
                },
        },
{
    let entries = match build_index_entries_from_commit(store, &setup.base_commit, stats) {
        Ok(v) => v,
        Err(e) => return Err(e),
    };
    let ghost es = entry_views(entries@);
    let count: usize = entries.len();
    let header = Header::new(1, count as u32, now);
    assert(is_first_header(header, es.len() as u32, now));
    let index = HelixIndex { header, entries };
    let index_file = match index.to_bytes() {
        Ok(b) => b,
        Err(e) => return Err(SandboxError::Index(e)),
    };
    let mut lines: Vec<String> = Vec::new();
    assert(texts(lines@) =~= Seq::empty());
    if options.verbose {
        push_line(
            &mut lines,
            concat3(
                "Created sandbox index with ",
                decimal_of(count as u64).as_str(),
                " entries",
            ),
        );
        assert(texts(lines@) =~= seq![
            "Created sandbox index with "@ + decimal(es.len()) + " entries"@,
        ]);
    }
    let branch = concat("sandboxes/", name);
    refs.set_ref(concat("refs/heads/", branch.as_str()), hash_to_hex(&setup.base_commit));
    let mut manifest = SandboxManifest::new(name, &setup.base_commit, id, now);
    manifest.branch = Some(branch);
    let root = sandbox_path(repo_path, name);
    let workdir = path_below(root.as_str(), "workdir");
    let written: u64 = files_written(&setup.actions);
    let activation = activate_sandbox(
        refs,
        name,
        &manifest,
        workdir.as_str(),
        true,
        Some(written),
    );
    Ok(CreatedSandbox { sandbox: Sandbox { manifest, root, workdir }, index_file, lines, activation })
}

/// Makes another sandbox the active one. There is no manifest where there is no
/// such sandbox.
pub fn switch_sandbox(
    refs: &mut RefStore,
    repo_path: &str,
    name: &str,
    manifest: Option<&SandboxManifest>,
) -> (r: Result<Activation, SandboxError>)
    requires
        old(refs).wf(),
    ensures
        final(refs).wf(),
        match manifest {
            None => {
                &&& r matches Err(e)
                &&& e@ == SandboxFault::CannotSwitch(name@)
                &&& final(refs)@ == old(refs)@
            },
            Some(m) => {
                &&& final(refs)@ == with_active(old(refs)@, text_of(m.branch))
                &&& r matches Ok(a)
                &&& is_activation(
                    a,
                    name@,
                    text_of(m.branch),
                    below(sandbox_dir(repo_path@, name@), "workdir"@),
                    false,
                    None,
                )
            },
        },
{
    match manifest {
        None => Err(SandboxError::CannotSwitch(name.to_owned())),
        Some(m) => {
            let root = sandbox_path(repo_path, name);
            let workdir = path_below(root.as_str(), "workdir");
            Ok(activate_sandbox(refs, name, m, workdir.as_str(), false, None))
        },
    }
}

/// The references after the branch of a sandbox was deleted.
pub open spec fn without_branch(r: Refs, branch: Option<Seq<char>>) -> Refs {
    match branch {
        Some(b) => r.without("refs/heads/"@ + b),
        None => r,
    }
}

/// What is said when a sandbox was destroyed.
pub open spec fn destroyed_lines(
    r: Refs,
    name: Seq<char>,
    branch: Option<Seq<char>>,
    verbose: bool,
) -> Seq<Seq<char>> {
    let last = "Destroyed sandbox '"@ + name + "'"@;
    match branch {
        Some(b) => if verbose && ref_present(r, "refs/heads/"@ + b) {
            seq!["Deleted branch '"@ + b + "'"@, last]
        } else {
            seq![last]
        },
        None => seq![last],
    }
}

/// Whether a sandbox was destroyed: its branch is gone, and that is said.
pub open spec fn is_destroyed(
    before: RefStore,
    after: RefStore,
    name: Seq<char>,
    m: SandboxManifest,
    options: DestroyOptions,
    r: Result<Vec<String>, SandboxError>,
) -> bool {
    &&& r matches Ok(ls)
    &&& texts(ls@) == destroyed_lines(before@, name, text_of(m.branch), options.verbose)
    &&& after@ == without_branch(before@, text_of(m.branch))
}

/// Destroys a sandbox and its branch, and gives what is to be said; the caller
/// removes its directory. One with changes is only destroyed by force. There is
/// no manifest where there is no such sandbox.
pub fn destroy_sandbox(
    store: &ObjectStore,
    refs: &mut RefStore,
    name: &str,
    manifest: Option<&SandboxManifest>,
    files: &Vec<WorkFile>,
    options: DestroyOptions,
) -> (r: Result<Vec<String>, SandboxError>)
    requires
        store.wf(),
        old(refs).wf(),
        manifest matches Some(m) ==> base_ends(store@, *m),
    ensures
        final(refs).wf(),
        match manifest {
            None => {
                &&& r matches Err(e)
                &&& e@ == SandboxFault::Missing(name@)
                &&& final(refs)@ == old(refs)@
            },
            Some(m) => if options.force {
                is_destroyed(*old(refs), *final(refs), name@, *m, options, r)
            } else {
                match base_files(store@, *m) {
                    Err(f) => {
                        &&& r matches Err(e)
                        &&& e@ == f
                        &&& final(refs)@ == old(refs)@
                    },
                    Ok(b) => exists|v: Seq<(Seq<char>, SandboxChangeKind)>|
                        {
                            &&& #[trigger] are_changes(b, files@, v)
                            &&& if v.len() > 0 {
                                &&& r matches Err(e)
                                &&& e@ == SandboxFault::HasChanges(name@, v.len())
                                &&& final(refs)@ == old(refs)@
                            } else {
                                is_destroyed(*old(refs), *final(refs), name@, *m, options, r)
                            }
                        },
                }
            },
        },
{
    let m = match manifest {
        Some(m) => m,
        None => return Err(SandboxError::Missing(name.to_owned())),
    };
    if !options.force {
        match get_sandbox_changes(store, m, files) {
            Ok(changes) => {
                let ghost b = base_files(store@, *m)->Ok_0;
                assert(are_changes(b, files@, change_views(changes@)));
                if changes.len() > 0 {
                    return Err(SandboxError::HasChanges(name.to_owned(), changes.len()));
                }
            },
            Err(e) => return Err(e),
        }
    }
    let mut lines: Vec<String> = Vec::new();
    let ghost before = refs@;
    match &m.branch {
        Some(b) => {
            let path = concat("refs/heads/", b.as_str());
            if refs.present(path.as_str()) {
                refs.remove_ref(path.as_str());
                if options.verbose {
                    push_line(&mut lines, concat3("Deleted branch '", b.as_str(), "'"));
                }
            } else {
                assert(before.without(path@).refs =~= before.refs);
            }
        },
        None => {},
    }
    push_line(&mut lines, concat3("Destroyed sandbox '", name, "'"));
    assert(texts(lines@) =~= destroyed_lines(before, name@, text_of(m.branch), options.verbose));
    Ok(lines)
}

/// The entries of the files of a working directory that count.
pub open spec fn work_views(files: Seq<WorkFile>) -> Seq<crate::helix_index::tree::FileView>
    decreases files.len(),
{
    if files.len() == 0 {
        Seq::empty()
    } else if counts(files.last().path@) {
        let f = files.last();
        work_views(files.drop_last()).push(
            crate::helix_index::tree::FileView {
                path: plain_path(f.path@),
                oid: blake3_digest(f.content@)@,
                mode: file_mode_of(f.permissions),
                size: f.content@.len() as u64,
            },
        )
    } else {
        work_views(files.drop_last())
    }
}

/// What a store holds after the files of a working directory that count have been
/// written to it.
pub open spec fn put_blobs(m: Objects, files: Seq<WorkFile>) -> Objects
    decreases files.len(),
{
    if files.len() == 0 {
        m
    } else if counts(files.last().path@) {
        put_object(put_blobs(m, files.drop_last()), ObjectType::Blob, files.last().content@)
    } else {
        put_blobs(m, files.drop_last())
    }
}

/// What a store holds after the tree of a working directory has been written to it.
pub open spec fn put_workdir(m: Objects, files: Seq<WorkFile>) -> Objects {
    put_trees(put_blobs(m, files), work_views(files))
}

/// Writes the files of a working directory that count, and the trees of them.
pub fn build_tree_from_workdir(store: &mut ObjectStore, files: &Vec<WorkFile>) -> (h: ObjectId)
    requires
        old(store).wf(),
    ensures
        final(store).wf(),
        h@ == tree_id(snapshot(work_views(files@))),
        final(store)@ == put_workdir(old(store)@, files@),
{
    let ghost m = store@;
    let ghost fs = files@;
    let mut entries: Vec<Entry> = Vec::new();
    let mut i: usize = 0;
    proof {
        assert(fs.subrange(0, 0) =~= Seq::empty());
        assert(files_of(entry_views(entries@)) =~= Seq::empty());
    }
    while i < files.len()
        invariant
            i <= files.len(),
            fs == files@,
            store.wf(),
            store@ == put_blobs(m, fs.subrange(0, i as int)),
            files_of(entry_views(entries@)) == work_views(fs.subrange(0, i as int)),
        decreases files.len() - i,
    {
        let f = &files[i];
        proof {
            let t = fs.subrange(0, i + 1);
            assert(t.drop_last() =~= fs.subrange(0, i as int));
            assert(t.last() == *f);
        }
        if is_counted(f.path.as_str()) {
            let ghost before = files_of(entry_views(entries@));
            let data = f.content.clone();
            assert(data@ =~= f.content@);
            let oid = store.write_object(ObjectType::Blob, data);
            let mut e = Entry::new(
                f.path.clone(),
                f.content.len() as u64,
                0,
                oid,
                get_file_mode(f.permissions),
            );
            e.flags.insert(EntryFlags::TRACKED);
            entries.push(e);
            assert(files_of(entry_views(entries@)) =~= before.push(
                crate::helix_index::tree::file_of(e@),
            ));
        }
        i += 1;
    }
    assert(fs.subrange(0, i as int) =~= fs);
    TreeBuilder::build_from_entries(store, &entries)
}

/// The author of a configuration: a name and an address, where both are given.
pub open spec fn sandbox_author(name: Option<Seq<char>>, email: Option<Seq<char>>) -> Option<
    Seq<char>,
> {
    match (name, email) {
        (Some(n), Some(e)) => if n.len() > 0 && e.len() > 0 {
            Some(n + " <"@ + e + ">"@)
        } else {
            None
        },
        _ => None,
    }
}

/// The author of a configuration: a name and an address, where both are given.
pub fn get_author(user: &crate::commit_command::UserConfig) -> (r: Option<String>)
    ensures
        text_of(r) == sandbox_author(text_of(user.name), text_of(user.email)),
{
    match (&user.name, &user.email) {
        (Some(n), Some(e)) => {
            if n.as_str().is_empty() || e.as_str().is_empty() {
                None
            } else {
                let mut r = concat3(n.as_str(), " <", e.as_str());
                r.append(">");
                Some(r)
            }
        },
        _ => None,
    }
}

/// The author that the text of a configuration file names.
pub open spec fn text_author(content: Option<Seq<char>>) -> Option<Seq<char>> {
    match content {
        None => None,
        Some(c) => sandbox_author(
            toml_text(c, "user"@, "name"@),
            toml_text(c, "user"@, "email"@),
        ),
    }
}

/// The author that the text of the configuration file names, if there is one.
pub fn author_of_text(content: Option<&str>) -> (r: Option<String>)
    ensures
        text_of(r) == text_author(
            match content {
                None => None,
                Some(c) => Some(c@),
            },
        ),
{
    match content {
        None => None,
        Some(c) => {
            let name = read_toml_text(c, "user", "name");
            let email = read_toml_text(c, "user", "email");
            get_author(&crate::commit_command::UserConfig { name, email })
        },
    }
}

/// A commit of a sandbox, and what is to be written and said.
#[derive(Debug)]
pub struct SandboxCommit {
    pub hash: ObjectId,
    /// What is kept of the commit in the directory of the sandbox.
    pub commit_file: String,
}

/// The author of a commit: the one that is named, or else that of the configuration file.
pub open spec fn commit_author(options: CommitOptions, config: Option<Seq<char>>) -> Option<
    Seq<char>,
> {
    match options.author {
        Some(a) => Some(a@),
        None => text_author(config),
    }
}

/// The commit of the changes of a sandbox.
pub open spec fn sandbox_commit(
    base: Seq<u8>,
    files: Seq<WorkFile>,
    author: Seq<char>,
    message: Seq<char>,
    now: u64,
) -> CommitView {
    CommitView {
        commit_hash: Seq::empty(),
        tree_hash: tree_id(snapshot(work_views(files))),
        parents: seq![base],
        author,
        author_time: now,
        commit_time: now,
        message,
    }
}

/// Commits the changes of a sandbox: the files that count and their trees are
/// written, and its branch comes to name the commit. The commit itself is handed
/// out by its hash. There is no manifest where there is no such sandbox. What is to be
/// said is added to `lines`. `config` is the text of the configuration file, if there is
/// one.
pub fn commit_sandbox(
    store: &mut ObjectStore,
    refs: &mut RefStore,
    name: &str,
    manifest: Option<&SandboxManifest>,
    files: &Vec<WorkFile>,
    options: &CommitOptions,
    config: Option<&str>,
    now: u64,
    lines: &mut Vec<String>,
) -> (r: Result<SandboxCommit, SandboxError>)
    requires
        old(store).wf(),
        old(refs).wf(),
        manifest matches Some(m) ==> base_ends(old(store)@, *m),
    ensures
        final(store).wf(),
        final(refs).wf(),
        r is Err ==> final(refs)@ == old(refs)@,
        if trim_spec(options.message@).len() == 0 {
            r matches Err(e) && e is EmptyMessage && final(store)@ == old(store)@ && texts(
                final(lines)@,
            ) == texts(old(lines)@)
        } else {
            match manifest {
                None => {
                    &&& r matches Err(e)
                    &&& e@ == SandboxFault::Missing(name@)
                    &&& final(store)@ == old(store)@
                    &&& texts(final(lines)@) == texts(old(lines)@)
                },
                Some(m) => match base_files(old(store)@, *m) {
                    Err(f) => {
                        &&& r matches Err(e)
                        &&& e@ == f
                        &&& final(store)@ == old(store)@
                        &&& texts(final(lines)@) == texts(old(lines)@)
                    },
                    Ok(b) => exists|v: Seq<(Seq<char>, SandboxChangeKind)>|
                        {
                            &&& #[trigger] are_changes(b, files@, v)
                            &&& if v.len() == 0 {
                                &&& r matches Err(e)
                                &&& e@ == SandboxFault::NoChanges(name@)
                                &&& final(store)@ == old(store)@
                                &&& texts(final(lines)@) == texts(old(lines)@)
                            } else {
                                &&& final(store)@ == put_workdir(old(store)@, files@)
                                &&& match commit_author(
                                    *options,
                                    match config {
                                        Some(c) => Some(c@),
                                        None => None,
                                    },
                                ) {
                                    None => {
                                        &&& r matches Err(e)
                                        &&& e is NoAuthor
                                        &&& texts(final(lines)@) == texts(old(lines)@)
                                            + committing_lines(v.len(), name@, options.verbose)
                                    },
                                    Some(author) => {
                                        let base = decoded_hash(
                                            encode_utf8(m.base_commit@),
                                        )->Ok_0;
                                        let c = sandbox_commit(
                                            base,
                                            files@,
                                            author,
                                            options.message@,
                                            now,
                                        );
                                        &&& r matches Ok(s)
                                        &&& s.hash == blake3_digest(commit_bytes(c))
                                        &&& s.commit_file@ == hex_text(s.hash@)
                                        &&& texts(final(lines)@) == texts(old(lines)@)
                                            + commit_lines(
                                            v.len(),
                                            name@,
                                            s.hash@,
                                            options.verbose,
                                        )
                                        &&& final(refs)@ == (match text_of(m.branch) {
                                            Some(n) => old(refs)@.with(
                                                "refs/heads/"@ + n,
                                                hex_text(s.hash@),
                                            ),
                                            None => old(refs)@,
                                        })
                                    },
                                }
                            }
                        },
                },
            }
        },
{
    let ghost start = texts(lines@);
    if trim(options.message.as_str()).as_str().is_empty() {
        return Err(SandboxError::EmptyMessage);
    }
    let m = match manifest {
        Some(m) => m,
        None => return Err(SandboxError::Missing(name.to_owned())),
    };
    let base: ObjectId = match m.base_commit_hash() {
        Ok(h) => h,
        Err(e) => return Err(SandboxError::InvalidBase(e)),
    };
    let changes = match get_sandbox_changes(store, m, files) {
        Ok(v) => v,
        Err(e) => return Err(e),
    };
    let ghost v = change_views(changes@);
    if changes.len() == 0 {
        assert(v.len() == 0);
        return Err(SandboxError::NoChanges(name.to_owned()));
    }
    if options.verbose {
        let mut line = concat3(
            "Committing ",
            decimal_of(changes.len() as u64).as_str(),
            " changes in sandbox '",
        );
        line.append(name);
        line.append("'");
        push_line(lines, line);
    }
    assert(texts(lines@) =~= start + committing_lines(v.len(), name@, options.verbose));
    let tree: ObjectId = build_tree_from_workdir(store, files);
    let author = match &options.author {
        Some(a) => a.clone(),
        None => match author_of_text(config) {
            Some(a) => a,
            None => return Err(SandboxError::NoAuthor),
        },
    };
    let mut parents: Vec<ObjectId> = Vec::new();
    parents.push(base);
    let c = Commit::new(tree, parents, author, options.message.clone(), now);
    let hash: ObjectId = c.commit_hash;
    proof {
        let want = sandbox_commit(base@, files@, author@, options.message@, now);
        assert(crate::helix_index::commit::id_views(parents@) =~= seq![base@]);
        assert(commit_bytes(c@) == commit_bytes(want));
    }
    match &m.branch {
        Some(b) => {
            refs.set_ref(concat("refs/heads/", b.as_str()), hash_to_hex(&hash));
        },
        None => {},
    }
    let hex = hash_to_hex(&hash);
    let chars = to_chars(hex.as_str());
    let mut line = concat3(
        "Created commit ",
        from_chars(&chars, 0, 8).as_str(),
        " in sandbox '",
    );
    line.append(name);
    line.append("'");
    push_line(lines, line);
    assert(texts(lines@) =~= start + commit_lines(v.len(), name@, hash@, options.verbose));
    Ok(SandboxCommit { hash, commit_file: hex })
}

/// What is said before `n` changes of a sandbox are committed.
pub open spec fn committing_lines(n: nat, name: Seq<char>, verbose: bool) -> Seq<Seq<char>> {
    if verbose {
        seq!["Committing "@ + decimal(n) + " changes in sandbox '"@ + name + "'"@]
    } else {
        Seq::empty()
    }
}

/// What is said of a commit of a sandbox.
pub open spec fn commit_lines(n: nat, name: Seq<char>, hash: Seq<u8>, verbose: bool) -> Seq<
    Seq<char>,
> {
    let last = "Created commit "@ + hex_text(hash).subrange(0, 8) + " in sandbox '"@ + name + "'"@;
    committing_lines(n, name, verbose).push(last)
}

/// The commit that a branch names, if there is such a branch.
pub open spec fn branch_target(r: Refs, path: Seq<char>) -> Result<Option<Seq<u8>>, SandboxFault> {
    if r.has(path) {
        match decoded_hash(encode_utf8(trim_spec(r.at(path)))) {
            Ok(h) => Ok(Some(h)),
            Err(e) => Err(SandboxFault::InvalidBranch(e)),
        }
    } else {
        Ok(None)
    }
}

/// The commit that a branch names, if there is such a branch.
fn read_branch(refs: &RefStore, path: &str) -> (r: Result<Option<ObjectId>, SandboxError>)
    requires
        refs.wf(),
    ensures
        match branch_target(refs@, path@) {
            Ok(Some(h)) => r matches Ok(Some(id)) && id@ == h,
            Ok(None) => r matches Ok(None),
            Err(f) => r matches Err(e) && e@ == f,
        },
{
    match refs.get_ref(path) {
        Some(text) => {
            let t = trim(text.as_str());
            match hex_to_hash(t.as_str()) {
                Ok(h) => Ok(Some(h)),
                Err(e) => Err(SandboxError::InvalidBranch(e)),
            }
        },
        None => Ok(None),
    }
}

/// What merging a sandbox comes to: the commit of the sandbox, and whether the
/// branch is new.
pub open spec fn sandbox_merge(
    r: Refs,
    repo: Seq<char>,
    name: Seq<char>,
    manifest: Option<SandboxManifest>,
    target: Seq<char>,
) -> Result<(Seq<u8>, bool), SandboxFault> {
    match manifest {
        None => Err(SandboxFault::Missing(name)),
        Some(m) => match decoded_hash(encode_utf8(m.base_commit@)) {
            Err(e) => Err(SandboxFault::InvalidBase(e)),
            Ok(base) => match text_of(m.branch) {
                None => Err(SandboxFault::NoBranch),
                Some(b) => match branch_target(r, "refs/heads/"@ + b) {
                    Err(f) => Err(f),
                    Ok(None) => Err(SandboxFault::BranchMissing),
                    Ok(Some(head)) => if head == base {
                        Err(
                            SandboxFault::NothingCommitted(
                                name,
                                below(sandbox_dir(repo, name), "workdir"@),
                            ),
                        )
                    } else {
                        match branch_target(r, "refs/heads/"@ + target) {
                            Err(f) => Err(f),
                            Ok(None) => Ok((head, true)),
                            Ok(Some(at)) => if at == base {
                                Ok((head, false))
                            } else {
                                Err(SandboxFault::Diverged(target))
                            },
                        }
                    },
                },
            },
        },
    }
}

/// The branch that a sandbox is merged into: `main`, if no other is named.
pub open spec fn merge_target(options: MergeOptions) -> Seq<char> {
    match options.into_branch {
        Some(b) => b@,
        None => "main"@,
    }
}

/// Whether a sandbox has something to merge: its branch names another commit than the one
/// that it starts from.
pub open spec fn has_to_merge(r: Refs, manifest: Option<SandboxManifest>) -> bool {
    &&& manifest matches Some(m)
    &&& decoded_hash(encode_utf8(m.base_commit@)) matches Ok(base)
    &&& text_of(m.branch) matches Some(b)
    &&& branch_target(r, "refs/heads/"@ + b) matches Ok(Some(head))
    &&& head != base
}

/// What is said of a merge of a sandbox, up to what stands in its way.
pub open spec fn merge_lines(
    r: Refs,
    repo: Seq<char>,
    name: Seq<char>,
    manifest: Option<SandboxManifest>,
    target: Seq<char>,
    verbose: bool,
) -> Seq<Seq<char>> {
    let first = if verbose && has_to_merge(r, manifest) {
        seq!["Merging sandbox '"@ + name + "' into "@ + target]
    } else {
        Seq::empty()
    };
    match sandbox_merge(r, repo, name, manifest, target) {
        Err(_) => first,
        Ok((head, is_new)) => first.push(
            if is_new {
                "Created branch '"@ + target + "' at "@ + hex_text(head).subrange(0, 8)
            } else {
                "Fast-forward merged '"@ + name + "' into '"@ + target + "'"@
            },
        ),
    }
}

/// Merges a sandbox into a branch, where nothing but the sandbox has gone on from
/// the commit that it starts from: the branch comes to name the commit of the
/// sandbox. There is no manifest where there is no such sandbox. What is to be said is
/// added to `lines`.
pub fn merge_sandbox(
    refs: &mut RefStore,
    repo_path: &str,
    name: &str,
    manifest: Option<&SandboxManifest>,
    options: &MergeOptions,
    lines: &mut Vec<String>,
) -> (r: Result<ObjectId, SandboxError>)
    requires
        old(refs).wf(),
    ensures
        final(refs).wf(),
        texts(final(lines)@) == texts(old(lines)@) + merge_lines(
            old(refs)@,
            repo_path@,
            name@,
            match manifest {
                Some(m) => Some(*m),
                None => None,
            },
            merge_target(*options),
            options.verbose,
        ),
        match sandbox_merge(
            old(refs)@,
            repo_path@,
            name@,
            match manifest {
                Some(m) => Some(*m),
                None => None,
            },
            merge_target(*options),
        ) {
            Err(f) => r matches Err(e) && e@ == f && final(refs)@ == old(refs)@,
            Ok((head, _)) => {
                &&& r matches Ok(h)
                &&& h@ == head
                &&& final(refs)@ == old(refs)@.with(
                    "refs/heads/"@ + merge_target(*options),
                    hex_text(head),
                )
            },
        },
{
    let ghost start = texts(lines@);
    let ghost given = match manifest {
        Some(m) => Some(*m),
        None => None,
    };
    let ghost shown = merge_lines(
        refs@,
        repo_path@,
        name@,
        given,
        merge_target(*options),
        options.verbose,
    );
    assert(start + Seq::<Seq<char>>::empty() =~= start);
    let m = match manifest {
        Some(m) => m,
        None => return Err(SandboxError::Missing(name.to_owned())),
    };
    let base: ObjectId = match m.base_commit_hash() {
        Ok(h) => h,
        Err(e) => return Err(SandboxError::InvalidBase(e)),
    };
    let branch = match &m.branch {
        Some(b) => b,
        None => return Err(SandboxError::NoBranch),
    };
    let path = concat("refs/heads/", branch.as_str());
    let head: ObjectId = match read_branch(refs, path.as_str()) {
        Ok(Some(h)) => h,
        Ok(None) => return Err(SandboxError::BranchMissing),
        Err(e) => return Err(e),
    };
    proof {
        if head@ == base@ {
            assert(head =~= base);
        }
    }
    if hash_eq(&head, &base) {
        let root = sandbox_path(repo_path, name);
        return Err(
            SandboxError::NothingCommitted(name.to_owned(), path_below(root.as_str(), "workdir")),
        );
    }
    let target = match &options.into_branch {
        Some(b) => b.clone(),
        None => "main".to_owned(),
    };
    let target_path = concat("refs/heads/", target.as_str());
    if options.verbose {
        let mut line = concat3("Merging sandbox '", name, "' into ");
        line.append(target.as_str());
        push_line(lines, line);
    }
    let ghost first = if options.verbose {
        seq!["Merging sandbox '"@ + name@ + "' into "@ + target@]
    } else {
        Seq::empty()
    };
    assert(texts(lines@) =~= start + first);
    let is_new: bool = match read_branch(refs, target_path.as_str()) {
        Err(e) => return Err(e),
        Ok(None) => true,
        Ok(Some(at)) => {
            proof {
                if at@ == base@ {
                    assert(at =~= base);
                }
            }
            if !hash_eq(&at, &base) {
                return Err(SandboxError::Diverged(target));
            }
            false
        },
    };
    let hex = hash_to_hex(&head);
    let chars = to_chars(hex.as_str());
    refs.set_ref(target_path, hex);
    if is_new {
        let mut line = concat3("Created branch '", target.as_str(), "' at ");
        line.append(from_chars(&chars, 0, 8).as_str());
        push_line(lines, line);
    } else {
        let mut line = concat3("Fast-forward merged '", name, "' into '");
        line.append(target.as_str());
        line.append("'");
        push_line(lines, line);
    }
    assert(texts(lines@) =~= start + shown);
    Ok(head)
}

/// After a merge the branch names the commit of the sandbox, and merging again is
/// refused: the branch has gone on from the commit that the sandbox starts from.
pub proof fn merging_twice_is_refused(
    r: Refs,
    repo: Seq<char>,
    name: Seq<char>,
    m: SandboxManifest,
    target: Seq<char>,
    head: ObjectId,
    is_new: bool,
)
    requires
        sandbox_merge(r, repo, name, Some(m), target) == Ok::<(Seq<u8>, bool), SandboxFault>(
            (head@, is_new),
        ),
    ensures
        ({
            let after = r.with("refs/heads/"@ + target, hex_text(head@));
            &&& branch_target(after, "refs/heads/"@ + target) == Ok::<
                Option<Seq<u8>>,
                SandboxFault,
            >(Some(head@))
            &&& sandbox_merge(after, repo, name, Some(m), target) == Err::<
                (Seq<u8>, bool),
                SandboxFault,
            >(SandboxFault::Diverged(target))
        }),
{
    crate::refs::lemma_hash_reads_back(head@);
}

} // verus!
