//! The index of a repository in memory: staging, unstaging and queries.
use vstd::prelude::*;
use vstd::string::*;

use crate::codec::zeros;
use crate::hash::zero_hash;
use crate::helix_index::format::{
    entry_views, Entry, EntryFlags, EntryView, FormatError, Header,
};
use crate::helix_index::reader::{
    find_entry_at, first_entry, index_bytes, index_reads, index_refused, is_index_file,
    all_fit, is_misfit, lemma_first_entry, path_fits, HelixIndex, IndexError,
};
use crate::ignore::{any_matches, set_globs, IgnoreRules};
use crate::path::{are_distinct, has_path, lists_path, path_eq, same_path};
use crate::text::texts;

verus! {

/// The index of a repository.
#[derive(Debug)]
pub struct HelixIndexData {
    pub repo_path: String,
    pub data: HelixIndex,
}

/// What is known of the index file of a repository.
#[derive(Debug, Clone, Copy, PartialEq, Eq, Structural)]
pub enum VerifyResult {
    Valid,
    Missing,
    /// The file belongs to another repository.
    WrongRepo,
    Corrupted,
}

/// What is to be done to have an index.
#[derive(Debug, Clone, PartialEq, Eq)]
pub enum LoadPlan {
    /// Read the file.
    Read,
    /// Say this, and build the index anew.
    Rebuild(String),
}

/// A path with a change in the working tree.
#[derive(Debug)]
pub struct DirtyPath {
    pub path: String,
    /// Whether there is a file at the path.
    pub present: bool,
}

/// Why a file cannot be staged or unstaged: the index does not know it.
#[derive(Debug, Clone, PartialEq, Eq)]
pub enum StageError {
    CannotStage(String),
    CannotUnstage(String),
}

impl StageError {
    /// The error in words.
    pub fn message(&self) -> (r: String)
        ensures
            r@ == match *self {
                StageError::CannotStage(p) => "Cannot stage '"@ + p@
                    + "': file is not tracked. Use 'helix add' to track it first."@,
                StageError::CannotUnstage(p) => "Cannot unstage '"@ + p@
                    + "': file is not tracked."@,
            },
    {
        match self {
            StageError::CannotStage(p) => {
                let mut r: String = "Cannot stage '".to_owned();
                r.append(p.as_str());
                r.append("': file is not tracked. Use 'helix add' to track it first.");
                r
            },
            StageError::CannotUnstage(p) => {
                let mut r: String = "Cannot unstage '".to_owned();
                r.append(p.as_str());
                r.append("': file is not tracked.");
                r
            },
        }
    }
}

/// A question about the flags of an entry.
#[derive(Debug, Clone, Copy, PartialEq, Eq, Structural)]
enum Query {
    Staged,
    Modified,
    Deleted,
    Known,
    Untracked,
    Unstaged,
    ToAdd,
}

/// Tracked, modified and not staged.
pub open spec fn is_unstaged(f: EntryFlags) -> bool {
    f.has(EntryFlags::TRACKED) && f.has(EntryFlags::MODIFIED) && !f.has(EntryFlags::STAGED)
}

/// Untracked, or tracked and modified or deleted but not staged.
pub open spec fn needs_adding(f: EntryFlags) -> bool {
    ||| f.has(EntryFlags::UNTRACKED)
    ||| f.has(EntryFlags::TRACKED) && (f.has(EntryFlags::MODIFIED) || f.has(EntryFlags::DELETED))
        && !f.has(EntryFlags::STAGED)
}

/// Tracked and deleted.
pub open spec fn is_deleted(f: EntryFlags) -> bool {
    f.has(EntryFlags::DELETED) && f.has(EntryFlags::TRACKED)
}

spec fn answers(q: Query, f: EntryFlags) -> bool {
    match q {
        Query::Staged => f.has(EntryFlags::STAGED),
        Query::Modified => f.has(EntryFlags::MODIFIED),
        Query::Deleted => is_deleted(f),
        Query::Known => f.has(EntryFlags::TRACKED),
        Query::Untracked => f.has(EntryFlags::UNTRACKED),
        Query::Unstaged => is_unstaged(f),
        Query::ToAdd => needs_adding(f),
    }
}

fn answer(q: Query, f: EntryFlags) -> (r: bool)
    ensures
        r == answers(q, f),
{
    match q {
        Query::Staged => f.contains(EntryFlags::STAGED),
        Query::Modified => f.contains(EntryFlags::MODIFIED),
        Query::Deleted => f.contains(EntryFlags::DELETED) && f.contains(EntryFlags::TRACKED),
        Query::Known => f.contains(EntryFlags::TRACKED),
        Query::Untracked => f.contains(EntryFlags::UNTRACKED),
        Query::Unstaged => f.contains(EntryFlags::TRACKED) && f.contains(EntryFlags::MODIFIED)
            && !f.contains(EntryFlags::STAGED),
        Query::ToAdd => f.contains(EntryFlags::UNTRACKED) || (f.contains(EntryFlags::TRACKED)
            && f.contains(EntryFlags::MODIFIED) && !f.contains(EntryFlags::STAGED)) || (f.contains(
            EntryFlags::TRACKED,
        ) && f.contains(EntryFlags::DELETED) && !f.contains(EntryFlags::STAGED)),
    }
}

/// The paths of the entries whose flags satisfy `p`, each once, in the order of the entries.
pub open spec fn paths_where(es: Seq<EntryView>, p: spec_fn(EntryFlags) -> bool) -> Seq<Seq<char>>
    decreases es.len(),
{
    if es.len() == 0 {
        Seq::empty()
    } else {
        let before = paths_where(es.drop_last(), p);
        if p(es.last().flags) && !has_path(before, es.last().path) {
            before.push(es.last().path)
        } else {
            before
        }
    }
}

/// Whether an entry with this path has flags that satisfy `p`.
pub open spec fn any_where(
    es: Seq<EntryView>,
    path: Seq<char>,
    p: spec_fn(EntryFlags) -> bool,
) -> bool {
    exists|i: int|
        0 <= i < es.len() && same_path((#[trigger] es[i]).path, path) && p(es[i].flags)
}

/// The paths of the entries whose flags satisfy `p` hold exactly the paths with such an
/// entry, each once.
pub proof fn paths_where_are_complete(
    es: Seq<EntryView>,
    p: spec_fn(EntryFlags) -> bool,
)
    ensures
        forall|x: Seq<char>| #[trigger] has_path(paths_where(es, p), x) <==> any_where(es, x, p),
        are_distinct(paths_where(es, p)),
    decreases es.len(),
{
    if es.len() > 0 {
        let d = es.drop_last();
        paths_where_are_complete(d, p);
        let before = paths_where(d, p);
        let now = paths_where(es, p);
        let e = es.last();
        assert forall|x: Seq<char>| #[trigger] has_path(now, x) <==> any_where(es, x, p) by {
            assert(has_path(before, x) <==> any_where(d, x, p));
            if has_path(before, x) {
                let k = choose|k: int| 0 <= k < before.len() && same_path(#[trigger] before[k], x);
                assert(same_path(now[k], x));
                let i = choose|i: int|
                    0 <= i < d.len() && same_path((#[trigger] d[i]).path, x) && p(d[i].flags);
                assert(es[i] == d[i]);
            }
            if has_path(now, x) && !has_path(before, x) {
                let k = choose|k: int| 0 <= k < now.len() && same_path(#[trigger] now[k], x);
                if k < before.len() {
                    assert(same_path(before[k], x));
                }
                assert(es[es.len() - 1] == e);
            }
            if any_where(es, x, p) && !any_where(d, x, p) {
                let i = choose|i: int|
                    0 <= i < es.len() && same_path((#[trigger] es[i]).path, x) && p(es[i].flags);
                if i < d.len() {
                    assert(d[i] == es[i]);
                }
                assert(same_path(e.path, x) && p(e.flags));
                if has_path(before, e.path) {
                    let k = choose|k: int|
                        0 <= k < before.len() && same_path(#[trigger] before[k], e.path);
                    assert(same_path(before[k], x));
                } else {
                    assert(same_path(now[before.len() as int], x));
                }
            }
        }
        assert forall|i: int, j: int| 0 <= i < j < now.len() implies !same_path(
            #[trigger] now[i],
            #[trigger] now[j],
        ) by {
            if j < before.len() {
                assert(before[i] == now[i] && before[j] == now[j]);
            } else {
                assert(before[i] == now[i]);
                if same_path(before[i], e.path) {
                    assert(has_path(before, e.path));
                }
            }
        }
    }
}

/// An entry with other flags.
pub open spec fn with_bits(e: EntryView, bits: u32) -> EntryView {
    EntryView { flags: EntryFlags { bits }, ..e }
}

/// The entries after the first one with this path has been staged.
pub open spec fn staged_at(es: Seq<EntryView>, path: Seq<char>) -> Seq<EntryView> {
    let k = first_entry(es, path);
    es.update(k, with_bits(es[k], es[k].flags.bits | EntryFlags::STAGED))
}

/// The entries after the first one with this path has been unstaged.
pub open spec fn unstaged_at(es: Seq<EntryView>, path: Seq<char>) -> Seq<EntryView> {
    let k = first_entry(es, path);
    es.update(k, with_bits(es[k], es[k].flags.bits & !EntryFlags::STAGED))
}

/// Whether some entry has this path.
pub open spec fn knows(es: Seq<EntryView>, path: Seq<char>) -> bool {
    first_entry(es, path) < es.len()
}

/// The place of the last tracked entry with this path, or -1.
pub open spec fn last_tracked(es: Seq<EntryView>, path: Seq<char>) -> int
    decreases es.len(),
{
    if es.len() == 0 {
        -1
    } else if same_path(es.last().path, path) && es.last().flags.has(EntryFlags::TRACKED) {
        es.len() - 1
    } else {
        last_tracked(es.drop_last(), path)
    }
}

/// The flags of a tracked file with a change.
pub open spec fn tracked_change(bits: u32, present: bool) -> u32 {
    (bits & !(EntryFlags::MODIFIED | EntryFlags::DELETED | EntryFlags::UNTRACKED)) | (if present {
        EntryFlags::MODIFIED
    } else {
        EntryFlags::DELETED | EntryFlags::MODIFIED
    })
}

/// The flags of an untracked file with a change.
pub open spec fn untracked_change(bits: u32) -> u32 {
    (bits & !EntryFlags::DELETED) | (EntryFlags::UNTRACKED | EntryFlags::MODIFIED)
}

/// Whether `e` is a new entry for a file that nothing is known of.
pub open spec fn is_blank_entry(e: EntryView, path: Seq<char>) -> bool {
    &&& e.path == path
    &&& e.size == 0
    &&& e.mtime_sec == 0
    &&& e.mtime_nsec == 0
    &&& e.flags.bits == 0
    &&& e.oid@ == zeros(32)
    &&& e.merge_conflict_stage == 0
    &&& e.file_mode == 0o100644
    &&& e.reserved@ == zeros(33)
}

/// The entries without those of one path.
pub open spec fn without_path(es: Seq<EntryView>, path: Seq<char>) -> Seq<EntryView>
    decreases es.len(),
{
    if es.len() == 0 {
        es
    } else if same_path(es.last().path, path) {
        without_path(es.drop_last(), path)
    } else {
        without_path(es.drop_last(), path).push(es.last())
    }
}

/// A new entry for a file that nothing is known of.
pub open spec fn blank_entry(path: Seq<char>) -> EntryView {
    choose|e: EntryView| is_blank_entry(e, path)
}

/// The entries after a change at one path: a tracked file is marked as modified
/// or deleted, another file that is there and not ignored as untracked, and a file
/// that is neither tracked nor there is forgotten.
pub open spec fn with_change(
    es: Seq<EntryView>,
    globs: Seq<Seq<char>>,
    path: Seq<char>,
    present: bool,
) -> Seq<EntryView> {
    let k = last_tracked(es, path);
    let j = first_entry(es, path);
    if k >= 0 {
        es.update(k, with_bits(es[k], tracked_change(es[k].flags.bits, present)))
    } else if present && any_matches(globs, path) {
        es
    } else if present {
        if j < es.len() {
            es.update(j, with_bits(es[j], untracked_change(es[j].flags.bits)))
        } else {
            es.push(with_bits(blank_entry(path), untracked_change(0)))
        }
    } else {
        without_path(es, path)
    }
}

/// The entries after several changes, one after the other.
pub open spec fn with_changes(
    es: Seq<EntryView>,
    globs: Seq<Seq<char>>,
    dirty: Seq<DirtyPath>,
) -> Seq<EntryView>
    decreases dirty.len(),
{
    if dirty.len() == 0 {
        es
    } else {
        with_change(
            with_changes(es, globs, dirty.drop_last()),
            globs,
            dirty.last().path@,
            dirty.last().present,
        )
    }
}

proof fn lemma_blank_entry(e: EntryView, path: Seq<char>)
    requires
        is_blank_entry(e, path),
    ensures
        e == blank_entry(path),
{
    let f = blank_entry(path);
    assert(is_blank_entry(f, path));
    assert(e.oid =~= f.oid);
    assert(e.reserved =~= f.reserved);
}

/// What is to be done to have an index, by what is known of the file.
pub fn load_plan(found: VerifyResult) -> (r: LoadPlan)
    ensures
        match found {
            VerifyResult::Valid => r == LoadPlan::Read,
            VerifyResult::Missing => r matches LoadPlan::Rebuild(m) && m@
                == "Building helix.idx for the first time..."@,
            VerifyResult::WrongRepo => r matches LoadPlan::Rebuild(m) && m@
                == "helix.idx is from a different repo, rebuilding..."@,
            VerifyResult::Corrupted => r matches LoadPlan::Rebuild(m) && m@
                == "helix.idx is corrupted, rebuilding..."@,
        },
{
    match found {
        VerifyResult::Valid => LoadPlan::Read,
        VerifyResult::Missing => LoadPlan::Rebuild(
            "Building helix.idx for the first time...".to_owned(),
        ),
        VerifyResult::WrongRepo => LoadPlan::Rebuild(
            "helix.idx is from a different repo, rebuilding...".to_owned(),
        ),
        VerifyResult::Corrupted => LoadPlan::Rebuild(
            "helix.idx is corrupted, rebuilding...".to_owned(),
        ),
    }
}

impl HelixIndexData {
    /// The entries, with their paths as characters.
    pub open spec fn es(&self) -> Seq<EntryView> {
        entry_views(self.data.entries@)
    }

    /// The index that a file holds.
    pub fn load(repo_path: &str, file: &[u8]) -> (r: Result<HelixIndexData, IndexError>)
        ensures
            match r {
                Ok(x) => is_index_file(file@) && index_reads(x.data, file@) && x.repo_path@
                    == repo_path@,
                Err(e) => !is_index_file(file@) && index_refused(file@, e),
            },
    {
        match HelixIndex::parse(file) {
            Ok(data) => Ok(HelixIndexData { repo_path: repo_path.to_owned(), data }),
            Err(e) => Err(e),
        }
    }

    /// Reads the index again from a file. On an error it stays as it is.
    pub fn reload(&mut self, file: &[u8]) -> (r: Result<(), IndexError>)
        ensures
            final(self).repo_path == old(self).repo_path,
            match r {
                Ok(_) => is_index_file(file@) && index_reads(final(self).data, file@),
                Err(e) => !is_index_file(file@) && index_refused(file@, e) && final(self).data
                    == old(self).data,
            },
    {
        match HelixIndex::parse(file) {
            Ok(data) => {
                self.data = data;
                Ok(())
            },
            Err(e) => Err(e),
        }
    }

    /// Counts the generation up, counts the entries, and gives the bytes of the
    /// index file.
    pub fn persist(&mut self) -> (r: Result<Vec<u8>, FormatError>)
        requires
            old(self).data.header.generation < u64::MAX,
        ensures
            final(self).repo_path == old(self).repo_path,
            final(self).data.entries == old(self).data.entries,
            final(self).data.header == (Header {
                generation: (old(self).data.header.generation + 1) as u64,
                entry_count: (old(self).data.entries@.len() % 0x1_0000_0000) as u32,
                ..old(self).data.header
            }),
            match r {
                Ok(b) => {
                    &&& all_fit(final(self).es())
                    &&& b@ == index_bytes(final(self).data.header, final(self).es())
                },
                Err(e) => is_misfit(final(self).es(), e),
            },
    {
        self.data.header.generation = self.data.header.generation + 1;
        self.data.header.entry_count = (self.data.entries.len() as u64 % 0x1_0000_0000) as u32;
        self.data.to_bytes()
    }

    /// Stages a file that the index knows.
    pub fn stage_file(&mut self, path: &str) -> (r: Result<(), StageError>)
        ensures
            final(self).repo_path == old(self).repo_path,
            final(self).data.header == old(self).data.header,
            if knows(old(self).es(), path@) {
                r is Ok && final(self).es() == staged_at(old(self).es(), path@)
            } else {
                &&& r matches Err(StageError::CannotStage(p))
                &&& p@ == path@
                &&& final(self).es() == old(self).es()
            },
    {
        match find_entry_at(&self.data.entries, path) {
            Some(i) => {
                let ghost before = self.es();
                self.data.entries[i].flags.insert(EntryFlags::STAGED);
                assert(self.es() =~= staged_at(before, path@));
                Ok(())
            },
            None => Err(StageError::CannotStage(path.to_owned())),
        }
    }

    /// Unstages a file that the index knows.
    pub fn unstage_file(&mut self, path: &str) -> (r: Result<(), StageError>)
        ensures
            final(self).repo_path == old(self).repo_path,
            final(self).data.header == old(self).data.header,
            if knows(old(self).es(), path@) {
                r is Ok && final(self).es() == unstaged_at(old(self).es(), path@)
            } else {
                &&& r matches Err(StageError::CannotUnstage(p))
                &&& p@ == path@
                &&& final(self).es() == old(self).es()
            },
    {
        match find_entry_at(&self.data.entries, path) {
            Some(i) => {
                let ghost before = self.es();
                self.data.entries[i].flags.remove(EntryFlags::STAGED);
                assert(self.es() =~= unstaged_at(before, path@));
                Ok(())
            },
            None => Err(StageError::CannotUnstage(path.to_owned())),
        }
    }
}

/// The entries after the first `n` of the paths have been staged.
pub open spec fn staged_upto(es: Seq<EntryView>, paths: Seq<Seq<char>>, n: int) -> Seq<EntryView>
    decreases n,
{
    if n <= 0 {
        es
    } else {
        staged_at(staged_upto(es, paths, n - 1), paths[n - 1])
    }
}

/// The entries after the first `n` of the paths have been unstaged.
pub open spec fn unstaged_upto(es: Seq<EntryView>, paths: Seq<Seq<char>>, n: int) -> Seq<EntryView>
    decreases n,
{
    if n <= 0 {
        es
    } else {
        unstaged_at(unstaged_upto(es, paths, n - 1), paths[n - 1])
    }
}

/// The entries, each with its flags changed by `f`.
pub open spec fn all_with(es: Seq<EntryView>, f: spec_fn(u32) -> u32) -> Seq<EntryView> {
    es.map_values(|e: EntryView| with_bits(e, f(e.flags.bits)))
}

/// Every entry staged.
pub open spec fn all_staged(es: Seq<EntryView>) -> Seq<EntryView> {
    all_with(es, |b: u32| b | EntryFlags::STAGED)
}

/// No entry staged.
pub open spec fn none_staged(es: Seq<EntryView>) -> Seq<EntryView> {
    all_with(es, |b: u32| b & !EntryFlags::STAGED)
}

/// Staging a file changes nothing about which files are known.
pub proof fn lemma_staging_keeps_known(es: Seq<EntryView>, path: Seq<char>)
    requires
        knows(es, path),
    ensures
        forall|p: Seq<char>| #[trigger] knows(staged_at(es, path), p) == knows(es, p),
{
    let k = first_entry(es, path);
    lemma_first_entry(es, path);
    assert forall|p: Seq<char>| #[trigger] knows(staged_at(es, path), p) == knows(es, p) by {
        lemma_first_entry_update(es, k, es[k].flags.bits | EntryFlags::STAGED, p);
    }
}

/// Unstaging a file changes nothing about which files are known.
pub proof fn lemma_unstaging_keeps_known(es: Seq<EntryView>, path: Seq<char>)
    requires
        knows(es, path),
    ensures
        forall|p: Seq<char>| #[trigger] knows(unstaged_at(es, path), p) == knows(es, p),
{
    let k = first_entry(es, path);
    lemma_first_entry(es, path);
    assert forall|p: Seq<char>| #[trigger] knows(unstaged_at(es, path), p) == knows(es, p) by {
        lemma_first_entry_update(es, k, es[k].flags.bits & !EntryFlags::STAGED, p);
    }
}

/// Changing the flags of an entry leaves it known, at the same place.
proof fn lemma_first_entry_update(es: Seq<EntryView>, k: int, bits: u32, path: Seq<char>)
    requires
        0 <= k < es.len(),
    ensures
        first_entry(es.update(k, with_bits(es[k], bits)), path) == first_entry(es, path),
    decreases es.len(),
{
    let u = es.update(k, with_bits(es[k], bits));
    assert(u[0].path == es[0].path);
    let t = es.subrange(1, es.len() as int);
    if k == 0 {
        assert(u.subrange(1, u.len() as int) =~= t);
    } else {
        assert(u.subrange(1, u.len() as int) =~= t.update(k - 1, with_bits(t[k - 1], bits)));
        lemma_first_entry_update(t, k - 1, bits, path);
    }
}

impl HelixIndexData {
    /// Stages several files, up to the first that the index does not know.
    pub fn stage_files(&mut self, paths: &Vec<String>) -> (r: Result<(), StageError>)
        ensures
            final(self).repo_path == old(self).repo_path,
            final(self).data.header == old(self).data.header,
            match r {
                Ok(_) => {
                    &&& forall|i: int|
                        0 <= i < paths@.len() ==> knows(old(self).es(), (#[trigger] paths@[i])@)
                    &&& final(self).es() == staged_upto(
                        old(self).es(),
                        texts(paths@),
                        paths@.len() as int,
                    )
                },
                Err(e) => exists|k: int|
                    {
                        &&& 0 <= k < paths@.len()
                        &&& !knows(old(self).es(), (#[trigger] paths@[k])@)
                        &&& forall|i: int|
                            0 <= i < k ==> knows(old(self).es(), (#[trigger] paths@[i])@)
                        &&& e matches StageError::CannotStage(p)
                        &&& p@ == paths@[k]@
                        &&& final(self).es() == staged_upto(old(self).es(), texts(paths@), k)
                    },
            },
    {
        let mut i: usize = 0;
        let ghost es = self.es();
        while i < paths.len()
            invariant
                i <= paths.len(),
                es == old(self).es(),
                self.repo_path == old(self).repo_path,
                self.data.header == old(self).data.header,
                self.es() == staged_upto(es, texts(paths@), i as int),
                self.es().len() == es.len(),
                forall|p: Seq<char>| knows(self.es(), p) == #[trigger] knows(es, p),
                forall|j: int| 0 <= j < i ==> knows(es, (#[trigger] paths@[j])@),
            decreases paths.len() - i,
        {
            let ghost before = self.es();
            assert(texts(paths@)[i as int] == paths@[i as int]@);
            assert(knows(before, paths@[i as int]@) == knows(es, paths@[i as int]@));
            match self.stage_file(paths[i].as_str()) {
                Ok(_) => {
                    proof {
                        let k = first_entry(before, paths@[i as int]@);
                        lemma_first_entry(before, paths@[i as int]@);
                        assert forall|p: Seq<char>| knows(self.es(), p) == #[trigger] knows(
                            es,
                            p,
                        ) by {
                            lemma_first_entry_update(
                                before,
                                k,
                                before[k].flags.bits | EntryFlags::STAGED,
                                p,
                            );
                            assert(knows(before, p) == knows(es, p));
                        }
                    }
                },
                Err(e) => return Err(e),
            }
            i += 1;
        }
        Ok(())
    }

    /// Unstages several files, up to the first that the index does not know.
    pub fn unstage_files(&mut self, paths: &Vec<String>) -> (r: Result<(), StageError>)
        ensures
            final(self).repo_path == old(self).repo_path,
            final(self).data.header == old(self).data.header,
            match r {
                Ok(_) => {
                    &&& forall|i: int|
                        0 <= i < paths@.len() ==> knows(old(self).es(), (#[trigger] paths@[i])@)
                    &&& final(self).es() == unstaged_upto(
                        old(self).es(),
                        texts(paths@),
                        paths@.len() as int,
                    )
                },
                Err(e) => exists|k: int|
                    {
                        &&& 0 <= k < paths@.len()
                        &&& !knows(old(self).es(), (#[trigger] paths@[k])@)
                        &&& forall|i: int|
                            0 <= i < k ==> knows(old(self).es(), (#[trigger] paths@[i])@)
                        &&& e matches StageError::CannotUnstage(p)
                        &&& p@ == paths@[k]@
                        &&& final(self).es() == unstaged_upto(old(self).es(), texts(paths@), k)
                    },
            },
    {
        let mut i: usize = 0;
        let ghost es = self.es();
        while i < paths.len()
            invariant
                i <= paths.len(),
                es == old(self).es(),
                self.repo_path == old(self).repo_path,
                self.data.header == old(self).data.header,
                self.es() == unstaged_upto(es, texts(paths@), i as int),
                self.es().len() == es.len(),
                forall|p: Seq<char>| knows(self.es(), p) == #[trigger] knows(es, p),
                forall|j: int| 0 <= j < i ==> knows(es, (#[trigger] paths@[j])@),
            decreases paths.len() - i,
        {
            let ghost before = self.es();
            assert(texts(paths@)[i as int] == paths@[i as int]@);
            assert(knows(before, paths@[i as int]@) == knows(es, paths@[i as int]@));
            match self.unstage_file(paths[i].as_str()) {
                Ok(_) => {
                    proof {
                        let k = first_entry(before, paths@[i as int]@);
                        lemma_first_entry(before, paths@[i as int]@);
                        assert forall|p: Seq<char>| knows(self.es(), p) == #[trigger] knows(
                            es,
                            p,
                        ) by {
                            lemma_first_entry_update(
                                before,
                                k,
                                before[k].flags.bits & !EntryFlags::STAGED,
                                p,
                            );
                            assert(knows(before, p) == knows(es, p));
                        }
                    }
                },
                Err(e) => return Err(e),
            }
            i += 1;
        }
        Ok(())
    }

    /// Stages every file of the index.
    pub fn stage_all(&mut self)
        ensures
            final(self).repo_path == old(self).repo_path,
            final(self).data.header == old(self).data.header,
            final(self).es() == all_staged(old(self).es()),
    {
        let mut i: usize = 0;
        let ghost es = self.es();
        let ghost target = all_staged(es);
        while i < self.data.entries.len()
            invariant
                i <= self.data.entries.len(),
                es == old(self).es(),
                target == all_staged(es),
                self.repo_path == old(self).repo_path,
                self.data.header == old(self).data.header,
                self.es().len() == es.len(),
                forall|j: int| 0 <= j < i ==> self.es()[j] == target[j],
                forall|j: int| i <= j < es.len() ==> self.es()[j] == es[j],
            decreases self.data.entries.len() - i,
        {
            let ghost before = self.es();
            assert(before[i as int] == es[i as int]);
            self.data.entries[i].flags.insert(EntryFlags::STAGED);
            assert(self.es() =~= before.update(
                i as int,
                with_bits(es[i as int], es[i as int].flags.bits | EntryFlags::STAGED),
            ));
            i += 1;
        }
        assert(self.es() =~= target);
    }

    /// Unstages every file of the index.
    pub fn unstage_all(&mut self)
        ensures
            final(self).repo_path == old(self).repo_path,
            final(self).data.header == old(self).data.header,
            final(self).es() == none_staged(old(self).es()),
    {
        let mut i: usize = 0;
        let ghost es = self.es();
        let ghost target = none_staged(es);
        while i < self.data.entries.len()
            invariant
                i <= self.data.entries.len(),
                es == old(self).es(),
                target == none_staged(es),
                self.repo_path == old(self).repo_path,
                self.data.header == old(self).data.header,
                self.es().len() == es.len(),
                forall|j: int| 0 <= j < i ==> self.es()[j] == target[j],
                forall|j: int| i <= j < es.len() ==> self.es()[j] == es[j],
            decreases self.data.entries.len() - i,
        {
            let ghost before = self.es();
            assert(before[i as int] == es[i as int]);
            self.data.entries[i].flags.remove(EntryFlags::STAGED);
            assert(self.es() =~= before.update(
                i as int,
                with_bits(es[i as int], es[i as int].flags.bits & !EntryFlags::STAGED),
            ));
            i += 1;
        }
        assert(self.es() =~= target);
    }

    /// The paths of the entries whose flags answer a question, each once.
    fn paths_of(&self, q: Query) -> (r: Vec<String>)
        ensures
            texts(r@) == paths_where(self.es(), |f: EntryFlags| answers(q, f)),
    {
        let mut r: Vec<String> = Vec::new();
        let mut i: usize = 0;
        let ghost es = self.es();
        let ghost p = |f: EntryFlags| answers(q, f);
        assert(texts(r@) =~= paths_where(es.subrange(0, 0), p));
        while i < self.data.entries.len()
            invariant
                i <= self.data.entries.len(),
                es == self.es(),
                p == (|f: EntryFlags| answers(q, f)),
                texts(r@) == paths_where(es.subrange(0, i as int), p),
            decreases self.data.entries.len() - i,
        {
            let ghost before = texts(r@);
            let e = &self.data.entries[i];
            proof {
                let t = es.subrange(0, i + 1);
                assert(t.drop_last() =~= es.subrange(0, i as int));
                assert(t.last() == e@);
                assert(p(e@.flags) == answers(q, e@.flags));
            }
            if answer(q, e.flags) && !lists_path(&r, e.path.as_str()) {
                r.push(e.path.clone());
                assert(texts(r@) =~= before.push(e.path@));
            }
            i += 1;
        }
        assert(es.subrange(0, i as int) =~= es);
        r
    }

    /// The paths of all staged files, tracked or not.
    pub fn get_staged(&self) -> (r: Vec<String>)
        ensures
            texts(r@) == paths_where(self.es(), |f: EntryFlags| f.has(EntryFlags::STAGED)),
    {
        let r = self.paths_of(Query::Staged);
        assert((|f: EntryFlags| answers(Query::Staged, f)) =~= (|f: EntryFlags| f.has(EntryFlags::STAGED)));
        r
    }

    /// The paths of all modified files, tracked or not.
    pub fn get_modified(&self) -> (r: Vec<String>)
        ensures
            texts(r@) == paths_where(self.es(), |f: EntryFlags| f.has(EntryFlags::MODIFIED)),
    {
        let r = self.paths_of(Query::Modified);
        assert((|f: EntryFlags| answers(Query::Modified, f)) =~= (|f: EntryFlags| f.has(EntryFlags::MODIFIED)));
        r
    }

    /// The paths of all tracked files that are deleted.
    pub fn get_deleted(&self) -> (r: Vec<String>)
        ensures
            texts(r@) == paths_where(self.es(), |f: EntryFlags| is_deleted(f)),
    {
        let r = self.paths_of(Query::Deleted);
        assert((|f: EntryFlags| answers(Query::Deleted, f)) =~= (|f: EntryFlags| is_deleted(f)));
        r
    }

    /// The paths of all tracked files.
    pub fn get_tracked(&self) -> (r: Vec<String>)
        ensures
            texts(r@) == paths_where(self.es(), |f: EntryFlags| f.has(EntryFlags::TRACKED)),
    {
        let r = self.paths_of(Query::Known);
        assert((|f: EntryFlags| answers(Query::Known, f)) =~= (|f: EntryFlags| f.has(EntryFlags::TRACKED)));
        r
    }

    /// The paths of all untracked files.
    pub fn get_untracked(&self) -> (r: Vec<String>)
        ensures
            texts(r@) == paths_where(self.es(), |f: EntryFlags| f.has(EntryFlags::UNTRACKED)),
    {
        let r = self.paths_of(Query::Untracked);
        assert((|f: EntryFlags| answers(Query::Untracked, f)) =~= (|f: EntryFlags| f.has(EntryFlags::UNTRACKED)));
        r
    }

    /// The paths of all files with changes that are not staged.
    pub fn get_unstaged(&self) -> (r: Vec<String>)
        ensures
            texts(r@) == paths_where(self.es(), |f: EntryFlags| is_unstaged(f)),
    {
        let r = self.paths_of(Query::Unstaged);
        assert((|f: EntryFlags| answers(Query::Unstaged, f)) =~= (|f: EntryFlags| is_unstaged(f)));
        r
    }

    /// The paths of all files that need staging.
    pub fn get_files_to_add(&self) -> (r: Vec<String>)
        ensures
            texts(r@) == paths_where(self.es(), |f: EntryFlags| needs_adding(f)),
    {
        let r = self.paths_of(Query::ToAdd);
        assert((|f: EntryFlags| answers(Query::ToAdd, f)) =~= (|f: EntryFlags| needs_adding(f)));
        r
    }

    /// Whether an entry with this path answers a question.
    fn any_of(&self, path: &str, q: Query) -> (r: bool)
        ensures
            r == any_where(self.es(), path@, |f: EntryFlags| answers(q, f)),
    {
        let mut i: usize = 0;
        let ghost es = self.es();
        while i < self.data.entries.len()
            invariant
                i <= self.data.entries.len(),
                es == self.es(),
                forall|j: int|
                    0 <= j < i ==> !(same_path((#[trigger] es[j]).path, path@) && answers(
                        q,
                        es[j].flags,
                    )),
            decreases self.data.entries.len() - i,
        {
            let e = &self.data.entries[i];
            assert(es[i as int] == e@);
            if answer(q, e.flags) && path_eq(e.path.as_str(), path) {
                return true;
            }
            i += 1;
        }
        false
    }

    /// Whether a file is staged.
    pub fn is_staged(&self, path: &str) -> (r: bool)
        ensures
            r == any_where(self.es(), path@, |f: EntryFlags| f.has(EntryFlags::STAGED)),
    {
        self.any_of(path, Query::Staged)
    }

    /// Whether a file is tracked.
    pub fn is_tracked(&self, path: &str) -> (r: bool)
        ensures
            r == any_where(self.es(), path@, |f: EntryFlags| f.has(EntryFlags::TRACKED)),
    {
        self.any_of(path, Query::Known)
    }

    pub fn generation(&self) -> (r: u64)
        ensures
            r == self.data.header.generation,
    {
        self.data.header.generation
    }

    pub fn entries(&self) -> (r: &Vec<Entry>)
        ensures
            r == &self.data.entries,
    {
        &self.data.entries
    }

    pub fn entries_mut(&mut self) -> (r: &mut Vec<Entry>)
        ensures
            *r == old(self).data.entries,
            final(self).data.entries == *final(r),
            final(self).data.header == old(self).data.header,
            final(self).repo_path == old(self).repo_path,
    {
        &mut self.data.entries
    }
}

impl HelixIndexData {
    /// The last tracked entry with this path.
    fn find_tracked(&self, path: &str) -> (r: Option<usize>)
        ensures
            match r {
                Some(i) => i < self.data.entries@.len() && i == last_tracked(self.es(), path@),
                None => last_tracked(self.es(), path@) == -1,
            },
    {
        let mut i: usize = self.data.entries.len();
        let ghost es = self.es();
        assert(es.subrange(0, i as int) =~= es);
        while i > 0
            invariant
                i <= self.data.entries.len(),
                es == self.es(),
                last_tracked(es, path@) == last_tracked(es.subrange(0, i as int), path@),
            decreases i,
        {
            let ghost t = es.subrange(0, i as int);
            assert(t.last() == self.data.entries@[i - 1]@);
            assert(t.drop_last() =~= es.subrange(0, i - 1));
            i -= 1;
            if self.data.entries[i].flags.contains(EntryFlags::TRACKED) && path_eq(
                self.data.entries[i].path.as_str(),
                path,
            ) {
                return Some(i);
            }
        }
        None
    }

    /// Forgets every entry with this path.
    fn remove_entry_if_exists(&mut self, path: &str)
        ensures
            final(self).repo_path == old(self).repo_path,
            final(self).data.header == old(self).data.header,
            final(self).es() == without_path(old(self).es(), path@),
    {
        let ghost es = self.es();
        let mut i: usize = 0;
        assert(es.subrange(0, 0) =~= Seq::empty());
        assert(self.es() =~= without_path(es.subrange(0, 0), path@) + es.subrange(
            0,
            es.len() as int,
        ));
        let mut seen: usize = 0;
        let total: usize = self.data.entries.len();
        while seen < total
            invariant
                i <= seen <= total,
                total == es.len(),
                es == old(self).es(),
                self.repo_path == old(self).repo_path,
                self.data.header == old(self).data.header,
                without_path(es.subrange(0, seen as int), path@).len() == i,
                self.es() == without_path(es.subrange(0, seen as int), path@) + es.subrange(
                    seen as int,
                    es.len() as int,
                ),
            decreases total - seen,
        {
            let ghost t = es.subrange(0, seen + 1);
            let ghost kept = without_path(es.subrange(0, seen as int), path@);
            proof {
                assert(t.drop_last() =~= es.subrange(0, seen as int));
                assert(t.last() == es[seen as int]);
                assert(self.data.entries@.len() == self.es().len());
                assert(self.es()[i as int] == es[seen as int]);
                assert(self.data.entries@[i as int]@ == es[seen as int]);
            }
            let ghost before = self.es();
            if path_eq(self.data.entries[i].path.as_str(), path) {
                self.data.entries.remove(i);
                assert(self.es() =~= before.remove(i as int));
                assert(self.es() =~= kept + es.subrange(seen + 1, es.len() as int));
            } else {
                assert(before =~= kept.push(es[seen as int]) + es.subrange(
                    seen + 1,
                    es.len() as int,
                ));
                i += 1;
            }
            seen += 1;
        }
        assert(es.subrange(0, seen as int) =~= es);
        assert(self.es() =~= without_path(es, path@));
    }

    /// The place of the first entry with this path, which is made if there is
    /// none.
    fn ensure_untracked_entry(&mut self, path: &str) -> (i: usize)
        ensures
            final(self).repo_path == old(self).repo_path,
            final(self).data.header == old(self).data.header,
            i == first_entry(old(self).es(), path@),
            i < final(self).es().len(),
            if i < old(self).es().len() {
                final(self).es() == old(self).es()
            } else {
                &&& final(self).es().len() == old(self).es().len() + 1
                &&& final(self).es().drop_last() == old(self).es()
                &&& is_blank_entry(final(self).es().last(), path@)
            },
    {
        match find_entry_at(&self.data.entries, path) {
            Some(i) => i,
            None => {
                let ghost before = self.es();
                let n: usize = self.data.entries.len();
                let mut e = Entry::new(path.to_owned(), 0, 0, zero_hash(), 0o100644);
                self.data.entries.push(e);
                assert(self.es() =~= before.push(e@));
                assert(self.es().drop_last() =~= before);
                n
            },
        }
    }

    /// Takes changes in the working tree over into the flags: a tracked file is
    /// marked as modified or deleted, another file that is there and not ignored as
    /// untracked.
    pub fn apply_worktree_changes(&mut self, dirty_paths: &Vec<DirtyPath>, rules: &IgnoreRules)
        ensures
            final(self).repo_path == old(self).repo_path,
            final(self).data.header == old(self).data.header,
            final(self).es() == with_changes(
                old(self).es(),
                set_globs(rules.globset),
                dirty_paths@,
            ),
    {
        let ghost es = self.es();
        let ghost globs = set_globs(rules.globset);
        let mut n: usize = 0;
        while n < dirty_paths.len()
            invariant
                n <= dirty_paths.len(),
                es == old(self).es(),
                self.repo_path == old(self).repo_path,
                self.data.header == old(self).data.header,
                globs == set_globs(rules.globset),
                self.es() == with_changes(es, globs, dirty_paths@.subrange(0, n as int)),
            decreases dirty_paths.len() - n,
        {
            let ghost mid = self.es();
            let d = &dirty_paths[n];
            match self.find_tracked(d.path.as_str()) {
                Some(i) => {
                    assert(mid[i as int] == self.data.entries@[i as int]@);
                    self.data.entries[i].flags.remove(
                        EntryFlags::MODIFIED | EntryFlags::DELETED | EntryFlags::UNTRACKED,
                    );
                    let add: u32 = if d.present {
                        EntryFlags::MODIFIED
                    } else {
                        EntryFlags::DELETED | EntryFlags::MODIFIED
                    };
                    self.data.entries[i].flags.insert(add);
                    assert(self.es() =~= mid.update(
                        i as int,
                        with_bits(
                            mid[i as int],
                            tracked_change(mid[i as int].flags.bits, d.present),
                        ),
                    ));
                },
                None => {
                    if !d.present {
                        self.remove_entry_if_exists(d.path.as_str());
                    } else if !rules.should_ignore(d.path.as_str()) {
                        let i: usize = self.ensure_untracked_entry(d.path.as_str());
                        let ghost grown = self.es();
                        assert(grown[i as int] == self.data.entries@[i as int]@);
                        self.data.entries[i].flags.remove(EntryFlags::DELETED);
                        self.data.entries[i].flags.insert(
                            EntryFlags::UNTRACKED | EntryFlags::MODIFIED,
                        );
                        proof {
                            assert(self.es() =~= grown.update(
                                i as int,
                                with_bits(
                                    grown[i as int],
                                    untracked_change(grown[i as int].flags.bits),
                                ),
                            ));
                            if i >= mid.len() {
                                lemma_first_entry(mid, d.path@);
                                assert(i == mid.len());
                                lemma_blank_entry(grown.last(), d.path@);
                                assert(grown =~= mid.push(grown.last()));
                            }
                        }
                    }
                },
            }
            proof {
                let t = dirty_paths@.subrange(0, n + 1);
                assert(t.drop_last() =~= dirty_paths@.subrange(0, n as int));
                assert(t.last() == dirty_paths@[n as int]);
                assert(self.es() =~= with_change(mid, globs, d.path@, d.present));
            }
            n += 1;
        }
        assert(dirty_paths@.subrange(0, n as int) =~= dirty_paths@);
    }
}

/// Staging a file that is known makes it staged and leaves every other fact
/// about it, and every other entry, as it was.
pub proof fn staging_sets_one_flag(es: Seq<EntryView>, path: Seq<char>)
    requires
        knows(es, path),
    ensures
        ({
            let k = first_entry(es, path);
            let r = staged_at(es, path);
            &&& r.len() == es.len()
            &&& same_path(r[k].path, path)
            &&& r[k].flags.has(EntryFlags::STAGED)
            &&& forall|m: u32| #[trigger]
                r[k].flags.has(m) <==> es[k].flags.has(m & !EntryFlags::STAGED)
            &&& r[k] == with_bits(es[k], r[k].flags.bits)
            &&& forall|i: int| 0 <= i < es.len() && i != k ==> r[i] == es[i]
        }),
{
    lemma_first_entry(es, path);
    let b = es[first_entry(es, path)].flags.bits;
    assert((b | 2u32) & 2u32 == 2u32) by (bit_vector);
    assert forall|m: u32| #[trigger]
        staged_at(es, path)[first_entry(es, path)].flags.has(m) <==> es[first_entry(
            es,
            path,
        )].flags.has(m & !EntryFlags::STAGED) by {
        assert((b | 2u32) & m == m <==> b & (m & !2u32) == m & !2u32) by (bit_vector);
    }
}

/// Unstaging a file makes it not staged and leaves every other flag as it was.
pub proof fn unstaging_clears_one_flag(es: Seq<EntryView>, path: Seq<char>)
    requires
        knows(es, path),
    ensures
        ({
            let k = first_entry(es, path);
            let r = unstaged_at(es, path);
            &&& r.len() == es.len()
            &&& same_path(r[k].path, path)
            &&& !r[k].flags.has(EntryFlags::STAGED)
            &&& forall|m: u32|
                m & EntryFlags::STAGED == 0 ==> (#[trigger] r[k].flags.has(m) <==> es[k].flags.has(
                    m,
                ))
            &&& r[k] == with_bits(es[k], r[k].flags.bits)
            &&& forall|i: int| 0 <= i < es.len() && i != k ==> r[i] == es[i]
        }),
{
    lemma_first_entry(es, path);
    let b = es[first_entry(es, path)].flags.bits;
    assert((b & !2u32) & 2u32 != 2u32) by (bit_vector);
    assert forall|m: u32| m & EntryFlags::STAGED == 0 implies (#[trigger] unstaged_at(
        es,
        path,
    )[first_entry(es, path)].flags.has(m) <==> es[first_entry(es, path)].flags.has(m)) by {
        assert(m & 2u32 == 0 ==> ((b & !2u32) & m == m <==> b & m == m)) by (bit_vector);
    }
}

/// Staging a staged file changes nothing.
pub proof fn staging_is_idempotent(es: Seq<EntryView>, path: Seq<char>)
    requires
        knows(es, path),
    ensures
        knows(staged_at(es, path), path),
        staged_at(staged_at(es, path), path) == staged_at(es, path),
        es[first_entry(es, path)].flags.has(EntryFlags::STAGED) ==> staged_at(es, path) == es,
{
    let k = first_entry(es, path);
    lemma_first_entry(es, path);
    let b = es[k].flags.bits;
    assert((b | 2u32) | 2u32 == b | 2u32) by (bit_vector);
    assert(b & 2u32 == 2u32 ==> b | 2u32 == b) by (bit_vector);
    lemma_first_entry_update(es, k, b | EntryFlags::STAGED, path);
    assert(staged_at(staged_at(es, path), path) =~= staged_at(es, path));
    if es[k].flags.has(EntryFlags::STAGED) {
        assert(staged_at(es, path) =~= es);
    }
}

/// Unstaging a file that is not staged changes nothing.
pub proof fn unstaging_is_idempotent(es: Seq<EntryView>, path: Seq<char>)
    requires
        knows(es, path),
    ensures
        knows(unstaged_at(es, path), path),
        unstaged_at(unstaged_at(es, path), path) == unstaged_at(es, path),
        !es[first_entry(es, path)].flags.has(EntryFlags::STAGED) ==> unstaged_at(es, path) == es,
{
    let k = first_entry(es, path);
    lemma_first_entry(es, path);
    let b = es[k].flags.bits;
    assert((b & !2u32) & !2u32 == b & !2u32) by (bit_vector);
    assert(b & 2u32 != 2u32 ==> b & !2u32 == b) by (bit_vector);
    lemma_first_entry_update(es, k, b & !EntryFlags::STAGED, path);
    assert(unstaged_at(unstaged_at(es, path), path) =~= unstaged_at(es, path));
    if !es[k].flags.has(EntryFlags::STAGED) {
        assert(unstaged_at(es, path) =~= es);
    }
}

/// Unstaging undoes staging, for a file that was not staged.
pub proof fn unstaging_undoes_staging(es: Seq<EntryView>, path: Seq<char>)
    requires
        knows(es, path),
        !es[first_entry(es, path)].flags.has(EntryFlags::STAGED),
    ensures
        unstaged_at(staged_at(es, path), path) == es,
{
    let k = first_entry(es, path);
    lemma_first_entry(es, path);
    let b = es[k].flags.bits;
    assert(b & 2u32 != 2u32 ==> (b | 2u32) & !2u32 == b) by (bit_vector);
    lemma_first_entry_update(es, k, b | EntryFlags::STAGED, path);
    assert(unstaged_at(staged_at(es, path), path) =~= es);
}

/// After everything has been staged every entry is staged; after everything has
/// been unstaged none is. Neither changes another flag.
pub proof fn staging_everything(es: Seq<EntryView>, i: int)
    requires
        0 <= i < es.len(),
    ensures
        all_staged(es).len() == es.len(),
        none_staged(es).len() == es.len(),
        all_staged(es)[i].flags.has(EntryFlags::STAGED),
        !none_staged(es)[i].flags.has(EntryFlags::STAGED),
        all_staged(es)[i] == with_bits(es[i], es[i].flags.bits | EntryFlags::STAGED),
        none_staged(es)[i] == with_bits(es[i], es[i].flags.bits & !EntryFlags::STAGED),
        none_staged(all_staged(es)) == none_staged(es),
{
    let b = es[i].flags.bits;
    assert((b | 2u32) & 2u32 == 2u32) by (bit_vector);
    assert((b & !2u32) & 2u32 != 2u32) by (bit_vector);
    assert forall|j: int| 0 <= j < es.len() implies none_staged(all_staged(es))[j] == none_staged(
        es,
    )[j] by {
        let c = es[j].flags.bits;
        assert((c | 2u32) & !2u32 == c & !2u32) by (bit_vector);
    }
    assert(none_staged(all_staged(es)) =~= none_staged(es));
}

/// A tracked file with a change is still tracked and staged as before; it is
/// modified, deleted just if it is gone, and not untracked.
pub proof fn tracked_change_flags(bits: u32, present: bool)
    ensures
        ({
            let before = EntryFlags { bits };
            let now = EntryFlags { bits: tracked_change(bits, present) };
            &&& now.has(EntryFlags::TRACKED) == before.has(EntryFlags::TRACKED)
            &&& now.has(EntryFlags::STAGED) == before.has(EntryFlags::STAGED)
            &&& now.has(EntryFlags::MODIFIED)
            &&& now.has(EntryFlags::DELETED) == !present
            &&& !now.has(EntryFlags::UNTRACKED)
        }),
{
    assert(4u32 | 8u32 | 16u32 == 28u32) by (bit_vector);
    assert(8u32 | 4u32 == 12u32) by (bit_vector);
    assert(((bits & !28u32) | 4u32) & 1u32 == bits & 1u32 && ((bits & !28u32) | 4u32) & 2u32 == bits
        & 2u32 && ((bits & !28u32) | 4u32) & 4u32 == 4u32 && ((bits & !28u32) | 4u32) & 8u32 != 8u32
        && ((bits & !28u32) | 4u32) & 16u32 != 16u32) by (bit_vector);
    assert(((bits & !28u32) | 12u32) & 1u32 == bits & 1u32 && ((bits & !28u32) | 12u32) & 2u32
        == bits & 2u32 && ((bits & !28u32) | 12u32) & 4u32 == 4u32 && ((bits & !28u32) | 12u32)
        & 8u32 == 8u32 && ((bits & !28u32) | 12u32) & 16u32 != 16u32) by (bit_vector);
}

/// An untracked file with a change is untracked and modified, not deleted, and
/// tracked or staged just as before.
pub proof fn untracked_change_flags(bits: u32)
    ensures
        ({
            let before = EntryFlags { bits };
            let now = EntryFlags { bits: untracked_change(bits) };
            &&& now.has(EntryFlags::TRACKED) == before.has(EntryFlags::TRACKED)
            &&& now.has(EntryFlags::STAGED) == before.has(EntryFlags::STAGED)
            &&& now.has(EntryFlags::MODIFIED)
            &&& now.has(EntryFlags::UNTRACKED)
            &&& !now.has(EntryFlags::DELETED)
        }),
{
    assert(16u32 | 4u32 == 20u32) by (bit_vector);
    assert(((bits & !8u32) | 20u32) & 1u32 == bits & 1u32 && ((bits & !8u32) | 20u32) & 2u32 == bits
        & 2u32 && ((bits & !8u32) | 20u32) & 4u32 == 4u32 && ((bits & !8u32) | 20u32) & 16u32
        == 16u32 && ((bits & !8u32) | 20u32) & 8u32 != 8u32) by (bit_vector);
}

/// The file of an index with a valid header is read back as that index.
pub proof fn persisted_index_reads_back(h: Header, es: Seq<EntryView>)
    requires
        h.magic == crate::helix_index::format::MAGIC,
        h.version == crate::helix_index::format::VERSION,
        es.len() < 0x1_0000_0000,
        h.entry_count == es.len() % 0x1_0000_0000,
        forall|i: int|
            0 <= i < es.len() ==> path_fits(#[trigger] es[i]) && es[i].flags.bits
                & !EntryFlags::ALL == 0,
    ensures
        is_index_file(index_bytes(h, es)),
        forall|x: HelixIndexData|
            #[trigger] index_reads(x.data, index_bytes(h, es)) ==> x.data.header == h && x.es()
                == es,
{
    crate::helix_index::reader::index_round_trip(h, es);
}

} // verus!
