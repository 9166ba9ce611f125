//! Loading the index of a repository, or building it anew from a Git repository.
use vstd::prelude::*;
use vstd::string::*;

use crate::helix_index::api::{load_plan, HelixIndexData, LoadPlan, VerifyResult};
use crate::helix_index::reader::{
    file_bytes, can_grow, index_reads, index_refused, is_index_file, IndexError, Reader, INDEX_FILE,
};
use crate::helix_index::sync::{
    is_import, GitRepository, ImportError, Imported, RepoState, SyncEngine,
};
use crate::ignore::{set_globs, IgnoreRules};
use crate::object_store::ObjectStore;
use crate::path::join_spec;
use crate::refs::RefStore;
use crate::text::text_of;

verus! {

/// Why there is no index.
#[derive(Debug)]
pub enum LoadError {
    /// The index file cannot be read.
    Index(IndexError),
    /// The Git repository cannot be taken over.
    Import(ImportError),
}

/// An index that was built anew.
#[derive(Debug)]
pub struct Rebuilt {
    pub index: HelixIndexData,
    pub imported: Imported,
}

/// An index that was loaded or built anew.
#[derive(Debug)]
pub struct Loaded {
    pub index: HelixIndexData,
    /// What is to be said.
    pub line: Option<String>,
    /// What was taken over, if the index was built anew.
    pub imported: Option<Imported>,
}

/// Whether reading the index file gives this.
pub open spec fn is_read(
    repo_path: Seq<char>,
    file: Option<Seq<u8>>,
    r: Result<HelixIndexData, IndexError>,
) -> bool {
    match file {
        None => r matches Err(IndexError::Missing(p)) && p@ == join_spec(repo_path, INDEX_FILE@),
        Some(b) => match r {
            Ok(x) => is_index_file(b) && index_reads(x.data, b) && x.repo_path@ == repo_path,
            Err(e) => !is_index_file(b) && index_refused(b, e),
        },
    }
}

/// What building the index anew does and gives: a Git repository is taken over, and the
/// index file that is there then is read.
pub open spec fn is_rebuild(
    repo_path: Seq<char>,
    a: RepoState,
    b: RepoState,
    git: GitRepository,
    globs: Seq<Seq<char>>,
    now: u64,
    r: Result<Rebuilt, LoadError>,
) -> bool {
    exists|x: Result<Imported, ImportError>|
        {
            &&& #[trigger] is_import(a, b, git, globs, now, x)
            &&& match x {
                Err(e) => r == Err::<Rebuilt, LoadError>(LoadError::Import(e)),
                Ok(i) => match r {
                    Ok(n) => n.imported == i && is_read(repo_path, b.file, Ok(n.index)),
                    Err(LoadError::Index(e)) => is_read(repo_path, b.file, Err(e)),
                    Err(LoadError::Import(_)) => false,
                },
            }
        }
}

/// What is said where the index is built anew.
pub open spec fn rebuild_line(found: VerifyResult) -> Seq<char> {
    match found {
        VerifyResult::Valid => Seq::empty(),
        VerifyResult::Missing => "Building helix.idx for the first time..."@,
        VerifyResult::WrongRepo => "helix.idx is from a different repo, rebuilding..."@,
        VerifyResult::Corrupted => "helix.idx is corrupted, rebuilding..."@,
    }
}

/// What loading the index does and gives: a valid file is read and nothing changes, and
/// in any other case the index is built anew.
pub open spec fn is_load(
    repo_path: Seq<char>,
    found: VerifyResult,
    a: RepoState,
    b: RepoState,
    git: GitRepository,
    globs: Seq<Seq<char>>,
    now: u64,
    r: Result<Loaded, LoadError>,
) -> bool {
    if found == VerifyResult::Valid {
        &&& b == a
        &&& match r {
            Ok(l) => {
                &&& is_read(repo_path, a.file, Ok(l.index))
                &&& l.line is None
                &&& l.imported is None
            },
            Err(LoadError::Index(e)) => is_read(repo_path, a.file, Err(e)),
            Err(LoadError::Import(_)) => false,
        }
    } else {
        exists|n: Result<Rebuilt, LoadError>|
            {
                &&& #[trigger] is_rebuild(repo_path, a, b, git, globs, now, n)
                &&& match n {
                    Ok(x) => {
                        &&& r matches Ok(l)
                        &&& l.index == x.index
                        &&& l.imported == Some(x.imported)
                        &&& l.line matches Some(t)
                        &&& t@ == rebuild_line(found)
                    },
                    Err(e) => r == Err::<Loaded, LoadError>(e),
                }
            }
    }
}

fn read_index(repo_path: &str, file: &Option<Vec<u8>>) -> (r: Result<HelixIndexData, IndexError>)
    ensures
        is_read(repo_path@, file_bytes(*file), r),
{
    let there = match file {
        Some(b) => Some(b),
        None => None,
    };
    match Reader::new(repo_path).read(there) {
        Ok(data) => Ok(HelixIndexData { repo_path: repo_path.to_owned(), data }),
        Err(e) => Err(e),
    }
}

impl HelixIndexData {
    /// Builds the index anew by taking over a Git repository. `file` is the index file,
    /// if there is one.
    pub fn rebuild_helix_index(
        repo_path: &str,
        store: &mut ObjectStore,
        refs: &mut RefStore,
        config: &mut Option<String>,
        file: &mut Option<Vec<u8>>,
        git: GitRepository,
        rules: &IgnoreRules,
        now: u64,
    ) -> (r: Result<Rebuilt, LoadError>)
        requires
            old(store).wf(),
            old(refs).wf(),
            git.head_tree.wf(),
            can_grow(file_bytes(*old(file))),
        ensures
            final(store).wf(),
            final(refs).wf(),
            is_rebuild(
                repo_path@,
                (RepoState {
                    store: old(store)@,
                    refs: old(refs)@,
                    config: text_of(*old(config)),
                    file: file_bytes(*old(file)),
                }),
                (RepoState {
                    store: final(store)@,
                    refs: final(refs)@,
                    config: text_of(*final(config)),
                    file: file_bytes(*final(file)),
                }),
                git,
                set_globs(rules.globset),
                now,
                r,
            ),
    {
        let engine = SyncEngine::new(repo_path);
        match engine.import_from_git(store, refs, config, file, git, rules, now) {
            Ok(imported) => match read_index(repo_path, file) {
                Ok(index) => Ok(Rebuilt { index, imported }),
                Err(e) => Err(LoadError::Index(e)),
            },
            Err(e) => Err(LoadError::Import(e)),
        }
    }

    /// Reads the index where the file is valid, and else builds it anew. `found` is what
    /// is known of the file.
    pub fn load_or_rebuild(
        repo_path: &str,
        found: VerifyResult,
        store: &mut ObjectStore,
        refs: &mut RefStore,
        config: &mut Option<String>,
        file: &mut Option<Vec<u8>>,
        git: GitRepository,
        rules: &IgnoreRules,
        now: u64,
    ) -> (r: Result<Loaded, LoadError>)
        requires
            old(store).wf(),
            old(refs).wf(),
            git.head_tree.wf(),
            can_grow(file_bytes(*old(file))),
        ensures
            final(store).wf(),
            final(refs).wf(),
            is_load(
                repo_path@,
                found,
                (RepoState {
                    store: old(store)@,
                    refs: old(refs)@,
                    config: text_of(*old(config)),
                    file: file_bytes(*old(file)),
                }),
                (RepoState {
                    store: final(store)@,
                    refs: final(refs)@,
                    config: text_of(*final(config)),
                    file: file_bytes(*final(file)),
                }),
                git,
                set_globs(rules.globset),
                now,
                r,
            ),
    {
        match load_plan(found) {
            LoadPlan::Read => match read_index(repo_path, file) {
                Ok(index) => Ok(Loaded { index, line: None, imported: None }),
                Err(e) => Err(LoadError::Index(e)),
            },
            LoadPlan::Rebuild(line) => match HelixIndexData::rebuild_helix_index(
                repo_path,
                store,
                refs,
                config,
                file,
                git,
                rules,
                now,
            ) {
                Ok(x) => Ok(
                    Loaded { index: x.index, line: Some(line), imported: Some(x.imported) },
                ),
                Err(e) => Err(e),
            },
        }
    }
}

} // verus!
