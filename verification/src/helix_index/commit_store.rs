//! Commits in the object store, and the history of a branch.
use vstd::prelude::*;
use vstd::string::*;
use vstd::utf8::*;

use crate::hash::{
    blake3_digest, decoded_hash, hash_eq, hash_to_hex, hex_text, hex_to_hash, HexError, ObjectId,
};
use crate::helix_index::commit::{
    commit_bytes, commit_round_trip, commit_storable, commit_views, id_views, parse_commit, Commit,
    CommitError, CommitView,
};
use crate::object_store::{put_object, ObjectStore, ObjectType, Objects};
use crate::path::name_spec;
use crate::reach::has_id;
use crate::refs::{head_commit, ref_dir, read_head, RefStore, Refs};
use crate::text::{after, concat, has_prefix, strip_prefix, trim, trim_spec};

verus! {

/// Why a commit cannot be read.
#[derive(Debug, Clone, Copy, PartialEq, Eq)]
pub enum ReadError {
    /// It is not in the store.
    Missing(ObjectId),
    /// Its bytes are damaged.
    Damaged(CommitError),
}

/// Why a commit cannot be read, with the hash as bytes.
pub enum ReadFault {
    Missing(Seq<u8>),
    Damaged(CommitError),
}

impl View for ReadError {
    type V = ReadFault;

    open spec fn view(&self) -> ReadFault {
        match *self {
            ReadError::Missing(h) => ReadFault::Missing(h@),
            ReadError::Damaged(e) => ReadFault::Damaged(e),
        }
    }
}

/// The commit with this hash.
pub open spec fn commit_at(m: Objects, id: Seq<u8>) -> Result<CommitView, ReadFault> {
    if m.contains_key((ObjectType::Commit, id)) {
        match parse_commit(m[(ObjectType::Commit, id)]) {
            Ok(c) => Ok(c),
            Err(e) => Err(ReadFault::Damaged(e)),
        }
    } else {
        Err(ReadFault::Missing(id))
    }
}

/// The commits from `id` back along first parents: at most `limit`, none that
/// is `stop` or older, none twice, and up to the first that cannot be read.
pub open spec fn history(
    m: Objects,
    id: Seq<u8>,
    limit: nat,
    stop: Option<Seq<u8>>,
    visited: Set<Seq<u8>>,
) -> Seq<CommitView>
    decreases limit,
{
    if limit == 0 || stop == Some(id) || visited.contains(id) {
        Seq::empty()
    } else {
        match commit_at(m, id) {
            Err(_) => Seq::empty(),
            Ok(c) => if c.parents.len() == 0 {
                seq![c]
            } else {
                seq![c] + history(
                    m,
                    c.parents[0],
                    (limit - 1) as nat,
                    stop,
                    visited.insert(id),
                )
            },
        }
    }
}

/// The path of the reference of a branch; sandboxes have their own directory.
pub open spec fn branch_ref(name: Seq<char>) -> Seq<char> {
    if has_prefix(name, "sandboxes/"@) {
        "refs/sandboxes/"@ + after(name, "sandboxes/"@.len() as int)
    } else {
        "refs/heads/"@ + name
    }
}

/// The path of the reference of a branch.
pub fn branch_ref_path(name: &str) -> (r: String)
    ensures
        r@ == branch_ref(name@),
{
    match strip_prefix(name, "sandboxes/") {
        Some(rest) => concat("refs/sandboxes/", rest.as_str()),
        None => concat("refs/heads/", name),
    }
}

/// Why the history of a branch cannot be read.
#[derive(Debug, Clone, PartialEq, Eq)]
pub enum BranchReadError {
    /// The reference is a directory.
    Unreadable,
    /// The reference does not hold a hash.
    InvalidHash(HexError),
}

/// Commits of a repository.
#[derive(Debug)]
pub struct CommitStore {
    pub store: ObjectStore,
}

/// What a store holds after several commits have been written to it.
pub open spec fn put_commits(m: Objects, cs: Seq<CommitView>) -> Objects
    decreases cs.len(),
{
    if cs.len() == 0 {
        m
    } else {
        put_object(put_commits(m, cs.drop_last()), ObjectType::Commit, commit_bytes(cs.last()))
    }
}

impl CommitStore {
    /// No two objects have one key.
    pub open spec fn wf(&self) -> bool {
        self.store.wf()
    }

    /// A store without commits.
    pub fn new() -> (s: CommitStore)
        ensures
            s.wf(),
            s.store@ == crate::object_store::no_objects(),
    {
        CommitStore { store: ObjectStore::new() }
    }

    /// Writes a commit and gives its hash.
    pub fn write_commit(&mut self, commit: &Commit) -> (h: ObjectId)
        requires
            old(self).wf(),
        ensures
            final(self).wf(),
            h == blake3_digest(commit_bytes(commit@)),
            final(self).store@ == put_object(
                old(self).store@,
                ObjectType::Commit,
                commit_bytes(commit@),
            ),
    {
        self.store.write_object(ObjectType::Commit, commit.to_bytes())
    }

    /// The commit with this hash.
    pub fn read_commit(&self, hash: &ObjectId) -> (r: Result<Commit, ReadError>)
        requires
            self.wf(),
        ensures
            match commit_at(self.store@, hash@) {
                Ok(v) => r matches Ok(c) && c@ == v,
                Err(f) => r matches Err(e) && e@ == f,
            },
    {
        read_commit(&self.store, hash)
    }

    /// Whether the commit is there.
    pub fn commit_exists(&self, hash: &ObjectId) -> (r: bool)
        requires
            self.wf(),
        ensures
            r == self.store@.contains_key((ObjectType::Commit, hash@)),
    {
        self.store.has_object(ObjectType::Commit, hash)
    }

    /// The hashes of all commits.
    pub fn list_commits(&self) -> (r: Vec<ObjectId>)
        requires
            self.wf(),
        ensures
            forall|i: int|
                0 <= i < r@.len() ==> self.store@.contains_key(
                    (ObjectType::Commit, (#[trigger] r@[i])@),
                ),
            forall|k: Seq<u8>|
                self.store@.contains_key((ObjectType::Commit, k)) ==> exists|i: int|
                    0 <= i < r@.len() && (#[trigger] r@[i])@ == k,
            forall|i: int, j: int|
                0 <= i < j < r@.len() ==> (#[trigger] r@[i])@ != (#[trigger] r@[j])@,
    {
        self.store.list_object_hashes(ObjectType::Commit)
    }

    /// Writes several commits and gives their hashes.
    pub fn write_commits_batch(&mut self, commits: &Vec<Commit>) -> (r: Vec<ObjectId>)
        requires
            old(self).wf(),
        ensures
            final(self).wf(),
            r@.len() == commits@.len(),
            forall|i: int|
                0 <= i < r@.len() ==> #[trigger] r@[i] == blake3_digest(
                    commit_bytes(commits@[i]@),
                ),
            final(self).store@ == put_commits(old(self).store@, commit_views(commits@)),
    {
        let mut r: Vec<ObjectId> = Vec::new();
        let mut i: usize = 0;
        let ghost cs = commit_views(commits@);
        while i < commits.len()
            invariant
                i <= commits.len(),
                self.wf(),
                cs == commit_views(commits@),
                r@.len() == i,
                forall|j: int|
                    0 <= j < i ==> #[trigger] r@[j] == blake3_digest(commit_bytes(commits@[j]@)),
                self.store@ == put_commits(old(self).store@, cs.subrange(0, i as int)),
            decreases commits.len() - i,
        {
            let h: ObjectId = self.write_commit(&commits[i]);
            r.push(h);
            proof {
                let t = cs.subrange(0, i + 1);
                assert(t.drop_last() =~= cs.subrange(0, i as int));
                assert(t.last() == commits@[i as int]@);
            }
            i += 1;
        }
        assert(cs.subrange(0, i as int) =~= cs);
        r
    }

    /// The commits with these hashes, or the error of the first that cannot be
    /// read.
    pub fn read_commits_batch(&self, hashes: &Vec<ObjectId>) -> (r: Result<Vec<Commit>, ReadError>)
        requires
            self.wf(),
        ensures
            match r {
                Ok(v) => v@.len() == hashes@.len() && forall|i: int|
                    0 <= i < v@.len() ==> commit_at(self.store@, hashes@[i]@) == Ok::<
                        CommitView,
                        ReadFault,
                    >((#[trigger] v@[i])@),
                Err(e) => exists|k: int|
                    {
                        &&& 0 <= k < hashes@.len()
                        &&& commit_at(self.store@, (#[trigger] hashes@[k])@) == Err::<
                            CommitView,
                            ReadFault,
                        >(e@)
                        &&& forall|i: int|
                            0 <= i < k ==> commit_at(self.store@, (#[trigger] hashes@[i])@) is Ok
                    },
            },
    {
        let mut v: Vec<Commit> = Vec::new();
        let mut i: usize = 0;
        while i < hashes.len()
            invariant
                i <= hashes.len(),
                self.wf(),
                v@.len() == i,
                forall|j: int|
                    0 <= j < i ==> commit_at(self.store@, hashes@[j]@) == Ok::<
                        CommitView,
                        ReadFault,
                    >((#[trigger] v@[j])@),
            decreases hashes.len() - i,
        {
            match self.read_commit(&hashes[i]) {
                Ok(c) => v.push(c),
                Err(e) => {
                    assert forall|j: int| 0 <= j < i implies commit_at(
                        self.store@,
                        (#[trigger] hashes@[j])@,
                    ) is Ok by {
                        assert(commit_at(self.store@, hashes@[j]@) == Ok::<CommitView, ReadFault>(
                            v@[j]@,
                        ));
                    }
                    return Err(e);
                },
            }
            i += 1;
        }
        Ok(v)
    }

    /// At most `limit` commits from the one that `HEAD` names on; none if it
    /// names none.
    pub fn load_commits(&self, refs: &RefStore, limit: usize) -> (r: Vec<Commit>)
        requires
            self.wf(),
            refs.wf(),
        ensures
            commit_views(r@) == match head_commit(refs@) {
                Ok(id) => history(self.store@, id, limit as nat, None, Set::empty()),
                Err(_) => Seq::empty(),
            },
    {
        match read_head(refs) {
            Ok(h) => load_history(&self.store, &h, limit, None),
            Err(_) => {
                let r: Vec<Commit> = Vec::new();
                assert(commit_views(r@) =~= Seq::empty());
                r
            },
        }
    }

    /// At most `limit` commits of a branch.
    pub fn load_commits_for_branch(&self, refs: &RefStore, branch_name: &str, limit: usize) -> (r:
        Result<Vec<Commit>, BranchReadError>)
        requires
            self.wf(),
            refs.wf(),
        ensures
            branch_history(self.store@, refs@, branch_name@, limit as nat, None, r),
    {
        self.load_commits_for_branch_until(refs, branch_name, limit, None)
    }

    /// At most `limit` commits of a branch, up to and without `stop_at`. A
    /// branch that does not exist has none.
    pub fn load_commits_for_branch_until(
        &self,
        refs: &RefStore,
        branch_name: &str,
        limit: usize,
        stop_at: Option<ObjectId>,
    ) -> (r: Result<Vec<Commit>, BranchReadError>)
        requires
            self.wf(),
            refs.wf(),
        ensures
            branch_history(
                self.store@,
                refs@,
                branch_name@,
                limit as nat,
                match stop_at {
                    Some(h) => Some(h@),
                    None => None,
                },
                r,
            ),
    {
        let path = branch_ref_path(branch_name);
        match refs.get_ref(path.as_str()) {
            None => {
                if refs.has_dir(path.as_str()) {
                    return Err(BranchReadError::Unreadable);
                }
                let r: Vec<Commit> = Vec::new();
                assert(commit_views(r@) =~= Seq::empty());
                Ok(r)
            },
            Some(text) => {
                let t = trim(text.as_str());
                match hex_to_hash(t.as_str()) {
                    Err(e) => Err(BranchReadError::InvalidHash(e)),
                    Ok(h) => Ok(load_history(&self.store, &h, limit, stop_at)),
                }
            },
        }
    }

    /// The remote that the repository follows: none is known.
    pub fn remote_tracking_info(&self) -> (r: Option<(String, usize, usize)>)
        ensures
            r is None,
    {
        None
    }
}

/// What reading the history of a branch gives.
pub open spec fn branch_history(
    m: Objects,
    refs: Refs,
    name: Seq<char>,
    limit: nat,
    stop: Option<Seq<u8>>,
    r: Result<Vec<Commit>, BranchReadError>,
) -> bool {
    let path = branch_ref(name);
    if refs.has(path) {
        match decoded_hash(encode_utf8(trim_spec(refs.at(path)))) {
            Err(e) => r == Err::<Vec<Commit>, BranchReadError>(BranchReadError::InvalidHash(e)),
            Ok(id) => r matches Ok(v) && commit_views(v@) == history(
                m,
                id,
                limit,
                stop,
                Set::empty(),
            ),
        }
    } else if ref_dir(refs, path) {
        r == Err::<Vec<Commit>, BranchReadError>(BranchReadError::Unreadable)
    } else {
        r matches Ok(v) && v@.len() == 0
    }
}

/// The commit with this hash.
pub fn read_commit(store: &ObjectStore, hash: &ObjectId) -> (r: Result<Commit, ReadError>)
    requires
        store.wf(),
    ensures
        match commit_at(store@, hash@) {
            Ok(v) => r matches Ok(c) && c@ == v,
            Err(f) => r matches Err(e) && e@ == f,
        },
{
    match store.read_object(ObjectType::Commit, hash) {
        None => Err(ReadError::Missing(*hash)),
        Some(d) => match Commit::from_bytes(d.as_slice()) {
            Ok(c) => Ok(c),
            Err(e) => Err(ReadError::Damaged(e)),
        },
    }
}

/// The hashes as a set.
spec fn id_set(seen: Seq<ObjectId>) -> Set<Seq<u8>> {
    id_views(seen).to_set()
}

/// At most `limit` commits from `start` back along first parents.
fn load_history(
    store: &ObjectStore,
    start: &ObjectId,
    limit: usize,
    stop_at: Option<ObjectId>,
) -> (r: Vec<Commit>)
    requires
        store.wf(),
    ensures
        commit_views(r@) == history(
            store@,
            start@,
            limit as nat,
            match stop_at {
                Some(h) => Some(h@),
                None => None,
            },
            Set::empty(),
        ),
{
    let ghost stop: Option<Seq<u8>> = match stop_at {
        Some(h) => Some(h@),
        None => None,
    };
    let ghost whole = history(store@, start@, limit as nat, stop, Set::empty());
    let mut commits: Vec<Commit> = Vec::new();
    let mut visited: Vec<ObjectId> = Vec::new();
    let mut current: ObjectId = *start;
    proof {
        assert(id_set(visited@) =~= Set::empty());
        assert(commit_views(commits@) =~= Seq::empty());
        assert(Seq::<CommitView>::empty() + whole =~= whole);
    }
    while commits.len() < limit
        invariant
            store.wf(),
            commits@.len() <= limit,
            stop == (match stop_at {
                Some(h) => Some(h@),
                None => None,
            }),
            whole == history(store@, start@, limit as nat, stop, Set::empty()),
            whole == commit_views(commits@) + history(
                store@,
                current@,
                (limit - commits@.len()) as nat,
                stop,
                id_set(visited@),
            ),
        decreases limit - commits.len(),
    {
        let ghost done = commit_views(commits@);
        let stopped: bool = match &stop_at {
            Some(h) => {
                proof {
                    if h@ == current@ {
                        assert(*h =~= current);
                    }
                }
                hash_eq(&current, h)
            },
            None => false,
        };
        if stopped || has_id(&visited, &current) {
            assert(stop == Some(current@) || id_set(visited@).contains(current@));
            assert(done + Seq::<CommitView>::empty() =~= done);
            return commits;
        }
        let commit: Commit = match read_commit(store, &current) {
            Ok(c) => c,
            Err(_) => {
                assert(done + Seq::<CommitView>::empty() =~= done);
                return commits;
            },
        };
        let ghost c = commit@;
        if commit.is_initial() {
            commits.push(commit);
            assert(commit_views(commits@) =~= done + seq![c]);
            return commits;
        }
        let next: ObjectId = commit.parents[0];
        let ghost before = visited@;
        visited.push(current);
        proof {
            assert(id_set(visited@) =~= id_set(before).insert(current@)) by {
                let ids = id_views(before);
                assert(id_views(visited@) =~= ids.push(current@));
                assert forall|k: Seq<u8>| id_set(visited@).contains(k) <==> id_set(before).insert(
                    current@,
                ).contains(k) by {
                    if ids.contains(k) {
                        let i = choose|i: int| 0 <= i < ids.len() && ids[i] == k;
                        assert(ids.push(current@)[i] == k);
                    }
                    assert(ids.push(current@)[ids.len() as int] == current@);
                }
            }
            assert(c.parents[0] == next@);
        }
        commits.push(commit);
        current = next;
        proof {
            let rest = history(
                store@,
                current@,
                (limit - commits@.len()) as nat,
                stop,
                id_set(visited@),
            );
            assert(commit_views(commits@) + rest =~= done + (seq![c] + rest));
        }
    }
    assert(commit_views(commits@) + Seq::<CommitView>::empty() =~= commit_views(commits@));
    commits
}

/// Makes a commit the one that `HEAD` names: through a branch, which is made to
/// hold it, or directly.
pub fn checkout_commit(refs: &mut RefStore, commit_hash: &ObjectId, branch_name: Option<&str>)
    requires
        old(refs).wf(),
    ensures
        final(refs).wf(),
        final(refs)@ == (match branch_name {
            Some(b) => Refs {
                head: Some("ref: "@ + ("refs/heads/"@ + b@)),
                ..old(refs)@.with("refs/heads/"@ + b@, hex_text(commit_hash@))
            },
            None => Refs { head: Some(hex_text(commit_hash@)), ..old(refs)@ },
        }),
{
    let hex = hash_to_hex(commit_hash);
    match branch_name {
        Some(b) => {
            let path = concat("refs/heads/", b);
            let head = concat("ref: ", path.as_str());
            refs.set_ref(path, hex);
            refs.set_head(head);
        },
        None => refs.set_head(hex),
    }
}

/// The name of a repository: the last component of its path.
pub fn get_repo_name(repo_path: &str) -> (r: String)
    ensures
        r@ == (if name_spec(repo_path@).len() > 0 {
            name_spec(repo_path@)
        } else {
            "repository"@
        }),
{
    let n = crate::path::name_of(repo_path);
    if n.as_str().is_empty() {
        "repository".to_owned()
    } else {
        n
    }
}

/// A commit that has been written is read back, where the store holds no other
/// under its hash.
pub proof fn stored_commit_round_trip(m: Objects, c: CommitView)
    requires
        commit_storable(c),
        ({
            let key = (ObjectType::Commit, blake3_digest(commit_bytes(c))@);
            m.contains_key(key) ==> m[key] == commit_bytes(c)
        }),
    ensures
        commit_at(
            put_object(m, ObjectType::Commit, commit_bytes(c)),
            blake3_digest(commit_bytes(c))@,
        ) == Ok::<CommitView, ReadFault>(
            (CommitView { commit_hash: blake3_digest(commit_bytes(c))@, ..c }),
        ),
{
    commit_round_trip(c);
}

/// A history has at most `limit` commits, and none at all from the commit at
/// which it is to stop.
pub proof fn history_bounded(
    m: Objects,
    id: Seq<u8>,
    limit: nat,
    stop: Option<Seq<u8>>,
    visited: Set<Seq<u8>>,
)
    ensures
        history(m, id, limit, stop, visited).len() <= limit,
        stop == Some(id) ==> history(m, id, limit, stop, visited).len() == 0,
    decreases limit,
{
    if limit > 0 && stop != Some(id) && !visited.contains(id) {
        if let Ok(c) = commit_at(m, id) {
            if c.parents.len() > 0 {
                history_bounded(m, c.parents[0], (limit - 1) as nat, stop, visited.insert(id));
            }
        }
    }
}

} // verus!
