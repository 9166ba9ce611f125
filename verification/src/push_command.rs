//! Sending the commits of a branch to a remote server.
use vstd::prelude::*;
use vstd::string::*;
use vstd::utf8::*;

use crate::commit_graph::{
    data_holds, data_ids, has_damaged, id_of, is_ancestor, walk_commits_between, walk_gives,
    CommitData,
};
use crate::handshake::{announcement, handshake_request};
use crate::hash::{decoded_hash, hash_to_hex, hex_text, hex_to_hash, HexError, ObjectId};
use crate::helix_index::commit::CommitError;
use crate::lacking::{
    commit_holds, is_lacking, is_reached, leave_out, left_out, lemma_ancestor_anyway,
    lemma_lacking_commit, lemma_left_out,
};
use crate::object_graph::{
    are_objects_of, are_stored, below_one, collect_objects_from_commits, is_below, is_fault_below,
    keys_of, roots_of, GatherError,
};
use crate::object_store::{object_key, ObjectStore, ObjectType, Objects, StoredObject};
use crate::refs::{ref_dir, RefStore, Refs};
use crate::rpc::{message_views, object_view, object_views, Message, ObjectView, RpcMessage};
use crate::text::{concat, decimal, decimal_of, text_of, texts, trim, trim_spec};
use crate::text_map::TextMap;

verus! {

/// How to push.
#[derive(Debug, Clone, Copy, PartialEq, Eq)]
pub struct PushOptions {
    pub verbose: bool,
    pub dry_run: bool,
    pub force: bool,
}

impl Default for PushOptions {
    fn default() -> (o: PushOptions)
        ensures
            !o.verbose && !o.dry_run && !o.force,
    {
        PushOptions { verbose: false, dry_run: false, force: false }
    }
}

/// What the configuration file of a repository says of remotes: their addresses
/// by their keys, if it has that section.
#[derive(Debug)]
pub struct RemotesConfig {
    pub remotes: Option<TextMap<String>>,
}

impl RemotesConfig {
    pub open spec fn wf(&self) -> bool {
        self.remotes matches Some(m) ==> m.wf()
    }
}

/// Why a remote cannot be resolved.
#[derive(Debug, Clone, PartialEq, Eq)]
pub enum RemoteError {
    /// There is no configuration file.
    MissingConfig,
    /// It has no section for remotes.
    MissingRemotes,
    /// The remote is not in that section.
    UnknownRemote(String),
}

/// Why a remote cannot be resolved, with texts as characters.
pub enum RemoteFault {
    MissingConfig,
    MissingRemotes,
    UnknownRemote(Seq<char>),
}

impl View for RemoteError {
    type V = RemoteFault;

    open spec fn view(&self) -> RemoteFault {
        match *self {
            RemoteError::MissingConfig => RemoteFault::MissingConfig,
            RemoteError::MissingRemotes => RemoteFault::MissingRemotes,
            RemoteError::UnknownRemote(s) => RemoteFault::UnknownRemote(s@),
        }
    }
}

/// A refusal in words.
pub open spec fn remote_fault_text(f: RemoteFault) -> Seq<char> {
    match f {
        RemoteFault::MissingConfig =>
            "Missing helix.toml in repo root. Run `helix init` to initialize a repo"@,
        RemoteFault::MissingRemotes => "Missing [remotes] section in helix.toml"@,
        RemoteFault::UnknownRemote(n) => "Remote '"@ + n + "' not found. Expected key '"@ + n
            + "_push' in [remotes] table."@,
    }
}

impl RemoteError {
    /// The refusal in words.
    pub fn message(&self) -> (r: String)
        ensures
            r@ == remote_fault_text(self@),
    {
        match self {
            RemoteError::MissingConfig =>
                "Missing helix.toml in repo root. Run `helix init` to initialize a repo".to_owned(),
            RemoteError::MissingRemotes => "Missing [remotes] section in helix.toml".to_owned(),
            RemoteError::UnknownRemote(n) => {
                let mut r: String = "Remote '".to_owned();
                r.append(n.as_str());
                r.append("' not found. Expected key '");
                r.append(n.as_str());
                r.append("_push' in [remotes] table.");
                r
            },
        }
    }
}

/// The address of a remote, and the reference of a branch.
pub open spec fn remote_and_ref(
    config: Option<RemotesConfig>,
    remote: Seq<char>,
    branch: Seq<char>,
) -> Result<(Seq<char>, Seq<char>), RemoteFault> {
    match config {
        None => Err(RemoteFault::MissingConfig),
        Some(c) => match c.remotes {
            None => Err(RemoteFault::MissingRemotes),
            Some(m) => if m@.contains_key(remote + "_push"@) {
                Ok((m@[remote + "_push"@]@, "refs/heads/"@ + branch))
            } else {
                Err(RemoteFault::UnknownRemote(remote))
            },
        },
    }
}

/// The address of a remote, which the configuration file holds under the name of
/// the remote and `_push`, and the reference of a branch.
pub fn resolve_remote_and_ref(config: &Option<RemotesConfig>, remote_name: &str, branch: &str) -> (r:
    Result<(String, String), RemoteError>)
    requires
        config matches Some(c) ==> c.wf(),
    ensures
        match remote_and_ref(*config, remote_name@, branch@) {
            Ok(p) => r matches Ok(q) && q.0@ == p.0 && q.1@ == p.1,
            Err(f) => r matches Err(e) && e@ == f,
        },
{
    match config {
        None => Err(RemoteError::MissingConfig),
        Some(c) => match &c.remotes {
            None => Err(RemoteError::MissingRemotes),
            Some(m) => {
                let key = concat(remote_name, "_push");
                match m.get(key.as_str()) {
                    Some(url) => Ok((url.clone(), concat("refs/heads/", branch))),
                    None => Err(RemoteError::UnknownRemote(remote_name.to_owned())),
                }
            },
        },
    }
}

/// Why a reference names no commit.
#[derive(Debug, Clone, PartialEq, Eq)]
pub enum RefError {
    /// There is no such reference.
    Missing(String),
    /// It is a directory.
    Unreadable(String),
    /// It holds no hash.
    Invalid(HexError),
}

/// Why a reference names no commit, with texts as characters.
pub enum RefFault {
    Missing(Seq<char>),
    Unreadable(Seq<char>),
    Invalid(HexError),
}

impl View for RefError {
    type V = RefFault;

    open spec fn view(&self) -> RefFault {
        match *self {
            RefError::Missing(s) => RefFault::Missing(s@),
            RefError::Unreadable(s) => RefFault::Unreadable(s@),
            RefError::Invalid(e) => RefFault::Invalid(e),
        }
    }
}

/// The commit that a reference names.
pub open spec fn ref_target(r: Refs, path: Seq<char>) -> Result<Seq<u8>, RefFault> {
    if r.has(path) {
        match decoded_hash(encode_utf8(trim_spec(r.at(path)))) {
            Ok(h) => Ok(h),
            Err(e) => Err(RefFault::Invalid(e)),
        }
    } else if ref_dir(r, path) {
        Err(RefFault::Unreadable(path))
    } else {
        Err(RefFault::Missing(path))
    }
}

/// The commit that a reference names.
pub fn read_local_ref(refs: &RefStore, ref_name: &str) -> (r: Result<ObjectId, RefError>)
    requires
        refs.wf(),
    ensures
        match ref_target(refs@, ref_name@) {
            Ok(h) => r matches Ok(id) && id@ == h,
            Err(f) => r matches Err(e) && e@ == f,
        },
{
    match refs.get_ref(ref_name) {
        Some(text) => {
            let t = trim(text.as_str());
            match hex_to_hash(t.as_str()) {
                Ok(h) => Ok(h),
                Err(e) => Err(RefError::Invalid(e)),
            }
        },
        None => {
            if refs.has_dir(ref_name) {
                Err(RefError::Unreadable(ref_name.to_owned()))
            } else {
                Err(RefError::Missing(ref_name.to_owned()))
            }
        },
    }
}

/// The reference that keeps what a remote had.
pub open spec fn tracking_ref(remote: Seq<char>, branch: Seq<char>) -> Seq<char> {
    "refs/remotes/"@ + remote + "/"@ + branch
}

/// The reference that keeps what a remote had.
fn tracking_path(remote: &str, branch: &str) -> (r: String)
    ensures
        r@ == tracking_ref(remote@, branch@),
{
    let mut r: String = "refs/remotes/".to_owned();
    r.append(remote);
    r.append("/");
    r.append(branch);
    r
}

/// The commit that a remote had for a branch when it was last seen.
pub fn read_remote_tracking(refs: &RefStore, remote: &str, branch: &str) -> (r: Result<
    ObjectId,
    RefError,
>)
    requires
        refs.wf(),
    ensures
        match ref_target(refs@, tracking_ref(remote@, branch@)) {
            Ok(h) => r matches Ok(id) && id@ == h,
            Err(f) => r matches Err(e) && e@ == f,
        },
{
    let path = tracking_path(remote, branch);
    read_local_ref(refs, path.as_str())
}

/// The references after a remote was seen to have this commit for a branch.
pub open spec fn with_tracking(
    r: Refs,
    remote: Seq<char>,
    branch: Seq<char>,
    target: Seq<u8>,
) -> Refs {
    r.with(tracking_ref(remote, branch), hex_text(target) + "\n"@)
}

/// Keeps the commit that a remote has for a branch.
pub fn write_remote_tracking(refs: &mut RefStore, remote: &str, branch: &str, target: &ObjectId)
    requires
        old(refs).wf(),
    ensures
        final(refs).wf(),
        final(refs)@ == with_tracking(old(refs)@, remote@, branch@, target@),
{
    let hex = hash_to_hex(target);
    let line = concat(hex.as_str(), "\n");
    refs.set_ref(tracking_path(remote, branch), line);
}

/// What is kept of a remote is read back.
pub proof fn tracking_round_trip(r: Refs, remote: Seq<char>, branch: Seq<char>, target: ObjectId)
    ensures
        ref_target(with_tracking(r, remote, branch, target@), tracking_ref(remote, branch)) == Ok::<
            Seq<u8>,
            RefFault,
        >(target@),
{
    crate::refs::lemma_hash_line_reads_back(target@);
}

/// Why the objects to push cannot be gathered.
#[derive(Debug, Clone, Copy, PartialEq, Eq)]
pub enum PushObjectsError {
    Commit(CommitError),
    Objects(GatherError),
}

/// Whether these are the objects to push from `from` to a server that has `stop`: those
/// that are reached from the one and not from the other, each once. A commit that is
/// not stored is passed over. The commits come first, nearest first, and then the trees
/// and blobs.
pub open spec fn are_pushed(
    m: Objects,
    from: Seq<u8>,
    stop: Option<Seq<u8>>,
    v: Seq<StoredObject>,
) -> bool {
    &&& are_stored(m, v)
    &&& keys_of(v).no_duplicates()
    &&& forall|k: (ObjectType, Seq<u8>)| #[trigger]
        keys_of(v).contains(k) <==> is_lacking(m, from, stop, k) && (k.0 == ObjectType::Commit
            ==> m.contains_key(k))
    &&& exists|cs: Seq<CommitData>, all: Seq<StoredObject>| #[trigger]
        are_objects_of(m, cs, all) && are_missing_commits(m, from, stop, cs) && keys_of(v)
            == left_out(m, stop, keys_of(all))
}

/// Whether these are the commits from `from` back to `stop`: the stored ones, nearest
/// first, each once.
pub open spec fn are_missing_commits(
    m: Objects,
    from: Seq<u8>,
    stop: Option<Seq<u8>>,
    cs: Seq<CommitData>,
) -> bool {
    &&& walk_gives(m, from, stop, Ok(data_ids(cs)))
    &&& data_ids(cs).no_duplicates()
    &&& data_holds(m, cs)
    &&& forall|h: Seq<u8>| #[trigger]
        data_ids(cs).contains(h) <==> is_ancestor(m, from, h, stop) && m.contains_key(
            (ObjectType::Commit, h),
        )
}

/// The objects of commits, each once, are the commits and what is below them.
proof fn lemma_object_keys(
    m: Objects,
    from: Seq<u8>,
    stop: Option<Seq<u8>>,
    cs: Seq<CommitData>,
    all: Seq<StoredObject>,
)
    requires
        are_missing_commits(m, from, stop, cs),
        are_objects_of(m, cs, all),
    ensures
        are_stored(m, all),
        keys_of(all).no_duplicates(),
        forall|k: (ObjectType, Seq<u8>)| #[trigger]
            keys_of(all).contains(k) <==> if k.0 == ObjectType::Commit {
                is_ancestor(m, from, k.1, stop) && m.contains_key(k)
            } else {
                is_below(m, roots_of(cs), k)
            },
{
    let n = cs.len() as int;
    let rest = all.subrange(n, all.len() as int);
    let ks = keys_of(all);
    assert forall|i: int| n <= i < all.len() implies #[trigger] all[i] == rest[i - n] by {}
    assert forall|i: int| n <= i < all.len() implies (#[trigger] ks[i]).0
        != ObjectType::Commit by {
        assert(keys_of(rest)[i - n] == ks[i]);
        assert(keys_of(rest).contains(ks[i]));
        assert(is_below(m, roots_of(cs), ks[i]));
    }
    assert forall|i: int| 0 <= i < n implies (#[trigger] ks[i]) == (
        ObjectType::Commit,
        data_ids(cs)[i],
    ) by {
        assert(all[i].hash == cs[i].hash);
    }
    assert forall|i: int| 0 <= i < all.len() implies m.contains_key(object_key(#[trigger] all[i]))
        && m[object_key(all[i])] == all[i].data@ by {
        if i < n {
            assert(all[i].hash == cs[i].hash);
        } else {
            assert(m.contains_key(object_key(rest[i - n])));
        }
    }
    assert forall|i: int, j: int| 0 <= i < ks.len() && 0 <= j < ks.len() && i != j implies ks[i]
        != ks[j] by {
        if i >= n && j >= n {
            assert(keys_of(rest)[i - n] == ks[i] && keys_of(rest)[j - n] == ks[j]);
        }
    }
    assert forall|k: (ObjectType, Seq<u8>)| #[trigger]
        ks.contains(k) <==> if k.0 == ObjectType::Commit {
            is_ancestor(m, from, k.1, stop) && m.contains_key(k)
        } else {
            is_below(m, roots_of(cs), k)
        } by {
        if ks.contains(k) {
            let i = choose|i: int| 0 <= i < ks.len() && ks[i] == k;
            if i < n {
                assert(data_ids(cs).contains(data_ids(cs)[i]));
            } else {
                assert(keys_of(rest)[i - n] == k);
                assert(keys_of(rest).contains(k));
            }
        }
        if k.0 == ObjectType::Commit && is_ancestor(m, from, k.1, stop) && m.contains_key(k) {
            assert(data_ids(cs).contains(k.1));
            let i = choose|i: int| 0 <= i < data_ids(cs).len() && data_ids(cs)[i] == k.1;
            assert(ks[i] == k);
        }
        if k.0 != ObjectType::Commit && is_below(m, roots_of(cs), k) {
            assert(keys_of(rest).contains(k));
            let i = choose|i: int| 0 <= i < keys_of(rest).len() && keys_of(rest)[i] == k;
            assert(ks[n + i] == k);
        }
    }
}

/// Of the objects of the commits on the way, those that the server does not have are
/// those that it lacks.
proof fn lemma_pushed(
    m: Objects,
    from: Seq<u8>,
    stop: Option<Seq<u8>>,
    cs: Seq<CommitData>,
    all: Seq<StoredObject>,
    v: Seq<StoredObject>,
)
    requires
        are_missing_commits(m, from, stop, cs),
        are_objects_of(m, cs, all),
        are_stored(m, v),
        keys_of(v) == left_out(m, stop, keys_of(all)),
    ensures
        are_pushed(m, from, stop, v),
{
    lemma_object_keys(m, from, stop, cs, all);
    lemma_left_out(m, stop, keys_of(all));
    assert forall|k: (ObjectType, Seq<u8>)| #[trigger]
        keys_of(v).contains(k) <==> is_lacking(m, from, stop, k) && (k.0 == ObjectType::Commit
            ==> m.contains_key(k)) by {
        if k.0 == ObjectType::Commit {
            if is_ancestor(m, from, k.1, stop) {
                lemma_ancestor_anyway(m, from, stop, k.1);
            }
            if is_lacking(m, from, stop, k) {
                lemma_lacking_commit(m, from, stop, k.1);
            }
        } else {
            let roots = roots_of(cs);
            if is_below(m, roots, k) {
                let i = choose|i: int| 0 <= i < roots.len() && below_one(m, #[trigger] roots[i], k);
                let c = cs[i].hash@;
                assert(data_ids(cs)[i] == c);
                assert(data_ids(cs).contains(c));
                lemma_ancestor_anyway(m, from, stop, c);
                assert(commit_holds(m, c, k));
                assert(is_reached(m, from, k));
            }
            if is_lacking(m, from, stop, k) {
                let c = choose|c: Seq<u8>| #[trigger]
                    is_ancestor(m, from, c, None) && commit_holds(m, c, k);
                if let Some(s) = stop {
                    if is_ancestor(m, s, c, None) {
                        assert(is_reached(m, s, k));
                    }
                }
                lemma_lacking_commit(m, from, stop, c);
                assert(data_ids(cs).contains(c));
                let i = choose|i: int| 0 <= i < data_ids(cs).len() && data_ids(cs)[i] == c;
                assert(cs[i].hash@ == c);
                assert(roots[i] == cs[i].tree_hash@);
                assert(below_one(m, roots[i], k));
            }
        }
    }
}

/// The objects to push from `new_target` to a server that has `server_head`: the
/// commits, trees and blobs that the server lacks, each once. It fails where a commit on
/// the way back to `server_head`, or a tree or blob of one, is missing or damaged, and
/// only then.
pub fn compute_objects_to_push(
    store: &ObjectStore,
    new_target: &ObjectId,
    server_head: Option<ObjectId>,
) -> (r: Result<Vec<StoredObject>, PushObjectsError>)
    requires
        store.wf(),
    ensures
        match r {
            Ok(v) => are_pushed(store@, new_target@, id_of(server_head), v@),
            Err(PushObjectsError::Commit(e)) => has_damaged(
                store@,
                new_target@,
                id_of(server_head),
                e,
            ),
            Err(PushObjectsError::Objects(e)) => exists|cs: Seq<CommitData>| #[trigger]
                are_missing_commits(store@, new_target@, id_of(server_head), cs) && is_fault_below(
                    store@,
                    roots_of(cs),
                    e,
                ),
        },
{
    let commits = match walk_commits_between(store, new_target, server_head) {
        Ok(v) => v,
        Err(e) => return Err(PushObjectsError::Commit(e)),
    };
    let ghost stop = id_of(server_head);
    assert(are_missing_commits(store@, new_target@, stop, commits@));
    match collect_objects_from_commits(store, &commits) {
        Ok(all) => {
            let ghost objects = all@;
            proof {
                lemma_object_keys(store@, new_target@, stop, commits@, objects);
            }
            let v = leave_out(store, all, server_head);
            proof {
                lemma_pushed(store@, new_target@, stop, commits@, objects, v@);
            }
            Ok(v)
        },
        Err(e) => Err(PushObjectsError::Objects(e)),
    }
}

/// A server that has the commit needs nothing.
pub proof fn pushing_what_is_there(m: Objects, h: Seq<u8>, v: Seq<StoredObject>)
    requires
        are_pushed(m, h, Some(h), v),
    ensures
        v.len() == 0,
{
    if v.len() > 0 {
        let k = keys_of(v)[0];
        assert(keys_of(v).contains(k));
        assert(is_lacking(m, h, Some(h), k));
    }
}

/// Nothing is sent that the server's commit reaches, and everything else that the new
/// commit reaches is sent.
pub proof fn only_what_is_lacking_is_sent(
    m: Objects,
    from: Seq<u8>,
    stop: Option<Seq<u8>>,
    v: Seq<StoredObject>,
    k: (ObjectType, Seq<u8>),
)
    requires
        are_pushed(m, from, stop, v),
        m.contains_key(k),
    ensures
        keys_of(v).contains(k) <==> is_reached(m, from, k) && !(stop matches Some(s)
            && is_reached(m, s, k)),
{
}

/// Why a push fails.
#[derive(Debug, Clone, PartialEq, Eq)]
pub enum PushError {
    NotARepository,
    Remote(RemoteError),
    /// The branch names no commit.
    LocalRef(RefError),
    Objects(PushObjectsError),
    /// The server answered with an error.
    Server(u32, String),
    /// The server answered with another message, or with a failure.
    Unexpected,
}

/// An error in words, where they do not come from the objects or show a whole message.
pub open spec fn push_error_text(e: PushError) -> Option<Seq<char>> {
    match e {
        PushError::NotARepository => Some("Not a Helix repo (no .helix directory)"@),
        PushError::Remote(f) => Some(remote_fault_text(f@)),
        PushError::LocalRef(_) => Some("Failed to read local branch head"@),
        PushError::Server(code, text) => Some(
            "Remote error "@ + decimal(code as nat) + ": "@ + text@,
        ),
        PushError::Objects(_) | PushError::Unexpected => None,
    }
}

impl PushError {
    /// The error in words, where they do not come from the objects or show a whole
    /// message.
    pub fn message(&self) -> (r: Option<String>)
        ensures
            text_of(r) == push_error_text(*self),
    {
        match self {
            PushError::NotARepository =>
                Some("Not a Helix repo (no .helix directory)".to_owned()),
            PushError::Remote(f) => Some(f.message()),
            PushError::LocalRef(_) => Some("Failed to read local branch head".to_owned()),
            PushError::Server(code, text) => {
                let mut r: String = concat("Remote error ", decimal_of(*code as u64).as_str());
                r.append(": ");
                r.append(text.as_str());
                Some(r)
            },
            PushError::Objects(_) | PushError::Unexpected => None,
        }
    }
}

/// What a push starts from.
#[derive(Debug)]
pub struct PushStart {
    pub remote_url: String,
    pub ref_name: String,
    pub new_target: ObjectId,
    pub old_target: Option<ObjectId>,
    pub lines: Vec<String>,
    /// What is sent to the server first.
    pub announcement: Vec<RpcMessage>,
}

/// The hash that is shown for a commit that may be unknown.
pub open spec fn shown_target(h: Option<ObjectId>) -> Seq<char> {
    match h {
        Some(h) => hex_text(h@),
        None => "<none>"@,
    }
}

/// The hash that is shown for a commit that may be unknown.
pub(crate) fn show_target(h: &Option<ObjectId>) -> (r: String)
    ensures
        r@ == shown_target(*h),
{
    match h {
        Some(h) => hash_to_hex(h),
        None => "<none>".to_owned(),
    }
}

/// What is said at the start of a push.
pub open spec fn start_lines(
    remote: Seq<char>,
    url: Seq<char>,
    ref_name: Seq<char>,
    old_target: Option<ObjectId>,
    new_target: Seq<u8>,
    verbose: bool,
) -> Seq<Seq<char>> {
    if verbose {
        seq![
            "Pushing "@ + ref_name + " to "@ + remote + " at "@ + url,
            "  old_target = "@ + shown_target(old_target),
            "  new_target = "@ + hex_text(new_target),
        ]
    } else {
        Seq::empty()
    }
}

/// Whether this is what a remote had, if that is known.
pub open spec fn is_last_known(
    r: Refs,
    remote: Seq<char>,
    branch: Seq<char>,
    h: Option<ObjectId>,
) -> bool {
    match ref_target(r, tracking_ref(remote, branch)) {
        Ok(x) => h matches Some(id) && id@ == x,
        Err(_) => h is None,
    }
}

/// The commit that a remote had, if that is known.
pub(crate) fn last_known(refs: &RefStore, remote: &str, branch: &str) -> (r: Option<ObjectId>)
    requires
        refs.wf(),
    ensures
        is_last_known(refs@, remote@, branch@, r),
{
    match read_remote_tracking(refs, remote, branch) {
        Ok(h) => Some(h),
        Err(_) => None,
    }
}

/// Starts a push: finds the server and the commits, and says what to announce.
/// `repo_name` is the name of the repository for the server.
pub fn start_push(
    has_helix_dir: bool,
    config: &Option<RemotesConfig>,
    refs: &RefStore,
    repo_name: &str,
    remote_name: &str,
    branch: &str,
    options: PushOptions,
) -> (r: Result<PushStart, PushError>)
    requires
        refs.wf(),
        config matches Some(c) ==> c.wf(),
    ensures
        !has_helix_dir ==> r == Err::<PushStart, PushError>(PushError::NotARepository),
        has_helix_dir ==> match remote_and_ref(*config, remote_name@, branch@) {
            Err(f) => r matches Err(PushError::Remote(e)) && e@ == f,
            Ok((url, ref_name)) => match ref_target(refs@, ref_name) {
                Err(f) => r matches Err(PushError::LocalRef(e)) && e@ == f,
                Ok(h) => {
                    &&& r matches Ok(s)
                    &&& s.remote_url@ == url
                    &&& s.ref_name@ == ref_name
                    &&& s.new_target@ == h
                    &&& is_last_known(refs@, remote_name@, branch@, s.old_target)
                    &&& texts(s.lines@) == start_lines(
                        remote_name@,
                        url,
                        ref_name,
                        s.old_target,
                        h,
                        options.verbose,
                    )
                    &&& message_views(s.announcement@) == announcement(
                        repo_name@,
                        ref_name,
                        s.new_target,
                        s.old_target,
                    )
                },
            },
        },
{
    if !has_helix_dir {
        return Err(PushError::NotARepository);
    }
    let (remote_url, ref_name) = match resolve_remote_and_ref(config, remote_name, branch) {
        Ok(p) => p,
        Err(e) => return Err(PushError::Remote(e)),
    };
    let new_target: ObjectId = match read_local_ref(refs, ref_name.as_str()) {
        Ok(h) => h,
        Err(e) => return Err(PushError::LocalRef(e)),
    };
    let old_target = last_known(refs, remote_name, branch);
    let mut lines: Vec<String> = Vec::new();
    if options.verbose {
        let mut line: String = "Pushing ".to_owned();
        line.append(ref_name.as_str());
        line.append(" to ");
        line.append(remote_name);
        line.append(" at ");
        line.append(remote_url.as_str());
        lines.push(line);
        lines.push(concat("  old_target = ", show_target(&old_target).as_str()));
        lines.push(concat("  new_target = ", hash_to_hex(&new_target).as_str()));
    }
    proof {
        assert(texts(lines@) =~= start_lines(
            remote_name@,
            remote_url@,
            ref_name@,
            old_target,
            new_target@,
            options.verbose,
        ));
    }
    let announced = handshake_request(repo_name, ref_name.as_str(), new_target, old_target);
    Ok(PushStart { remote_url, ref_name, new_target, old_target, lines, announcement: announced })
}

/// What comes after the server has answered.
#[derive(Debug)]
pub enum PushStep {
    /// Nothing is sent, and this is said.
    Stop(String),
    /// These lines are said, and these messages are sent.
    Send(Vec<String>, Vec<RpcMessage>),
}

/// The messages of a push: what was announced, each object, and the end.
pub open spec fn push_messages(
    repo: Seq<char>,
    ref_name: Seq<char>,
    new_target: ObjectId,
    old_target: Option<ObjectId>,
    objects: Seq<ObjectView>,
) -> Seq<Message> {
    announcement(repo, ref_name, new_target, old_target) + Seq::new(
        objects.len(),
        |i: int| Message::PushObject(objects[i]),
    ) + seq![Message::PushDone]
}

/// The messages of a push: what was announced, each object, and the end.
pub fn push_request(
    repo_name: &str,
    ref_name: &str,
    new_target: ObjectId,
    old_target: Option<ObjectId>,
    objects: Vec<StoredObject>,
) -> (r: Vec<RpcMessage>)
    ensures
        message_views(r@) == push_messages(
            repo_name@,
            ref_name@,
            new_target,
            old_target,
            object_views(objects@),
        ),
{
    let mut r = handshake_request(repo_name, ref_name, new_target, old_target);
    let ghost head = message_views(r@);
    let ghost all = objects@;
    for o in it: objects
        invariant
            it.seq() == all,
            message_views(r@) =~= head + Seq::new(
                it.index() as nat,
                |i: int| Message::PushObject(object_view(all[i])),
            ),
    {
        let ghost before = message_views(r@);
        r.push(RpcMessage::PushObject(o));
        assert(message_views(r@) =~= before.push(Message::PushObject(object_view(o))));
    }
    let ghost before = message_views(r@);
    r.push(RpcMessage::PushDone);
    proof {
        assert(message_views(r@) =~= before.push(Message::PushDone));
        assert(message_views(r@) =~= push_messages(
            repo_name@,
            ref_name@,
            new_target,
            old_target,
            object_views(all),
        ));
    }
    r
}

/// What to do once the server has said which commit it has: nothing on a dry run
/// or where it has everything, else send what it misses.
pub fn prepare_push(
    store: &ObjectStore,
    start: &PushStart,
    server_head: Option<ObjectId>,
    repo_name: &str,
    remote_name: &str,
    branch: &str,
    options: PushOptions,
) -> (r: Result<PushStep, PushObjectsError>)
    requires
        store.wf(),
    ensures
        options.dry_run ==> (r matches Ok(PushStep::Stop(s)) && s@
            == "(dry run) Would push from "@ + remote_name@ + " to "@ + branch@),
        !options.dry_run ==> match r {
            Ok(PushStep::Stop(s)) => s@ == "Everything up to date."@ && are_pushed(
                store@,
                start.new_target@,
                id_of(server_head),
                Seq::empty(),
            ),
            Ok(PushStep::Send(lines, ms)) => exists|v: Seq<StoredObject>|
                {
                    &&& #[trigger] are_pushed(store@, start.new_target@, id_of(server_head), v)
                    &&& v.len() > 0
                    &&& texts(lines@) == (if options.verbose {
                        seq!["Sending "@ + decimal(v.len()) + " objects..."@]
                    } else {
                        Seq::empty()
                    })
                    &&& message_views(ms@) == push_messages(
                        repo_name@,
                        start.ref_name@,
                        start.new_target,
                        start.old_target,
                        object_views(v),
                    )
                },
            Err(PushObjectsError::Commit(e)) => has_damaged(
                store@,
                start.new_target@,
                id_of(server_head),
                e,
            ),
            Err(PushObjectsError::Objects(e)) => exists|cs: Seq<CommitData>| #[trigger]
                are_missing_commits(store@, start.new_target@, id_of(server_head), cs)
                    && is_fault_below(store@, roots_of(cs), e),
        },
{
    if options.dry_run {
        let mut line: String = "(dry run) Would push from ".to_owned();
        line.append(remote_name);
        line.append(" to ");
        line.append(branch);
        return Ok(PushStep::Stop(line));
    }
    let objects = match compute_objects_to_push(store, &start.new_target, server_head) {
        Ok(v) => v,
        Err(e) => return Err(e),
    };
    if objects.len() == 0 {
        assert(objects@ =~= Seq::empty());
        return Ok(PushStep::Stop("Everything up to date.".to_owned()));
    }
    let ghost v = objects@;
    let mut lines: Vec<String> = Vec::new();
    if options.verbose {
        let mut line: String = "Sending ".to_owned();
        line.append(decimal_of(objects.len() as u64).as_str());
        line.append(" objects...");
        lines.push(line);
    }
    proof {
        assert(texts(lines@) =~= (if options.verbose {
            seq!["Sending "@ + decimal(v.len()) + " objects..."@]
        } else {
            Seq::empty()
        }));
    }
    let ms = push_request(
        repo_name,
        start.ref_name.as_str(),
        start.new_target,
        start.old_target,
        objects,
    );
    assert(are_pushed(store@, start.new_target@, id_of(server_head), v));
    Ok(PushStep::Send(lines, ms))
}

/// Ends a push: where the server has received the objects, its commit is kept, and
/// else nothing changes. `succeeded` tells whether the request itself did.
pub fn finish_push(
    refs: &mut RefStore,
    start: &PushStart,
    reply: RpcMessage,
    succeeded: bool,
    remote_name: &str,
    branch: &str,
) -> (r: Result<String, PushError>)
    requires
        old(refs).wf(),
    ensures
        final(refs).wf(),
        match reply@ {
            Message::PushAck(n) => if succeeded {
                &&& final(refs)@ == with_tracking(
                    old(refs)@,
                    remote_name@,
                    branch@,
                    start.new_target@,
                )
                &&& r matches Ok(s)
                &&& s@ == "Pushed "@ + decimal(n as nat) + " objects to "@ + remote_name@ + "/"@
                    + branch@
            } else {
                r matches Err(PushError::Unexpected) && final(refs)@ == old(refs)@
            },
            Message::Error(code, text) => r matches Err(PushError::Server(c, t)) && c == code && t@
                == text && final(refs)@ == old(refs)@,
            _ => r matches Err(PushError::Unexpected) && final(refs)@ == old(refs)@,
        },
{
    match reply {
        RpcMessage::PushAck(n) => {
            if !succeeded {
                return Err(PushError::Unexpected);
            }
            write_remote_tracking(refs, remote_name, branch, &start.new_target);
            let mut line: String = "Pushed ".to_owned();
            line.append(decimal_of(n).as_str());
            line.append(" objects to ");
            line.append(remote_name);
            line.append("/");
            line.append(branch);
            Ok(line)
        },
        RpcMessage::Error(code, text) => Err(PushError::Server(code, text)),
        _ => Err(PushError::Unexpected),
    }
}

} // verus!
