//! Checking out a tree: what is to be written where.
use vstd::prelude::*;
use vstd::string::*;
use vstd::utf8::*;

use crate::hash::{hex_text, ObjectId};
use crate::helix_index::commit::short_hash;
use crate::helix_index::tree::{EntryType, Tree, TreeEntryView};
use crate::helix_index::tree::FileView;
use crate::helix_index::tree_walk::{
    depth_of, entry_files_to, files_to, grounded, tree_at, tree_files, within, WalkError, WalkFault,
};
use crate::object_store::{ObjectStore, ObjectType, Objects};
use crate::path::{join, join_spec};
use crate::text::{has_text, str_eq, texts};

verus! {

/// How to check out.
#[derive(Debug, Clone, Copy, PartialEq, Eq)]
pub struct CheckoutOptions {
    pub verbose: bool,
    /// Overwrite what is there.
    pub force: bool,
}

impl Default for CheckoutOptions {
    fn default() -> (o: CheckoutOptions)
        ensures
            !o.verbose && !o.force,
    {
        CheckoutOptions { verbose: false, force: false }
    }
}

/// One step of a checkout, by the path below the destination.
#[derive(Debug)]
pub enum CheckoutAction {
    /// Make a directory and those above it.
    MakeDir(String),
    /// Write a file, and those directories above it that are missing.
    WriteFile { path: String, oid: ObjectId, content: Vec<u8>, executable: bool },
    /// Make a symbolic link, after removing what is there.
    MakeLink { path: String, target: String, replace: bool },
    /// Leave a file that is there.
    SkipFile(String),
    /// Leave what is there in place of a link.
    SkipLink(String),
}

/// One step of a checkout, with texts as characters.
pub enum ActionView {
    MakeDir(Seq<char>),
    WriteFile { path: Seq<char>, oid: ObjectId, content: Seq<u8>, executable: bool },
    MakeLink { path: Seq<char>, target: Seq<char>, replace: bool },
    SkipFile(Seq<char>),
    SkipLink(Seq<char>),
}

impl View for CheckoutAction {
    type V = ActionView;

    open spec fn view(&self) -> ActionView {
        match *self {
            CheckoutAction::MakeDir(p) => ActionView::MakeDir(p@),
            CheckoutAction::WriteFile { path, oid, content, executable } => ActionView::WriteFile {
                path: path@,
                oid,
                content: content@,
                executable,
            },
            CheckoutAction::MakeLink { path, target, replace } => ActionView::MakeLink {
                path: path@,
                target: target@,
                replace,
            },
            CheckoutAction::SkipFile(p) => ActionView::SkipFile(p@),
            CheckoutAction::SkipLink(p) => ActionView::SkipLink(p@),
        }
    }
}

pub open spec fn action_views(v: Seq<CheckoutAction>) -> Seq<ActionView> {
    Seq::new(v.len(), |i: int| v[i]@)
}

/// Why a checkout stops.
#[derive(Debug, Clone, PartialEq, Eq)]
pub enum CheckoutError {
    /// The commit is not in the store.
    NoCommit(ObjectId),
    /// The commit is shorter than the hash of its tree.
    CommitTooShort,
    Tree(WalkError),
    /// The contents of a file are not in the store.
    NoBlob(ObjectId),
    /// The target of a link is not UTF-8.
    InvalidTarget,
}

/// Why a checkout stops, with hashes as bytes.
pub enum CheckoutFault {
    NoCommit(Seq<u8>),
    CommitTooShort,
    Tree(WalkFault),
    NoBlob(Seq<u8>),
    InvalidTarget,
}

impl View for CheckoutError {
    type V = CheckoutFault;

    open spec fn view(&self) -> CheckoutFault {
        match *self {
            CheckoutError::NoCommit(h) => CheckoutFault::NoCommit(h@),
            CheckoutError::CommitTooShort => CheckoutFault::CommitTooShort,
            CheckoutError::Tree(e) => CheckoutFault::Tree(e@),
            CheckoutError::NoBlob(h) => CheckoutFault::NoBlob(h@),
            CheckoutError::InvalidTarget => CheckoutFault::InvalidTarget,
        }
    }
}

/// A checkout in progress.
#[derive(Debug)]
pub struct Checkout {
    /// The paths below the destination at which there is a file or directory.
    pub present: Vec<String>,
    /// The paths below the destination at which there is a link that leads
    /// nowhere, or that has been made.
    pub links: Vec<String>,
    /// The steps so far.
    pub actions: Vec<CheckoutAction>,
}

/// A checkout in progress, with texts as characters.
pub struct Progress {
    pub present: Seq<Seq<char>>,
    pub links: Seq<Seq<char>>,
    pub actions: Seq<ActionView>,
}

impl View for Checkout {
    type V = Progress;

    open spec fn view(&self) -> Progress {
        Progress {
            present: texts(self.present@),
            links: texts(self.links@),
            actions: action_views(self.actions@),
        }
    }
}

/// The checkout after a step that leaves everything as it is.
pub open spec fn did(s: Progress, a: ActionView) -> Progress {
    Progress { actions: s.actions.push(a), ..s }
}

/// The checkout after a step that makes a file or directory.
pub open spec fn made(s: Progress, a: ActionView, path: Seq<char>) -> Progress {
    Progress { actions: s.actions.push(a), present: s.present.push(path), ..s }
}

/// The checkout after a step that makes a link.
pub open spec fn linked(s: Progress, a: ActionView, path: Seq<char>) -> Progress {
    Progress { actions: s.actions.push(a), links: s.links.push(path), ..s }
}

/// How far a checkout came, and why it stopped, if it did.
pub struct Stage {
    pub progress: Progress,
    pub fault: Option<CheckoutFault>,
}

/// A stage without a fault.
pub open spec fn going(s: Progress) -> Stage {
    Stage { progress: s, fault: None }
}

/// The checkout after a file.
pub open spec fn file_step(
    m: Objects,
    id: Seq<u8>,
    path: Seq<char>,
    executable: bool,
    force: bool,
    s: Progress,
) -> Stage {
    if !m.contains_key((ObjectType::Blob, id)) {
        Stage { progress: s, fault: Some(CheckoutFault::NoBlob(id)) }
    } else if s.present.contains(path) && !force {
        going(did(s, ActionView::SkipFile(path)))
    } else {
        going(
            made(
                s,
                ActionView::WriteFile {
                    path,
                    oid: choose|h: ObjectId| h@ == id,
                    content: m[(ObjectType::Blob, id)],
                    executable,
                },
                path,
            ),
        )
    }
}

/// The checkout after a symbolic link.
pub open spec fn link_step(
    m: Objects,
    id: Seq<u8>,
    path: Seq<char>,
    force: bool,
    s: Progress,
) -> Stage {
    let bytes = m[(ObjectType::Blob, id)];
    let taken = s.present.contains(path) || s.links.contains(path);
    if !m.contains_key((ObjectType::Blob, id)) {
        Stage { progress: s, fault: Some(CheckoutFault::NoBlob(id)) }
    } else if !valid_utf8(bytes) {
        Stage { progress: s, fault: Some(CheckoutFault::InvalidTarget) }
    } else if taken && !force {
        going(did(s, ActionView::SkipLink(path)))
    } else {
        going(
            linked(
                s,
                ActionView::MakeLink { path, target: decode_utf8(bytes), replace: taken },
                path,
            ),
        )
    }
}

/// The checkout after a stored tree and all trees below it, at most `d` deep.
pub open spec fn tree_step(
    m: Objects,
    id: Seq<u8>,
    prefix: Seq<char>,
    force: bool,
    s: Progress,
    d: nat,
) -> Stage
    decreases d, 1nat, 0nat,
{
    match tree_at(m, id) {
        Err(f) => Stage { progress: s, fault: Some(CheckoutFault::Tree(f)) },
        Ok(es) => if d == 0 {
            going(s)
        } else {
            entries_step(m, es, prefix, force, s, d)
        },
    }
}

/// The checkout after the entries of a tree, at most `d` deep. It stops at the
/// first that fails.
pub open spec fn entries_step(
    m: Objects,
    es: Seq<TreeEntryView>,
    prefix: Seq<char>,
    force: bool,
    s: Progress,
    d: nat,
) -> Stage
    decreases d, 0nat, es.len(),
    when d > 0
{
    if es.len() == 0 {
        going(s)
    } else {
        let before = entries_step(m, es.drop_last(), prefix, force, s, d);
        let e = es.last();
        let path = join_spec(prefix, e.name);
        if before.fault is Some {
            before
        } else {
            match e.entry_type {
                EntryType::Tree => tree_step(
                    m,
                    e.oid,
                    path,
                    force,
                    made(before.progress, ActionView::MakeDir(path), path),
                    (d - 1) as nat,
                ),
                EntryType::File => file_step(m, e.oid, path, false, force, before.progress),
                EntryType::FileExecutable => file_step(
                    m,
                    e.oid,
                    path,
                    true,
                    force,
                    before.progress,
                ),
                EntryType::Symlink => link_step(m, e.oid, path, force, before.progress),
            }
        }
    }
}

/// Whether a result is this stage.
pub open spec fn reached(r: Result<(), CheckoutError>, c: Checkout, st: Stage) -> bool {
    &&& c@ == st.progress
    &&& match st.fault {
        Some(f) => r matches Err(e) && e@ == f,
        None => r is Ok,
    }
}

proof fn lemma_texts_push(v: Seq<String>, s: String)
    ensures
        texts(v.push(s)) == texts(v).push(s@),
{
    assert(texts(v.push(s)) =~= texts(v).push(s@));
}

proof fn lemma_actions_push(v: Seq<CheckoutAction>, a: CheckoutAction)
    ensures
        action_views(v.push(a)) == action_views(v).push(a@),
{
    assert(action_views(v.push(a)) =~= action_views(v).push(a@));
}

fn copy_of(b: &Vec<u8>) -> (r: Vec<u8>)
    ensures
        r@ == b@,
{
    let mut r: Vec<u8> = Vec::new();
    crate::codec::push_bytes(&mut r, b.as_slice());
    r
}

impl Checkout {
    /// A checkout that has not begun, into a destination with these files,
    /// directories and loose links.
    pub fn new(present: Vec<String>, links: Vec<String>) -> (c: Checkout)
        ensures
            c@.present == texts(present@),
            c@.links == texts(links@),
            c@.actions == Seq::<ActionView>::empty(),
    {
        let c = Checkout { present, links, actions: Vec::new() };
        assert(c@.actions =~= Seq::<ActionView>::empty());
        c
    }

    fn file(
        &mut self,
        store: &ObjectStore,
        oid: &ObjectId,
        path: String,
        executable: bool,
        force: bool,
    ) -> (r: Result<(), CheckoutError>)
        requires
            store.wf(),
        ensures
            reached(r, *final(self), file_step(store@, oid@, path@, executable, force, old(self)@)),
    {
        let data = match store.read_object(ObjectType::Blob, oid) {
            Some(d) => d,
            None => return Err(CheckoutError::NoBlob(*oid)),
        };
        if has_text(&self.present, path.as_str()) && !force {
            let a = CheckoutAction::SkipFile(path);
            proof {
                lemma_actions_push(self.actions@, a);
            }
            self.actions.push(a);
            return Ok(());
        }
        let copy = path.clone();
        let a = CheckoutAction::WriteFile {
            path,
            oid: *oid,
            content: copy_of(data),
            executable,
        };
        proof {
            let h = choose|h: ObjectId| h@ == oid@;
            assert(h =~= *oid);
            lemma_actions_push(self.actions@, a);
            lemma_texts_push(self.present@, copy);
        }
        self.actions.push(a);
        self.present.push(copy);
        Ok(())
    }

    fn link(&mut self, store: &ObjectStore, oid: &ObjectId, path: String, force: bool) -> (r: Result<
        (),
        CheckoutError,
    >)
        requires
            store.wf(),
        ensures
            reached(r, *final(self), link_step(store@, oid@, path@, force, old(self)@)),
    {
        let data = match store.read_object(ObjectType::Blob, oid) {
            Some(d) => d,
            None => return Err(CheckoutError::NoBlob(*oid)),
        };
        let target: String = match core::str::from_utf8(data.as_slice()) {
            Ok(s) => {
                proof {
                    encode_utf8_decode_utf8(s@);
                }
                s.to_owned()
            },
            Err(_) => return Err(CheckoutError::InvalidTarget),
        };
        let taken: bool = has_text(&self.present, path.as_str()) || has_text(
            &self.links,
            path.as_str(),
        );
        if taken && !force {
            let a = CheckoutAction::SkipLink(path);
            proof {
                lemma_actions_push(self.actions@, a);
            }
            self.actions.push(a);
            return Ok(());
        }
        let copy = path.clone();
        let a = CheckoutAction::MakeLink { path, target, replace: taken };
        proof {
            lemma_actions_push(self.actions@, a);
            lemma_texts_push(self.links@, copy);
        }
        self.actions.push(a);
        self.links.push(copy);
        Ok(())
    }

    /// Checks out a stored tree and all trees below it.
    fn tree(
        &mut self,
        store: &ObjectStore,
        id: &ObjectId,
        prefix: &str,
        force: bool,
        Ghost(d): Ghost<nat>,
    ) -> (r: Result<(), CheckoutError>)
        requires
            store.wf(),
            within(store@, id@, d),
        ensures
            reached(r, *final(self), tree_step(store@, id@, prefix@, force, old(self)@, d)),
        decreases d,
    {
        let data = match store.read_object(ObjectType::Tree, id) {
            Some(data) => data,
            None => return Err(CheckoutError::Tree(WalkError::Missing(*id))),
        };
        let tree: Tree = match Tree::from_bytes(data.as_slice()) {
            Ok(t) => t,
            Err(e) => return Err(CheckoutError::Tree(WalkError::Damaged(e))),
        };
        let ghost es = tree@;
        let ghost start = self@;
        let mut i: usize = 0;
        assert(es.subrange(0, 0) =~= Seq::empty());
        while i < tree.entries.len()
            invariant
                i <= tree.entries.len(),
                store.wf(),
                d > 0,
                es == tree@,
                tree_at(store@, id@) == Ok::<Seq<TreeEntryView>, WalkFault>(es),
                within(store@, id@, d),
                start == old(self)@,
                entries_step(store@, es.subrange(0, i as int), prefix@, force, start, d) == going(
                    self@,
                ),
            decreases tree.entries.len() - i,
        {
            let e = &tree.entries[i];
            proof {
                let t = es.subrange(0, i + 1);
                assert(t.drop_last() =~= es.subrange(0, i as int));
                assert(t.last() == es[i as int]);
                assert(es[i as int] == e@);
            }
            let path: String = join(prefix, e.name.as_str());
            let r: Result<(), CheckoutError> = match e.entry_type {
                EntryType::Tree => {
                    let a = CheckoutAction::MakeDir(path.clone());
                    proof {
                        lemma_actions_push(self.actions@, a);
                    }
                    self.actions.push(a);
                    let copy = path.clone();
                    proof {
                        lemma_texts_push(self.present@, copy);
                    }
                    self.present.push(copy);
                    self.tree(store, &e.oid, path.as_str(), force, Ghost((d - 1) as nat))
                },
                EntryType::File => self.file(store, &e.oid, path, false, force),
                EntryType::FileExecutable => self.file(store, &e.oid, path, true, force),
                EntryType::Symlink => self.link(store, &e.oid, path, force),
            };
            match r {
                Ok(_) => {},
                Err(f) => {
                    proof {
                        lemma_entries_fail(store@, es, prefix@, force, start, d, i + 1);
                    }
                    return Err(f);
                },
            }
            i += 1;
        }
        assert(es.subrange(0, i as int) =~= es);
        Ok(())
    }
}

/// A failure among the first entries is the failure of them all.
proof fn lemma_entries_fail(
    m: Objects,
    es: Seq<TreeEntryView>,
    prefix: Seq<char>,
    force: bool,
    s: Progress,
    d: nat,
    i: int,
)
    requires
        d > 0,
        0 <= i <= es.len(),
        entries_step(m, es.subrange(0, i), prefix, force, s, d).fault is Some,
    ensures
        entries_step(m, es, prefix, force, s, d) == entries_step(
            m,
            es.subrange(0, i),
            prefix,
            force,
            s,
            d,
        ),
    decreases es.len(),
{
    if i == es.len() {
        assert(es.subrange(0, i) =~= es);
    } else {
        let t = es.drop_last();
        assert(t.subrange(0, i) =~= es.subrange(0, i));
        lemma_entries_fail(m, t, prefix, force, s, d, i);
    }
}

/// The hash of the tree in the bytes of a commit.
pub fn parse_tree_hash_from_commit(bytes: &[u8]) -> (r: Option<ObjectId>)
    ensures
        match r {
            Some(h) => bytes@.len() >= 32 && h@ == bytes@.subrange(0, 32),
            None => bytes@.len() < 32,
        },
{
    if bytes.len() < 32 {
        return None;
    }
    Some(crate::codec::read_array::<32>(bytes, 0))
}

/// The tree of a stored commit, by its first bytes.
pub open spec fn tree_of_commit(m: Objects, id: Seq<u8>) -> Result<Seq<u8>, CheckoutFault> {
    let key = (ObjectType::Commit, id);
    if !m.contains_key(key) {
        Err(CheckoutFault::NoCommit(id))
    } else if m[key].len() < 32 {
        Err(CheckoutFault::CommitTooShort)
    } else {
        Ok(m[key].subrange(0, 32))
    }
}

/// The checkout of a commit.
pub open spec fn commit_step(m: Objects, id: Seq<u8>, force: bool, s: Progress) -> Stage {
    match tree_of_commit(m, id) {
        Err(f) => Stage { progress: s, fault: Some(f) },
        Ok(t) => tree_step(m, t, Seq::empty(), force, s, depth_of(m, t)),
    }
}

/// Plans the checkout of the tree of a commit into a destination.
pub fn checkout_tree_to_path(
    store: &ObjectStore,
    commit_hash: &ObjectId,
    dest: &mut Checkout,
    options: CheckoutOptions,
) -> (r: Result<(), CheckoutError>)
    requires
        store.wf(),
        tree_of_commit(store@, commit_hash@) matches Ok(t) ==> grounded(store@, t),
    ensures
        reached(r, *final(dest), commit_step(store@, commit_hash@, options.force, old(dest)@)),
{
    let bytes = match store.read_object(ObjectType::Commit, commit_hash) {
        Some(b) => b,
        None => return Err(CheckoutError::NoCommit(*commit_hash)),
    };
    let tree: ObjectId = match parse_tree_hash_from_commit(bytes.as_slice()) {
        Some(t) => t,
        None => return Err(CheckoutError::CommitTooShort),
    };
    let ghost d = depth_of(store@, tree@);
    proof {
        reveal_strlit("");
        assert(""@ =~= Seq::<char>::empty());
        assert(within(store@, tree@, d));
    }
    dest.tree(store, &tree, "", options.force, Ghost(d))
}

/// Plans the checkout of the tree of a commit into the working directory of the
/// repository.
pub fn checkout_tree(
    store: &ObjectStore,
    commit_hash: &ObjectId,
    worktree: &mut Checkout,
    options: CheckoutOptions,
) -> (r: Result<(), CheckoutError>)
    requires
        store.wf(),
        tree_of_commit(store@, commit_hash@) matches Ok(t) ==> grounded(store@, t),
    ensures
        reached(
            r,
            *final(worktree),
            commit_step(store@, commit_hash@, options.force, old(worktree)@),
        ),
{
    checkout_tree_to_path(store, commit_hash, worktree, options)
}

/// What is said before a tree is checked out, where one wants to hear of each step.
pub open spec fn opening_text(tree: Seq<u8>, repo: Seq<char>, dest: Seq<char>) -> Seq<char> {
    let first = "Checking out tree "@ + hex_text(tree).subrange(0, 8);
    if repo == dest {
        first
    } else {
        first + " to "@ + dest
    }
}

/// What is said before the tree of a commit is checked out into `dest_path`, if the commit
/// can be read.
pub fn checkout_line(
    store: &ObjectStore,
    commit_hash: &ObjectId,
    repo_path: &str,
    dest_path: &str,
) -> (r: Option<String>)
    requires
        store.wf(),
    ensures
        match tree_of_commit(store@, commit_hash@) {
            Ok(t) => r matches Some(s) && s@ == opening_text(t, repo_path@, dest_path@),
            Err(_) => r is None,
        },
{
    let bytes = match store.read_object(ObjectType::Commit, commit_hash) {
        Some(b) => b,
        None => return None,
    };
    let tree: ObjectId = match parse_tree_hash_from_commit(bytes.as_slice()) {
        Some(t) => t,
        None => return None,
    };
    let mut s: String = "Checking out tree ".to_owned();
    let short = short_hash(&tree);
    s.append(short.as_str());
    if !str_eq(repo_path, dest_path) {
        s.append(" to ");
        s.append(dest_path);
    }
    Some(s)
}

/// How many steps write something.
pub open spec fn writes(s: Seq<ActionView>) -> nat
    decreases s.len(),
{
    if s.len() == 0 {
        0
    } else {
        writes(s.drop_last()) + if s.last() is WriteFile || s.last() is MakeLink {
            1nat
        } else {
            0
        }
    }
}

/// How many files and links a checkout writes.
pub fn files_written(actions: &Vec<CheckoutAction>) -> (n: u64)
    ensures
        n == writes(action_views(actions@)),
{
    let mut n: u64 = 0;
    let mut i: usize = 0;
    let ghost vs = action_views(actions@);
    assert(writes(vs.subrange(0, 0)) == 0);
    while i < actions.len()
        invariant
            i <= actions.len(),
            n <= i,
            vs == action_views(actions@),
            n == writes(vs.subrange(0, i as int)),
        decreases actions.len() - i,
    {
        proof {
            let t = vs.subrange(0, i + 1);
            assert(t.drop_last() =~= vs.subrange(0, i as int));
            assert(t.last() == actions@[i as int]@);
        }
        match &actions[i] {
            CheckoutAction::WriteFile { .. } => {
                n += 1;
            },
            CheckoutAction::MakeLink { .. } => {
                n += 1;
            },
            _ => {},
        }
        i += 1;
    }
    assert(vs.subrange(0, i as int) =~= vs);
    n
}

/// What is said of a step, where one wants to hear of each.
pub open spec fn action_text(a: ActionView) -> Option<Seq<char>> {
    match a {
        ActionView::MakeDir(_) => None,
        ActionView::WriteFile { path, oid, .. } => Some(
            "  "@ + path + " ("@ + hex_text(oid@).subrange(0, 8) + ")"@,
        ),
        ActionView::MakeLink { path, target, .. } => Some("  "@ + path + " -> "@ + target),
        ActionView::SkipFile(path) => Some("  Skipping "@ + path + " (already exists)"@),
        ActionView::SkipLink(path) => Some("  Skipping symlink "@ + path + " (already exists)"@),
    }
}

impl CheckoutAction {
    /// What is said of the step, where one wants to hear of each.
    pub fn line(&self) -> (r: Option<String>)
        ensures
            match action_text(self@) {
                Some(t) => r matches Some(s) && s@ == t,
                None => r is None,
            },
    {
        match self {
            CheckoutAction::MakeDir(_) => None,
            CheckoutAction::WriteFile { path, oid, .. } => {
                let mut s: String = "  ".to_owned();
                s.append(path.as_str());
                s.append(" (");
                let short = short_hash(oid);
                s.append(short.as_str());
                s.append(")");
                Some(s)
            },
            CheckoutAction::MakeLink { path, target, .. } => {
                let mut s: String = "  ".to_owned();
                s.append(path.as_str());
                s.append(" -> ");
                s.append(target.as_str());
                Some(s)
            },
            CheckoutAction::SkipFile(path) => {
                let mut s: String = "  Skipping ".to_owned();
                s.append(path.as_str());
                s.append(" (already exists)");
                Some(s)
            },
            CheckoutAction::SkipLink(path) => {
                let mut s: String = "  Skipping symlink ".to_owned();
                s.append(path.as_str());
                s.append(" (already exists)");
                Some(s)
            },
        }
    }
}

/// Whether no step writes at one of the paths `keep`.
pub open spec fn spares(a: Seq<ActionView>, keep: Seq<Seq<char>>) -> bool {
    forall|i: int|
        0 <= i < a.len() ==> match #[trigger] a[i] {
            ActionView::WriteFile { path, .. } => !keep.contains(path),
            ActionView::MakeLink { path, .. } => !keep.contains(path),
            _ => true,
        }
}

/// Whether all of `keep` are known to be there.
pub open spec fn covers(present: Seq<Seq<char>>, keep: Seq<Seq<char>>) -> bool {
    forall|x: Seq<char>| #[trigger] keep.contains(x) ==> present.contains(x)
}

proof fn lemma_covers_push(present: Seq<Seq<char>>, keep: Seq<Seq<char>>, p: Seq<char>)
    requires
        covers(present, keep),
    ensures
        covers(present.push(p), keep),
{
    assert forall|x: Seq<char>| #[trigger] keep.contains(x) implies present.push(p).contains(x) by {
        let n = choose|n: int| 0 <= n < present.len() && present[n] == x;
        assert(present.push(p)[n] == x);
    }
}

proof fn lemma_tree_spares(
    m: Objects,
    id: Seq<u8>,
    prefix: Seq<char>,
    s: Progress,
    d: nat,
    keep: Seq<Seq<char>>,
)
    requires
        spares(s.actions, keep),
        covers(s.present, keep),
    ensures
        spares(tree_step(m, id, prefix, false, s, d).progress.actions, keep),
        covers(tree_step(m, id, prefix, false, s, d).progress.present, keep),
    decreases d, 1nat, 0nat,
{
    if let Ok(es) = tree_at(m, id) {
        if d > 0 {
            lemma_entries_spare(m, es, prefix, s, d, keep);
        }
    }
}

proof fn lemma_entries_spare(
    m: Objects,
    es: Seq<TreeEntryView>,
    prefix: Seq<char>,
    s: Progress,
    d: nat,
    keep: Seq<Seq<char>>,
)
    requires
        d > 0,
        spares(s.actions, keep),
        covers(s.present, keep),
    ensures
        spares(entries_step(m, es, prefix, false, s, d).progress.actions, keep),
        covers(entries_step(m, es, prefix, false, s, d).progress.present, keep),
    decreases d, 0nat, es.len(),
{
    if es.len() > 0 {
        lemma_entries_spare(m, es.drop_last(), prefix, s, d, keep);
        let before = entries_step(m, es.drop_last(), prefix, false, s, d);
        let e = es.last();
        let path = join_spec(prefix, e.name);
        lemma_covers_push(before.progress.present, keep, path);
        if before.fault is None && e.entry_type == EntryType::Tree {
            let next = made(before.progress, ActionView::MakeDir(path), path);
            lemma_tree_spares(m, e.oid, path, next, (d - 1) as nat, keep);
        }
    }
}

/// Unless it is forced, a checkout writes nothing at a path where there is a
/// file or directory already, whether it comes to its end or not.
pub proof fn checkout_overwrites_nothing(
    m: Objects,
    id: Seq<u8>,
    present: Seq<Seq<char>>,
    links: Seq<Seq<char>>,
)
    ensures
        spares(
            commit_step(
                m,
                id,
                false,
                Progress { present, links, actions: Seq::empty() },
            ).progress.actions,
            present,
        ),
{
    let s = Progress { present, links, actions: Seq::empty() };
    if let Ok(t) = tree_of_commit(m, id) {
        lemma_tree_spares(m, t, Seq::empty(), s, depth_of(m, t), present);
    }
}

/// Whether a step puts the file `f` in its place.
pub open spec fn lays(m: Objects, a: ActionView, f: FileView) -> bool {
    match a {
        ActionView::WriteFile { path, content, .. } => path == f.path && content == m[(
            ObjectType::Blob,
            f.oid,
        )],
        ActionView::MakeLink { path, target, .. } => path == f.path && target == decode_utf8(
            m[(ObjectType::Blob, f.oid)],
        ),
        _ => false,
    }
}

/// Whether some step from `n` on puts the file `f` in its place.
pub open spec fn laid(m: Objects, a: Seq<ActionView>, n: int, f: FileView) -> bool {
    exists|i: int| n <= i < a.len() && lays(m, #[trigger] a[i], f)
}

/// Whether a step puts one of the files `fs` in its place.
pub open spec fn wanted(m: Objects, x: ActionView, fs: Seq<FileView>) -> bool {
    exists|j: int| 0 <= j < fs.len() && lays(m, x, #[trigger] fs[j])
}

/// Whether a step writes something.
pub open spec fn is_write(x: ActionView) -> bool {
    x is WriteFile || x is MakeLink
}

/// Whether the steps from `n` on put the files `fs` in their places, and write
/// nothing else.
pub open spec fn lays_all(m: Objects, a: Seq<ActionView>, n: int, fs: Seq<FileView>) -> bool {
    &&& forall|j: int| 0 <= j < fs.len() ==> laid(m, a, n, #[trigger] fs[j])
    &&& forall|i: int| n <= i < a.len() && is_write(#[trigger] a[i]) ==> wanted(m, a[i], fs)
}

proof fn lemma_lays_concat(
    m: Objects,
    a: Seq<ActionView>,
    n: int,
    b: Seq<ActionView>,
    fs: Seq<FileView>,
    gs: Seq<FileView>,
)
    requires
        0 <= n <= a.len() <= b.len(),
        forall|i: int| 0 <= i < a.len() ==> #[trigger] a[i] == b[i],
        lays_all(m, a, n, fs),
        lays_all(m, b, a.len() as int, gs),
    ensures
        lays_all(m, b, n, fs + gs),
{
    let k = a.len() as int;
    let all = fs + gs;
    assert forall|j: int| 0 <= j < all.len() implies laid(m, b, n, #[trigger] all[j]) by {
        if j < fs.len() {
            assert(all[j] == fs[j]);
            assert(laid(m, a, n, fs[j]));
            let i = choose|i: int| n <= i < a.len() && lays(m, #[trigger] a[i], fs[j]);
            assert(lays(m, b[i], all[j]));
        } else {
            assert(all[j] == gs[j - fs.len()]);
            assert(laid(m, b, k, gs[j - fs.len()]));
            let i = choose|i: int| k <= i < b.len() && lays(m, #[trigger] b[i], gs[j - fs.len()]);
            assert(lays(m, b[i], all[j]));
        }
    }
    assert forall|i: int| n <= i < b.len() && is_write(#[trigger] b[i]) implies wanted(
        m,
        b[i],
        all,
    ) by {
        if i < k {
            assert(a[i] == b[i]);
            assert(wanted(m, a[i], fs));
            let j = choose|j: int| 0 <= j < fs.len() && lays(m, a[i], #[trigger] fs[j]);
            assert(lays(m, b[i], all[j]));
        } else {
            let j = choose|j: int| 0 <= j < gs.len() && lays(m, b[i], #[trigger] gs[j]);
            assert(all[fs.len() + j] == gs[j]);
            assert(lays(m, b[i], all[fs.len() + j]));
        }
    }
}

/// Whether `b` continues `a`.
pub open spec fn continues(a: Seq<ActionView>, b: Seq<ActionView>) -> bool {
    a.len() <= b.len() && forall|i: int| 0 <= i < a.len() ==> #[trigger] a[i] == b[i]
}

proof fn lemma_tree_lays(m: Objects, id: Seq<u8>, prefix: Seq<char>, s: Progress, d: nat)
    requires
        within(m, id, d),
        tree_step(m, id, prefix, true, s, d).fault is None,
    ensures
        files_to(m, id, prefix, d) is Ok,
        ({
            let r = tree_step(m, id, prefix, true, s, d).progress;
            &&& continues(s.actions, r.actions)
            &&& lays_all(
                m,
                r.actions,
                s.actions.len() as int,
                files_to(m, id, prefix, d)->Ok_0,
            )
        }),
    decreases d, 1nat, 0nat,
{
    let es = tree_at(m, id)->Ok_0;
    lemma_entries_lay(m, es, prefix, s, d);
}

proof fn lemma_entries_lay(
    m: Objects,
    es: Seq<TreeEntryView>,
    prefix: Seq<char>,
    s: Progress,
    d: nat,
)
    requires
        d > 0,
        forall|i: int|
            0 <= i < es.len() && (#[trigger] es[i]).entry_type == EntryType::Tree ==> within(
                m,
                es[i].oid,
                (d - 1) as nat,
            ),
        entries_step(m, es, prefix, true, s, d).fault is None,
    ensures
        entry_files_to(m, es, prefix, d) is Ok,
        ({
            let r = entries_step(m, es, prefix, true, s, d).progress;
            &&& continues(s.actions, r.actions)
            &&& lays_all(
                m,
                r.actions,
                s.actions.len() as int,
                entry_files_to(m, es, prefix, d)->Ok_0,
            )
        }),
    decreases d, 0nat, es.len(),
{
    let n = s.actions.len() as int;
    if es.len() > 0 {
        let t = es.drop_last();
        assert forall|i: int|
            0 <= i < t.len() && (#[trigger] t[i]).entry_type == EntryType::Tree implies within(
            m,
            t[i].oid,
            (d - 1) as nat,
        ) by {
            assert(t[i] == es[i]);
        }
        lemma_entries_lay(m, t, prefix, s, d);
        let before = entries_step(m, t, prefix, true, s, d).progress;
        let after = entries_step(m, es, prefix, true, s, d).progress;
        let fs = entry_files_to(m, t, prefix, d)->Ok_0;
        let e = es.last();
        let path = join_spec(prefix, e.name);
        let k = before.actions.len() as int;
        if e.entry_type == EntryType::Tree {
            assert(es[es.len() - 1] == e);
            let next = made(before, ActionView::MakeDir(path), path);
            lemma_tree_lays(m, e.oid, path, next, (d - 1) as nat);
            let gs = files_to(m, e.oid, path, (d - 1) as nat)->Ok_0;
            assert(continues(before.actions, after.actions)) by {
                assert forall|i: int| 0 <= i < k implies #[trigger] before.actions[i]
                    == after.actions[i] by {
                    assert(next.actions[i] == after.actions[i]);
                }
            }
            assert(next.actions[k] == after.actions[k]);
            assert forall|j: int| 0 <= j < gs.len() implies laid(
                m,
                after.actions,
                k,
                #[trigger] gs[j],
            ) by {
                assert(laid(m, after.actions, k + 1, gs[j]));
                let i = choose|i: int|
                    k + 1 <= i < after.actions.len() && lays(m, #[trigger] after.actions[i], gs[j]);
                assert(lays(m, after.actions[i], gs[j]));
            }
            lemma_lays_concat(m, before.actions, n, after.actions, fs, gs);
        } else {
            let f = FileView { path, oid: e.oid, mode: e.mode, size: e.size };
            let gs = seq![f];
            assert(lays(m, after.actions[k], gs[0]));
            lemma_lays_concat(m, before.actions, n, after.actions, fs, gs);
            assert(fs + gs =~= fs.push(f));
        }
    }
}

/// A forced checkout that comes to its end puts every file of the commit's tree
/// in its place, with its contents, and writes nothing else.
pub proof fn forced_checkout_lays_the_tree(m: Objects, id: Seq<u8>, s: Progress)
    requires
        tree_of_commit(m, id) is Ok,
        grounded(m, tree_of_commit(m, id)->Ok_0),
        commit_step(m, id, true, s).fault is None,
    ensures
        ({
            let t = tree_of_commit(m, id)->Ok_0;
            let r = commit_step(m, id, true, s).progress;
            tree_files(m, t) matches Ok(fs) && lays_all(
                m,
                r.actions,
                s.actions.len() as int,
                fs,
            )
        }),
{
    let t = tree_of_commit(m, id)->Ok_0;
    lemma_tree_lays(m, t, Seq::empty(), s, depth_of(m, t));
}

} // verus!
