//! Committing what is staged: a snapshot of the staged entries becomes a commit
//! on top of the current one.
use vstd::prelude::*;
use vstd::string::*;

use crate::hash::{blake3_digest, hex_text, ObjectId};
use crate::helix_index::api::{none_staged, HelixIndexData};
use crate::helix_index::commit::{commit_bytes, id_views, Commit, CommitView};
use crate::helix_index::commit::commit_storable;
use crate::helix_index::commit_store::{
    commit_at, read_commit, stored_commit_round_trip, ReadError, ReadFault,
};
use crate::helix_index::snapshot::{
    files_storable, lemma_holds_extends, no_clash, snapshot_reads_back, written_trees_are_held,
};
use crate::helix_index::tree::FileView;
use crate::helix_index::tree_walk::tree_files;
use crate::helix_index::format::{entry_views, Entry, EntryFlags, EntryView, FormatError, Header};
use crate::helix_index::reader::{all_fit, index_bytes, is_misfit};
use crate::helix_index::tree::{files_of, put_trees, snapshot, tree_id, TreeBuilder};
use crate::object_store::{put_object, ObjectStore, ObjectType, Objects};
use crate::refs::{
    head_commit, head_round_trip, read_head, with_head_commit, write_head, HeadFault, RefStore, Refs,
};
use crate::text::{
    concat, concat3, decimal, decimal_of, push_line, text_of, texts, trim, trim_spec,
};

verus! {

/// How to commit.
#[derive(Debug, Clone, PartialEq, Eq)]
pub struct CommitOptions {
    pub message: String,
    /// In place of the configured author.
    pub author: Option<String>,
    /// Commit even if nothing is staged or nothing changed.
    pub allow_empty: bool,
    /// Replace the current commit.
    pub amend: bool,
    pub verbose: bool,
}

impl Default for CommitOptions {
    fn default() -> (o: CommitOptions)
        ensures
            o.message@.len() == 0,
            o.author is None,
            !o.allow_empty && !o.amend && !o.verbose,
    {
        CommitOptions {
            message: String::new(),
            author: None,
            allow_empty: false,
            amend: false,
            verbose: false,
        }
    }
}

/// The user of a configuration.
#[derive(Debug, Clone, PartialEq, Eq)]
pub struct UserConfig {
    pub name: Option<String>,
    pub email: Option<String>,
}

/// Why a commit is refused.
#[derive(Debug)]
pub enum CommitFailure {
    EmptyMessage,
    NothingStaged,
    /// There is no commit to amend.
    CannotAmend,
    /// The current commit cannot be read.
    Head(ReadError),
    /// The tree is that of the current commit.
    Identical,
    /// No author is configured.
    NoAuthor,
    /// The configuration cannot be read.
    Config(String),
    /// The index cannot be written. The commit has been made.
    Index(FormatError),
}

/// Why a commit is refused, with hashes as bytes and texts as characters.
pub enum CommitRefusal {
    EmptyMessage,
    NothingStaged,
    CannotAmend,
    Head(ReadFault),
    Identical,
    NoAuthor,
    Config(Seq<char>),
}

/// Whether `e` is this refusal.
pub open spec fn is_refusal(e: CommitFailure, f: CommitRefusal) -> bool {
    match f {
        CommitRefusal::EmptyMessage => e is EmptyMessage,
        CommitRefusal::NothingStaged => e is NothingStaged,
        CommitRefusal::CannotAmend => e is CannotAmend,
        CommitRefusal::Head(g) => e matches CommitFailure::Head(h) && h@ == g,
        CommitRefusal::Identical => e is Identical,
        CommitRefusal::NoAuthor => e is NoAuthor,
        CommitRefusal::Config(t) => e matches CommitFailure::Config(s) && s@ == t,
    }
}

impl CommitFailure {
    /// The refusal in words.
    pub fn message(&self) -> (r: String)
        ensures
            *self is EmptyMessage ==> r@ == "Commit message cannot be empty. Use -m <message>"@,
            *self is NothingStaged ==> r@
                == "No changes staged for commit. Use 'helix add <files>' to stage changes."@,
            *self is CannotAmend ==> r@ == "Cannot amend - no previous commit exists"@,
            *self is Head ==> r@ == "Failed to read commit"@,
            *self is Identical ==> r@ == "No changes to commit. The tree is identical to HEAD."@,
            *self is NoAuthor ==> r@ == NO_AUTHOR@,
            *self matches CommitFailure::Config(t) ==> r@ == t@,
            *self is Index ==> r@ == "Failed to write index"@,
    {
        match self {
            CommitFailure::EmptyMessage =>
                "Commit message cannot be empty. Use -m <message>".to_owned(),
            CommitFailure::NothingStaged =>
                "No changes staged for commit. Use 'helix add <files>' to stage changes.".to_owned(),
            CommitFailure::CannotAmend => "Cannot amend - no previous commit exists".to_owned(),
            CommitFailure::Head(_) => "Failed to read commit".to_owned(),
            CommitFailure::Identical =>
                "No changes to commit. The tree is identical to HEAD.".to_owned(),
            CommitFailure::NoAuthor => NO_AUTHOR.to_owned(),
            CommitFailure::Config(t) => t.clone(),
            CommitFailure::Index(_) => "Failed to write index".to_owned(),
        }
    }
}

/// What is said where no author is configured.
pub const NO_AUTHOR: &'static str =
    "Author not configured. Set in helix.toml:\n\n[user]\nname = \"Your Name\"\nemail = \"you@example.com\"\n\nOr use environment variables:\nexport HELIX_AUTHOR_NAME=\"Your Name\"\nexport HELIX_AUTHOR_EMAIL=\"your@email.com\"";

/// The author of a configuration: name and address, or the name alone.
pub open spec fn configured_author(name: Option<Seq<char>>, email: Option<Seq<char>>) -> Option<
    Seq<char>,
> {
    match (name, email) {
        (Some(n), Some(e)) => Some(trim_spec(n) + " <"@ + trim_spec(e) + ">"@),
        (Some(n), None) => if trim_spec(n).len() > 0 {
            Some(trim_spec(n))
        } else {
            None
        },
        (None, _) => None,
    }
}

/// The author: that of the configuration, or else that of the environment.
pub open spec fn author_of(user: UserConfig, environment: UserConfig) -> Option<Seq<char>> {
    match configured_author(text_of(user.name), text_of(user.email)) {
        Some(a) => Some(a),
        None => configured_author(text_of(environment.name), text_of(environment.email)),
    }
}

/// The author: that of the configuration, or else that of the environment.
pub fn get_author(user: &UserConfig, environment: &UserConfig) -> (r: Option<String>)
    ensures
        text_of(r) == author_of(*user, *environment),
{
    match put_together(user) {
        Some(a) => Some(a),
        None => put_together(environment),
    }
}

/// The author of a configuration.
fn put_together(user: &UserConfig) -> (r: Option<String>)
    ensures
        text_of(r) == configured_author(text_of(user.name), text_of(user.email)),
{
    match &user.name {
        None => None,
        Some(n) => match &user.email {
            Some(e) => {
                let mut r: String = trim(n.as_str());
                r.append(" <");
                let t = trim(e.as_str());
                r.append(t.as_str());
                r.append(">");
                Some(r)
            },
            None => {
                let t = trim(n.as_str());
                if t.as_str().is_empty() {
                    None
                } else {
                    Some(t)
                }
            },
        },
    }
}

/// The staged entries, in order.
pub open spec fn staged_entries(es: Seq<EntryView>) -> Seq<EntryView>
    decreases es.len(),
{
    if es.len() == 0 {
        es
    } else if es.last().flags.has(EntryFlags::STAGED) {
        staged_entries(es.drop_last()).push(es.last())
    } else {
        staged_entries(es.drop_last())
    }
}

/// Copies of the staged entries, in order.
pub fn collect_staged(entries: &Vec<Entry>) -> (r: Vec<Entry>)
    ensures
        entry_views(r@) == staged_entries(entry_views(entries@)),
{
    let mut r: Vec<Entry> = Vec::new();
    let mut i: usize = 0;
    let ghost es = entry_views(entries@);
    assert(entry_views(r@) =~= staged_entries(es.subrange(0, 0)));
    while i < entries.len()
        invariant
            i <= entries.len(),
            es == entry_views(entries@),
            entry_views(r@) == staged_entries(es.subrange(0, i as int)),
        decreases entries.len() - i,
    {
        let ghost before = entry_views(r@);
        proof {
            let t = es.subrange(0, i + 1);
            assert(t.drop_last() =~= es.subrange(0, i as int));
            assert(t.last() == entries@[i as int]@);
        }
        if entries[i].flags.contains(EntryFlags::STAGED) {
            let e = entries[i].duplicate();
            r.push(e);
            assert(entry_views(r@) =~= before.push(e@));
        }
        i += 1;
    }
    assert(es.subrange(0, i as int) =~= es);
    r
}

/// Takes the staged flag from every entry, and gives the bytes of the index
/// file.
pub fn clear_staged_flags(index: &mut HelixIndexData) -> (r: Result<Vec<u8>, FormatError>)
    requires
        old(index).data.header.generation < u64::MAX,
    ensures
        final(index).repo_path == old(index).repo_path,
        final(index).es() == none_staged(old(index).es()),
        final(index).data.header == (Header {
            generation: (old(index).data.header.generation + 1) as u64,
            entry_count: (old(index).es().len() % 0x1_0000_0000) as u32,
            ..old(index).data.header
        }),
        match r {
            Ok(b) => {
                &&& all_fit(final(index).es())
                &&& b@ == index_bytes(final(index).data.header, final(index).es())
            },
            Err(e) => is_misfit(final(index).es(), e),
        },
{
    index.unstage_all();
    index.persist()
}

/// A commit before it is made.
pub struct Draft {
    /// The store with the trees of the snapshot.
    pub store: Objects,
    pub commit: CommitView,
}

/// What stands in the way of a commit, or the commit that is made.
pub open spec fn draft(
    m: Objects,
    refs: Refs,
    es: Seq<EntryView>,
    native: bool,
    o: CommitOptions,
    config: Result<UserConfig, String>,
    environment: UserConfig,
    now: u64,
) -> Result<Draft, CommitRefusal> {
    let staged = staged_entries(es);
    let fs = files_of(staged);
    let trees = put_trees(m, fs);
    let tree = tree_id(snapshot(fs));
    let head = head_commit(refs);
    let author = match o.author {
        Some(a) => Ok(a@),
        None => match config {
            Err(t) => Err(CommitRefusal::Config(t@)),
            Ok(u) => match author_of(u, environment) {
                Some(a) => Ok(a),
                None => Err(CommitRefusal::NoAuthor),
            },
        },
    };
    if trim_spec(o.message@).len() == 0 {
        Err(CommitRefusal::EmptyMessage)
    } else if staged.len() == 0 && !o.allow_empty {
        Err(CommitRefusal::NothingStaged)
    } else if o.amend && head is Err {
        Err(CommitRefusal::CannotAmend)
    } else if !o.allow_empty && !o.amend && head is Ok && commit_at(trees, head->Ok_0) is Err {
        Err(CommitRefusal::Head(commit_at(trees, head->Ok_0)->Err_0))
    } else if !o.allow_empty && !o.amend && head is Ok && commit_at(
        trees,
        head->Ok_0,
    )->Ok_0.tree_hash == tree && native {
        Err(CommitRefusal::Identical)
    } else if author is Err {
        Err(author->Err_0)
    } else if o.amend && commit_at(trees, head->Ok_0) is Err {
        Err(CommitRefusal::Head(commit_at(trees, head->Ok_0)->Err_0))
    } else {
        let c = CommitView {
            commit_hash: Seq::empty(),
            tree_hash: tree,
            parents: if o.amend {
                commit_at(trees, head->Ok_0)->Ok_0.parents
            } else if head is Ok {
                seq![head->Ok_0]
            } else {
                Seq::empty()
            },
            author: author->Ok_0,
            author_time: now,
            commit_time: now,
            message: o.message@,
        };
        Ok(Draft { store: trees, commit: c })
    }
}

/// Whether a refusal comes before anything is written.
pub open spec fn early(f: CommitRefusal) -> bool {
    f is EmptyMessage || f is NothingStaged || f is CannotAmend
}

/// A commit that has been made.
#[derive(Debug, Clone, PartialEq, Eq)]
pub struct CommitOutcome {
    pub hash: ObjectId,
    /// The bytes of the index file.
    pub index_file: Vec<u8>,
}

/// Whether a commit repeats the tree of the one before, which is only let through where
/// that one was taken over from elsewhere. `trees` is the store with the trees of the
/// snapshot.
pub open spec fn repeats_tree(trees: Objects, refs: Refs, o: CommitOptions, tree: Seq<u8>) -> bool {
    &&& !o.allow_empty
    &&& !o.amend
    &&& head_commit(refs) matches Ok(h)
    &&& commit_at(trees, h) matches Ok(c)
    &&& c.tree_hash == tree
}

/// The line on the generation of the index.
pub open spec fn loaded_lines(generation: nat) -> Seq<Seq<char>> {
    seq!["Loaded index (generation "@ + decimal(generation) + ")"@]
}

/// The lines on what is staged.
pub open spec fn area_lines(staged: Seq<EntryView>) -> Seq<Seq<char>> {
    seq!["Staging area: "@ + decimal(staged.len()) + " files"@] + staged.map_values(
        |e: EntryView| "  "@ + e.path,
    )
}

/// The lines on the trees of the snapshot.
pub open spec fn tree_lines(n: nat, tree: Seq<u8>) -> Seq<Seq<char>> {
    seq![
        "Building tree from "@ + decimal(n) + " entries..."@,
        "Created tree: "@ + hex_text(tree).subrange(0, 8),
    ]
}

/// What is said before a commit is written, up to what stands in its way, where one wants
/// to hear of each step.
pub open spec fn preparing_lines(
    m: Objects,
    refs: Refs,
    es: Seq<EntryView>,
    generation: nat,
    o: CommitOptions,
    refusal: Option<CommitRefusal>,
) -> Seq<Seq<char>> {
    let staged = staged_entries(es);
    let fs = files_of(staged);
    let tree = tree_id(snapshot(fs));
    let listed = loaded_lines(generation) + area_lines(staged);
    let built = listed + tree_lines(staged.len(), tree);
    if !o.verbose || refusal == Some(CommitRefusal::EmptyMessage) {
        Seq::empty()
    } else if refusal == Some(CommitRefusal::NothingStaged) {
        loaded_lines(generation)
    } else if refusal == Some(CommitRefusal::CannotAmend) {
        listed
    } else if repeats_tree(put_trees(m, fs), refs, o, tree) && refusal != Some(
        CommitRefusal::Identical,
    ) {
        built.push("Creating first native Helix commit after import."@)
    } else {
        built
    }
}

/// What is said while a commit is written, where one wants to hear of each step.
pub open spec fn writing_lines(id: Seq<u8>, verbose: bool) -> Seq<Seq<char>> {
    if verbose {
        seq![
            "Writing commit object..."@,
            "Created commit: "@ + hex_text(id).subrange(0, 8),
            "Updated HEAD"@,
        ]
    } else {
        Seq::empty()
    }
}

/// What is said once a commit is made of `n` files.
pub open spec fn summary_lines(id: Seq<u8>, message: Seq<char>, n: nat) -> Seq<Seq<char>> {
    seq![
        "["@ + hex_text(id).subrange(0, 8) + "] "@ + crate::helix_index::commit::first_line(
            message,
        ),
        decimal(n) + " files changed"@,
    ]
}

/// Says what is staged.
fn say_area(lines: &mut Vec<String>, staged: &Vec<Entry>)
    ensures
        texts(final(lines)@) == texts(old(lines)@) + area_lines(entry_views(staged@)),
{
    let ghost start = texts(lines@);
    let ghost ss = entry_views(staged@);
    let ghost all = area_lines(ss);
    assert(ss.len() == staged@.len());
    let count = decimal_of(staged.len() as u64);
    push_line(lines, concat3("Staging area: ", count.as_str(), " files"));
    let mut i: usize = 0;
    assert(texts(lines@) =~= start + all.subrange(0, 1));
    while i < staged.len()
        invariant
            i <= staged.len(),
            ss == entry_views(staged@),
            all == area_lines(ss),
            all.len() == staged@.len() + 1,
            texts(lines@) == start + all.subrange(0, i + 1),
        decreases staged.len() - i,
    {
        let line = concat("  ", staged[i].path.as_str());
        assert(line@ == all[i + 1]);
        let ghost before = texts(lines@);
        push_line(lines, line);
        assert(texts(lines@) =~= start + all.subrange(0, i + 2));
        i += 1;
    }
    assert(all.subrange(0, i + 1) =~= all);
}

/// A commit that nothing stands in the way of.
struct Prepared {
    commit: Commit,
    /// How many entries are staged.
    count: usize,
}

/// Finds what stands in the way of a commit, writes the trees of the snapshot, and gives
/// the commit.
fn prepare_commit(
    store: &mut ObjectStore,
    refs: &RefStore,
    index: &HelixIndexData,
    native: bool,
    options: &CommitOptions,
    config: &Result<UserConfig, String>,
    environment: &UserConfig,
    now: u64,
    lines: &mut Vec<String>,
) -> (r: Result<Prepared, CommitFailure>)
    requires
        old(store).wf(),
        refs.wf(),
    ensures
        final(store).wf(),
        ({
            let staged = staged_entries(index.es());
            let d = draft(
                old(store)@,
                refs@,
                index.es(),
                native,
                *options,
                *config,
                *environment,
                now,
            );
            &&& texts(final(lines)@) == texts(old(lines)@) + preparing_lines(
                old(store)@,
                refs@,
                index.es(),
                index.data.header.generation as nat,
                *options,
                refusal_of(d),
            )
            &&& match d {
                Err(f) => {
                    &&& r matches Err(e)
                    &&& is_refusal(e, f)
                    &&& final(store)@ == (if early(f) {
                        old(store)@
                    } else {
                        put_trees(old(store)@, files_of(staged))
                    })
                },
                Ok(d) => {
                    &&& r matches Ok(p)
                    &&& final(store)@ == d.store
                    &&& commit_bytes(p.commit@) == commit_bytes(d.commit)
                    &&& p.commit@.message == options.message@
                    &&& p.count == staged.len()
                },
            }
        }),
{
    let ghost es = index.es();
    let ghost m0 = store@;
    let ghost rf = refs@;
    let ghost g = index.data.header.generation as nat;
    let ghost start = texts(lines@);
    let verbose: bool = options.verbose;
    let m = trim(options.message.as_str());
    if m.as_str().is_empty() {
        assert(texts(lines@) =~= start + Seq::<Seq<char>>::empty());
        return Err(CommitFailure::EmptyMessage);
    }
    if verbose {
        let number = decimal_of(index.generation());
        push_line(lines, concat3("Loaded index (generation ", number.as_str(), ")"));
    }
    let ghost loaded = if verbose { loaded_lines(g) } else { Seq::empty() };
    assert(texts(lines@) =~= start + loaded);
    let staged = collect_staged(&index.data.entries);
    assert(entry_views(staged@).len() == staged@.len());
    if staged.len() == 0 && !options.allow_empty {
        return Err(CommitFailure::NothingStaged);
    }
    if verbose {
        say_area(lines, &staged);
    }
    let ghost listed = if verbose {
        loaded + area_lines(staged_entries(es))
    } else {
        Seq::empty()
    };
    assert(texts(lines@) =~= start + listed);
    let head: Option<ObjectId> = match read_head(refs) {
        Ok(h) => Some(h),
        Err(_) => None,
    };
    if options.amend && head.is_none() {
        return Err(CommitFailure::CannotAmend);
    }
    let tree_hash: ObjectId = TreeBuilder::build_from_entries(store, &staged);
    let ghost trees = store@;
    if verbose {
        let count = decimal_of(staged.len() as u64);
        push_line(lines, concat3("Building tree from ", count.as_str(), " entries..."));
        let t = crate::helix_index::commit::short_hash(&tree_hash);
        push_line(lines, concat("Created tree: ", t.as_str()));
    }
    let ghost built = if verbose {
        listed + tree_lines(staged_entries(es).len(), tree_hash@)
    } else {
        Seq::empty()
    };
    assert(texts(lines@) =~= start + built);
    let mut first_native: bool = false;
    if !options.allow_empty && !options.amend {
        match &head {
            Some(h) => match read_commit(store, h) {
                Err(e) => return Err(CommitFailure::Head(e)),
                Ok(c) => {
                    proof {
                        if c.tree_hash@ == tree_hash@ {
                            assert(c.tree_hash =~= tree_hash);
                        }
                    }
                    if crate::hash::hash_eq(&c.tree_hash, &tree_hash) {
                        if native {
                            return Err(CommitFailure::Identical);
                        }
                        first_native = true;
                    }
                },
            },
            None => {},
        }
    }
    if verbose && first_native {
        push_line(lines, "Creating first native Helix commit after import.".to_owned());
    }
    let ghost prepared = if verbose && first_native {
        built.push("Creating first native Helix commit after import."@)
    } else {
        built
    };
    proof {
        assert(first_native == repeats_tree(trees, rf, *options, tree_hash@));
        assert(texts(lines@) =~= start + prepared);
    }
    let author: String = match &options.author {
        Some(a) => a.clone(),
        None => match config {
            Err(t) => return Err(CommitFailure::Config(t.clone())),
            Ok(u) => match get_author(u, environment) {
                Some(a) => a,
                None => return Err(CommitFailure::NoAuthor),
            },
        },
    };
    let mut parents: Vec<ObjectId> = Vec::new();
    match &head {
        Some(h) => {
            if options.amend {
                match read_commit(store, h) {
                    Err(e) => return Err(CommitFailure::Head(e)),
                    Ok(c) => {
                        parents = c.parents;
                    },
                }
            } else {
                parents.push(*h);
                assert(id_views(parents@) =~= seq![h@]);
            }
        },
        None => {
            assert(id_views(parents@) =~= Seq::empty());
        },
    }
    let commit = Commit::new(tree_hash, parents, author, options.message.clone(), now);
    let ghost d = draft(m0, rf, es, native, *options, *config, *environment, now)->Ok_0;
    assert(commit_bytes(commit@) == commit_bytes(d.commit));
    Ok(Prepared { commit, count: staged.len() })
}

/// What stands in the way of a commit, if anything does.
pub open spec fn refusal_of(d: Result<Draft, CommitRefusal>) -> Option<CommitRefusal> {
    match d {
        Ok(_) => None,
        Err(f) => Some(f),
    }
}

/// Writes a commit, makes it the current one, and clears the staged flags.
fn finish_commit(
    store: &mut ObjectStore,
    refs: &mut RefStore,
    index: &mut HelixIndexData,
    native: &mut bool,
    prepared: Prepared,
    verbose: bool,
    lines: &mut Vec<String>,
) -> (r: Result<CommitOutcome, CommitFailure>)
    requires
        old(store).wf(),
        old(refs).wf(),
        old(index).data.header.generation < u64::MAX,
    ensures
        final(store).wf(),
        final(refs).wf(),
        ({
            let bytes = commit_bytes(prepared.commit@);
            let id = blake3_digest(bytes);
            let writing = writing_lines(id@, verbose);
            &&& final(store)@ == put_object(old(store)@, ObjectType::Commit, bytes)
            &&& final(refs)@ == with_head_commit(old(refs)@, hex_text(id@))
            &&& final(index).repo_path == old(index).repo_path
            &&& final(index).es() == none_staged(old(index).es())
            &&& final(index).data.header == (Header {
                generation: (old(index).data.header.generation + 1) as u64,
                entry_count: (old(index).es().len() % 0x1_0000_0000) as u32,
                ..old(index).data.header
            })
            &&& match r {
                Ok(x) => {
                    &&& x.hash == id
                    &&& x.index_file@ == index_bytes(final(index).data.header, final(index).es())
                    &&& all_fit(final(index).es())
                    &&& *final(native)
                    &&& texts(final(lines)@) == texts(old(lines)@) + writing + summary_lines(
                        id@,
                        prepared.commit@.message,
                        prepared.count as nat,
                    )
                },
                Err(e) => {
                    &&& e matches CommitFailure::Index(f)
                    &&& is_misfit(final(index).es(), f)
                    &&& *final(native) == *old(native)
                    &&& texts(final(lines)@) == texts(old(lines)@) + writing
                },
            }
        }),
{
    let ghost start = texts(lines@);
    let hash: ObjectId = store.write_object(ObjectType::Commit, prepared.commit.to_bytes());
    let short = crate::helix_index::commit::short_hash(&hash);
    if verbose {
        push_line(lines, "Writing commit object...".to_owned());
        push_line(lines, concat("Created commit: ", short.as_str()));
    }
    write_head(refs, &hash);
    if verbose {
        push_line(lines, "Updated HEAD".to_owned());
    }
    assert(texts(lines@) =~= start + writing_lines(hash@, verbose));
    let index_file: Vec<u8> = match clear_staged_flags(index) {
        Ok(b) => b,
        Err(e) => return Err(CommitFailure::Index(e)),
    };
    *native = true;
    let ghost said = texts(lines@);
    let mut line: String = concat3("[", short.as_str(), "] ");
    let summary = prepared.commit.summary();
    line.append(summary.as_str());
    push_line(lines, line);
    push_line(lines, concat(decimal_of(prepared.count as u64).as_str(), " files changed"));
    assert(texts(lines@) =~= said + summary_lines(
        hash@,
        prepared.commit@.message,
        prepared.count as nat,
    ));
    Ok(CommitOutcome { hash, index_file })
}

/// What a commit works on.
pub struct CommitRequest {
    pub native: bool,
    pub options: CommitOptions,
    pub config: Result<UserConfig, String>,
    pub environment: UserConfig,
    pub now: u64,
}

impl CommitRequest {
    /// What stands in the way of the commit, or the commit that is made.
    pub open spec fn draft(
        self,
        m: Objects,
        refs: Refs,
        es: Seq<EntryView>,
    ) -> Result<Draft, CommitRefusal> {
        draft(
            m,
            refs,
            es,
            self.native,
            self.options,
            self.config,
            self.environment,
            self.now,
        )
    }
}

/// What a commit does: where something stands in its way, it says what, and has at most
/// written the trees; else the commit is in the store and is the current one, nothing is
/// staged any more, and the index file of the next generation is made. `said` is what was
/// said.
pub open spec fn is_committed(
    q: CommitRequest,
    m: Objects,
    m2: Objects,
    refs: Refs,
    refs2: Refs,
    before: HelixIndexData,
    after: HelixIndexData,
    native: bool,
    r: Result<CommitOutcome, CommitFailure>,
    said: Seq<Seq<char>>,
) -> bool {
    let es = before.es();
    let d = q.draft(m, refs, es);
    let preparing = preparing_lines(
        m,
        refs,
        es,
        before.data.header.generation as nat,
        q.options,
        refusal_of(d),
    );
    match d {
        Err(f) => {
            &&& r matches Err(e)
            &&& is_refusal(e, f)
            &&& m2 == (if early(f) {
                m
            } else {
                put_trees(m, files_of(staged_entries(es)))
            })
            &&& refs2 == refs
            &&& after == before
            &&& native == q.native
            &&& said == preparing
        },
        Ok(d) => {
            let bytes = commit_bytes(d.commit);
            let id = blake3_digest(bytes);
            let writing = preparing + writing_lines(id@, q.options.verbose);
            &&& m2 == put_object(d.store, ObjectType::Commit, bytes)
            &&& refs2 == with_head_commit(refs, hex_text(id@))
            &&& after.repo_path == before.repo_path
            &&& after.es() == none_staged(es)
            &&& after.data.header == (Header {
                generation: (before.data.header.generation + 1) as u64,
                entry_count: (es.len() % 0x1_0000_0000) as u32,
                ..before.data.header
            })
            &&& match r {
                Ok(x) => {
                    &&& x.hash == id
                    &&& x.index_file@ == index_bytes(after.data.header, after.es())
                    &&& all_fit(after.es())
                    &&& native
                    &&& said == writing + summary_lines(
                        id@,
                        q.options.message@,
                        staged_entries(es).len(),
                    )
                },
                Err(e) => {
                    &&& e matches CommitFailure::Index(f)
                    &&& is_misfit(after.es(), f)
                    &&& native == q.native
                    &&& said == writing
                },
            }
        },
    }
}

/// Makes a commit from what is staged: writes the trees of the snapshot and the
/// commit, makes it the current one, and clears the staged flags. What is to be said is
/// added to `lines`.
pub fn commit(
    store: &mut ObjectStore,
    refs: &mut RefStore,
    index: &mut HelixIndexData,
    native: &mut bool,
    options: &CommitOptions,
    config: &Result<UserConfig, String>,
    environment: &UserConfig,
    now: u64,
    lines: &mut Vec<String>,
) -> (r: Result<CommitOutcome, CommitFailure>)
    requires
        old(store).wf(),
        old(refs).wf(),
        ({
            let q = CommitRequest {
                native: *old(native),
                options: *options,
                config: *config,
                environment: *environment,
                now,
            };
            q.draft(old(store)@, old(refs)@, old(index).es()) is Ok
                ==> old(index).data.header.generation < u64::MAX
        }),
    ensures
        final(store).wf(),
        final(refs).wf(),
        texts(old(lines)@).is_prefix_of(texts(final(lines)@)),
        ({
            let q = CommitRequest {
                native: *old(native),
                options: *options,
                config: *config,
                environment: *environment,
                now,
            };
            is_committed(
                q,
                old(store)@,
                final(store)@,
                old(refs)@,
                final(refs)@,
                *old(index),
                *final(index),
                *final(native),
                r,
                texts(final(lines)@).subrange(old(lines)@.len() as int, final(lines)@.len() as int),
            )
        }),
{
    let ghost start = texts(lines@);
    let prepared = match prepare_commit(
        store,
        refs,
        index,
        *native,
        options,
        config,
        environment,
        now,
        lines,
    ) {
        Ok(p) => p,
        Err(e) => {
            proof {
                lemma_said_behind(start, texts(lines@));
            }
            return Err(e);
        },
    };
    let r = finish_commit(store, refs, index, native, prepared, options.verbose, lines);
    proof {
        lemma_said_behind(start, texts(lines@));
    }
    r
}

/// What is appended stands behind what was there.
proof fn lemma_said_behind(start: Seq<Seq<char>>, all: Seq<Seq<char>>)
    ensures
        forall|a: Seq<Seq<char>>|
            all == #[trigger] (start + a) ==> start.is_prefix_of(all) && all.subrange(
                start.len() as int,
                all.len() as int,
            ) == a,
        forall|a: Seq<Seq<char>>, b: Seq<Seq<char>>|
            all == #[trigger] (start + a + b) ==> start.is_prefix_of(all) && all.subrange(
                start.len() as int,
                all.len() as int,
            ) == a + b,
        forall|a: Seq<Seq<char>>, b: Seq<Seq<char>>, c: Seq<Seq<char>>|
            all == #[trigger] (start + a + b + c) ==> start.is_prefix_of(all) && all.subrange(
                start.len() as int,
                all.len() as int,
            ) == a + b + c,
{
    assert forall|a: Seq<Seq<char>>| all == #[trigger] (start + a) implies start.is_prefix_of(all)
        && all.subrange(start.len() as int, all.len() as int) == a by {
        assert(all.subrange(start.len() as int, all.len() as int) =~= a);
    }
    assert forall|a: Seq<Seq<char>>, b: Seq<Seq<char>>| all == #[trigger] (start + a
        + b) implies start.is_prefix_of(all) && all.subrange(start.len() as int, all.len() as int)
        == a + b by {
        assert(all.subrange(start.len() as int, all.len() as int) =~= a + b);
    }
    assert forall|a: Seq<Seq<char>>, b: Seq<Seq<char>>, c: Seq<Seq<char>>|
        all == #[trigger] (start + a + b + c) implies start.is_prefix_of(all) && all.subrange(
        start.len() as int,
        all.len() as int,
    ) == a + b + c by {
        assert(all.subrange(start.len() as int, all.len() as int) =~= a + b + c);
    }
}

/// Makes a commit as `commit` does, where the generation of the index can be counted up.
/// Where it cannot, no commit is made, and only the trees of the snapshot are written.
pub fn try_commit(
    store: &mut ObjectStore,
    refs: &mut RefStore,
    index: &mut HelixIndexData,
    native: &mut bool,
    options: &CommitOptions,
    config: &Result<UserConfig, String>,
    environment: &UserConfig,
    now: u64,
    lines: &mut Vec<String>,
) -> (r: Option<Result<CommitOutcome, CommitFailure>>)
    requires
        old(store).wf(),
        old(refs).wf(),
    ensures
        final(store).wf(),
        final(refs).wf(),
        texts(old(lines)@).is_prefix_of(texts(final(lines)@)),
        ({
            let q = CommitRequest {
                native: *old(native),
                options: *options,
                config: *config,
                environment: *environment,
                now,
            };
            let d = q.draft(old(store)@, old(refs)@, old(index).es());
            let said = texts(final(lines)@).subrange(
                old(lines)@.len() as int,
                final(lines)@.len() as int,
            );
            let full = old(index).data.header.generation == u64::MAX;
            match r {
                Some(x) => {
                    &&& !(d is Ok && full)
                    &&& is_committed(
                        q,
                        old(store)@,
                        final(store)@,
                        old(refs)@,
                        final(refs)@,
                        *old(index),
                        *final(index),
                        *final(native),
                        x,
                        said,
                    )
                },
                None => {
                    &&& d is Ok && full
                    &&& final(store)@ == d->Ok_0.store
                    &&& final(refs)@ == old(refs)@
                    &&& *final(index) == *old(index)
                    &&& *final(native) == *old(native)
                    &&& said == preparing_lines(
                        old(store)@,
                        old(refs)@,
                        old(index).es(),
                        u64::MAX as nat,
                        *options,
                        None,
                    )
                },
            }
        }),
{
    if index.generation() < u64::MAX {
        return Some(
            commit(store, refs, index, native, options, config, environment, now, lines),
        );
    }
    let ghost start = texts(lines@);
    let prepared = prepare_commit(
        store,
        refs,
        index,
        *native,
        options,
        config,
        environment,
        now,
        lines,
    );
    proof {
        lemma_said_behind(start, texts(lines@));
    }
    match prepared {
        Ok(_) => None,
        Err(e) => Some(Err(e)),
    }
}

/// The line for a staged entry.
pub open spec fn staged_line(e: EntryView) -> Seq<char> {
    if e.flags.has(EntryFlags::TRACKED) && !e.flags.has(EntryFlags::MODIFIED) {
        "  new file:   "@ + e.path
    } else {
        "  modified:   "@ + e.path
    }
}

/// The lines that show what would be committed.
pub open spec fn staged_report(es: Seq<EntryView>) -> Seq<Seq<char>> {
    let staged = staged_entries(es);
    if staged.len() == 0 {
        seq!["No changes staged for commit."@, "Use 'helix add <files>' to stage changes."@]
    } else {
        seq!["Changes to be committed:"@, ""@] + staged.map_values(|e: EntryView| staged_line(e))
            + seq![""@, decimal(staged.len()) + " files staged"@]
    }
}

/// The lines that show what would be committed.
pub fn show_staged(index: &HelixIndexData) -> (r: Vec<String>)
    ensures
        texts(r@) == staged_report(index.es()),
{
    let staged = collect_staged(&index.data.entries);
    let mut r: Vec<String> = Vec::new();
    let ghost ss = entry_views(staged@);
    assert(ss.len() == staged@.len());
    if staged.len() == 0 {
        r.push("No changes staged for commit.".to_owned());
        r.push("Use 'helix add <files>' to stage changes.".to_owned());
        assert(texts(r@) =~= staged_report(index.es()));
        return r;
    }
    r.push("Changes to be committed:".to_owned());
    r.push("".to_owned());
    let ghost head = texts(r@);
    let ghost body = ss.map_values(|e: EntryView| staged_line(e));
    assert(head =~= seq!["Changes to be committed:"@, ""@]);
    let mut i: usize = 0;
    assert(texts(r@) =~= head + body.subrange(0, 0));
    while i < staged.len()
        invariant
            i <= staged.len(),
            ss == entry_views(staged@),
            body == ss.map_values(|e: EntryView| staged_line(e)),
            texts(r@) == head + body.subrange(0, i as int),
        decreases staged.len() - i,
    {
        let ghost before = texts(r@);
        let e = &staged[i];
        let mut line: String = if e.flags.contains(EntryFlags::TRACKED) && !e.flags.contains(
            EntryFlags::MODIFIED,
        ) {
            "  new file:   ".to_owned()
        } else {
            "  modified:   ".to_owned()
        };
        line.append(e.path.as_str());
        assert(line@ == body[i as int]);
        r.push(line);
        assert(texts(r@) =~= before.push(line@));
        assert(body.subrange(0, i + 1) =~= body.subrange(0, i as int).push(body[i as int]));
        assert(texts(r@) =~= head + body.subrange(0, i + 1));
        i += 1;
    }
    assert(body.subrange(0, i as int) =~= body);
    let ghost before = texts(r@);
    r.push("".to_owned());
    let mut line: String = decimal_of(staged.len() as u64);
    line.append(" files staged");
    r.push(line);
    assert(texts(r@) =~= before + seq![""@, line@]);
    r
}

/// After a commit nothing is staged.
pub proof fn nothing_staged_after_commit(es: Seq<EntryView>)
    ensures
        staged_entries(none_staged(es)).len() == 0,
    decreases es.len(),
{
    if es.len() > 0 {
        nothing_staged_after_commit(es.drop_last());
        assert(none_staged(es).drop_last() =~= none_staged(es.drop_last()));
        let b = es.last().flags.bits;
        assert((b & !2u32) & 2u32 != 2u32) by (bit_vector);
    }
}

/// A second commit right after the first is refused, unless it may be empty.
pub proof fn second_commit_is_refused(
    m: Objects,
    refs: Refs,
    es: Seq<EntryView>,
    native: bool,
    o: CommitOptions,
    config: Result<UserConfig, String>,
    environment: UserConfig,
    now: u64,
)
    requires
        trim_spec(o.message@).len() > 0,
        !o.allow_empty,
    ensures
        draft(m, refs, none_staged(es), native, o, config, environment, now) == Err::<Draft, CommitRefusal>(
            CommitRefusal::NothingStaged,
        ),
{
    nothing_staged_after_commit(es);
}

/// A commit is the current one afterwards; reading it gives it back, and reading
/// its tree gives exactly the files that were staged. This holds where no object
/// that is written clashes with another, and every length fits in its field.
pub proof fn commit_records_staged_files(
    m: Objects,
    refs: Refs,
    es: Seq<EntryView>,
    native: bool,
    o: CommitOptions,
    config: Result<UserConfig, String>,
    environment: UserConfig,
    now: u64,
)
    requires
        draft(m, refs, es, native, o, config, environment, now) is Ok,
        no_clash(m, files_of(staged_entries(es))),
        files_storable(files_of(staged_entries(es))),
        ({
            let d = draft(m, refs, es, native, o, config, environment, now)->Ok_0;
            let key = (ObjectType::Commit, blake3_digest(commit_bytes(d.commit))@);
            &&& commit_storable(d.commit)
            &&& d.store.contains_key(key) ==> d.store[key] == commit_bytes(d.commit)
        }),
    ensures
        ({
            let d = draft(m, refs, es, native, o, config, environment, now)->Ok_0;
            let id = blake3_digest(commit_bytes(d.commit))@;
            let after = put_object(d.store, ObjectType::Commit, commit_bytes(d.commit));
            &&& head_commit(with_head_commit(refs, hex_text(id))) == Ok::<Seq<u8>, HeadFault>(id)
            &&& commit_at(after, id) == Ok::<CommitView, ReadFault>(
                (CommitView { commit_hash: id, ..d.commit }),
            )
            &&& tree_files(after, d.commit.tree_hash) is Ok
            &&& forall|g: FileView| #[trigger]
                tree_files(after, d.commit.tree_hash)->Ok_0.contains(g) <==> files_of(
                    staged_entries(es),
                ).contains(g)
        }),
{
    let d = draft(m, refs, es, native, o, config, environment, now)->Ok_0;
    let bytes = commit_bytes(d.commit);
    let id = blake3_digest(bytes)@;
    let fs = files_of(staged_entries(es));
    let after = put_object(d.store, ObjectType::Commit, bytes);
    head_round_trip(refs, id);
    stored_commit_round_trip(d.store, d.commit);
    written_trees_are_held(m, fs);
    lemma_holds_extends(d.store, after, fs);
    snapshot_reads_back(after, fs);
}

} // verus!
