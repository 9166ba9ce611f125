//! Receiving the commits of a branch from a remote server.
use vstd::prelude::*;
use vstd::string::*;

use crate::hash::{blake3_digest, hash_bytes, hash_eq, hash_to_hex, hex_text, ObjectId};
use crate::object_store::{ObjectStore, ObjectType, Objects, StoredObject};
use crate::push_command::{
    is_last_known, last_known, ref_target, remote_and_ref, remote_fault_text,
    resolve_remote_and_ref, shown_target, show_target, tracking_ref, with_tracking, write_remote_tracking, RefFault, RemoteError,
    RemotesConfig,
};
use crate::refs::{RefStore, Refs};
use crate::rpc::{
    message_views, object_view, object_views, Message, ObjectView, PullAck, PullRequest, RpcMessage,
};
use crate::text::{
    concat, decimal, decimal_of, from_chars, push_line, text_of, texts, to_chars,
};

verus! {

/// How to pull.
#[derive(Debug, Clone, Copy, PartialEq, Eq)]
pub struct PullOptions {
    pub verbose: bool,
    pub dry_run: bool,
}

impl Default for PullOptions {
    fn default() -> (o: PullOptions)
        ensures
            !o.verbose && !o.dry_run,
    {
        PullOptions { verbose: false, dry_run: false }
    }
}

/// Why a pull fails.
#[derive(Debug, Clone, PartialEq, Eq)]
pub enum PullError {
    NotARepository,
    Remote(RemoteError),
    /// An object does not have the hash that it was sent under; the hash it has
    /// comes second.
    HashMismatch(ObjectId, ObjectId),
    /// The server says that it sent objects, before it said that it was done.
    EarlyAck,
    /// The server answered with an error.
    Server(u32, String),
    /// The server answered with another message.
    Unexpected,
    /// There is no further message.
    Unreadable,
}

/// An error in words, where they do not show a whole message or why one cannot be read.
pub open spec fn pull_error_text(e: PullError) -> Option<Seq<char>> {
    match e {
        PullError::NotARepository => Some("Not a Helix repo (no .helix directory)"@),
        PullError::Remote(f) => Some(remote_fault_text(f@)),
        PullError::HashMismatch(a, b) => Some(
            "Hash mismatch: expected "@ + hex_text(a@) + ", got "@ + hex_text(b@),
        ),
        PullError::EarlyAck => Some("Unexpected PullAck before PullDone"@),
        PullError::Server(code, text) => Some(
            "Server error: "@ + decimal(code as nat) + " - "@ + text@,
        ),
        PullError::Unexpected | PullError::Unreadable => None,
    }
}

impl PullError {
    /// The error in words, where they do not show a whole message or why one cannot be
    /// read.
    pub fn message(&self) -> (r: Option<String>)
        ensures
            text_of(r) == pull_error_text(*self),
    {
        match self {
            PullError::NotARepository =>
                Some("Not a Helix repo (no .helix directory)".to_owned()),
            PullError::Remote(f) => Some(f.message()),
            PullError::HashMismatch(a, b) => {
                let mut r: String = concat("Hash mismatch: expected ", hash_to_hex(a).as_str());
                r.append(", got ");
                r.append(hash_to_hex(b).as_str());
                Some(r)
            },
            PullError::EarlyAck => Some("Unexpected PullAck before PullDone".to_owned()),
            PullError::Server(code, text) => {
                let mut r: String = concat("Server error: ", decimal_of(*code as u64).as_str());
                r.append(" - ");
                r.append(text.as_str());
                Some(r)
            },
            PullError::Unexpected | PullError::Unreadable => None,
        }
    }
}

/// Why a pull fails once the server has answered, with texts as characters.
pub enum PullFault {
    HashMismatch(Seq<u8>, Seq<u8>),
    EarlyAck,
    Server(u32, Seq<char>),
    Unexpected,
    Unreadable,
}

/// Whether an error is this fault.
pub open spec fn is_pull_fault(e: PullError, f: PullFault) -> bool {
    match f {
        PullFault::HashMismatch(a, b) => e matches PullError::HashMismatch(c, d) && c@ == a && d@
            == b,
        PullFault::EarlyAck => e == PullError::EarlyAck,
        PullFault::Server(c, t) => e matches PullError::Server(d, s) && d == c && s@ == t,
        PullFault::Unexpected => e == PullError::Unexpected,
        PullFault::Unreadable => e == PullError::Unreadable,
    }
}

/// What a pull starts from.
#[derive(Debug)]
pub struct PullStart {
    pub remote_url: String,
    pub ref_name: String,
    pub lines: Vec<String>,
    /// What is sent to the server; nothing on a dry run.
    pub request: Option<Vec<RpcMessage>>,
}

/// What is said at the start of a pull.
pub open spec fn pull_lines(
    remote: Seq<char>,
    branch: Seq<char>,
    url: Seq<char>,
    ref_name: Seq<char>,
    known: Option<ObjectId>,
    options: PullOptions,
) -> Seq<Seq<char>> {
    let said = if options.verbose {
        seq![
            "Pulling "@ + ref_name + " from "@ + remote + " at "@ + url,
            "  last_known_remote = "@ + shown_target(known),
        ]
    } else {
        Seq::empty()
    };
    if options.dry_run {
        said.push("(dry run) Would pull from "@ + remote + "/"@ + branch)
    } else {
        said
    }
}

/// The messages that ask for the objects of a branch.
pub open spec fn pull_messages(
    repo: Seq<char>,
    ref_name: Seq<char>,
    known: Option<ObjectId>,
) -> Seq<Message> {
    seq![
        Message::Hello("helix-cli"@),
        Message::PullRequest { repo, ref_name, last_known_remote: known },
    ]
}

/// Starts a pull: finds the server, and says what to ask it for. `repo_name` is
/// the name of the repository for the server.
pub fn start_pull(
    has_helix_dir: bool,
    config: &Option<RemotesConfig>,
    refs: &RefStore,
    repo_name: &str,
    remote_name: &str,
    branch: &str,
    options: PullOptions,
) -> (r: Result<PullStart, PullError>)
    requires
        refs.wf(),
        config matches Some(c) ==> c.wf(),
    ensures
        !has_helix_dir ==> r == Err::<PullStart, PullError>(PullError::NotARepository),
        has_helix_dir ==> match remote_and_ref(*config, remote_name@, branch@) {
            Err(f) => r matches Err(PullError::Remote(e)) && e@ == f,
            Ok((url, ref_name)) => {
                &&& r matches Ok(s)
                &&& s.remote_url@ == url
                &&& s.ref_name@ == ref_name
                &&& exists|known: Option<ObjectId>|
                    {
                        &&& #[trigger] is_last_known(refs@, remote_name@, branch@, known)
                        &&& texts(s.lines@) == pull_lines(
                            remote_name@,
                            branch@,
                            url,
                            ref_name,
                            known,
                            options,
                        )
                        &&& match s.request {
                            Some(ms) => !options.dry_run && message_views(ms@) == pull_messages(
                                repo_name@,
                                ref_name,
                                known,
                            ),
                            None => options.dry_run,
                        }
                    }
            },
        },
{
    if !has_helix_dir {
        return Err(PullError::NotARepository);
    }
    let (remote_url, ref_name) = match resolve_remote_and_ref(config, remote_name, branch) {
        Ok(p) => p,
        Err(e) => return Err(PullError::Remote(e)),
    };
    let known = last_known(refs, remote_name, branch);
    let mut lines: Vec<String> = Vec::new();
    if options.verbose {
        let mut line: String = "Pulling ".to_owned();
        line.append(ref_name.as_str());
        line.append(" from ");
        line.append(remote_name);
        line.append(" at ");
        line.append(remote_url.as_str());
        lines.push(line);
        lines.push(concat("  last_known_remote = ", show_target(&known).as_str()));
    }
    let mut request: Option<Vec<RpcMessage>> = None;
    if options.dry_run {
        let mut line: String = "(dry run) Would pull from ".to_owned();
        line.append(remote_name);
        line.append("/");
        line.append(branch);
        lines.push(line);
    } else {
        let mut ms: Vec<RpcMessage> = Vec::new();
        ms.push(RpcMessage::Hello("helix-cli".to_owned()));
        ms.push(
            RpcMessage::PullRequest(
                PullRequest {
                    repo: repo_name.to_owned(),
                    ref_name: ref_name.clone(),
                    last_known_remote: known,
                },
            ),
        );
        assert(message_views(ms@) =~= pull_messages(repo_name@, ref_name@, known));
        request = Some(ms);
    }
    proof {
        assert(texts(lines@) =~= pull_lines(
            remote_name@,
            branch@,
            remote_url@,
            ref_name@,
            known,
            options,
        ));
        assert(is_last_known(refs@, remote_name@, branch@, known));
    }
    Ok(PullStart { remote_url, ref_name, lines, request })
}

/// What the first part of an answer to a pull comes to.
pub enum Received {
    /// These objects, and the message behind them is at this place.
    Objects(Seq<ObjectView>, int),
    UpToDate,
    NoCommits,
}

/// What the messages from `at` on come to, when some objects came before: objects
/// up to the message that says that there are no more.
pub open spec fn received(ms: Seq<Message>, at: int, got: Seq<ObjectView>) -> Result<
    Received,
    PullFault,
>
    decreases ms.len() - at,
{
    if at < 0 || at >= ms.len() {
        Err(PullFault::Unreadable)
    } else {
        match ms[at] {
            Message::PullObject(o) => if blake3_digest(o.2)@ == o.1 {
                received(ms, at + 1, got.push(o))
            } else {
                Err(PullFault::HashMismatch(o.1, blake3_digest(o.2)@))
            },
            Message::PullDone => Ok(Received::Objects(got, at + 1)),
            Message::PullAck(a) => if a.up_to_date {
                Ok(Received::UpToDate)
            } else if a.sent_objects == 0 {
                Ok(Received::NoCommits)
            } else {
                Err(PullFault::EarlyAck)
            },
            Message::Error(c, t) => Err(PullFault::Server(c, t)),
            _ => Err(PullFault::Unexpected),
        }
    }
}

/// The commit that the server has, by the message behind the objects.
pub open spec fn final_ack(ms: Seq<Message>, at: int) -> Result<PullAck, PullFault> {
    if at < 0 || at >= ms.len() {
        Err(PullFault::Unreadable)
    } else {
        match ms[at] {
            Message::PullAck(a) => Ok(a),
            Message::Error(c, t) => Err(PullFault::Server(c, t)),
            _ => Err(PullFault::Unexpected),
        }
    }
}

/// What a store holds after objects were received: one that is there is kept.
pub open spec fn put_received(m: Objects, os: Seq<ObjectView>) -> Objects
    decreases os.len(),
{
    if os.len() == 0 {
        m
    } else {
        let before = put_received(m, os.drop_last());
        let o = os.last();
        if before.contains_key((o.0, o.1)) {
            before
        } else {
            before.insert((o.0, o.1), o.2)
        }
    }
}

/// The references after a pull: the branch and what is kept of the remote both
/// name the commit of the server.
pub open spec fn with_pulled(
    r: Refs,
    remote: Seq<char>,
    branch: Seq<char>,
    ref_name: Seq<char>,
    head: Seq<u8>,
) -> Refs {
    let t = with_tracking(r, remote, branch, head);
    t.with(ref_name, hex_text(head) + "\n"@)
}

/// What is said while `n` objects come in: something at each hundred.
pub open spec fn progress_lines(n: nat) -> Seq<Seq<char>>
    decreases n,
{
    if n == 0 {
        Seq::empty()
    } else if n % 100 == 0 {
        progress_lines((n - 1) as nat).push("  Received "@ + decimal(n) + " objects..."@)
    } else {
        progress_lines((n - 1) as nat)
    }
}

/// How many objects come from the message at `at` on, each with the hash that it was sent
/// under, before another message.
pub open spec fn objects_from(ms: Seq<Message>, at: int) -> nat
    decreases ms.len() - at,
{
    if 0 <= at < ms.len() {
        match ms[at] {
            Message::PullObject(o) => if blake3_digest(o.2)@ == o.1 {
                1 + objects_from(ms, at + 1)
            } else {
                0
            },
            _ => 0,
        }
    } else {
        0
    }
}

/// What is said while `n` objects come.
pub open spec fn receiving_lines(n: nat, verbose: bool) -> Seq<Seq<char>> {
    if verbose {
        progress_lines(n)
    } else {
        Seq::empty()
    }
}

/// What is said once `n` objects have come, up to the last message.
pub open spec fn storing_lines(n: nat, verbose: bool) -> Seq<Seq<char>> {
    if verbose {
        progress_lines(n) + seq![
            "Received PullDone"@,
            "Writing "@ + decimal(n) + " objects to store..."@,
        ]
    } else {
        Seq::empty()
    }
}

/// What is said in a pull that brings objects.
pub open spec fn pulled_lines(
    n: nat,
    ack: PullAck,
    remote: Seq<char>,
    branch: Seq<char>,
    ref_name: Seq<char>,
    verbose: bool,
) -> Seq<Seq<char>> {
    let head = hex_text(ack.new_remote_head@);
    let said = storing_lines(n, verbose) + if verbose {
        seq!["PullAck: "@ + decimal(ack.sent_objects as nat) + " objects, new head: "@ + head]
    } else {
        Seq::empty()
    };
    said + seq![
        "Pulled "@ + decimal(n) + " objects from "@ + remote + "/"@ + branch,
        "Updated "@ + ref_name + " -> "@ + head.subrange(0, 8),
    ]
}

/// Takes the objects from an answer, up to the message that says that there are
/// no more. Each must have the hash that it was sent under.
fn receive_objects(messages: &Vec<RpcMessage>, verbose: bool, lines: &mut Vec<String>) -> (r: Result<
    Option<(Vec<StoredObject>, usize)>,
    Result<String, PullError>,
>)
    ensures
        ({
            let ms = message_views(messages@);
            let all = received(ms, 0, Seq::empty());
            &&& match all {
                Ok(Received::Objects(os, at)) => {
                    &&& r matches Ok(Some((v, i)))
                    &&& object_views(v@) == os
                    &&& os.len() == objects_from(ms, 0)
                    &&& i == at
                    &&& i <= messages@.len()
                },
                Ok(Received::UpToDate) => r matches Err(Ok(s)) && s@ == "Already up to date."@,
                Ok(Received::NoCommits) => r matches Ok(None),
                Err(f) => r matches Err(Err(e)) && is_pull_fault(e, f),
            }
            &&& texts(final(lines)@) == texts(old(lines)@) + receiving_lines(
                objects_from(ms, 0),
                verbose,
            )
        }),
{
    let ghost ms = message_views(messages@);
    let ghost all = received(ms, 0, Seq::empty());
    let ghost start = texts(lines@);
    let mut got: Vec<StoredObject> = Vec::new();
    let mut i: usize = 0;
    proof {
        assert(object_views(got@) =~= Seq::empty());
        assert(texts(lines@) =~= start + receiving_lines(0, verbose));
    }
    while i < messages.len()
        invariant
            i <= messages.len(),
            got@.len() == i,
            ms == message_views(messages@),
            start == texts(old(lines)@),
            all == received(ms, 0, Seq::empty()),
            all == received(ms, i as int, object_views(got@)),
            objects_from(ms, 0) == i + objects_from(ms, i as int),
            texts(lines@) == start + receiving_lines(i as nat, verbose),
        decreases messages.len() - i,
    {
        let ghost before = object_views(got@);
        let ghost said = texts(lines@);
        assert(ms[i as int] == messages@[i as int]@);
        match &messages[i] {
            RpcMessage::PullObject(o) => {
                let computed = hash_bytes(o.data.as_slice());
                proof {
                    if computed@ == o.hash@ {
                        assert(computed =~= o.hash);
                    }
                }
                if !hash_eq(&computed, &o.hash) {
                    return Err(Err(PullError::HashMismatch(o.hash, computed)));
                }
                let data = o.data.clone();
                got.push(StoredObject { kind: o.kind, hash: o.hash, data });
                assert(object_views(got@) =~= before.push(object_view(*o)));
                if verbose && got.len() % 100 == 0 {
                    let mut line: String = "  Received ".to_owned();
                    line.append(decimal_of(got.len() as u64).as_str());
                    line.append(" objects...");
                    push_line(lines, line);
                }
                assert(texts(lines@) =~= start + receiving_lines((i + 1) as nat, verbose));
            },
            RpcMessage::PullDone => {
                return Ok(Some((got, i + 1)));
            },
            RpcMessage::PullAck(a) => {
                if a.up_to_date {
                    return Err(Ok("Already up to date.".to_owned()));
                }
                if a.sent_objects == 0 {
                    return Ok(None);
                }
                return Err(Err(PullError::EarlyAck));
            },
            RpcMessage::Error(code, text) => {
                return Err(Err(PullError::Server(*code, text.clone())));
            },
            _ => {
                return Err(Err(PullError::Unexpected));
            },
        }
        i += 1;
    }
    Err(Err(PullError::Unreadable))
}

/// Writes the objects that are not there.
fn write_received(store: &mut ObjectStore, objects: &Vec<StoredObject>)
    requires
        old(store).wf(),
    ensures
        final(store).wf(),
        final(store)@ == put_received(old(store)@, object_views(objects@)),
{
    let ghost m = store@;
    let ghost os = object_views(objects@);
    let mut i: usize = 0;
    assert(os.subrange(0, 0) =~= Seq::empty());
    while i < objects.len()
        invariant
            i <= objects.len(),
            store.wf(),
            os == object_views(objects@),
            store@ == put_received(m, os.subrange(0, i as int)),
        decreases objects.len() - i,
    {
        proof {
            let t = os.subrange(0, i + 1);
            assert(t.drop_last() =~= os.subrange(0, i as int));
            assert(t.last() == object_view(objects@[i as int]));
        }
        let data = objects[i].data.clone();
        store.write_object_with_hash(objects[i].kind, &objects[i].hash, data);
        i += 1;
    }
    assert(os.subrange(0, i as int) =~= os);
}

/// Takes the answer to a pull. The objects are stored, and then, if the server
/// says which commit it has, the branch and what is kept of the remote both come
/// to name it. On any fault before the end of the objects nothing changes; on one
/// behind it, no reference does. What is to be said is added to `lines`.
pub fn finish_pull(
    store: &mut ObjectStore,
    refs: &mut RefStore,
    messages: &Vec<RpcMessage>,
    ref_name: &str,
    remote_name: &str,
    branch: &str,
    options: PullOptions,
    lines: &mut Vec<String>,
) -> (r: Result<(), PullError>)
    requires
        old(store).wf(),
        old(refs).wf(),
    ensures
        final(store).wf(),
        final(refs).wf(),
        ({
            let ms = message_views(messages@);
            let start = texts(old(lines)@);
            let said = texts(final(lines)@);
            let receiving = receiving_lines(objects_from(ms, 0), options.verbose);
            match received(ms, 0, Seq::empty()) {
                Err(f) => r matches Err(e) && is_pull_fault(e, f) && final(store)@ == old(store)@
                    && final(refs)@ == old(refs)@ && said == start + receiving,
                Ok(Received::UpToDate) => r is Ok && said == start + receiving.push(
                    "Already up to date."@,
                ) && final(store)@ == old(store)@ && final(refs)@ == old(refs)@,
                Ok(Received::NoCommits) => r is Ok && said == start + receiving.push(
                    "Remote branch "@ + branch@ + " has no commits."@,
                ) && final(store)@ == old(store)@ && final(refs)@ == old(refs)@,
                Ok(Received::Objects(os, at)) => {
                    &&& final(store)@ == put_received(old(store)@, os)
                    &&& match final_ack(ms, at) {
                        Err(f) => r matches Err(e) && is_pull_fault(e, f) && final(refs)@ == old(
                            refs,
                        )@ && said == start + storing_lines(os.len(), options.verbose),
                        Ok(ack) => {
                            &&& final(refs)@ == with_pulled(
                                old(refs)@,
                                remote_name@,
                                branch@,
                                ref_name@,
                                ack.new_remote_head@,
                            )
                            &&& r is Ok
                            &&& said == start + pulled_lines(
                                os.len(),
                                ack,
                                remote_name@,
                                branch@,
                                ref_name@,
                                options.verbose,
                            )
                        },
                    }
                },
            }
        }),
{
    let ghost start = texts(lines@);
    let ghost n = objects_from(message_views(messages@), 0);
    let ghost receiving = receiving_lines(n, options.verbose);
    let (objects, at) = match receive_objects(messages, options.verbose, lines) {
        Ok(Some(p)) => p,
        Ok(None) => {
            let mut line: String = "Remote branch ".to_owned();
            line.append(branch);
            line.append(" has no commits.");
            push_line(lines, line);
            assert(texts(lines@) =~= start + receiving.push(line@));
            return Ok(());
        },
        Err(Ok(line)) => {
            push_line(lines, line);
            assert(texts(lines@) =~= start + receiving.push("Already up to date."@));
            return Ok(());
        },
        Err(Err(e)) => return Err(e),
    };
    let count: usize = objects.len();
    let ghost os = object_views(objects@);
    if options.verbose {
        push_line(lines, "Received PullDone".to_owned());
        let mut line: String = "Writing ".to_owned();
        line.append(decimal_of(count as u64).as_str());
        line.append(" objects to store...");
        push_line(lines, line);
    }
    assert(texts(lines@) =~= start + storing_lines(os.len(), options.verbose));
    write_received(store, &objects);
    if at >= messages.len() {
        return Err(PullError::Unreadable);
    }
    assert(message_views(messages@)[at as int] == messages@[at as int]@);
    let ack: PullAck = match &messages[at] {
        RpcMessage::PullAck(a) => *a,
        RpcMessage::Error(code, text) => return Err(PullError::Server(*code, text.clone())),
        _ => return Err(PullError::Unexpected),
    };
    let hex = hash_to_hex(&ack.new_remote_head);
    if options.verbose {
        let mut line: String = "PullAck: ".to_owned();
        line.append(decimal_of(ack.sent_objects).as_str());
        line.append(" objects, new head: ");
        line.append(hex.as_str());
        push_line(lines, line);
    }
    write_remote_tracking(refs, remote_name, branch, &ack.new_remote_head);
    refs.set_ref(ref_name.to_owned(), concat(hex.as_str(), "\n"));
    let mut line: String = "Pulled ".to_owned();
    line.append(decimal_of(count as u64).as_str());
    line.append(" objects from ");
    line.append(remote_name);
    line.append("/");
    line.append(branch);
    push_line(lines, line);
    let mut update: String = "Updated ".to_owned();
    update.append(ref_name);
    update.append(" -> ");
    let chars = to_chars(hex.as_str());
    update.append(from_chars(&chars, 0, 8).as_str());
    push_line(lines, update);
    proof {
        let shown = pulled_lines(os.len(), ack, remote_name@, branch@, ref_name@, options.verbose);
        assert(texts(lines@) =~= start + shown);
    }
    Ok(())
}

/// Whether every object of a store has the hash that it is stored under.
pub open spec fn is_sound(m: Objects) -> bool {
    forall|k: (ObjectType, Seq<u8>)| #[trigger] m.contains_key(k) ==> blake3_digest(m[k])@ == k.1
}

/// Whether each object has the hash that it comes under.
pub open spec fn all_hashed(os: Seq<ObjectView>) -> bool {
    forall|i: int| 0 <= i < os.len() ==> blake3_digest((#[trigger] os[i]).2)@ == os[i].1
}

proof fn lemma_received_sound(ms: Seq<Message>, at: int, got: Seq<ObjectView>)
    requires
        all_hashed(got),
    ensures
        match received(ms, at, got) {
            Ok(Received::Objects(os, _)) => all_hashed(os),
            _ => true,
        },
    decreases ms.len() - at,
{
    if 0 <= at < ms.len() {
        match ms[at] {
            Message::PullObject(o) => {
                if blake3_digest(o.2)@ == o.1 {
                    lemma_received_sound(ms, at + 1, got.push(o));
                }
            },
            _ => {},
        }
    }
}

/// A pull never stores an object under a hash that is not its own.
pub proof fn pulled_store_is_sound(m: Objects, ms: Seq<Message>, os: Seq<ObjectView>, at: int)
    requires
        is_sound(m),
        received(ms, 0, Seq::empty()) == Ok::<Received, PullFault>(Received::Objects(os, at)),
    ensures
        is_sound(put_received(m, os)),
{
    lemma_received_sound(ms, 0, Seq::empty());
    lemma_put_sound(m, os);
}

proof fn lemma_put_sound(m: Objects, os: Seq<ObjectView>)
    requires
        is_sound(m),
        all_hashed(os),
    ensures
        is_sound(put_received(m, os)),
    decreases os.len(),
{
    if os.len() > 0 {
        let d = os.drop_last();
        assert forall|i: int| 0 <= i < d.len() implies blake3_digest((#[trigger] d[i]).2)@
            == d[i].1 by {
            assert(blake3_digest(os[i].2)@ == os[i].1);
        }
        lemma_put_sound(m, d);
        assert(os.last() == os[os.len() - 1]);
    }
}

/// A pull removes and changes no object that was there, and brings every object
/// that was received.
pub proof fn pulling_keeps_objects(m: Objects, os: Seq<ObjectView>)
    ensures
        forall|k: (ObjectType, Seq<u8>)| #[trigger]
            m.contains_key(k) ==> put_received(m, os).contains_key(k) && put_received(m, os)[k]
                == m[k],
        forall|i: int|
            0 <= i < os.len() ==> put_received(m, os).contains_key(
                ((#[trigger] os[i]).0, os[i].1),
            ),
    decreases os.len(),
{
    if os.len() > 0 {
        let d = os.drop_last();
        pulling_keeps_objects(m, d);
        assert forall|i: int| 0 <= i < os.len() implies put_received(m, os).contains_key(
            ((#[trigger] os[i]).0, os[i].1),
        ) by {
            if i < d.len() {
                assert(d[i] == os[i]);
            }
        }
    }
}

/// After a pull the branch and what is kept of the remote name the same commit:
/// the one that the server has.
pub proof fn pulled_branch_is_the_remote(
    r: Refs,
    remote: Seq<char>,
    branch: Seq<char>,
    ref_name: Seq<char>,
    head: ObjectId,
)
    ensures
        ref_target(with_pulled(r, remote, branch, ref_name, head@), ref_name) == Ok::<
            Seq<u8>,
            RefFault,
        >(head@),
        ref_target(
            with_pulled(r, remote, branch, ref_name, head@),
            tracking_ref(remote, branch),
        ) == Ok::<Seq<u8>, RefFault>(head@),
{
    crate::refs::lemma_hash_line_reads_back(head@);
}

} // verus!
