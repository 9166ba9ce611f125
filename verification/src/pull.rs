//! Fetching objects: each is stored as it comes in, and only what is kept of the
//! remote is updated.
use vstd::prelude::*;
use vstd::string::*;

use crate::hash::{blake3_digest, hash_bytes, hash_eq, hash_to_hex, hex_text, ObjectId};
use crate::object_store::{ObjectStore, ObjectType, Objects};
use crate::push_command::{with_tracking, write_remote_tracking};
use crate::refs::RefStore;
use crate::rpc::{message_views, Message, RpcMessage};
use crate::text::{decimal, decimal_of};

verus! {

/// Why a fetch fails.
#[derive(Debug, Clone, PartialEq, Eq)]
pub enum FetchError {
    HashMismatch,
    /// The server answered with an error.
    Server(u32, String),
    /// The server answered with another message.
    Unexpected,
    /// There is no further message.
    Unreadable,
    /// The request itself failed.
    Http,
}

/// Why a fetch fails, with texts as characters.
pub enum FetchFault {
    HashMismatch,
    Server(u32, Seq<char>),
    Unexpected,
    Unreadable,
    Http,
}

impl View for FetchError {
    type V = FetchFault;

    open spec fn view(&self) -> FetchFault {
        match *self {
            FetchError::HashMismatch => FetchFault::HashMismatch,
            FetchError::Server(c, t) => FetchFault::Server(c, t@),
            FetchError::Unexpected => FetchFault::Unexpected,
            FetchError::Unreadable => FetchFault::Unreadable,
            FetchError::Http => FetchFault::Http,
        }
    }
}

/// What the messages from `at` on do to a store, how many objects came in all
/// when `n` came before, and which commit the server has.
pub open spec fn fetched(ms: Seq<Message>, at: int, m: Objects, n: nat) -> (
    Objects,
    Result<(nat, ObjectId), FetchFault>,
)
    decreases ms.len() - at,
{
    if at < 0 || at >= ms.len() {
        (m, Err(FetchFault::Unreadable))
    } else {
        match ms[at] {
            Message::PullObject(o) => if blake3_digest(o.2)@ == o.1 {
                fetched(ms, at + 1, m.insert((o.0, o.1), o.2), n + 1)
            } else {
                (m, Err(FetchFault::HashMismatch))
            },
            Message::PullDone => fetched(ms, at + 1, m, n),
            Message::PullAck(a) => (m, Ok((n, a.new_remote_head))),
            Message::Error(c, t) => (m, Err(FetchFault::Server(c, t))),
            _ => (m, Err(FetchFault::Unexpected)),
        }
    }
}

/// Takes the messages of a fetch into the store.
fn fetch_objects(store: &mut ObjectStore, messages: &Vec<RpcMessage>) -> (r: Result<
    (usize, ObjectId),
    FetchError,
>)
    requires
        old(store).wf(),
    ensures
        final(store).wf(),
        ({
            let (m, f) = fetched(message_views(messages@), 0, old(store)@, 0);
            &&& final(store)@ == m
            &&& match f {
                Ok((n, h)) => r matches Ok(p) && p.0 == n && p.1 == h,
                Err(f) => r matches Err(e) && e@ == f,
            }
        }),
{
    let ghost ms = message_views(messages@);
    let ghost all = fetched(ms, 0, store@, 0);
    let mut n: usize = 0;
    let mut i: usize = 0;
    while i < messages.len()
        invariant
            i <= messages.len(),
            n <= i,
            store.wf(),
            ms == message_views(messages@),
            all == fetched(ms, 0, old(store)@, 0),
            all == fetched(ms, i as int, store@, n as nat),
        decreases messages.len() - i,
    {
        assert(ms[i as int] == messages@[i as int]@);
        match &messages[i] {
            RpcMessage::PullObject(o) => {
                let computed = hash_bytes(o.data.as_slice());
                proof {
                    if computed@ == o.hash@ {
                        assert(computed =~= o.hash);
                    }
                }
                if !hash_eq(&computed, &o.hash) {
                    return Err(FetchError::HashMismatch);
                }
                let data = o.data.clone();
                let ghost m = store@;
                store.delete_object(o.kind, &o.hash);
                store.write_object_with_hash(o.kind, &o.hash, data);
                assert(store@ =~= m.insert((o.kind, o.hash@), data@));
                n += 1;
            },
            RpcMessage::PullDone => {},
            RpcMessage::PullAck(a) => {
                return Ok((n, a.new_remote_head));
            },
            RpcMessage::Error(code, text) => {
                return Err(FetchError::Server(*code, text.clone()));
            },
            _ => {
                return Err(FetchError::Unexpected);
            },
        }
        i += 1;
    }
    Err(FetchError::Unreadable)
}

/// Takes the answer to a fetch: objects are stored as they come, and where all
/// went well the commit of the server is kept. `succeeded` tells whether the
/// request itself did.
pub fn finish_fetch(
    store: &mut ObjectStore,
    refs: &mut RefStore,
    messages: &Vec<RpcMessage>,
    succeeded: bool,
    remote_name: &str,
    branch: &str,
) -> (r: Result<String, FetchError>)
    requires
        old(store).wf(),
        old(refs).wf(),
    ensures
        final(store).wf(),
        final(refs).wf(),
        ({
            let (m, f) = fetched(message_views(messages@), 0, old(store)@, 0);
            &&& final(store)@ == m
            &&& match f {
                Ok((n, h)) => if succeeded {
                    &&& final(refs)@ == with_tracking(old(refs)@, remote_name@, branch@, h@)
                    &&& r matches Ok(s)
                    &&& s@ == "Fetched "@ + decimal(n) + " objects; updated remotes/"@
                        + remote_name@ + "/"@ + branch@ + " -> "@ + hex_text(h@)
                } else {
                    r == Err::<String, FetchError>(FetchError::Http) && final(refs)@ == old(refs)@
                },
                Err(f) => r matches Err(e) && e@ == f && final(refs)@ == old(refs)@,
            }
        }),
{
    let (n, head) = match fetch_objects(store, messages) {
        Ok(p) => p,
        Err(e) => return Err(e),
    };
    if !succeeded {
        return Err(FetchError::Http);
    }
    write_remote_tracking(refs, remote_name, branch, &head);
    let mut line: String = "Fetched ".to_owned();
    line.append(decimal_of(n as u64).as_str());
    line.append(" objects; updated remotes/");
    line.append(remote_name);
    line.append("/");
    line.append(branch);
    line.append(" -> ");
    line.append(hash_to_hex(&head).as_str());
    Ok(line)
}

/// The directory of the objects of one kind.
pub open spec fn object_dir(kind: ObjectType) -> Seq<char> {
    match kind {
        ObjectType::Blob => "blobs"@,
        ObjectType::Tree => "trees"@,
        ObjectType::Commit => "commits"@,
    }
}

/// The path of the file of an object below the directory of the repository.
pub fn object_path(kind: ObjectType, hash: &ObjectId) -> (r: String)
    ensures
        r@ == ".helix/objects/"@ + object_dir(kind) + "/"@ + hex_text(hash@),
{
    let mut r: String = ".helix/objects/".to_owned();
    r.append(
        match kind {
            ObjectType::Blob => "blobs",
            ObjectType::Tree => "trees",
            ObjectType::Commit => "commits",
        },
    );
    r.append("/");
    r.append(hash_to_hex(hash).as_str());
    r
}

} // verus!
