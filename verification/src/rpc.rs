//! The messages between a repository and a remote server.
use vstd::prelude::*;
use vstd::string::*;

use crate::hash::ObjectId;
use crate::object_store::{ObjectType, StoredObject};

verus! {

/// A message. How a message is put into bytes is left to the transport.
#[derive(Debug)]
pub enum RpcMessage {
    /// The version of the client.
    Hello(String),
    PushRequest(PushRequest),
    /// The commit that the reference names on the server.
    PushResponse(Option<ObjectId>),
    PushObject(StoredObject),
    PushDone,
    /// How many objects were received.
    PushAck(u64),
    PullRequest(PullRequest),
    PullObject(StoredObject),
    PullDone,
    PullAck(PullAck),
    /// The code and the text of an error.
    Error(u32, String),
}

/// That a reference is to name another commit.
#[derive(Debug, Clone, PartialEq, Eq)]
pub struct PushRequest {
    pub repo: String,
    pub ref_name: String,
    pub old_target: ObjectId,
    pub new_target: ObjectId,
}

/// That the objects of a reference are wanted.
#[derive(Debug, Clone, PartialEq, Eq)]
pub struct PullRequest {
    pub repo: String,
    pub ref_name: String,
    pub last_known_remote: Option<ObjectId>,
}

/// What a server says at the end of a pull.
#[derive(Debug, Clone, Copy, PartialEq, Eq)]
pub struct PullAck {
    pub sent_objects: u64,
    pub new_remote_head: ObjectId,
    pub up_to_date: bool,
}

/// An object: what it is, its hash and its bytes.
pub type ObjectView = (ObjectType, Seq<u8>, Seq<u8>);

pub open spec fn object_view(o: StoredObject) -> ObjectView {
    (o.kind, o.hash@, o.data@)
}

pub open spec fn object_views(v: Seq<StoredObject>) -> Seq<ObjectView> {
    Seq::new(v.len(), |i: int| object_view(v[i]))
}

/// A message, with texts as characters.
pub enum Message {
    Hello(Seq<char>),
    PushRequest { repo: Seq<char>, ref_name: Seq<char>, old_target: Seq<u8>, new_target: Seq<u8> },
    PushResponse(Option<ObjectId>),
    PushObject(ObjectView),
    PushDone,
    PushAck(u64),
    PullRequest { repo: Seq<char>, ref_name: Seq<char>, last_known_remote: Option<ObjectId> },
    PullObject(ObjectView),
    PullDone,
    PullAck(PullAck),
    Error(u32, Seq<char>),
}

impl View for RpcMessage {
    type V = Message;

    open spec fn view(&self) -> Message {
        match *self {
            RpcMessage::Hello(s) => Message::Hello(s@),
            RpcMessage::PushRequest(p) => Message::PushRequest {
                repo: p.repo@,
                ref_name: p.ref_name@,
                old_target: p.old_target@,
                new_target: p.new_target@,
            },
            RpcMessage::PushResponse(h) => Message::PushResponse(h),
            RpcMessage::PushObject(o) => Message::PushObject(object_view(o)),
            RpcMessage::PushDone => Message::PushDone,
            RpcMessage::PushAck(n) => Message::PushAck(n),
            RpcMessage::PullRequest(p) => Message::PullRequest {
                repo: p.repo@,
                ref_name: p.ref_name@,
                last_known_remote: p.last_known_remote,
            },
            RpcMessage::PullObject(o) => Message::PullObject(object_view(o)),
            RpcMessage::PullDone => Message::PullDone,
            RpcMessage::PullAck(a) => Message::PullAck(a),
            RpcMessage::Error(c, s) => Message::Error(c, s@),
        }
    }
}

pub open spec fn message_views(v: Seq<RpcMessage>) -> Seq<Message> {
    Seq::new(v.len(), |i: int| v[i]@)
}

} // verus!
