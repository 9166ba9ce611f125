//! Asking a server what it has before a push.
use vstd::prelude::*;
use vstd::string::*;

use crate::codec::zeros;
use crate::hash::{hash_to_hex, hex_text, zero_hash, ObjectId};
use crate::rpc::{message_views, Message, PushRequest, RpcMessage};
use crate::text::{concat, decimal, decimal_of, repeat, repeated};

verus! {

/// The version that the client names.
pub const CLIENT_VERSION: &'static str = "helix-cli";

/// Why a handshake fails.
#[derive(Debug, Clone, PartialEq, Eq)]
pub enum HandshakeError {
    /// The server answered with an error.
    Remote(u32, String),
    /// The server answered with another message.
    Unexpected,
}

impl HandshakeError {
    /// The error in words.
    pub fn message(&self) -> (r: String)
        ensures
            r@ == (match *self {
                HandshakeError::Remote(code, text) => "Remote error "@ + decimal(code as nat)
                    + " during handshake: "@ + text@,
                HandshakeError::Unexpected => "Unexpected response during handshake"@,
            }),
    {
        match self {
            HandshakeError::Remote(code, text) => {
                let mut r: String = concat("Remote error ", decimal_of(*code as u64).as_str());
                r.append(" during handshake: ");
                r.append(text.as_str());
                r
            },
            HandshakeError::Unexpected => "Unexpected response during handshake".to_owned(),
        }
    }
}

/// What a handshake gives: the commit that the reference names on the server, and
/// what is said of it.
#[derive(Debug, Clone, PartialEq, Eq)]
pub struct Handshake {
    pub remote_head: Option<ObjectId>,
    pub line: String,
}

/// The commit to name where there is none.
pub open spec fn or_zero(h: Option<ObjectId>) -> Seq<u8> {
    match h {
        Some(h) => h@,
        None => zeros(32),
    }
}

/// The commit to name where there is none.
pub fn target_or_zero(h: Option<ObjectId>) -> (r: ObjectId)
    ensures
        r@ == or_zero(h),
{
    match h {
        Some(h) => h,
        None => zero_hash(),
    }
}

/// The messages that announce a push.
pub open spec fn announcement(
    repo: Seq<char>,
    ref_name: Seq<char>,
    new_target: ObjectId,
    old_target: Option<ObjectId>,
) -> Seq<Message> {
    seq![
        Message::Hello("helix-cli"@),
        Message::PushRequest {
            repo,
            ref_name,
            old_target: or_zero(old_target),
            new_target: new_target@,
        },
    ]
}

/// The messages that announce a push: the version of the client, and what the
/// reference is to name. A reference that is new to the client has an old target
/// of zeros.
pub fn handshake_request(
    repo_name: &str,
    ref_name: &str,
    new_target: ObjectId,
    old_target: Option<ObjectId>,
) -> (r: Vec<RpcMessage>)
    ensures
        message_views(r@) == announcement(repo_name@, ref_name@, new_target, old_target),
{
    let mut r: Vec<RpcMessage> = Vec::new();
    r.push(RpcMessage::Hello(CLIENT_VERSION.to_owned()));
    r.push(
        RpcMessage::PushRequest(
            PushRequest {
                repo: repo_name.to_owned(),
                ref_name: ref_name.to_owned(),
                old_target: target_or_zero(old_target),
                new_target,
            },
        ),
    );
    assert(message_views(r@) =~= announcement(repo_name@, ref_name@, new_target, old_target));
    r
}

/// The hash that is shown for the commit of a server, zeros where it has none.
pub open spec fn shown_head(h: Option<ObjectId>) -> Seq<char> {
    match h {
        Some(h) => hex_text(h@),
        None => repeated('0', 64),
    }
}

/// What the answer to a handshake means.
pub fn handshake_reply(reply: RpcMessage) -> (r: Result<Handshake, HandshakeError>)
    ensures
        match reply@ {
            Message::PushResponse(head) => r matches Ok(h) && h.remote_head == head && h.line@
                == "Connected to the server!\nServer is currently at: "@ + shown_head(head),
            Message::Error(code, text) => r matches Err(HandshakeError::Remote(c, t)) && c == code
                && t@ == text,
            _ => r matches Err(HandshakeError::Unexpected),
        },
{
    match reply {
        RpcMessage::PushResponse(head) => {
            let shown = match &head {
                Some(h) => hash_to_hex(h),
                None => repeat('0', 64),
            };
            let mut line: String = "Connected to the server!\nServer is currently at: ".to_owned();
            line.append(shown.as_str());
            Ok(Handshake { remote_head: head, line })
        },
        RpcMessage::Error(code, text) => Err(HandshakeError::Remote(code, text)),
        _ => Err(HandshakeError::Unexpected),
    }
}

} // verus!
