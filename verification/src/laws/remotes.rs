//! Where a remote is, and what is kept of it.
use vstd::prelude::*;
use vstd::string::*;

use crate::handshake::announcement;
use crate::hash::ObjectId;
use crate::pull_command::pull_messages;
use crate::push_command::{
    is_last_known, remote_and_ref, tracking_ref, with_tracking, RemoteFault, RemotesConfig,
};
use crate::refs::{lemma_hash_line_reads_back, ref_key, Refs};
use crate::rpc::Message;

verus! {

/// The address of a remote stands in the section of remotes under its name with `_push` behind
/// it, and a branch has its reference below `refs/heads/`.
pub proof fn remotes_are_found_by_name(config: RemotesConfig, remote: Seq<char>, branch: Seq<char>)
    ensures
        remote_and_ref(None, remote, branch) is Err,
        config.remotes is None ==> remote_and_ref(Some(config), remote, branch) is Err,
        ({
            let key = remote + seq!['_', 'p', 'u', 's', 'h'];
            config.remotes matches Some(m) ==> {
                &&& m@.contains_key(key) ==> remote_and_ref(Some(config), remote, branch) == Ok::<
                    (Seq<char>, Seq<char>),
                    RemoteFault,
                >((m@[key]@, crate::laws::branching::place_of(branch)))
                &&& !m@.contains_key(key) ==> remote_and_ref(Some(config), remote, branch) == Err::<
                    (Seq<char>, Seq<char>),
                    RemoteFault,
                >(RemoteFault::UnknownRemote(remote))
            }
        }),
{
    reveal_strlit("_push");
    reveal_strlit("refs/heads/");
    assert("_push"@ =~= seq!['_', 'p', 'u', 's', 'h']);
    assert("refs/heads/"@ =~= seq!['r', 'e', 'f', 's', '/', 'h', 'e', 'a', 'd', 's', '/']);
}

/// What a remote has of a branch is kept below `refs/remotes/`, under both names, and is known
/// from then on; nothing else changes.
pub proof fn remotes_are_remembered(
    r: Refs,
    remote: Seq<char>,
    branch: Seq<char>,
    target: ObjectId,
    h: Option<ObjectId>,
)
    ensures
        tracking_ref(remote, branch) == seq![
            'r', 'e', 'f', 's', '/', 'r', 'e', 'm', 'o', 't', 'e', 's', '/',
        ] + remote + seq!['/'] + branch,
        ({
            let now = with_tracking(r, remote, branch, target@);
            &&& is_last_known(now, remote, branch, h) <==> h == Some(target)
            &&& now.head == r.head && now.upstreams == r.upstreams
            &&& forall|k: Seq<char>|
                k != ref_key(tracking_ref(remote, branch)) ==> (#[trigger] now.refs.contains_key(k)
                    <==> r.refs.contains_key(k)) && (r.refs.contains_key(k) ==> now.refs[k]
                    == r.refs[k])
        }),
        !r.refs.contains_key(ref_key(tracking_ref(remote, branch))) ==> (is_last_known(
            r,
            remote,
            branch,
            h,
        ) <==> h is None),
{
    reveal_strlit("refs/remotes/");
    reveal_strlit("/");
    assert("refs/remotes/"@ =~= seq![
        'r', 'e', 'f', 's', '/', 'r', 'e', 'm', 'o', 't', 'e', 's', '/',
    ]);
    assert("/"@ =~= seq!['/']);
    lemma_hash_line_reads_back(target@);
    if let Some(id) = h {
        assert(id@ == target@ ==> id =~= target);
    }
}

/// The words of this program to a server: `helix-cli`.
pub open spec fn own_name() -> Seq<char> {
    seq!['h', 'e', 'l', 'i', 'x', '-', 'c', 'l', 'i']
}

/// A push announces the repository, the reference, the commit that it is to have and the one
/// that it had, or zeros; a pull asks for a reference of a repository, and says what of it is
/// known.
pub proof fn requests_name_what_they_want(
    repo: Seq<char>,
    name: Seq<char>,
    new_target: ObjectId,
    known: Option<ObjectId>,
)
    ensures
        pull_messages(repo, name, known).len() == 2,
        pull_messages(repo, name, known)[0] == Message::Hello(own_name()),
        pull_messages(repo, name, known)[1] == (Message::PullRequest {
            repo,
            ref_name: name,
            last_known_remote: known,
        }),
        announcement(repo, name, new_target, known).len() == 2,
        announcement(repo, name, new_target, known)[0] == Message::Hello(own_name()),
        announcement(repo, name, new_target, known)[1] == (Message::PushRequest {
            repo,
            ref_name: name,
            old_target: match known {
                Some(h) => h@,
                None => Seq::new(32, |i: int| 0u8),
            },
            new_target: new_target@,
        }),
{
    reveal_strlit("helix-cli");
    assert("helix-cli"@ =~= own_name());
}

} // verus!
