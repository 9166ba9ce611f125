//! What a push and a pull carry from one repository to another.
use vstd::prelude::*;

use crate::commit_graph::is_ancestor;
use crate::exchange::{
    compatible, contents_arrived, had_before, pushed_commits_read_back, pushed_objects_are_pulled,
};
use crate::hash::{blake3_digest, ObjectId};
use crate::helix_index::commit_store::commit_at;
use crate::helix_index::tree_walk::{grounded, tree_files};
use crate::object_store::{object_key, ObjectType, Objects, StoredObject};
use crate::pull_command::{final_ack, put_received, received, with_pulled, PullFault, Received};
use crate::push_command::{are_pushed, push_messages, ref_target, tracking_ref, RefFault};
use crate::refs::Refs;
use crate::rpc::{object_views, Message, ObjectView, PullAck};

verus! {

/// The objects that a server finds in the messages of a push, in the order in which they
/// come.
pub open spec fn pushed_objects(ms: Seq<Message>) -> Seq<ObjectView>
    decreases ms.len(),
{
    if ms.len() == 0 {
        Seq::empty()
    } else {
        let before = pushed_objects(ms.drop_last());
        match ms.last() {
            Message::PushObject(o) => before.push(o),
            _ => before,
        }
    }
}

proof fn lemma_pushed_append(a: Seq<Message>, b: Seq<Message>)
    ensures
        pushed_objects(a + b) == pushed_objects(a) + pushed_objects(b),
    decreases b.len(),
{
    if b.len() == 0 {
        assert(a + b =~= a);
        assert(pushed_objects(a) + pushed_objects(b) =~= pushed_objects(a));
    } else {
        assert((a + b).drop_last() =~= a + b.drop_last());
        assert((a + b).last() == b.last());
        lemma_pushed_append(a, b.drop_last());
        assert(pushed_objects(a + b) =~= pushed_objects(a) + pushed_objects(b));
    }
}

proof fn lemma_pushed_each(os: Seq<ObjectView>)
    ensures
        pushed_objects(Seq::new(os.len(), |i: int| Message::PushObject(os[i]))) == os,
    decreases os.len(),
{
    let ms = Seq::new(os.len(), |i: int| Message::PushObject(os[i]));
    if os.len() > 0 {
        let d = os.drop_last();
        assert(ms.drop_last() =~= Seq::new(d.len(), |i: int| Message::PushObject(d[i])));
        lemma_pushed_each(d);
        assert(pushed_objects(ms) =~= os);
    } else {
        assert(pushed_objects(ms) =~= os);
    }
}

/// The messages of a push name the client, then the reference with the commit that it is to
/// name and the one that it named, then every object with all of its bytes, in order, and
/// end with the message that says so.
pub proof fn push_messages_carry_the_objects(
    repo: Seq<char>,
    ref_name: Seq<char>,
    new_target: ObjectId,
    old_target: Option<ObjectId>,
    os: Seq<ObjectView>,
)
    ensures
        ({
            let ms = push_messages(repo, ref_name, new_target, old_target, os);
            &&& ms.len() == os.len() + 3
            &&& ms[0] is Hello
            &&& ms[1] matches Message::PushRequest { repo: r, ref_name: n, old_target: o, new_target: t }
                && r == repo && n == ref_name && t == new_target@ && (match old_target {
                Some(h) => o == h@,
                None => o.len() == 32 && forall|i: int| 0 <= i < 32 ==> o[i] == 0,
            })
            &&& pushed_objects(ms) == os
            &&& ms.last() is PushDone
        }),
{
    let ms = push_messages(repo, ref_name, new_target, old_target, os);
    let head = crate::handshake::announcement(repo, ref_name, new_target, old_target);
    let body = Seq::new(os.len(), |i: int| Message::PushObject(os[i]));
    lemma_pushed_append(head, body);
    lemma_pushed_append(head + body, seq![Message::PushDone]);
    lemma_pushed_each(os);
    assert(head.drop_last().drop_last() =~= Seq::empty());
    assert(pushed_objects(head.drop_last().drop_last()) =~= Seq::empty());
    assert(head.drop_last().last() == head[0]);
    assert(head.last() == head[1]);
    assert(pushed_objects(head.drop_last()) =~= Seq::empty());
    assert(pushed_objects(head) =~= Seq::empty());
    assert(seq![Message::PushDone].drop_last() =~= Seq::<Message>::empty());
    assert(pushed_objects(seq![Message::PushDone]) =~= Seq::empty());
    assert(pushed_objects(ms) =~= os);
}

/// A server that stores the objects it finds in the messages of a push, and had before what
/// its commit reaches, can read every commit from the pushed one back: the commit itself, the
/// files of its tree, and the contents of these files. Each object comes with the bytes that
/// the repository holds for it.
pub proof fn pushed_branch_reaches_the_server(
    m: Objects,
    n: Objects,
    from: ObjectId,
    stop: Option<Seq<u8>>,
    old_target: Option<ObjectId>,
    v: Seq<StoredObject>,
    repo: Seq<char>,
    ref_name: Seq<char>,
    h: Seq<u8>,
)
    requires
        are_pushed(m, from@, stop, v),
        compatible(m, n),
        had_before(m, n, stop),
        is_ancestor(m, from@, h, None),
        m.contains_key((ObjectType::Commit, h)),
        commit_at(m, h) matches Ok(c) ==> grounded(m, c.tree_hash),
    ensures
        ({
            let ms = push_messages(repo, ref_name, from, old_target, object_views(v));
            let after = put_received(n, pushed_objects(ms));
            &&& forall|i: int|
                0 <= i < pushed_objects(ms).len() ==> {
                    let o = #[trigger] pushed_objects(ms)[i];
                    m.contains_key((o.0, o.1)) && o.2 == m[(o.0, o.1)]
                }
            &&& commit_at(after, h) == commit_at(m, h)
            &&& commit_at(m, h) matches Ok(c) ==> tree_files(after, c.tree_hash) == tree_files(
                m,
                c.tree_hash,
            ) && (tree_files(m, c.tree_hash) matches Ok(fs) ==> contents_arrived(m, after, fs))
        }),
{
    let os = object_views(v);
    push_messages_carry_the_objects(repo, ref_name, from, old_target, os);
    pushed_objects_are_pulled(m, n, from@, stop, v);
    let after = put_received(n, os);
    crate::pull_command::pulling_keeps_objects(n, os);
    assert(had_before(m, after, stop)) by {
        assert forall|k: (ObjectType, Seq<u8>)| #[trigger]
            crate::lacking::is_there(m, stop, k) && (k.0 == ObjectType::Commit ==> m.contains_key(
                k,
            )) implies m.contains_key(k) && after.contains_key(k) && after[k] == m[k] by {}
    }
    pushed_commits_read_back(m, after, from@, stop, v, h);
    assert forall|i: int| 0 <= i < os.len() implies m.contains_key(
        ((#[trigger] os[i]).0, os[i].1),
    ) && os[i].2 == m[(os[i].0, os[i].1)] by {
        assert(m.contains_key(object_key(v[i])));
    }
}

/// The messages with which a server answers a pull: each object, the message that says that
/// there are no more, and which commit it has.
pub open spec fn pull_answer(os: Seq<ObjectView>, ack: PullAck) -> Seq<Message> {
    Seq::new(os.len(), |i: int| Message::PullObject(os[i])) + seq![
        Message::PullDone,
        Message::PullAck(ack),
    ]
}

proof fn lemma_received(ms: Seq<Message>, os: Seq<ObjectView>, at: int)
    requires
        0 <= at <= os.len() < ms.len(),
        forall|i: int| 0 <= i < os.len() ==> #[trigger] ms[i] == Message::PullObject(os[i]),
        ms[os.len() as int] is PullDone,
        forall|i: int| 0 <= i < os.len() ==> blake3_digest((#[trigger] os[i]).2)@ == os[i].1,
    ensures
        received(ms, at, os.subrange(0, at)) == Ok::<Received, PullFault>(
            Received::Objects(os, os.len() as int + 1),
        ),
    decreases os.len() - at,
{
    if at < os.len() {
        assert(ms[at] == Message::PullObject(os[at]));
        assert(os.subrange(0, at).push(os[at]) =~= os.subrange(0, at + 1));
        lemma_received(ms, os, at + 1);
    } else {
        assert(os.subrange(0, at) =~= os);
    }
}

proof fn lemma_first_received(n: Objects, os: Seq<ObjectView>, k: (ObjectType, Seq<u8>))
    ensures
        put_received(n, os).contains_key(k) <==> n.contains_key(k) || exists|i: int|
            0 <= i < os.len() && ((#[trigger] os[i]).0, os[i].1) == k,
        n.contains_key(k) ==> put_received(n, os)[k] == n[k],
        !n.contains_key(k) && put_received(n, os).contains_key(k) ==> exists|i: int|
            0 <= i < os.len() && ((#[trigger] os[i]).0, os[i].1) == k && put_received(n, os)[k]
                == os[i].2,
    decreases os.len(),
{
    if os.len() > 0 {
        let d = os.drop_last();
        lemma_first_received(n, d, k);
        assert(os[os.len() - 1] == os.last());
        if exists|i: int| 0 <= i < d.len() && ((#[trigger] d[i]).0, d[i].1) == k {
            let i = choose|i: int| 0 <= i < d.len() && ((#[trigger] d[i]).0, d[i].1) == k;
            assert(os[i] == d[i]);
        }
        if !n.contains_key(k) && put_received(n, d).contains_key(k) {
            let i = choose|i: int|
                0 <= i < d.len() && ((#[trigger] d[i]).0, d[i].1) == k && put_received(n, d)[k]
                    == d[i].2;
            assert(os[i] == d[i]);
        }
        if exists|i: int| 0 <= i < os.len() && ((#[trigger] os[i]).0, os[i].1) == k {
            let i = choose|i: int| 0 <= i < os.len() && ((#[trigger] os[i]).0, os[i].1) == k;
            if i < d.len() {
                assert(d[i] == os[i]);
            }
        }
    }
}

/// A whole answer to a pull, each object with its own hash: all its objects are taken in
/// their order. Afterwards the store holds what it held and every object that came, with the
/// bytes that came, and nothing else; and the branch and what is kept of the remote both name
/// the commit of the server.
pub proof fn pulled_answer_is_taken(
    n: Objects,
    r: Refs,
    os: Seq<ObjectView>,
    ack: PullAck,
    remote: Seq<char>,
    branch: Seq<char>,
    ref_name: Seq<char>,
)
    requires
        forall|i: int| 0 <= i < os.len() ==> blake3_digest((#[trigger] os[i]).2)@ == os[i].1,
    ensures
        ({
            let ms = pull_answer(os, ack);
            let after = put_received(n, os);
            let refs = with_pulled(r, remote, branch, ref_name, ack.new_remote_head@);
            &&& received(ms, 0, Seq::empty()) == Ok::<Received, PullFault>(
                Received::Objects(os, os.len() as int + 1),
            )
            &&& final_ack(ms, os.len() as int + 1) == Ok::<PullAck, PullFault>(ack)
            &&& forall|k: (ObjectType, Seq<u8>)| #[trigger]
                after.contains_key(k) <==> n.contains_key(k) || exists|i: int|
                    0 <= i < os.len() && ((#[trigger] os[i]).0, os[i].1) == k
            &&& forall|k: (ObjectType, Seq<u8>)|
                n.contains_key(k) ==> #[trigger] after[k] == n[k]
            &&& forall|k: (ObjectType, Seq<u8>)| #[trigger]
                after.contains_key(k) && !n.contains_key(k) ==> exists|i: int|
                    0 <= i < os.len() && ((#[trigger] os[i]).0, os[i].1) == k && after[k]
                        == os[i].2
            &&& ref_target(refs, ref_name) == Ok::<Seq<u8>, RefFault>(ack.new_remote_head@)
            &&& ref_target(refs, tracking_ref(remote, branch)) == Ok::<Seq<u8>, RefFault>(
                ack.new_remote_head@,
            )
            &&& refs.head == r.head
        }),
{
    let ms = pull_answer(os, ack);
    assert(os.subrange(0, 0) =~= Seq::empty());
    lemma_received(ms, os, 0);
    let after = put_received(n, os);
    assert forall|k: (ObjectType, Seq<u8>)| #[trigger]
        after.contains_key(k) <==> n.contains_key(k) || exists|i: int|
        0 <= i < os.len() && ((#[trigger] os[i]).0, os[i].1) == k by {
        lemma_first_received(n, os, k);
    }
    assert forall|k: (ObjectType, Seq<u8>)| n.contains_key(k) implies #[trigger] after[k]
        == n[k] by {
        lemma_first_received(n, os, k);
    }
    assert forall|k: (ObjectType, Seq<u8>)| #[trigger]
        after.contains_key(k) && !n.contains_key(k) implies exists|i: int|
        0 <= i < os.len() && ((#[trigger] os[i]).0, os[i].1) == k && after[k] == os[i].2 by {
        lemma_first_received(n, os, k);
    }
    crate::pull_command::pulled_branch_is_the_remote(
        r,
        remote,
        branch,
        ref_name,
        ack.new_remote_head,
    );
}

proof fn lemma_mismatch(ms: Seq<Message>, os: Seq<ObjectView>, at: int, k: int)
    requires
        0 <= at <= k < os.len() <= ms.len(),
        forall|i: int| 0 <= i < os.len() ==> #[trigger] ms[i] == Message::PullObject(os[i]),
        blake3_digest(os[k].2)@ != os[k].1,
        forall|i: int| 0 <= i < k ==> blake3_digest((#[trigger] os[i]).2)@ == os[i].1,
    ensures
        received(ms, at, os.subrange(0, at)) == Err::<Received, PullFault>(
            PullFault::HashMismatch(os[k].1, blake3_digest(os[k].2)@),
        ),
    decreases k - at,
{
    assert(ms[at] == Message::PullObject(os[at]));
    if at < k {
        assert(os.subrange(0, at).push(os[at]) =~= os.subrange(0, at + 1));
        lemma_mismatch(ms, os, at + 1, k);
    }
}

/// An answer to a pull with an object that does not have its own hash is refused for the
/// first such object.
pub proof fn forged_objects_are_refused(os: Seq<ObjectView>, ack: PullAck, k: int)
    requires
        0 <= k < os.len(),
        blake3_digest(os[k].2)@ != os[k].1,
        forall|i: int| 0 <= i < k ==> blake3_digest((#[trigger] os[i]).2)@ == os[i].1,
    ensures
        received(pull_answer(os, ack), 0, Seq::empty()) == Err::<Received, PullFault>(
            PullFault::HashMismatch(os[k].1, blake3_digest(os[k].2)@),
        ),
{
    assert(os.subrange(0, 0) =~= Seq::empty());
    lemma_mismatch(pull_answer(os, ack), os, 0, k);
}

proof fn lemma_received_upto(ms: Seq<Message>, os: Seq<ObjectView>, at: int)
    requires
        0 <= at <= os.len() <= ms.len(),
        forall|i: int| 0 <= i < os.len() ==> #[trigger] ms[i] == Message::PullObject(os[i]),
        forall|i: int| 0 <= i < os.len() ==> blake3_digest((#[trigger] os[i]).2)@ == os[i].1,
    ensures
        received(ms, at, os.subrange(0, at)) == received(ms, os.len() as int, os),
    decreases os.len() - at,
{
    if at < os.len() {
        assert(ms[at] == Message::PullObject(os[at]));
        assert(os.subrange(0, at).push(os[at]) =~= os.subrange(0, at + 1));
        lemma_received_upto(ms, os, at + 1);
    } else {
        assert(os.subrange(0, at) =~= os);
    }
}

/// An answer that does not come to its end takes nothing: one that breaks off among its
/// objects, one with an error behind them, and one that says before the end that so many
/// objects were sent. Where the server says instead that nothing is new, or that it has no
/// commits, there is nothing to take.
pub proof fn broken_answers_are_refused(ms: Seq<Message>, os: Seq<ObjectView>)
    requires
        os.len() <= ms.len(),
        forall|i: int| 0 <= i < os.len() ==> #[trigger] ms[i] == Message::PullObject(os[i]),
        forall|i: int| 0 <= i < os.len() ==> blake3_digest((#[trigger] os[i]).2)@ == os[i].1,
    ensures
        ({
            let n = os.len() as int;
            let r = received(ms, 0, Seq::empty());
            &&& ms.len() == n ==> r is Err
            &&& ms.len() > n && ms[n] is Error ==> r is Err
            &&& ms.len() > n && ms[n] is Hello ==> r is Err
            &&& ms.len() > n ==> (ms[n] matches Message::PullAck(a) ==> {
                &&& a.up_to_date ==> r == Ok::<Received, PullFault>(Received::UpToDate)
                &&& !a.up_to_date && a.sent_objects == 0 ==> r == Ok::<Received, PullFault>(
                    Received::NoCommits,
                )
                &&& !a.up_to_date && a.sent_objects > 0 ==> r is Err
            })
        }),
{
    lemma_received_upto(ms, os, 0);
    assert(os.subrange(0, 0) =~= Seq::empty());
}

} // verus!
