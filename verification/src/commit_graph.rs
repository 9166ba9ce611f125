//! Walking the commits of a store along their parents.
use vstd::prelude::*;

use crate::hash::{hash_eq, ObjectId};
use crate::helix_index::commit::{id_views, Commit, CommitError, CommitView};
use crate::helix_index::commit_store::{commit_at, read_commit, ReadFault};
use crate::object_store::{lemma_finitely_many, ObjectStore, ObjectType, Objects};
use crate::reach::{
    has_id, reached_inside, reaches, reaches_further, reaches_itself, Next,
};

verus! {

/// The parents of a commit; none where it cannot be read.
pub open spec fn parents_at(m: Objects, h: Seq<u8>) -> Seq<Seq<u8>> {
    match commit_at(m, h) {
        Ok(c) => c.parents,
        Err(_) => Seq::empty(),
    }
}

/// From a commit to its parents.
pub open spec fn parents_of(m: Objects) -> Next {
    |h: Seq<u8>| parents_at(m, h)
}

/// Whether `to` is the commit `from` or one of its ancestors, not counting those
/// behind `stop`.
pub open spec fn is_ancestor(
    m: Objects,
    from: Seq<u8>,
    to: Seq<u8>,
    stop: Option<Seq<u8>>,
) -> bool {
    reaches(parents_of(m), from, to, stop)
}

/// A commit and all its ancestors.
pub open spec fn ancestors(m: Objects, from: Seq<u8>) -> Set<Seq<u8>> {
    Set::new(|h: Seq<u8>| is_ancestor(m, from, h, None))
}

/// The objects of a store that a walk has not seen.
pub open spec fn unseen(m: Objects, kind: ObjectType, seen: Seq<Seq<u8>>) -> Set<
    (ObjectType, Seq<u8>),
> {
    m.dom().filter(|k: (ObjectType, Seq<u8>)| k.0 == kind && !seen.contains(k.1))
}

pub proof fn lemma_unseen(m: Objects, kind: ObjectType, seen: Seq<Seq<u8>>, h: Seq<u8>)
    requires
        m.dom().finite(),
        !seen.contains(h),
    ensures
        unseen(m, kind, seen.push(h)).len() <= unseen(m, kind, seen).len(),
        m.contains_key((kind, h)) ==> unseen(m, kind, seen.push(h)).len() < unseen(
            m,
            kind,
            seen,
        ).len(),
{
    broadcast use vstd::set_lib::group_set_lib_default;

    let a = unseen(m, kind, seen);
    let b = unseen(m, kind, seen.push(h));
    assert forall|x: Seq<u8>| seen.push(h).contains(x) <==> seen.contains(x) || x == h by {
        if seen.contains(x) {
            let i = choose|i: int| 0 <= i < seen.len() && seen[i] == x;
            assert(seen.push(h)[i] == x);
        }
        if x == h {
            assert(seen.push(h)[seen.len() as int] == x);
        }
    }
    assert(b =~= a.remove((kind, h)));
    assert(a.finite()) by {
        vstd::set_lib::lemma_len_subset(a, m.dom());
    }
}

/// What holds of a walk along the parents: everything seen or waiting has been
/// reached, and the parents of what was seen are seen or wait.
spec fn walk_inv(
    m: Objects,
    from: Seq<u8>,
    stop: Option<Seq<u8>>,
    seen: Seq<Seq<u8>>,
    waiting: Seq<Seq<u8>>,
) -> bool {
    &&& seen.no_duplicates()
    &&& forall|h: Seq<u8>| #[trigger] seen.contains(h) ==> is_ancestor(m, from, h, stop)
    &&& forall|h: Seq<u8>| #[trigger]
        waiting.contains(h) ==> stop == Some(h) || is_ancestor(m, from, h, stop)
    &&& stop == Some(from) || seen.contains(from) || waiting.contains(from)
    &&& forall|x: Seq<u8>, y: Seq<u8>|
        seen.contains(x) && #[trigger] parents_at(m, x).contains(y) ==> stop == Some(y)
            || seen.contains(y) || waiting.contains(y)
}

proof fn lemma_walk_starts(m: Objects, from: Seq<u8>, stop: Option<Seq<u8>>)
    ensures
        walk_inv(m, from, stop, Seq::empty(), seq![from]),
{
    if stop != Some(from) {
        reaches_itself(parents_of(m), from, stop);
    }
    assert(seq![from][0] == from);
}

/// A hash that was seen before, or where the walk stops, is left out.
proof fn lemma_walk_skips(
    m: Objects,
    from: Seq<u8>,
    stop: Option<Seq<u8>>,
    seen: Seq<Seq<u8>>,
    waiting: Seq<Seq<u8>>,
    h: Seq<u8>,
    rest: Seq<Seq<u8>>,
)
    requires
        walk_inv(m, from, stop, seen, waiting),
        forall|x: Seq<u8>| #[trigger] waiting.contains(x) <==> rest.contains(x) || x == h,
        stop == Some(h) || seen.contains(h),
    ensures
        walk_inv(m, from, stop, seen, rest),
{
    assert forall|x: Seq<u8>| #[trigger] rest.contains(x) implies stop == Some(x) || is_ancestor(
        m,
        from,
        x,
        stop,
    ) by {
        assert(waiting.contains(x));
    }
    assert(waiting.contains(from) ==> rest.contains(from) || from == h);
    assert forall|x: Seq<u8>, y: Seq<u8>|
        seen.contains(x) && #[trigger] parents_at(m, x).contains(y) implies stop == Some(y)
        || seen.contains(y) || rest.contains(y) by {
        if waiting.contains(y) {
            assert(rest.contains(y) || y == h);
        }
    }
}

/// A new hash is seen, and its parents wait.
proof fn lemma_walk_sees(
    m: Objects,
    from: Seq<u8>,
    stop: Option<Seq<u8>>,
    seen: Seq<Seq<u8>>,
    waiting: Seq<Seq<u8>>,
    h: Seq<u8>,
    then: Seq<Seq<u8>>,
)
    requires
        walk_inv(m, from, stop, seen, waiting),
        waiting.contains(h),
        stop != Some(h),
        !seen.contains(h),
        forall|x: Seq<u8>|
            (waiting.contains(x) && x != h) || parents_at(m, h).contains(x) ==> #[trigger] then.contains(x),
        forall|x: Seq<u8>| #[trigger]
            then.contains(x) ==> waiting.contains(x) || parents_at(m, h).contains(x),
    ensures
        walk_inv(m, from, stop, seen.push(h), then),
{
    let s = seen.push(h);
    assert(is_ancestor(m, from, h, stop));
    assert forall|x: Seq<u8>| #[trigger] s.contains(x) <==> seen.contains(x) || x == h by {
        if seen.contains(x) {
            let i = choose|i: int| 0 <= i < seen.len() && seen[i] == x;
            assert(s[i] == x);
        }
        if x == h {
            assert(s[seen.len() as int] == x);
        }
    }
    assert forall|x: Seq<u8>| #[trigger] then.contains(x) implies stop == Some(x) || is_ancestor(
        m,
        from,
        x,
        stop,
    ) by {
        if parents_at(m, h).contains(x) && stop != Some(x) {
            reaches_further(parents_of(m), from, h, x, stop);
        }
    }
    assert(waiting.contains(from) && from != h ==> then.contains(from));
    assert forall|x: Seq<u8>, y: Seq<u8>|
        s.contains(x) && #[trigger] parents_at(m, x).contains(y) implies stop == Some(y)
        || s.contains(y) || then.contains(y) by {
        if x == h {
            assert(then.contains(y));
        } else if waiting.contains(y) && y != h {
            assert(then.contains(y));
        }
    }
}

/// Where nothing waits any more, everything that is reached was seen.
proof fn lemma_walk_ends(
    m: Objects,
    from: Seq<u8>,
    stop: Option<Seq<u8>>,
    seen: Seq<Seq<u8>>,
    waiting: Seq<Seq<u8>>,
)
    requires
        walk_inv(m, from, stop, seen, waiting),
        waiting.len() == 0,
    ensures
        forall|h: Seq<u8>| #[trigger] seen.contains(h) <==> is_ancestor(m, from, h, stop),
{
    let s = Set::new(|h: Seq<u8>| seen.contains(h));
    let next = parents_of(m);
    assert forall|x: Seq<u8>, y: Seq<u8>|
        s.contains(x) && #[trigger] next(x).contains(y) && stop != Some(y) implies s.contains(
        y,
    ) by {
        assert(parents_at(m, x).contains(y));
    }
    reached_inside(next, from, stop, s);
    assert forall|h: Seq<u8>| #[trigger] seen.contains(h) <==> is_ancestor(m, from, h, stop) by {
        if is_ancestor(m, from, h, stop) {
            assert(reaches(next, from, h, stop));
            assert(s.contains(h));
        }
    }
}

/// How many commits there are from this one back, itself included. A commit that
/// cannot be read counts, and has no parents.
pub fn count_commits(store: &ObjectStore, start: &ObjectId) -> (r: usize)
    requires
        store.wf(),
    ensures
        ancestors(store@, start@).finite(),
        r == ancestors(store@, start@).len(),
{
    let seen = all_ancestors(store, start);
    proof {
        let s = id_views(seen@);
        s.unique_seq_to_set();
        assert(s.to_set() =~= ancestors(store@, start@));
    }
    seen.len()
}

/// The commits from this one back, itself included, each once. A commit that cannot
/// be read has no parents.
pub fn all_ancestors(store: &ObjectStore, start: &ObjectId) -> (r: Vec<ObjectId>)
    requires
        store.wf(),
    ensures
        id_views(r@).no_duplicates(),
        forall|h: Seq<u8>| #[trigger]
            id_views(r@).contains(h) <==> is_ancestor(store@, start@, h, None),
{
    let ghost m = store@;
    let mut waiting: Vec<ObjectId> = Vec::new();
    let mut seen: Vec<ObjectId> = Vec::new();
    waiting.push(*start);
    proof {
        lemma_finitely_many(store.objects@);
        lemma_walk_starts(m, start@, None);
        assert(id_views(waiting@) =~= seq![start@]);
        assert(id_views(seen@) =~= Seq::empty());
    }
    while waiting.len() > 0
        invariant
            store.wf(),
            m == store@,
            m.dom().finite(),
            walk_inv(m, start@, None, id_views(seen@), id_views(waiting@)),
        decreases unseen(m, ObjectType::Commit, id_views(seen@)).len(), waiting.len(),
    {
        let ghost before = id_views(waiting@);
        let ghost was = id_views(seen@);
        let last: usize = waiting.len() - 1;
        let h: ObjectId = waiting[last];
        waiting.pop();
        let ghost rest = id_views(waiting@);
        proof {
            assert(before =~= rest.push(h@));
            lemma_pushed(rest, h@);
            assert(before[last as int] == h@);
        }
        if has_id(&seen, &h) {
            proof {
                lemma_walk_skips(m, start@, None, was, before, h@, rest);
            }
        } else {
            seen.push(h);
            assert(id_views(seen@) =~= was.push(h@));
            proof {
                lemma_unseen(m, ObjectType::Commit, was, h@);
            }
            match read_commit(store, &h) {
                Ok(c) => {
                    push_all(&mut waiting, &c.parents);
                    proof {
                        lemma_appended(rest, id_views(c.parents@));
                        assert(m.contains_key((ObjectType::Commit, h@)));
                    }
                },
                Err(_) => {},
            }
            proof {
                lemma_walk_sees(m, start@, None, was, before, h@, id_views(waiting@));
            }
        }
    }
    proof {
        let s = id_views(seen@);
        lemma_walk_ends(m, start@, None, s, id_views(waiting@));
    }
    seen
}

pub proof fn lemma_pushed(a: Seq<Seq<u8>>, h: Seq<u8>)
    ensures
        forall|x: Seq<u8>| #[trigger] a.push(h).contains(x) <==> a.contains(x) || x == h,
{
    assert forall|x: Seq<u8>| #[trigger] a.push(h).contains(x) <==> a.contains(x) || x == h by {
        if a.contains(x) {
            let i = choose|i: int| 0 <= i < a.len() && a[i] == x;
            assert(a.push(h)[i] == x);
        }
        if x == h {
            assert(a.push(h)[a.len() as int] == x);
        }
    }
}

proof fn lemma_appended(a: Seq<Seq<u8>>, b: Seq<Seq<u8>>)
    ensures
        forall|x: Seq<u8>| #[trigger] (a + b).contains(x) <==> a.contains(x) || b.contains(x),
{
    assert forall|x: Seq<u8>| #[trigger] (a + b).contains(x) <==> a.contains(x) || b.contains(x) by {
        if a.contains(x) {
            let i = choose|i: int| 0 <= i < a.len() && a[i] == x;
            assert((a + b)[i] == x);
        }
        if b.contains(x) {
            let i = choose|i: int| 0 <= i < b.len() && b[i] == x;
            assert((a + b)[a.len() + i] == x);
        }
    }
}

/// Appends hashes.
fn push_all(v: &mut Vec<ObjectId>, more: &Vec<ObjectId>)
    ensures
        id_views(final(v)@) == id_views(old(v)@) + id_views(more@),
{
    let ghost start = v@;
    let mut i: usize = 0;
    while i < more.len()
        invariant
            i <= more.len(),
            v@ =~= start + more@.subrange(0, i as int),
        decreases more.len() - i,
    {
        v.push(more[i]);
        i += 1;
    }
    assert(id_views(v@) =~= id_views(start) + id_views(more@));
}

/// A commit with what a walk needs of it.
#[derive(Debug, Clone, PartialEq, Eq)]
pub struct CommitData {
    pub hash: ObjectId,
    pub tree_hash: ObjectId,
    pub bytes: Vec<u8>,
}

/// The hashes of commits.
pub open spec fn data_ids(v: Seq<CommitData>) -> Seq<Seq<u8>> {
    Seq::new(v.len(), |i: int| v[i].hash@)
}

/// The commits that a walk finds, those first that were first waiting, in at most
/// `n` steps: no commit twice, none from `stop` on, and none that is not stored. A
/// damaged one ends the walk.
pub open spec fn walked(
    m: Objects,
    waiting: Seq<Seq<u8>>,
    seen: Seq<Seq<u8>>,
    stop: Option<Seq<u8>>,
    n: nat,
) -> Option<Result<Seq<Seq<u8>>, CommitError>>
    decreases n,
{
    if n == 0 {
        None
    } else if waiting.len() == 0 {
        Some(Ok(Seq::empty()))
    } else {
        let h = waiting[0];
        let rest = waiting.subrange(1, waiting.len() as int);
        let left = (n - 1) as nat;
        if stop == Some(h) || seen.contains(h) {
            walked(m, rest, seen, stop, left)
        } else {
            match commit_at(m, h) {
                Err(ReadFault::Missing(_)) => walked(m, rest, seen.push(h), stop, left),
                Err(ReadFault::Damaged(e)) => Some(Err(e)),
                Ok(c) => found_first(seq![h], walked(m, rest + c.parents, seen.push(h), stop, left)),
            }
        }
    }
}

/// What a walk finds that found some commits first.
pub open spec fn found_first(
    first: Seq<Seq<u8>>,
    w: Option<Result<Seq<Seq<u8>>, CommitError>>,
) -> Option<Result<Seq<Seq<u8>>, CommitError>> {
    match w {
        Some(Ok(l)) => Some(Ok(first + l)),
        _ => w,
    }
}

/// Whether the walk from a commit ends with this result.
pub open spec fn walk_gives(
    m: Objects,
    from: Seq<u8>,
    stop: Option<Seq<u8>>,
    w: Result<Seq<Seq<u8>>, CommitError>,
) -> bool {
    exists|n: nat| walked(m, seq![from], Seq::empty(), stop, n) == Some(w)
}

proof fn lemma_more_steps(
    m: Objects,
    waiting: Seq<Seq<u8>>,
    seen: Seq<Seq<u8>>,
    stop: Option<Seq<u8>>,
    n: nat,
    k: nat,
)
    requires
        walked(m, waiting, seen, stop, n) is Some,
        n <= k,
    ensures
        walked(m, waiting, seen, stop, k) == walked(m, waiting, seen, stop, n),
    decreases n,
{
    if waiting.len() > 0 {
        let h = waiting[0];
        let rest = waiting.subrange(1, waiting.len() as int);
        if stop == Some(h) || seen.contains(h) {
            lemma_more_steps(m, rest, seen, stop, (n - 1) as nat, (k - 1) as nat);
        } else {
            match commit_at(m, h) {
                Err(ReadFault::Missing(_)) => {
                    lemma_more_steps(m, rest, seen.push(h), stop, (n - 1) as nat, (k - 1) as nat);
                },
                Err(ReadFault::Damaged(_)) => {},
                Ok(c) => {
                    lemma_more_steps(
                        m,
                        rest + c.parents,
                        seen.push(h),
                        stop,
                        (n - 1) as nat,
                        (k - 1) as nat,
                    );
                },
            }
        }
    }
}

/// A walk has one result.
pub proof fn walk_is_determined(
    m: Objects,
    from: Seq<u8>,
    stop: Option<Seq<u8>>,
    a: Result<Seq<Seq<u8>>, CommitError>,
    b: Result<Seq<Seq<u8>>, CommitError>,
)
    requires
        walk_gives(m, from, stop, a),
        walk_gives(m, from, stop, b),
    ensures
        a == b,
{
    let i = choose|n: nat| walked(m, seq![from], Seq::empty(), stop, n) == Some(a);
    let j = choose|n: nat| walked(m, seq![from], Seq::empty(), stop, n) == Some(b);
    if i <= j {
        lemma_more_steps(m, seq![from], Seq::empty(), stop, i, j);
    } else {
        lemma_more_steps(m, seq![from], Seq::empty(), stop, j, i);
    }
}

/// Whether what is kept of each commit is what the store holds.
pub open spec fn data_holds(m: Objects, v: Seq<CommitData>) -> bool {
    forall|i: int|
        0 <= i < v.len() ==> {
            let d = #[trigger] v[i];
            &&& m.contains_key((ObjectType::Commit, d.hash@))
            &&& m[(ObjectType::Commit, d.hash@)] == d.bytes@
            &&& commit_at(m, d.hash@) matches Ok(c)
            &&& c.tree_hash == d.tree_hash@
        }
}

/// Whether a commit is damaged.
pub open spec fn is_damaged(m: Objects, h: Seq<u8>) -> bool {
    commit_at(m, h) matches Err(ReadFault::Damaged(_))
}

/// Whether a reached commit is damaged in this way.
pub open spec fn has_damaged(
    m: Objects,
    from: Seq<u8>,
    stop: Option<Seq<u8>>,
    e: CommitError,
) -> bool {
    exists|h: Seq<u8>| #[trigger]
        is_ancestor(m, from, h, stop) && commit_at(m, h) == Err::<CommitView, ReadFault>(
            ReadFault::Damaged(e),
        )
}

/// The bytes of a hash, if there is one.
pub open spec fn id_of(h: Option<ObjectId>) -> Option<Seq<u8>> {
    match h {
        Some(h) => Some(h@),
        None => None,
    }
}

/// What the walk knows of the commits that it has seen.
spec fn found_inv(m: Objects, seen: Seq<Seq<u8>>, found: Seq<Seq<u8>>) -> bool {
    &&& found.no_duplicates()
    &&& forall|h: Seq<u8>| #[trigger]
        found.contains(h) <==> seen.contains(h) && m.contains_key((ObjectType::Commit, h))
    &&& forall|h: Seq<u8>| #[trigger] seen.contains(h) ==> !is_damaged(m, h)
}

/// One step of a walk that has found some commits, which finds `first`.
proof fn lemma_step(
    m: Objects,
    start: Seq<Seq<u8>>,
    stop: Option<Seq<u8>>,
    steps: nat,
    found: Seq<Seq<u8>>,
    first: Seq<Seq<u8>>,
    waiting: Seq<Seq<u8>>,
    seen: Seq<Seq<u8>>,
    waiting_now: Seq<Seq<u8>>,
    seen_now: Seq<Seq<u8>>,
)
    requires
        forall|n: nat| #[trigger]
            walked(m, start, Seq::empty(), stop, n + steps) == found_first(
                found,
                walked(m, waiting, seen, stop, n),
            ),
        forall|n: nat|
            n > 0 ==> (#[trigger] walked(m, waiting, seen, stop, n)) == found_first(
                first,
                walked(m, waiting_now, seen_now, stop, (n - 1) as nat),
            ),
    ensures
        forall|n: nat| #[trigger]
            walked(m, start, Seq::empty(), stop, n + (steps + 1)) == found_first(
                found + first,
                walked(m, waiting_now, seen_now, stop, n),
            ),
{
    assert forall|n: nat| #[trigger]
        walked(m, start, Seq::empty(), stop, n + (steps + 1)) == found_first(
            found + first,
            walked(m, waiting_now, seen_now, stop, n),
        ) by {
        let k = (n + 1) as nat;
        assert(k + steps == n + (steps + 1));
        assert(walked(m, start, Seq::empty(), stop, k + steps) == found_first(
            found,
            walked(m, waiting, seen, stop, k),
        ));
        assert((k - 1) as nat == n);
        match walked(m, waiting_now, seen_now, stop, n) {
            Some(Ok(l)) => {
                assert(found + (first + l) =~= (found + first) + l);
            },
            _ => {},
        }
    }
}

/// Finding nothing first changes no walk.
proof fn lemma_none_first(w: Option<Result<Seq<Seq<u8>>, CommitError>>)
    ensures
        found_first(Seq::empty(), w) == w,
{
    match w {
        Some(Ok(l)) => {
            assert(Seq::<Seq<u8>>::empty() + l =~= l);
        },
        _ => {},
    }
}

/// The commits from `from` back to `to`, which is left out with everything that is
/// only behind it: nearest first, none twice. A commit that is not stored is
/// passed over.
pub fn walk_commits_between(store: &ObjectStore, from: &ObjectId, to: Option<ObjectId>) -> (r:
    Result<Vec<CommitData>, CommitError>)
    requires
        store.wf(),
    ensures
        ({
            let stop = id_of(to);
            match r {
                Ok(v) => {
                    &&& walk_gives(store@, from@, stop, Ok(data_ids(v@)))
                    &&& data_ids(v@).no_duplicates()
                    &&& forall|h: Seq<u8>| #[trigger]
                        data_ids(v@).contains(h) <==> is_ancestor(store@, from@, h, stop)
                            && store@.contains_key((ObjectType::Commit, h))
                    &&& data_holds(store@, v@)
                    &&& forall|h: Seq<u8>| #[trigger]
                        is_ancestor(store@, from@, h, stop) ==> !is_damaged(store@, h)
                },
                Err(e) => {
                    &&& walk_gives(store@, from@, stop, Err(e))
                    &&& has_damaged(store@, from@, stop, e)
                },
            }
        }),
{
    let ghost m = store@;
    let ghost stop = id_of(to);
    let mut queue: Vec<ObjectId> = Vec::new();
    let mut seen: Vec<ObjectId> = Vec::new();
    let mut result: Vec<CommitData> = Vec::new();
    let mut at: usize = 0;
    let ghost mut steps: nat = 0;
    queue.push(*from);
    let ghost start = seq![from@];
    proof {
        lemma_finitely_many(store.objects@);
        lemma_walk_starts(m, from@, stop);
        assert(id_views(queue@).subrange(0, 1) =~= start);
        assert(id_views(seen@) =~= Seq::empty());
        assert(data_ids(result@) =~= Seq::empty());
        assert forall|n: nat| #[trigger]
            walked(m, start, Seq::empty(), stop, n + steps) == found_first(
                data_ids(result@),
                walked(m, start, Seq::empty(), stop, n),
            ) by {
            match walked(m, start, Seq::empty(), stop, n) {
                Some(Ok(l)) => {
                    assert(Seq::<Seq<u8>>::empty() + l =~= l);
                },
                _ => {},
            }
        }
    }
    while at < queue.len()
        invariant
            store.wf(),
            m == store@,
            m.dom().finite(),
            at <= queue.len(),
            start == seq![from@],
            stop == id_of(to),
            walk_inv(
                m,
                from@,
                stop,
                id_views(seen@),
                id_views(queue@).subrange(at as int, queue@.len() as int),
            ),
            found_inv(m, id_views(seen@), data_ids(result@)),
            data_holds(m, result@),
            forall|n: nat| #[trigger]
                walked(m, start, Seq::empty(), stop, n + steps) == found_first(
                    data_ids(result@),
                    walked(
                        m,
                        id_views(queue@).subrange(at as int, queue@.len() as int),
                        id_views(seen@),
                        stop,
                        n,
                    ),
                ),
        decreases unseen(m, ObjectType::Commit, id_views(seen@)).len(), queue.len() - at,
    {
        let ghost q = id_views(queue@);
        let ghost waiting = q.subrange(at as int, q.len() as int);
        let ghost rest = q.subrange(at + 1, q.len() as int);
        let ghost was = id_views(seen@);
        let ghost found = data_ids(result@);
        let h: ObjectId = queue[at];
        at += 1;
        proof {
            assert(waiting[0] == h@);
            assert(waiting.subrange(1, waiting.len() as int) =~= rest);
            assert(waiting =~= seq![h@] + rest);
            lemma_appended(seq![h@], rest);
            assert forall|x: Seq<u8>| seq![h@].contains(x) <==> x == h@ by {
                assert(seq![h@][0] == h@);
            }
        }
        let stops: bool = match &to {
            Some(t) => hash_eq(t, &h),
            None => false,
        };
        proof {
            if let Some(t) = to {
                if t@ == h@ {
                    assert(t =~= h);
                }
            }
            assert(stops == (stop == Some(h@)));
        }
        if stops || has_id(&seen, &h) {
            proof {
                lemma_walk_skips(m, from@, stop, was, waiting, h@, rest);
                assert forall|n: nat| n > 0 implies (#[trigger] walked(m, waiting, was, stop, n))
                    == found_first(Seq::empty(), walked(m, rest, was, stop, (n - 1) as nat)) by {
                    lemma_none_first(walked(m, rest, was, stop, (n - 1) as nat));
                }
                lemma_step(m, start, stop, steps, found, Seq::empty(), waiting, was, rest, was);
                assert(found + Seq::<Seq<u8>>::empty() =~= found);
                steps = steps + 1;
            }
            continue;
        }
        seen.push(h);
        proof {
            assert(id_views(seen@) =~= was.push(h@));
            lemma_pushed(was, h@);
            lemma_unseen(m, ObjectType::Commit, was, h@);
        }
        match store.read_object(ObjectType::Commit, &h) {
            None => {
                proof {
                    lemma_walk_sees(m, from@, stop, was, waiting, h@, rest);
                    let now = was.push(h@);
                    assert forall|n: nat| n > 0 implies (#[trigger] walked(
                        m,
                        waiting,
                        was,
                        stop,
                        n,
                    )) == found_first(
                        Seq::empty(),
                        walked(m, rest, now, stop, (n - 1) as nat),
                    ) by {
                        lemma_none_first(walked(m, rest, now, stop, (n - 1) as nat));
                    }
                    lemma_step(m, start, stop, steps, found, Seq::empty(), waiting, was, rest, now);
                    assert(found + Seq::<Seq<u8>>::empty() =~= found);
                    steps = steps + 1;
                    assert(found_inv(m, was.push(h@), found));
                }
            },
            Some(bytes) => match Commit::from_bytes(bytes.as_slice()) {
                Err(e) => {
                    proof {
                        assert(walked(m, waiting, was, stop, 1) == Some(
                            Err::<Seq<Seq<u8>>, CommitError>(e),
                        ));
                        assert(walked(m, start, Seq::empty(), stop, 1 + steps) == Some(
                            Err::<Seq<Seq<u8>>, CommitError>(e),
                        ));
                        assert(waiting.contains(h@));
                        assert(is_ancestor(m, from@, h@, stop));
                        assert(commit_at(m, h@) == Err::<CommitView, ReadFault>(
                            ReadFault::Damaged(e),
                        ));
                        assert(has_damaged(m, from@, stop, e));
                    }
                    return Err(e);
                },
                Ok(c) => {
                    let data = bytes.clone();
                    result.push(CommitData { hash: h, tree_hash: c.tree_hash, bytes: data });
                    push_all(&mut queue, &c.parents);
                    proof {
                        let next = id_views(queue@).subrange(at as int, queue@.len() as int);
                        assert(id_views(queue@) == q + id_views(c.parents@));
                        assert(queue@.len() == id_views(queue@).len());
                        assert(next =~= rest + id_views(c.parents@));
                        lemma_appended(rest, id_views(c.parents@));
                        lemma_walk_sees(m, from@, stop, was, waiting, h@, next);
                        assert(data_ids(result@) =~= found.push(h@));
                        assert(found.push(h@) =~= found + seq![h@]);
                        lemma_step(
                            m,
                            start,
                            stop,
                            steps,
                            found,
                            seq![h@],
                            waiting,
                            was,
                            next,
                            was.push(h@),
                        );
                        steps = steps + 1;
                        lemma_pushed(found, h@);
                        assert(!was.contains(h@) ==> !found.contains(h@));
                        assert(found_inv(m, was.push(h@), found.push(h@)));
                    }
                },
            },
        }
    }
    proof {
        let s = id_views(seen@);
        let waiting = id_views(queue@).subrange(at as int, queue@.len() as int);
        lemma_walk_ends(m, from@, stop, s, waiting);
        let l = data_ids(result@);
        assert(walked(m, waiting, s, stop, 1) == Some(
            Ok::<Seq<Seq<u8>>, CommitError>(Seq::empty()),
        ));
        assert(l + Seq::<Seq<u8>>::empty() =~= l);
        assert(walked(m, start, Seq::empty(), stop, 1 + steps) == Some(
            Ok::<Seq<Seq<u8>>, CommitError>(l),
        ));
        assert forall|h: Seq<u8>| #[trigger] is_ancestor(m, from@, h, stop) implies !is_damaged(
            m,
            h,
        ) by {
            assert(s.contains(h));
        }
    }
    Ok(result)
}

} // verus!
