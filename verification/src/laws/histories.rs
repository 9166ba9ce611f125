//! Which commits are listed of a branch, and which branches.
use vstd::prelude::*;
use vstd::string::*;
use vstd::utf8::encode_utf8;

use crate::branch_command::{current_branch, is_branch};
use crate::branch_tui::listing::{
    branch_info, is_branch_list, lemma_rank, listed_names, BranchView, CurrentFirst,
};
use crate::commit_graph::ancestors;
use crate::hash::decoded_hash;
use crate::helix_index::commit::CommitView;
use crate::helix_index::commit_store::{commit_at, history, ReadFault};
use crate::laws::branching::{lemma_place, place_of};
use crate::object_store::Objects;
use crate::order::{codes, lex_less, Ranking};
use crate::refs::{head_symbol, Refs};
use crate::text::{after, has_prefix, trim_spec};

verus! {

/// Whether commits follow each other from one on, each the first parent of the one before, and
/// none of them the one to stop at.
pub open spec fn is_line_of(
    m: Objects,
    id: Seq<u8>,
    stop: Option<Seq<u8>>,
    v: Seq<CommitView>,
) -> bool {
    &&& v.len() > 0 ==> commit_at(m, id) == Ok::<CommitView, ReadFault>(v[0]) && stop != Some(id)
    &&& forall|k: int|
        0 < k < v.len() ==> v[k - 1].parents.len() > 0 && stop != Some(v[k - 1].parents[0])
            && commit_at(m, v[k - 1].parents[0]) == Ok::<CommitView, ReadFault>(#[trigger] v[k])
}

/// Whether a commit is the one that a line starts from, or one that it has passed.
pub open spec fn was_passed(id: Seq<u8>, v: Seq<CommitView>, h: Seq<u8>) -> bool {
    h == id || exists|k: int|
        0 <= k < v.len() - 1 && (#[trigger] v[k]).parents.len() > 0 && v[k].parents[0] == h
}

/// The history of a commit is the line of its first parents, with at most as many commits as
/// asked for; it ends early only at a commit without parents, before the one to stop at,
/// before one that cannot be read, or before one that it has passed.
pub proof fn history_follows_first_parents(
    m: Objects,
    id: Seq<u8>,
    limit: nat,
    stop: Option<Seq<u8>>,
)
    ensures
        ({
            let v = history(m, id, limit, stop, Set::empty());
            let last = v[v.len() - 1];
            &&& is_line_of(m, id, stop, v)
            &&& v.len() <= limit
            &&& v.len() == 0 ==> limit == 0 || stop == Some(id) || commit_at(m, id) is Err
            &&& 0 < v.len() < limit ==> last.parents.len() == 0 || stop == Some(last.parents[0])
                || commit_at(m, last.parents[0]) is Err || was_passed(id, v, last.parents[0])
        }),
{
    lemma_history(m, id, limit, stop, Set::empty());
}

proof fn lemma_history(
    m: Objects,
    id: Seq<u8>,
    limit: nat,
    stop: Option<Seq<u8>>,
    seen: Set<Seq<u8>>,
)
    ensures
        ({
            let v = history(m, id, limit, stop, seen);
            let last = v[v.len() - 1];
            &&& is_line_of(m, id, stop, v)
            &&& v.len() <= limit
            &&& v.len() == 0 ==> limit == 0 || stop == Some(id) || commit_at(m, id) is Err
                || seen.contains(id)
            &&& 0 < v.len() < limit ==> last.parents.len() == 0 || stop == Some(last.parents[0])
                || commit_at(m, last.parents[0]) is Err || was_passed(id, v, last.parents[0])
                || seen.contains(last.parents[0])
        }),
    decreases limit,
{
    let v = history(m, id, limit, stop, seen);
    if v.len() > 0 {
        let c = commit_at(m, id)->Ok_0;
        if c.parents.len() > 0 {
            let p = c.parents[0];
            let t = history(m, p, (limit - 1) as nat, stop, seen.insert(id));
            lemma_history(m, p, (limit - 1) as nat, stop, seen.insert(id));
            assert(v =~= seq![c] + t);
            assert forall|k: int| 0 < k < v.len() implies v[k - 1].parents.len() > 0 && stop != Some(
                v[k - 1].parents[0],
            ) && commit_at(m, v[k - 1].parents[0]) == Ok::<CommitView, ReadFault>(
                #[trigger] v[k],
            ) by {
                assert(v[k] == t[k - 1]);
                if k > 1 {
                    assert(v[k - 1] == t[k - 2]);
                }
            }
            if t.len() > 0 {
                let last = v[v.len() - 1];
                assert(last == t[t.len() - 1]);
                if last.parents.len() > 0 {
                    let h = last.parents[0];
                    if was_passed(p, t, h) {
                        if h == p {
                            assert(v[0].parents[0] == h);
                        } else {
                            let k = choose|k: int|
                                0 <= k < t.len() - 1 && (#[trigger] t[k]).parents.len() > 0
                                    && t[k].parents[0] == h;
                            assert(v[k + 1] == t[k]);
                        }
                        assert(was_passed(id, v, h));
                    }
                }
            }
        }
    }
}

/// The list of branches has one row for each branch: with the commit that its reference names,
/// how many commits there are from it back, and its upstream; it is marked as current just
/// where `HEAD` names its reference. The current branch comes first, and the others by name.
pub proof fn branches_are_listed(
    m: Objects,
    r: Refs,
    config: Option<Seq<char>>,
    v: Seq<BranchView>,
    name: Seq<char>,
)
    requires
        is_branch_list(m, r, config, v),
        name.len() > 0,
        !name.contains('/'),
        name[0] != '.' && name[0] != '(',
        r.head is Some,
    ensures
        (exists|i: int| 0 <= i < v.len() && (#[trigger] v[i]).name == name)
            <==> r.refs.contains_key(place_of(name)),
        forall|i: int|
            0 <= i < v.len() && (#[trigger] v[i]).name == name ==> {
                let id = decoded_hash(encode_utf8(trim_spec(r.refs[place_of(name)])));
                &&& v[i].is_current <==> head_symbol(r.head->Some_0) == Some(place_of(name))
                &&& id is Ok ==> v[i].last_commit_hash == Some(id->Ok_0)
                &&& id is Ok && commit_at(m, id->Ok_0) is Ok ==> v[i].last_commit == Some(
                    commit_at(m, id->Ok_0)->Ok_0,
                ) && v[i].commit_count == ancestors(m, id->Ok_0).len()
                &&& id is Ok && commit_at(m, id->Ok_0) is Err ==> v[i].last_commit is None
                    && v[i].commit_count == 0
                &&& id is Err ==> v[i].last_commit_hash is None && v[i].last_commit is None
                &&& r.upstreams.contains_key(name) ==> v[i].upstream == Some(r.upstreams[name])
                &&& !r.upstreams.contains_key(name) ==> v[i].upstream is None
            },
        forall|i: int, j: int|
            0 <= i < j < v.len() && (#[trigger] v[i]).is_current == (#[trigger] v[j]).is_current
                ==> !lex_less(codes(v[j].name), codes(v[i].name)),
        forall|i: int, j: int|
            0 <= i < j < v.len() && (#[trigger] v[j]).is_current ==> (#[trigger] v[i]).is_current,
{
    lemma_place(name);
    reveal_strlit("refs/heads/");
    reveal_strlit("sandboxes/");
    reveal_strlit("(no branch)");
    reveal_strlit("(detached HEAD)");
    reveal_strlit("(unknown)");
    let heads = "refs/heads/"@;
    assert(heads + name =~= place_of(name));
    assert(!has_prefix(name, "sandboxes/"@)) by {
        if has_prefix(name, "sandboxes/"@) {
            assert(name.subrange(0, 10)[9] == name[9]);
            assert(name.contains('/'));
        }
    }
    assert(is_branch(r, name) <==> r.refs.contains_key(place_of(name))) by {
        assert forall|x: Seq<char>| name == #[trigger] ("sandboxes/"@ + x) implies false by {
            assert(("sandboxes/"@ + x)[9] == '/');
            assert(name.contains('/'));
        }
    }
    let names = listed_names(v);
    if names.contains(name) {
        let i = choose|i: int| 0 <= i < names.len() && names[i] == name;
        assert(v[i].name == name);
    }
    assert(name == current_branch(r) <==> head_symbol(r.head->Some_0) == Some(place_of(name))) by {
        match head_symbol(r.head->Some_0) {
            Some(path) => {
                if has_prefix(path, heads) {
                    assert(path =~= heads + after(path, heads.len() as int));
                }
                if path == place_of(name) {
                    assert(path.subrange(0, heads.len() as int) =~= heads);
                    assert(after(path, heads.len() as int) =~= name);
                }
            },
            None => {},
        }
    }
    assert forall|i: int| 0 <= i < v.len() && (#[trigger] v[i]).name == name implies v[i]
        == branch_info(m, r, config, name) && r.refs.contains_key(place_of(name)) by {
        assert(names[i] == name);
        assert(names.contains(name));
    }
    assert forall|i: int, j: int|
        0 <= i < j < v.len() && (#[trigger] v[i]).is_current == (#[trigger] v[j]).is_current implies !lex_less(
        codes(v[j].name),
        codes(v[i].name),
    ) by {
        lemma_rank(v[j].is_current, v[j].name, v[i].is_current, v[i].name);
        assert(!lex_less(CurrentFirst::key(v[j]), CurrentFirst::key(v[i])));
    }
    assert forall|i: int, j: int| 0 <= i < j < v.len() && (#[trigger] v[j]).is_current implies (
    #[trigger] v[i]).is_current by {
        lemma_rank(v[j].is_current, v[j].name, v[i].is_current, v[i].name);
        assert(!lex_less(CurrentFirst::key(v[j]), CurrentFirst::key(v[i])));
    }
}

} // verus!
