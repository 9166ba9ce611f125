//! What creating, deleting, renaming and switching branches does to the references.
use vstd::prelude::*;
use vstd::string::*;
use vstd::utf8::encode_utf8;

use crate::branch_command::{
    create_fault, current_branch, delete_fault, ends_solid, head_on, head_ref, is_branch,
    lemma_head_on, lemma_symbol, name_fault, rename_fault, switch_fault, with_branch, with_renamed,
    BranchFault,
};
use crate::hash::{decoded_hash, HexError};
use crate::path::{is_name, is_regular, lemma_split_append, regular_paths_are_plain};
use crate::refs::{head_commit, head_symbol, lemma_hash_line_reads_back, ref_key, Refs};
use crate::text::{after, first_at, has_infix, has_prefix, lemma_first_at, split_spec, trim_spec};

verus! {

/// Where the reference of a branch is kept.
pub open spec fn place_of(name: Seq<char>) -> Seq<char> {
    seq!['r', 'e', 'f', 's', '/', 'h', 'e', 'a', 'd', 's', '/'] + name
}

/// Whether references are there below a path.
pub open spec fn has_refs_below(r: Refs, path: Seq<char>) -> bool {
    exists|k: Seq<char>| #[trigger] r.refs.contains_key(k) && has_prefix(k, path.push('/'))
}

/// Whether a branch can have a name: it has characters, none of them a slash; it starts with
/// neither a dot nor a hyphen; no two dots stand side by side; and it is not `HEAD`.
pub open spec fn may_be_called(name: Seq<char>) -> bool {
    &&& name.len() > 0
    &&& forall|i: int| 0 <= i < name.len() ==> #[trigger] name[i] != '/'
    &&& name[0] != '.' && name[0] != '-'
    &&& forall|i: int| 0 <= i < name.len() - 1 ==> #[trigger] name[i] != '.' || name[i + 1] != '.'
    &&& name != seq!['H', 'E', 'A', 'D']
}

/// The names that are taken for a branch.
pub proof fn names_of_branches(name: Seq<char>)
    ensures
        name_fault(name) is None <==> may_be_called(name),
        name_fault(name) == Some(BranchFault::EmptyName) <==> name.len() == 0,
        name_fault(name) == Some(BranchFault::SlashInName) <==> exists|i: int|
            0 <= i < name.len() && #[trigger] name[i] == '/',
{
    reveal_strlit("..");
    reveal_strlit("HEAD");
    assert("HEAD"@ =~= seq!['H', 'E', 'A', 'D']);
    if has_infix(name, ".."@) {
        let i = choose|i: int|
            0 <= i <= name.len() - ".."@.len() && #[trigger] name.subrange(i, i + ".."@.len())
                == ".."@;
        let t = name.subrange(i, i + 2);
        assert(t[0] == '.' && t[1] == '.');
        assert(name[i] == '.' && name[i + 1] == '.');
    }
    if exists|i: int| 0 <= i < name.len() - 1 && #[trigger] name[i] == '.' && name[i + 1] == '.' {
        let i = choose|i: int|
            0 <= i < name.len() - 1 && #[trigger] name[i] == '.' && name[i + 1] == '.';
        assert(name.subrange(i, i + ".."@.len()) =~= ".."@);
    }
    if name.len() > 0 && !name.contains('/') {
        assert(forall|i: int| 0 <= i < name.len() ==> #[trigger] name[i] != '/');
    }
}

pub proof fn lemma_place(name: Seq<char>)
    requires
        name.len() > 0,
        !name.contains('/'),
        name != seq!['.'],
    ensures
        head_ref(name) == place_of(name),
        ref_key(place_of(name)) == place_of(name),
{
    reveal_strlit("refs/heads/");
    reveal_strlit(".");
    reveal(ref_key);
    assert("."@ =~= seq!['.']);
    let dir = seq!['r', 'e', 'f', 's', '/', 'h', 'e', 'a', 'd', 's'];
    let refs = seq!['r', 'e', 'f', 's'];
    let heads = seq!['h', 'e', 'a', 'd', 's'];
    assert(head_ref(name) =~= place_of(name));
    assert(place_of(name) =~= dir.push('/') + name);
    assert(dir =~= refs.push('/') + heads);
    lemma_split_append(dir, name);
    lemma_split_append(refs, heads);
    lemma_first_at(name, '/');
    lemma_first_at(refs, '/');
    lemma_first_at(heads, '/');
    assert(first_at(name, '/') == name.len()) by {
        if first_at(name, '/') < name.len() {
            assert(name[first_at(name, '/')] == '/');
        }
    }
    assert(first_at(refs, '/') == 4) by {
        if first_at(refs, '/') < 4 {
            assert(refs[first_at(refs, '/')] == '/');
        }
    }
    assert(first_at(heads, '/') == 5) by {
        if first_at(heads, '/') < 5 {
            assert(heads[first_at(heads, '/')] == '/');
        }
    }
    let parts = split_spec(place_of(name), '/');
    assert(parts =~= seq![refs, heads, name]);
    assert(refs.len() == 4 && heads.len() == 5);
    assert(is_name(refs) && is_name(heads) && is_name(name)) by {
        assert("."@.len() == 1);
    }
    assert(is_regular(place_of(name)));
    regular_paths_are_plain(place_of(name));
}

proof fn lemma_places(a: Seq<char>, b: Seq<char>)
    ensures
        place_of(a) == place_of(b) <==> a == b,
{
    if place_of(a) == place_of(b) {
        let n = 11int;
        assert(a =~= place_of(a).subrange(n, place_of(a).len() as int));
        assert(b =~= place_of(b).subrange(n, place_of(b).len() as int));
    }
}

proof fn lemma_taken(name: Seq<char>)
    requires
        name_fault(name) is None,
    ensures
        name.len() > 0,
        !name.contains('/'),
        name != seq!['.'],
{
}

/// A branch is created where its name can be taken, no branch has it or creation is forced, no
/// branches lie below it, and there is a current commit.
pub proof fn branches_are_created(r: Refs, name: Seq<char>, force: bool)
    ensures
        create_fault(r, name, force) is None <==> {
            &&& may_be_called(name)
            &&& force || !r.refs.contains_key(place_of(name))
            &&& !has_refs_below(r, place_of(name))
            &&& head_commit(r) is Ok
        },
        may_be_called(name) && !force && (r.refs.contains_key(place_of(name)) || has_refs_below(
            r,
            place_of(name),
        )) ==> create_fault(r, name, force) == Some(BranchFault::AlreadyExists(name)),
{
    names_of_branches(name);
    if name_fault(name) is None {
        lemma_taken(name);
        lemma_place(name);
        assert(crate::refs::ref_dir(r, head_ref(name)) <==> has_refs_below(r, place_of(name)));
    }
}

/// The branch that was created is kept in its place and names the current commit; every other
/// reference, the current one and the upstreams of other branches stay; and it follows the
/// branch that is current, if one is.
pub proof fn created_branch_starts_at_the_current_commit(r: Refs, name: Seq<char>, force: bool)
    requires
        create_fault(r, name, force) is None,
    ensures
        ({
            let made = with_branch(r, name);
            &&& made.head == r.head
            &&& made.refs.contains_key(place_of(name))
            &&& decoded_hash(encode_utf8(trim_spec(made.refs[place_of(name)]))) == Ok::<
                Seq<u8>,
                HexError,
            >(head_commit(r)->Ok_0)
            &&& forall|k: Seq<char>|
                k != place_of(name) ==> (#[trigger] made.refs.contains_key(k)
                    <==> r.refs.contains_key(k)) && (r.refs.contains_key(k) ==> made.refs[k]
                    == r.refs[k])
            &&& forall|k: Seq<char>|
                k != name ==> (#[trigger] made.upstreams.contains_key(k)
                    <==> r.upstreams.contains_key(k)) && (r.upstreams.contains_key(k)
                    ==> made.upstreams[k] == r.upstreams[k])
            &&& forall|on: Seq<char>|
                #![trigger place_of(on)]
                on.len() > 0 && on[0] != '(' && head_symbol(r.head->Some_0) == Some(place_of(on))
                    ==> made.upstreams.contains_key(name) && made.upstreams[name] == on
            &&& forall|n: Seq<char>| #[trigger]
                is_branch(made, n) <==> is_branch(r, n) || n == name
        }),
{
    let made = with_branch(r, name);
    lemma_taken(name);
    lemma_place(name);
    lemma_hash_line_reads_back(head_commit(r)->Ok_0);
    reveal_strlit("refs/heads/");
    reveal_strlit("(no branch)");
    reveal_strlit("(detached HEAD)");
    reveal_strlit("(unknown)");
    assert forall|on: Seq<char>|
        #![trigger place_of(on)]
        on.len() > 0 && on[0] != '(' && head_symbol(r.head->Some_0) == Some(place_of(on)) implies
        made.upstreams.contains_key(name) && made.upstreams[name] == on by {
        assert(r.head is Some);
        assert(place_of(on).subrange(0, "refs/heads/"@.len() as int) =~= "refs/heads/"@);
        assert(after(place_of(on), "refs/heads/"@.len() as int) =~= on);
        assert(current_branch(r) == on);
        assert("(no branch)"@[0] == '(' && "(detached HEAD)"@[0] == '(');
        assert(current_branch(r.with(head_ref(name), made.refs[place_of(name)])) == on);
    }
    assert forall|n: Seq<char>| #[trigger]
        is_branch(made, n) <==> is_branch(r, n) || n == name by {
        lemma_branches(r, made, n, name);
    }
}

proof fn lemma_sandbox_place(m: Seq<char>, name: Seq<char>)
    ensures
        "refs/sandboxes/"@ + m != place_of(name),
{
    reveal_strlit("refs/sandboxes/");
    if "refs/sandboxes/"@ + m == place_of(name) {
        assert(("refs/sandboxes/"@ + m)[5] == 's');
        assert(place_of(name)[5] == 'h');
    }
}

/// Which branches there are after the reference of one was set.
proof fn lemma_branches(r: Refs, made: Refs, n: Seq<char>, name: Seq<char>)
    requires
        name.len() > 0,
        !name.contains('/'),
        made.refs.contains_key(place_of(name)),
        forall|k: Seq<char>|
            k != place_of(name) ==> (#[trigger] made.refs.contains_key(k) <==> r.refs.contains_key(
                k,
            )),
    ensures
        is_branch(made, n) <==> is_branch(r, n) || n == name,
{
    reveal_strlit("refs/heads/");
    assert("refs/heads/"@ + n =~= place_of(n));
    lemma_places(n, name);
    assert forall|m: Seq<char>| #[trigger] ("refs/sandboxes/"@ + m) != place_of(name) by {
        lemma_sandbox_place(m, name);
    }
    assert forall|m: Seq<char>| made.refs.contains_key(#[trigger] ("refs/sandboxes/"@ + m))
        <==> r.refs.contains_key("refs/sandboxes/"@ + m) by {
        lemma_sandbox_place(m, name);
    }
    lemma_sandbox_names(r, made, n);
}

proof fn lemma_sandbox_names(r: Refs, made: Refs, n: Seq<char>)
    requires
        forall|m: Seq<char>|
            made.refs.contains_key(#[trigger] ("refs/sandboxes/"@ + m)) <==> r.refs.contains_key(
                "refs/sandboxes/"@ + m,
            ),
    ensures
        (exists|m: Seq<char>|
            m.len() > 0 && !m.contains('/') && n == #[trigger] ("sandboxes/"@ + m)
                && made.refs.contains_key("refs/sandboxes/"@ + m)) <==> (exists|m: Seq<char>|
            m.len() > 0 && !m.contains('/') && n == #[trigger] ("sandboxes/"@ + m)
                && r.refs.contains_key("refs/sandboxes/"@ + m)),
{
    if exists|m: Seq<char>|
        m.len() > 0 && !m.contains('/') && n == #[trigger] ("sandboxes/"@ + m)
            && made.refs.contains_key("refs/sandboxes/"@ + m) {
        let m = choose|m: Seq<char>|
            m.len() > 0 && !m.contains('/') && n == #[trigger] ("sandboxes/"@ + m)
                && made.refs.contains_key("refs/sandboxes/"@ + m);
        assert(r.refs.contains_key("refs/sandboxes/"@ + m));
        assert(n == "sandboxes/"@ + m);
    }
    if exists|m: Seq<char>|
        m.len() > 0 && !m.contains('/') && n == #[trigger] ("sandboxes/"@ + m)
            && r.refs.contains_key("refs/sandboxes/"@ + m) {
        let m = choose|m: Seq<char>|
            m.len() > 0 && !m.contains('/') && n == #[trigger] ("sandboxes/"@ + m)
                && r.refs.contains_key("refs/sandboxes/"@ + m);
        assert(made.refs.contains_key("refs/sandboxes/"@ + m));
        assert(n == "sandboxes/"@ + m);
    }
}

/// A branch whose name could be taken is deleted where it is there, and is not the current one
/// or deletion is forced; then it is gone from the branches, and every other stays.
pub proof fn branches_are_deleted(r: Refs, name: Seq<char>, force: bool)
    requires
        may_be_called(name),
        !has_refs_below(r, place_of(name)),
    ensures
        delete_fault(r, name, force) is None <==> r.refs.contains_key(place_of(name)) && (force
            || current_branch(r) != name),
        !r.refs.contains_key(place_of(name)) ==> delete_fault(r, name, force) == Some(
            BranchFault::DoesNotExist(name),
        ),
        ({
            let left = r.without(head_ref(name));
            &&& left.head == r.head
            &&& forall|k: Seq<char>| #[trigger]
                left.refs.contains_key(k) <==> r.refs.contains_key(k) && k != place_of(name)
            &&& forall|n: Seq<char>| #[trigger]
                is_branch(left, n) <==> is_branch(r, n) && n != name
        }),
{
    names_of_branches(name);
    lemma_taken(name);
    lemma_place(name);
    reveal_strlit("refs/heads/");
    reveal_strlit("sandboxes/");
    let left = r.without(head_ref(name));
    assert forall|n: Seq<char>| #[trigger]
        is_branch(left, n) <==> is_branch(r, n) && n != name by {
        assert("refs/heads/"@ + n =~= place_of(n));
        lemma_places(n, name);
        assert forall|m: Seq<char>| left.refs.contains_key(#[trigger] ("refs/sandboxes/"@ + m))
            <==> r.refs.contains_key("refs/sandboxes/"@ + m) by {
            lemma_sandbox_place(m, name);
        }
        lemma_sandbox_names(r, left, n);
        assert forall|m: Seq<char>| n == #[trigger] ("sandboxes/"@ + m) implies n != name by {
            assert(("sandboxes/"@ + m)[9] == '/');
            if n == name {
                assert(name[9] == '/');
                assert(name.contains('/'));
            }
        }
    }
}

/// A renamed branch keeps its commit and its upstream under the new name, and is gone under
/// the old one; where it was the current branch it stays so; every other reference stays.
pub proof fn branches_are_renamed(r: Refs, a: Seq<char>, b: Seq<char>, force: bool)
    requires
        may_be_called(a),
        a != b,
        ends_solid(b),
        !has_refs_below(r, place_of(a)),
        !has_refs_below(r, place_of(b)),
    ensures
        rename_fault(r, a, b, force) is None <==> {
            &&& may_be_called(b)
            &&& r.refs.contains_key(place_of(a))
            &&& force || !r.refs.contains_key(place_of(b))
        },
        rename_fault(r, a, b, force) is None ==> {
            let now = with_renamed(r, a, b);
            &&& !now.refs.contains_key(place_of(a))
            &&& now.refs.contains_key(place_of(b))
            &&& now.refs[place_of(b)] == r.refs[place_of(a)]
            &&& forall|k: Seq<char>|
                k != place_of(a) && k != place_of(b) ==> (#[trigger] now.refs.contains_key(k)
                    <==> r.refs.contains_key(k)) && (r.refs.contains_key(k) ==> now.refs[k]
                    == r.refs[k])
            &&& current_branch(r) == a ==> current_branch(now) == b && head_symbol(
                now.head->Some_0,
            ) == Some(place_of(b))
            &&& current_branch(r) != a ==> now.head == r.head
            &&& r.upstreams.contains_key(a) ==> now.upstreams.contains_key(b) && now.upstreams[b]
                == r.upstreams[a] && !now.upstreams.contains_key(a)
            &&& forall|k: Seq<char>|
                k != a && k != b ==> (#[trigger] now.upstreams.contains_key(k)
                    <==> r.upstreams.contains_key(k)) && (r.upstreams.contains_key(k)
                    ==> now.upstreams[k] == r.upstreams[k])
        },
{
    names_of_branches(a);
    names_of_branches(b);
    lemma_taken(a);
    lemma_place(a);
    lemma_places(a, b);
    if name_fault(b) is None {
        lemma_taken(b);
        lemma_place(b);
        reveal_strlit("sandboxes/");
        if has_prefix(b, "sandboxes/"@) {
            assert(b.subrange(0, 10)[9] == '/');
            assert(b[9] == '/');
            assert(b.contains('/'));
        }
        lemma_head_on(b);
    }
}

/// Switching to a branch that is there makes `HEAD` name its reference; switching to a
/// sandbox, by its name behind `sandboxes/`, makes it name the one of the sandbox. What is not
/// there is refused.
pub proof fn switching_names_the_branch(r: Refs, name: Seq<char>)
    requires
        ends_solid(name),
        !name.contains('/'),
        name != seq!['.'],
        !has_refs_below(r, place_of(name)),
    ensures
        switch_fault(r, name) is None <==> r.refs.contains_key(place_of(name)),
        switch_fault(r, name) is Some ==> switch_fault(r, name) == Some(
            BranchFault::NoSuchBranch(name),
        ),
        head_symbol(head_on(name)) == Some(place_of(name)),
        head_symbol(
            head_on(seq!['s', 'a', 'n', 'd', 'b', 'o', 'x', 'e', 's', '/'] + name),
        ) == Some(
            seq!['r', 'e', 'f', 's', '/', 's', 'a', 'n', 'd', 'b', 'o', 'x', 'e', 's', '/'] + name,
        ),
        current_branch(Refs { head: Some(head_on(name)), ..r }) == name,
{
    lemma_place(name);
    reveal_strlit("sandboxes/");
    reveal_strlit("refs/sandboxes/");
    reveal_strlit("ref: refs/sandboxes/");
    reveal_strlit("ref: ");
    if has_prefix(name, "sandboxes/"@) {
        assert(name.subrange(0, 10)[9] == '/');
        assert(name[9] == '/');
        assert(name.contains('/'));
    }
    lemma_head_on(name);
    let short = seq!['s', 'a', 'n', 'd', 'b', 'o', 'x', 'e', 's', '/'];
    assert("sandboxes/"@ =~= short);
    let full = short + name;
    assert(full.subrange(0, 10) =~= short);
    assert(after(full, 10) =~= name);
    lemma_symbol("refs/sandboxes/"@, name);
    assert("refs/sandboxes/"@ + name =~= seq![
        'r', 'e', 'f', 's', '/', 's', 'a', 'n', 'd', 'b', 'o', 'x', 'e', 's', '/',
    ] + name);
    assert("ref: refs/sandboxes/"@ + name + "\n"@ =~= "ref: "@ + ("refs/sandboxes/"@ + name)
        + "\n"@);
}

} // verus!
