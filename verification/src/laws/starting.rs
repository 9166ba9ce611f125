//! How a sandbox starts, and who commits in it.
use vstd::prelude::*;
use vstd::string::*;

use crate::branch_command::{ends_solid, lemma_symbol};
use crate::checkout::{tree_of_commit, ActionView};
use crate::hash::{hex_text, ObjectId};
use crate::helix_index::format::{EntryView, FileStat};
use crate::helix_index::tree::{FileView, TreeEntryView};
use crate::helix_index::tree_walk::{file_map, grounded, tree_files};
use crate::laws::branching::place_of;
use crate::laws::checking_out::{
    are_spelled, checkout_puts_entries_in_place, is_step_for, leads_to, spelled,
};
use crate::object_store::{ObjectType, Objects};
use crate::refs::{head_commit, head_symbol, Refs};
use crate::sandbox_command::{
    are_commit_entries, commit_author, entry_paths, is_activation, is_new_manifest, merge_target,
    raw_commit_files, sandbox_dir, sandbox_name_fault, sandbox_setup, with_active, Activation,
    CommitOptions, MergeOptions, SandboxFault, SandboxManifest,
};
use crate::text::text_of;
use crate::toml_text::toml_text;

verus! {

/// A sandbox with a good name that is free starts from the commit that was named, or else from
/// the current one; and every file that names lead to in the tree of that commit is written at
/// the path that the names spell, with its contents, and executable where it is.
pub proof fn sandbox_gets_the_files_of_its_commit(
    m: Objects,
    r: Refs,
    name: Seq<char>,
    named: Option<ObjectId>,
    names: Seq<Seq<char>>,
    e: TreeEntryView,
)
    requires
        sandbox_setup(m, r, name, false, named) is Ok,
        ({
            let t = tree_of_commit(m, sandbox_setup(m, r, name, false, named)->Ok_0.0);
            t is Ok && grounded(m, t->Ok_0) && leads_to(m, t->Ok_0, names, e)
        }),
        are_spelled(names),
        e.entry_type is File || e.entry_type is FileExecutable,
    ensures
        ({
            let (h, actions) = sandbox_setup(m, r, name, false, named)->Ok_0;
            &&& named matches Some(id) ==> h == id@
            &&& named is None ==> head_commit(r) is Ok && head_commit(r)->Ok_0 == h
            &&& exists|i: int|
                0 <= i < actions.len() && (#[trigger] actions[i] matches ActionView::WriteFile {
                    path,
                    content,
                    executable,
                    ..
                } && path == spelled(names) && content == m[(ObjectType::Blob, e.oid)]
                    && executable == (e.entry_type is FileExecutable))
        }),
{
    let (h, actions) = sandbox_setup(m, r, name, false, named)->Ok_0;
    let s = crate::sandbox_command::empty_destination();
    checkout_puts_entries_in_place(m, h, true, s, names, e);
    let i = choose|i: int|
        s.actions.len() <= i < actions.len() && #[trigger] is_step_for(
            m,
            s,
            actions,
            i,
            spelled(names),
            e,
            true,
        );
    assert(actions[i] is WriteFile);
}

/// A sandbox is refused for its name, and where its name is taken.
pub proof fn sandboxes_are_refused(m: Objects, r: Refs, name: Seq<char>, named: Option<ObjectId>)
    ensures
        sandbox_name_fault(name) is Some ==> sandbox_setup(m, r, name, false, named) is Err
            && sandbox_setup(m, r, name, true, named) is Err,
        sandbox_name_fault(name) is None ==> sandbox_setup(m, r, name, true, named) == Err::<
            (Seq<u8>, Seq<ActionView>),
            SandboxFault,
        >(SandboxFault::AlreadyExists(name)),
        named is None && head_commit(r) is Err ==> sandbox_setup(m, r, name, false, named) is Err,
{
}

/// The index of a sandbox has just one entry for each file of its commit, with its hash,
/// tracked and nothing else; size, time and mode are those of the file that was written.
pub proof fn sandbox_index_holds_its_commit(
    fs: Seq<FileView>,
    stats: Map<Seq<char>, FileStat>,
    es: Seq<EntryView>,
    k: int,
)
    requires
        are_commit_entries(file_map(fs), stats, es),
        0 <= k < fs.len(),
        forall|i: int, j: int|
            0 <= i < j < fs.len() ==> (#[trigger] fs[i]).path != (#[trigger] fs[j]).path,
    ensures
        exists|i: int|
            0 <= i < es.len() && (#[trigger] es[i]).path == fs[k].path && es[i].oid@ == fs[k].oid
                && es[i].flags.bits == 1 && (stats.contains_key(fs[k].path) ==> {
                let t = stats[fs[k].path];
                &&& es[i].size == t.len
                &&& t.mtime is Some ==> t.mtime == Some(es[i].mtime_sec)
                &&& es[i].file_mode == (if t.permissions & 0o111 == 0 {
                    0o100644u32
                } else {
                    0o100755
                })
            }),
        forall|i: int|
            0 <= i < es.len() ==> exists|j: int|
                0 <= j < fs.len() && (#[trigger] fs[j]).path == (#[trigger] es[i]).path,
{
    lemma_file_map(fs);
    let p = fs[k].path;
    assert(file_map(fs).contains_key(p));
    assert(entry_paths(es).contains(p));
    let i = choose|i: int| 0 <= i < entry_paths(es).len() && entry_paths(es)[i] == p;
    assert(es[i].path == p);
    assert forall|i: int| 0 <= i < es.len() implies exists|j: int|
        0 <= j < fs.len() && (#[trigger] fs[j]).path == (#[trigger] es[i]).path by {
        assert(entry_paths(es)[i] == es[i].path);
        assert(entry_paths(es).contains(es[i].path));
        assert(file_map(fs).contains_key(es[i].path));
    }
}

proof fn lemma_file_map(fs: Seq<FileView>)
    requires
        forall|i: int, j: int|
            0 <= i < j < fs.len() ==> (#[trigger] fs[i]).path != (#[trigger] fs[j]).path,
    ensures
        forall|k: int|
            0 <= k < fs.len() ==> file_map(fs).contains_key((#[trigger] fs[k]).path) && file_map(
                fs,
            )[fs[k].path] == fs[k].oid,
        forall|p: Seq<char>| #[trigger]
            file_map(fs).contains_key(p) ==> exists|k: int|
                0 <= k < fs.len() && (#[trigger] fs[k]).path == p,
    decreases fs.len(),
{
    if fs.len() > 0 {
        let d = fs.drop_last();
        let n = fs.len() - 1;
        assert forall|i: int, j: int| 0 <= i < j < d.len() implies (#[trigger] d[i]).path != (
        #[trigger] d[j]).path by {
            assert(d[i] == fs[i] && d[j] == fs[j]);
        }
        lemma_file_map(d);
        assert forall|k: int| 0 <= k < fs.len() implies file_map(fs).contains_key(
            (#[trigger] fs[k]).path,
        ) && file_map(fs)[fs[k].path] == fs[k].oid by {
            if k < n {
                assert(d[k] == fs[k]);
                assert(fs[k].path != fs[n].path);
            }
        }
        assert forall|p: Seq<char>| #[trigger] file_map(fs).contains_key(p) implies exists|k: int|
            0 <= k < fs.len() && (#[trigger] fs[k]).path == p by {
            if file_map(d).contains_key(p) {
                let k = choose|k: int| 0 <= k < d.len() && (#[trigger] d[k]).path == p;
                assert(fs[k] == d[k]);
            } else {
                assert(fs[n].path == p);
            }
        }
    }
}

/// The files of a commit by their paths are those of its tree.
pub proof fn files_of_a_commit(m: Objects, id: Seq<u8>, t: Seq<u8>, fs: Seq<FileView>)
    requires
        m.contains_key((ObjectType::Commit, id)),
        m[(ObjectType::Commit, id)].len() >= 32,
        m[(ObjectType::Commit, id)].subrange(0, 32) == t,
        tree_files(m, t) == Ok::<Seq<FileView>, crate::helix_index::tree_walk::WalkFault>(fs),
    ensures
        raw_commit_files(m, id) == Ok::<Map<Seq<char>, Seq<u8>>, SandboxFault>(file_map(fs)),
{
}

/// The author of a commit in a sandbox is the one that was named, or else the name and the
/// address of the section of the user, where both are there and not empty.
pub proof fn sandbox_authors(o: CommitOptions, text: Seq<char>)
    ensures
        (o.author matches Some(a) ==> commit_author(o, Some(text)) == Some(a@) && commit_author(
            o,
            None,
        ) == Some(a@)),
        o.author is None ==> commit_author(o, None) is None,
        ({
            let user = seq!['u', 's', 'e', 'r'];
            let n = toml_text(text, user, seq!['n', 'a', 'm', 'e']);
            let e = toml_text(text, user, seq!['e', 'm', 'a', 'i', 'l']);
            o.author is None ==> if n is Some && e is Some && n->Some_0.len() > 0
                && e->Some_0.len() > 0 {
                commit_author(o, Some(text)) == Some(
                    n->Some_0 + seq![' ', '<'] + e->Some_0 + seq!['>'],
                )
            } else {
                commit_author(o, Some(text)) is None
            }
        }),
{
    reveal_strlit("user");
    reveal_strlit("name");
    reveal_strlit("email");
    reveal_strlit(" <");
    reveal_strlit(">");
    assert("user"@ =~= seq!['u', 's', 'e', 'r']);
    assert("name"@ =~= seq!['n', 'a', 'm', 'e']);
    assert("email"@ =~= seq!['e', 'm', 'a', 'i', 'l']);
    assert(" <"@ =~= seq![' ', '<']);
    assert(">"@ =~= seq!['>']);
}

/// A new sandbox tells the commit that it starts from in hexadecimal digits, and its branch
/// behind `sandboxes/`; it lies below `.helix/sandboxes` in the repository; and it is merged
/// into `main` where no branch is named.
pub proof fn sandboxes_have_their_places(
    m: SandboxManifest,
    repo: Seq<char>,
    name: Seq<char>,
    base: Seq<u8>,
    id: String,
    now: u64,
    o: MergeOptions,
)
    requires
        is_new_manifest(m, name, base, id, now),
        repo.len() > 0,
        repo.last() != '/',
    ensures
        m.name@ == name && m.id == id && m.created_at == now && m.base_commit@ == hex_text(base),
        text_of(m.branch) == Some(
            seq!['s', 'a', 'n', 'd', 'b', 'o', 'x', 'e', 's', '/'] + name,
        ),
        sandbox_dir(repo, name) == repo + seq![
            '/', '.', 'h', 'e', 'l', 'i', 'x', '/', 's', 'a', 'n', 'd', 'b', 'o', 'x', 'e', 's', '/',
        ] + name,
        o.into_branch is None ==> merge_target(o) == seq!['m', 'a', 'i', 'n'],
        (o.into_branch matches Some(b) ==> merge_target(o) == b@),
{
    reveal_strlit("sandboxes/");
    reveal_strlit("sandboxes");
    reveal_strlit(".helix");
    reveal_strlit("/");
    reveal_strlit("main");
    assert("sandboxes/"@ =~= seq!['s', 'a', 'n', 'd', 'b', 'o', 'x', 'e', 's', '/']);
    assert("main"@ =~= seq!['m', 'a', 'i', 'n']);
    let a = repo + "/"@ + ".helix"@;
    let b = a + "/"@ + "sandboxes"@;
    assert(a.last() == 'x');
    assert(b.last() == 's');
    assert(sandbox_dir(repo, name) =~= repo + seq![
        '/', '.', 'h', 'e', 'l', 'i', 'x', '/', 's', 'a', 'n', 'd', 'b', 'o', 'x', 'e', 's', '/',
    ] + name);
}

/// A sandbox that becomes the active one is kept by its name and its working directory, each
/// on a line of its own; `HEAD` then names its branch, and nothing else changes.
pub proof fn active_sandboxes_are_kept(
    a: Activation,
    r: Refs,
    name: Seq<char>,
    branch: Seq<char>,
    workdir: Seq<char>,
    created: bool,
    count: Option<u64>,
)
    requires
        is_activation(a, name, Some(branch), workdir, created, count),
        ends_solid(branch),
    ensures
        a.active_file@ == seq!['n', 'a', 'm', 'e', '='] + name + seq![
            '\n', 'w', 'o', 'r', 'k', 'd', 'i', 'r', '=',
        ] + workdir + seq!['\n'],
        ({
            let now = with_active(r, Some(branch));
            &&& head_symbol(now.head->Some_0) == Some(place_of(branch))
            &&& now.head is Some
            &&& now.refs == r.refs && now.upstreams == r.upstreams
            &&& with_active(r, None) == r
        }),
{
    reveal_strlit("name=");
    reveal_strlit("\nworkdir=");
    reveal_strlit("\n");
    reveal_strlit("ref: refs/heads/");
    reveal_strlit("ref: ");
    assert("name="@ =~= seq!['n', 'a', 'm', 'e', '=']);
    assert("\nworkdir="@ =~= seq!['\n', 'w', 'o', 'r', 'k', 'd', 'i', 'r', '=']);
    assert("\n"@ =~= seq!['\n']);
    let heads = seq!['r', 'e', 'f', 's', '/', 'h', 'e', 'a', 'd', 's', '/'];
    lemma_symbol(heads, branch);
    assert("ref: refs/heads/"@ + branch + "\n"@ =~= "ref: "@ + (heads + branch) + "\n"@);
}

} // verus!
