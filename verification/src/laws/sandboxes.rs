//! What working in a sandbox comes to: its start, its changes, its commits, and its end.
use vstd::prelude::*;
use vstd::string::*;
use vstd::utf8::*;

use crate::add_command::WorkFile;
use crate::branch_command::{ends_solid, lemma_symbol};
use crate::hash::{blake3_digest, decoded_hash};
use crate::helix_index::commit::{
    commit_bytes, commit_round_trip, commit_storable, parse_commit, CommitError, CommitView,
};
use crate::helix_index::snapshot::{
    files_storable, no_clash, snapshot_round_trip, writing_trees_keeps,
};
use crate::helix_index::tree::{snapshot, tree_id, FileView};
use crate::helix_index::tree_walk::{file_map, tree_files};
use crate::object_store::{ObjectType, Objects};
use crate::path::{is_regular, regular_paths_are_plain};
use crate::refs::{head_commit, HeadFault, RefStore, Refs};
use crate::sandbox_command::{
    are_changes, branch_target, counts, is_destroyed, put_blobs, put_workdir, sandbox_commit,
    sandbox_merge, with_sandbox, without_branch, work_views, DestroyOptions, SandboxChangeKind,
    SandboxError, SandboxFault, SandboxManifest,
};
use crate::text::{has_prefix, split_spec, text_of};

verus! {

/// Whether every file has a regular path, and no two have the same.
pub open spec fn are_plain_files(files: Seq<WorkFile>) -> bool {
    &&& forall|i: int| 0 <= i < files.len() ==> is_regular((#[trigger] files[i]).path@)
    &&& forall|i: int, j: int|
        0 <= i < j < files.len() ==> (#[trigger] files[i]).path@ != (#[trigger] files[j]).path@
}

/// Whether a directory holds a file at this path that counts, with these contents.
pub open spec fn holds_file(files: Seq<WorkFile>, p: Seq<char>, content: Seq<u8>) -> bool {
    counts(p) && exists|i: int|
        0 <= i < files.len() && (#[trigger] files[i]).path@ == p && files[i].content@ == content
}

/// A file counts just if none of the parts of its path is hidden or names a directory that
/// tools fill.
pub proof fn files_that_count(p: Seq<char>)
    ensures
        counts(p) <==> forall|i: int|
            0 <= i < split_spec(p, '/').len() ==> {
                let part = #[trigger] split_spec(p, '/')[i];
                &&& !(part.len() > 0 && part[0] == '.')
                &&& part != "node_modules"@ && part != "target"@ && part != "__pycache__"@ && part
                    != "venv"@
            },
{
    reveal_strlit(".");
    assert forall|part: Seq<char>| #[trigger] has_prefix(part, "."@) == (part.len() > 0 && part[0]
        == '.') by {
        if part.len() > 0 {
            assert(part.subrange(0, 1)[0] == part[0]);
            if part[0] == '.' {
                assert(part.subrange(0, 1) =~= "."@);
            }
        }
    }
    let parts = split_spec(p, '/');
    if counts(p) {
        assert forall|i: int| 0 <= i < parts.len() implies {
            let part = #[trigger] parts[i];
            &&& !(part.len() > 0 && part[0] == '.')
            &&& part != "node_modules"@ && part != "target"@ && part != "__pycache__"@ && part
                != "venv"@
        } by {
            assert(!crate::sandbox_command::is_left_out(parts[i]));
            assert(has_prefix(parts[i], "."@) == (parts[i].len() > 0 && parts[i][0] == '.'));
        }
    } else {
        let i = choose|i: int|
            0 <= i < parts.len() && crate::sandbox_command::is_left_out(#[trigger] parts[i]);
        assert(has_prefix(parts[i], "."@) == (parts[i].len() > 0 && parts[i][0] == '.'));
    }
}

proof fn lemma_work_views(files: Seq<WorkFile>, p: Seq<char>)
    requires
        are_plain_files(files),
    ensures
        forall|g: FileView| #[trigger]
            work_views(files).contains(g) && g.path == p ==> exists|i: int|
                {
                    &&& 0 <= i < files.len()
                    &&& (#[trigger] files[i]).path@ == p
                    &&& counts(p)
                    &&& g.oid == blake3_digest(files[i].content@)@
                    &&& g.size == files[i].content@.len() as u64
                    &&& g.mode == (if files[i].permissions & 0o111 != 0 {
                        0o100755u32
                    } else {
                        0o100644u32
                    })
                },
        forall|i: int|
            0 <= i < files.len() && (#[trigger] files[i]).path@ == p && counts(p) ==> exists|
                g: FileView,
            | #[trigger]
                work_views(files).contains(g) && g.path == p && g.oid == blake3_digest(
                    files[i].content@,
                )@,
    decreases files.len(),
{
    if files.len() > 0 {
        let d = files.drop_last();
        let f = files.last();
        assert forall|i: int| 0 <= i < d.len() implies is_regular((#[trigger] d[i]).path@) by {
            assert(d[i] == files[i]);
        }
        assert forall|i: int, j: int| 0 <= i < j < d.len() implies (#[trigger] d[i]).path@ != (
        #[trigger] d[j]).path@ by {
            assert(d[i] == files[i] && d[j] == files[j]);
        }
        lemma_work_views(d, p);
        let n = files.len() - 1;
        assert(files[n] == f);
        regular_paths_are_plain(f.path@);
        let before = work_views(d);
        let now = work_views(files);
        assert forall|g: FileView| #[trigger] now.contains(g) && g.path == p implies exists|i: int|
            {
                &&& 0 <= i < files.len()
                &&& (#[trigger] files[i]).path@ == p
                &&& counts(p)
                &&& g.oid == blake3_digest(files[i].content@)@
                &&& g.size == files[i].content@.len() as u64
                &&& g.mode == (if files[i].permissions & 0o111 != 0 {
                    0o100755u32
                } else {
                    0o100644u32
                })
            } by {
            if before.contains(g) {
                let i = choose|i: int|
                    {
                        &&& 0 <= i < d.len()
                        &&& (#[trigger] d[i]).path@ == p
                        &&& counts(p)
                        &&& g.oid == blake3_digest(d[i].content@)@
                        &&& g.size == d[i].content@.len() as u64
                        &&& g.mode == (if d[i].permissions & 0o111 != 0 {
                            0o100755u32
                        } else {
                            0o100644u32
                        })
                    };
                assert(files[i] == d[i]);
            } else {
                assert(g == now.last());
                assert(files[n].path@ == p);
            }
        }
        assert forall|i: int|
            0 <= i < files.len() && (#[trigger] files[i]).path@ == p && counts(p) implies exists|
            g: FileView,
        | #[trigger]
            now.contains(g) && g.path == p && g.oid == blake3_digest(files[i].content@)@ by {
            if i < n {
                assert(d[i] == files[i]);
                let g = choose|g: FileView| #[trigger]
                    before.contains(g) && g.path == p && g.oid == blake3_digest(d[i].content@)@;
                let k = choose|k: int| 0 <= k < before.len() && before[k] == g;
                assert(now[k] == g);
                assert(now.contains(g));
            } else {
                let g = now.last();
                assert(now[now.len() - 1] == g);
                assert(now.contains(g));
            }
        }
    }
}

/// The tree that a committed working directory gets is that directory: reading it gives a
/// file at a path just if the directory holds one there that counts, with the hash of its
/// contents, its length and its mode. Where no contents clash, they can be read too.
pub proof fn committed_directory_reads_back(m: Objects, files: Seq<WorkFile>)
    requires
        are_plain_files(files),
        no_clash(put_blobs(m, files), work_views(files)),
        files_storable(work_views(files)),
    ensures
        ({
            let after = put_workdir(m, files);
            let id = tree_id(snapshot(work_views(files)));
            let fs = tree_files(after, id)->Ok_0;
            &&& tree_files(after, id) is Ok
            &&& forall|g: FileView| #[trigger]
                fs.contains(g) ==> exists|i: int|
                    {
                        &&& 0 <= i < files.len()
                        &&& (#[trigger] files[i]).path@ == g.path
                        &&& counts(g.path)
                        &&& g.oid == blake3_digest(files[i].content@)@
                        &&& g.size == files[i].content@.len() as u64
                        &&& g.mode == (if files[i].permissions & 0o111 != 0 {
                            0o100755u32
                        } else {
                            0o100644u32
                        })
                    }
            &&& forall|i: int|
                0 <= i < files.len() && counts((#[trigger] files[i]).path@) ==> {
                    let key = (ObjectType::Blob, blake3_digest(files[i].content@)@);
                    &&& exists|g: FileView| #[trigger]
                        fs.contains(g) && g.path == files[i].path@ && g.oid == key.1
                    &&& after.contains_key(key)
                    &&& m.contains_key(key) ==> after[key] == m[key]
                }
        }),
{
    let after = put_workdir(m, files);
    let vs = work_views(files);
    let id = tree_id(snapshot(vs));
    snapshot_round_trip(put_blobs(m, files), vs);
    writing_trees_keeps(put_blobs(m, files), vs);
    let fs = tree_files(after, id)->Ok_0;
    assert forall|g: FileView| #[trigger] fs.contains(g) implies exists|i: int|
        {
            &&& 0 <= i < files.len()
            &&& (#[trigger] files[i]).path@ == g.path
            &&& counts(g.path)
            &&& g.oid == blake3_digest(files[i].content@)@
            &&& g.size == files[i].content@.len() as u64
            &&& g.mode == (if files[i].permissions & 0o111 != 0 {
                0o100755u32
            } else {
                0o100644u32
            })
        } by {
        assert(vs.contains(g));
        lemma_work_views(files, g.path);
    }
    assert forall|i: int| 0 <= i < files.len() && counts((#[trigger] files[i]).path@) implies {
        let key = (ObjectType::Blob, blake3_digest(files[i].content@)@);
        &&& exists|g: FileView| #[trigger]
            fs.contains(g) && g.path == files[i].path@ && g.oid == key.1
        &&& after.contains_key(key)
        &&& m.contains_key(key) ==> after[key] == m[key]
    } by {
        lemma_work_views(files, files[i].path@);
        let g = choose|g: FileView| #[trigger]
            vs.contains(g) && g.path == files[i].path@ && g.oid == blake3_digest(
                files[i].content@,
            )@;
        assert(fs.contains(g));
        lemma_blobs_put(m, files, i);
    }
}

proof fn lemma_blobs_put(m: Objects, files: Seq<WorkFile>, i: int)
    requires
        0 <= i < files.len(),
        counts(files[i].path@),
    ensures
        put_blobs(m, files).contains_key(
            (ObjectType::Blob, blake3_digest(files[i].content@)@),
        ),
        forall|k: (ObjectType, Seq<u8>)|
            m.contains_key(k) ==> #[trigger] put_blobs(m, files).contains_key(k) && put_blobs(
                m,
                files,
            )[k] == m[k],
    decreases files.len(),
{
    lemma_blobs_keep(m, files);
    let d = files.drop_last();
    if i < files.len() - 1 {
        assert(d[i] == files[i]);
        lemma_blobs_put(m, d, i);
    }
}

proof fn lemma_blobs_keep(m: Objects, files: Seq<WorkFile>)
    ensures
        forall|k: (ObjectType, Seq<u8>)|
            m.contains_key(k) ==> #[trigger] put_blobs(m, files).contains_key(k) && put_blobs(
                m,
                files,
            )[k] == m[k],
    decreases files.len(),
{
    if files.len() > 0 {
        let before = put_blobs(m, files.drop_last());
        lemma_blobs_keep(m, files.drop_last());
        assert forall|k: (ObjectType, Seq<u8>)| m.contains_key(k) implies #[trigger] put_blobs(
            m,
            files,
        ).contains_key(k) && put_blobs(m, files)[k] == m[k] by {
            assert(before.contains_key(k));
        }
    }
}

proof fn lemma_file_map(fs: Seq<FileView>, p: Seq<char>)
    ensures
        file_map(fs).contains_key(p) <==> exists|g: FileView| #[trigger]
            fs.contains(g) && g.path == p,
        file_map(fs).contains_key(p) ==> exists|g: FileView| #[trigger]
            fs.contains(g) && g.path == p && file_map(fs)[p] == g.oid,
    decreases fs.len(),
{
    if fs.len() > 0 {
        let d = fs.drop_last();
        lemma_file_map(d, p);
        assert(fs[fs.len() - 1] == fs.last());
        assert(fs.contains(fs.last()));
        if exists|g: FileView| #[trigger] d.contains(g) && g.path == p {
            let g = choose|g: FileView| #[trigger]
                d.contains(g) && g.path == p && file_map(d)[p] == g.oid;
            let k = choose|k: int| 0 <= k < d.len() && d[k] == g;
            assert(fs[k] == g);
            assert(fs.contains(g));
        }
        if exists|g: FileView| #[trigger] fs.contains(g) && g.path == p {
            let g = choose|g: FileView| #[trigger] fs.contains(g) && g.path == p;
            let k = choose|k: int| 0 <= k < fs.len() && fs[k] == g;
            if k < d.len() {
                assert(d[k] == g);
                assert(d.contains(g));
            }
        }
    }
}

/// What is listed of a sandbox: a file that counts and is not in the commit is added; one
/// that is in it with another hash is modified; and one of the commit that is not there, or
/// does not count, is deleted. Nothing else is listed.
pub proof fn changes_are_what_differs(
    base: Map<Seq<char>, Seq<u8>>,
    files: Seq<WorkFile>,
    v: Seq<(Seq<char>, SandboxChangeKind)>,
    p: Seq<char>,
)
    requires
        are_plain_files(files),
        are_changes(base, files, v),
    ensures
        v.contains((p, SandboxChangeKind::Added)) <==> !base.contains_key(p) && exists|c: Seq<u8>|
            #[trigger] holds_file(files, p, c),
        v.contains((p, SandboxChangeKind::Modified)) <==> base.contains_key(p) && exists|c: Seq<u8>|
            #[trigger] holds_file(files, p, c) && base[p] != blake3_digest(c)@,
        v.contains((p, SandboxChangeKind::Deleted)) <==> base.contains_key(p) && forall|c: Seq<u8>|
            !#[trigger] holds_file(files, p, c),
{
    lemma_content_at(files, p);
    let x = crate::sandbox_command::counted_content(files, p);
    if let Some(c) = x {
        assert(holds_file(files, p, c));
        assert forall|e: Seq<u8>| #[trigger] holds_file(files, p, e) implies e == c by {}
    } else {
        assert forall|c: Seq<u8>| !#[trigger] holds_file(files, p, c) by {}
    }
}

proof fn lemma_content_at(files: Seq<WorkFile>, p: Seq<char>)
    requires
        are_plain_files(files),
    ensures
        crate::diff_command::content_at(files, p) matches Some(c) ==> {
            &&& exists|i: int|
                0 <= i < files.len() && (#[trigger] files[i]).path@ == p && files[i].content@ == c
            &&& forall|i: int|
                0 <= i < files.len() && (#[trigger] files[i]).path@ == p ==> files[i].content@ == c
        },
        crate::diff_command::content_at(files, p) is None ==> forall|i: int|
            0 <= i < files.len() ==> (#[trigger] files[i]).path@ != p,
{
    lemma_content_from(files, p, 0);
}

proof fn lemma_content_from(files: Seq<WorkFile>, p: Seq<char>, at: int)
    requires
        0 <= at <= files.len(),
        are_plain_files(files),
    ensures
        crate::diff_command::content_from(files, p, at) matches Some(c) ==> exists|i: int|
            at <= i < files.len() && (#[trigger] files[i]).path@ == p && files[i].content@ == c,
        crate::diff_command::content_from(files, p, at) matches Some(c) ==> forall|i: int|
            at <= i < files.len() && (#[trigger] files[i]).path@ == p ==> files[i].content@ == c,
        crate::diff_command::content_from(files, p, at) is None ==> forall|i: int|
            at <= i < files.len() ==> (#[trigger] files[i]).path@ != p,
        crate::diff_command::content_from(files, p, at) is Some ==> exists|i: int|
            at <= i < files.len() && (#[trigger] files[i]).path@ == p,
    decreases files.len() - at,
{
    if at < files.len() {
        if files[at].path@ != p {
            lemma_content_from(files, p, at + 1);
        }
    }
}

/// A directory that was just committed has no changes next to the tree of its commit.
pub proof fn committed_directory_has_no_changes(
    m: Objects,
    files: Seq<WorkFile>,
    v: Seq<(Seq<char>, SandboxChangeKind)>,
)
    requires
        are_plain_files(files),
        no_clash(put_blobs(m, files), work_views(files)),
        files_storable(work_views(files)),
        are_changes(
            file_map(
                tree_files(put_workdir(m, files), tree_id(snapshot(work_views(files))))->Ok_0,
            ),
            files,
            v,
        ),
    ensures
        v.len() == 0,
{
    committed_directory_reads_back(m, files);
    let fs = tree_files(put_workdir(m, files), tree_id(snapshot(work_views(files))))->Ok_0;
    let base = file_map(fs);
    if v.len() > 0 {
        let p = v[0].0;
        assert(v.contains(v[0]));
        assert(crate::sandbox_command::change_at(base, files, p) == Some(v[0].1));
        lemma_file_map(fs, p);
        lemma_content_at(files, p);
        if base.contains_key(p) {
            let g = choose|g: FileView| #[trigger]
                fs.contains(g) && g.path == p && base[p] == g.oid;
            assert(fs.contains(g));
        }
        if let Some(c) = crate::sandbox_command::counted_content(files, p) {
            let i = choose|i: int|
                0 <= i < files.len() && (#[trigger] files[i]).path@ == p && files[i].content@ == c;
            assert(counts(files[i].path@));
            let g = choose|g: FileView| #[trigger]
                fs.contains(g) && g.path == files[i].path@ && g.oid == blake3_digest(
                    files[i].content@,
                )@;
            assert(fs.contains(g) && g.path == p);
        }
    }
}

/// The commit of a sandbox, read from its bytes: it has the commit that the sandbox starts
/// from as its only parent, the tree of the directory, and the author, the message and the
/// time that were given.
pub proof fn sandbox_commits_follow_their_base(
    base: Seq<u8>,
    files: Seq<WorkFile>,
    author: Seq<char>,
    message: Seq<char>,
    now: u64,
)
    requires
        commit_storable(sandbox_commit(base, files, author, message, now)),
    ensures
        ({
            let b = commit_bytes(sandbox_commit(base, files, author, message, now));
            parse_commit(b) == Ok::<CommitView, CommitError>(
                (CommitView {
                    commit_hash: blake3_digest(b)@,
                    tree_hash: tree_id(snapshot(work_views(files))),
                    parents: seq![base],
                    author,
                    author_time: now,
                    commit_time: now,
                    message,
                }),
            )
        }),
{
    commit_round_trip(sandbox_commit(base, files, author, message, now));
}

/// A sandbox starts at its commit: the current one is then that commit, on the branch of the
/// sandbox, and no other reference has changed.
pub proof fn sandbox_starts_at_its_base(r: Refs, name: Seq<char>, base: Seq<u8>)
    requires
        base.len() == 32,
        ends_solid(name),
    ensures
        ({
            let after = with_sandbox(r, name, base);
            let path = "refs/heads/sandboxes/"@ + name;
            &&& head_commit(after) == Ok::<Seq<u8>, HeadFault>(base)
            &&& crate::refs::head_symbol(after.head->0) == Some(path)
            &&& branch_target(after, path) == Ok::<Option<Seq<u8>>, SandboxFault>(Some(base))
            &&& forall|k: Seq<char>|
                k != crate::refs::ref_key(path) ==> (#[trigger] after.refs.contains_key(k)
                    <==> r.refs.contains_key(k)) && (r.refs.contains_key(k) ==> after.refs[k]
                    == r.refs[k])
            &&& after.upstreams == r.upstreams
        }),
{
    let after = with_sandbox(r, name, base);
    let path = "refs/heads/sandboxes/"@ + name;
    reveal_strlit("refs/heads/sandboxes/");
    reveal_strlit("refs/heads/");
    reveal_strlit("sandboxes/");
    reveal_strlit("ref: refs/heads/");
    reveal_strlit("ref: ");
    assert("refs/heads/"@ + ("sandboxes/"@ + name) =~= path);
    assert("ref: refs/heads/"@ + ("sandboxes/"@ + name) + "\n"@ =~= "ref: "@ + (
    "refs/heads/sandboxes/"@ + name) + "\n"@);
    lemma_symbol("refs/heads/sandboxes/"@, name);
    crate::refs::lemma_hash_reads_back(base);
}

/// Destroying a sandbox takes its branch away and leaves every other reference, `HEAD` and
/// the upstreams.
pub proof fn destroyed_sandbox_leaves_the_rest(r: Refs, branch: Seq<char>)
    ensures
        ({
            let after = without_branch(r, Some(branch));
            let path = "refs/heads/"@ + branch;
            &&& branch_target(after, path) == Ok::<Option<Seq<u8>>, SandboxFault>(None)
            &&& forall|k: Seq<char>|
                k != crate::refs::ref_key(path) ==> (#[trigger] after.refs.contains_key(k)
                    <==> r.refs.contains_key(k)) && (r.refs.contains_key(k) ==> after.refs[k]
                    == r.refs[k])
            &&& after.head == r.head
            &&& after.upstreams == r.upstreams
        }),
{
}

/// When a sandbox can be merged: it has a branch that names another commit than the one it
/// starts from, and the target either is not there or still names that start. What is then
/// put into the target is the commit of the sandbox's branch, and only a target that was not
/// there is new.
pub proof fn sandboxes_merge_by_going_forward(
    r: Refs,
    repo: Seq<char>,
    name: Seq<char>,
    m: SandboxManifest,
    target: Seq<char>,
)
    ensures
        ({
            let merged = sandbox_merge(r, repo, name, Some(m), target);
            &&& merged is Ok <==> (text_of(m.branch) matches Some(b) && decoded_hash(
                encode_utf8(m.base_commit@),
            ) matches Ok(base) && branch_target(r, "refs/heads/"@ + b) matches Ok(Some(head))
                && head != base && (branch_target(r, "refs/heads/"@ + target) == Ok::<
                Option<Seq<u8>>,
                SandboxFault,
            >(None) || branch_target(r, "refs/heads/"@ + target) == Ok::<
                Option<Seq<u8>>,
                SandboxFault,
            >(Some(base))))
            &&& merged matches Ok((head, is_new)) ==> {
                &&& branch_target(r, "refs/heads/"@ + text_of(m.branch)->0) == Ok::<
                    Option<Seq<u8>>,
                    SandboxFault,
                >(Some(head))
                &&& is_new <==> branch_target(r, "refs/heads/"@ + target) == Ok::<
                    Option<Seq<u8>>,
                    SandboxFault,
                >(None)
            }
        }),
{
}

/// Destroying a sandbox takes the branch of its manifest away, and no other reference.
pub proof fn destroyed_sandbox_has_no_branch(
    before: RefStore,
    after: RefStore,
    name: Seq<char>,
    m: SandboxManifest,
    options: DestroyOptions,
    r: Result<Vec<String>, SandboxError>,
)
    requires
        is_destroyed(before, after, name, m, options, r),
    ensures
        r is Ok,
        m.branch is None ==> after@ == before@,
        m.branch matches Some(b) ==> {
            let path = "refs/heads/"@ + b@;
            &&& !after@.has(path)
            &&& after@.head == before@.head && after@.upstreams == before@.upstreams
            &&& forall|k: Seq<char>|
                k != crate::refs::ref_key(path) ==> (#[trigger] after@.refs.contains_key(k)
                    <==> before@.refs.contains_key(k)) && (before@.refs.contains_key(k)
                    ==> after@.refs[k] == before@.refs[k])
        },
{
}

} // verus!
