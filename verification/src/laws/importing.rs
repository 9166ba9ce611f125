//! What becomes of the parts of a Git repository that is taken over.
use vstd::prelude::*;
use vstd::string::*;

use crate::hash::{blake3_digest, decoded_hex, hex_text, ObjectId};
use crate::helix_index::api::VerifyResult;
use crate::helix_index::commit::{commit_bytes, CommitView};
use crate::helix_index::commit_store::put_commits;
use crate::helix_index::format::{entry_views, EntryView, FormatError, Header};
use crate::helix_index::git_refs::{
    config_with_remotes, default_branch, https_url, imported_author, imported_head,
    imported_remotes, imported_upstream, remote_count, ssh_parts, taken_over, with_upstreams,
    without_http, CommitMap, GitHeadError, GitRef, GitRemote,
};
use crate::helix_index::reader::{
    file_bytes, index_bytes, index_reads, index_round_trip, is_generation_of, is_index_file,
    path_fits, HelixIndex,
};
use crate::helix_index::rebuild::{is_load, is_rebuild, LoadError, Loaded, Rebuilt};
use crate::helix_index::sync::{
    each_once, every_commit_is_imported_once, git_blob_id, git_files, git_keys, head_id_of,
    head_tree_of, import_order, imported_entries, imported_entry, imported_flags, imported_parents,
    imported_refs, imported_view, index_of, is_deleted_in, is_import, is_import_header,
    is_index_import, is_modified_in, is_staged_in, put_git_contents, put_git_files, with_commits,
    with_imported_head, GitCommit, GitFile, GitFileKind, GitIndexEntry, GitObject, GitRecord,
    GitRepository, HeadTree, ImportError, ImportFault, Imported, ImportedIndex, RepoState,
};
use crate::helix_index::tree::{snapshot, tree_id, FileView};
use crate::ignore::any_matches;
use crate::object_store::{ObjectType, Objects};
use crate::path::{is_regular, regular_paths_are_plain};
use crate::refs::{head_commit, head_round_trip, ref_key, HeadFault, Refs};
use crate::text::{after, first_at, has_prefix, lemma_first_at, text_of};
use crate::toml_text::toml_with;

verus! {

/// Whether `v` is what becomes of an entry whose blob is at hand: it has its path, its mode and
/// the hash of its contents; its size and its time are those of the file in the working tree,
/// where there is one; it is tracked; it is staged where the current commit does not hold it
/// so; it is modified where the file in the working tree has other contents; and it is deleted
/// where the current commit holds it and no file is there.
pub open spec fn is_taken_from(v: EntryView, head: HeadTree, e: GitIndexEntry) -> bool {
    let w = e.working->Some_0;
    let on_disk = e.working is Some && w.is_file;
    &&& v.path == e.path@
    &&& v.file_mode == e.file_mode
    &&& v.mtime_nsec == 0 && v.merge_conflict_stage == 0
    &&& e.object matches GitObject::Blob(c) ==> v.oid == blake3_digest(c@)
    &&& e.working is Some ==> v.size == w.len && w.mtime == Some(v.mtime_sec)
    &&& e.working is None ==> v.size == e.size && v.mtime_sec == e.mtime
    &&& v.flags.bits & 1 == 1
    &&& v.flags.bits & 2 == 2 <==> !(head.contains_key(e.path@) && head[e.path@]@ == e.oid@)
    &&& v.flags.bits & 4 == 4 <==> on_disk && git_blob_id(w.content->Some_0@) != Some(e.oid)
    &&& v.flags.bits & 8 == 8 <==> !on_disk && head.contains_key(e.path@)
    &&& v.flags.bits < 16
}

/// Whether an entry can be taken over: its blob is at hand, or no file is there to be read in
/// its place, and of what is there the contents and the time can be read.
pub open spec fn can_be_taken(e: GitIndexEntry) -> bool {
    e.working matches Some(w) ==> w.mtime is Some && (w.is_file ==> w.content is Some)
}

proof fn lemma_flags(head: HeadTree, e: GitIndexEntry)
    ensures
        ({
            let b = imported_flags(head, e);
            &&& b & 1 == 1
            &&& b & 2 == 2 <==> is_staged_in(head, e)
            &&& b & 4 == 4 <==> is_modified_in(e)
            &&& b & 8 == 8 <==> is_deleted_in(head, e)
            &&& b < 16
        }),
{
    let x = if is_staged_in(head, e) {
        2u32
    } else {
        0
    };
    let y = if is_modified_in(e) {
        4u32
    } else {
        0
    };
    let z = if is_deleted_in(head, e) {
        8u32
    } else {
        0
    };
    let b = imported_flags(head, e);
    assert(b == 1u32 | x | y | z);
    assert(b & 1 == 1 && (b & 2 == 2 <==> x == 2) && (b & 4 == 4 <==> y == 4) && (b & 8 == 8 <==> z
        == 8) && b < 16) by (bit_vector)
        requires
            b == 1u32 | x | y | z,
            x == 0 || x == 2,
            y == 0 || y == 4,
            z == 0 || z == 8,
    ;
}

/// What becomes of an entry of the index.
pub proof fn entry_is_taken_over(head: HeadTree, e: GitIndexEntry)
    ensures
        imported_entry(head, e) is Some <==> can_be_taken(e),
        imported_entry(head, e) matches Some(v) ==> is_taken_from(v, head, e),
{
    lemma_flags(head, e);
}

/// The entries that are taken over are those that are not ignored and can be taken, and the
/// store then holds the contents of each whose blob is at hand.
pub proof fn entries_are_taken_over(
    m: Objects,
    head: HeadTree,
    globs: Seq<Seq<char>>,
    es: Seq<GitIndexEntry>,
)
    ensures
        forall|i: int|
            0 <= i < es.len() && can_be_taken(#[trigger] es[i]) && !any_matches(
                globs,
                es[i].path@,
            ) ==> {
                &&& exists|k: int|
                    0 <= k < imported_entries(head, globs, es).len() && is_taken_from(
                        #[trigger] imported_entries(head, globs, es)[k],
                        head,
                        es[i],
                    )
                &&& es[i].object matches GitObject::Blob(c) ==> put_git_contents(
                    m,
                    globs,
                    es,
                ).contains_key((ObjectType::Blob, blake3_digest(c@)@))
            },
        forall|k: int|
            0 <= k < imported_entries(head, globs, es).len() ==> exists|i: int|
                0 <= i < es.len() && !any_matches(globs, (#[trigger] es[i]).path@) && is_taken_from(
                    #[trigger] imported_entries(head, globs, es)[k],
                    head,
                    es[i],
                ),
    decreases es.len(),
{
    if es.len() > 0 {
        let d = es.drop_last();
        let e = es.last();
        let n = es.len() - 1;
        assert(es[n] == e);
        entries_are_taken_over(m, head, globs, d);
        entry_is_taken_over(head, e);
        let before = imported_entries(head, globs, d);
        let now = imported_entries(head, globs, es);
        assert forall|i: int|
            0 <= i < es.len() && can_be_taken(#[trigger] es[i]) && !any_matches(
                globs,
                es[i].path@,
            ) implies (exists|k: int|
            0 <= k < now.len() && is_taken_from(#[trigger] now[k], head, es[i])) && (
        es[i].object matches GitObject::Blob(c) ==> put_git_contents(m, globs, es).contains_key(
            (ObjectType::Blob, blake3_digest(c@)@),
        )) by {
            if i < n {
                assert(d[i] == es[i]);
                let k = choose|k: int|
                    0 <= k < before.len() && is_taken_from(#[trigger] before[k], head, d[i]);
                assert(now[k] == before[k]);
            } else {
                assert(now[before.len() as int] == imported_entry(head, e)->Some_0);
            }
        }
        assert forall|k: int| 0 <= k < now.len() implies exists|i: int|
            0 <= i < es.len() && !any_matches(globs, (#[trigger] es[i]).path@) && is_taken_from(
                #[trigger] now[k],
                head,
                es[i],
            ) by {
            if k < before.len() {
                assert(now[k] == before[k]);
                let i = choose|i: int|
                    0 <= i < d.len() && !any_matches(globs, (#[trigger] d[i]).path@)
                        && is_taken_from(before[k], head, d[i]);
                assert(es[i] == d[i]);
            }
        }
    }
}

/// Whether `g` is what becomes of a file of a commit.
pub open spec fn is_file_from(g: FileView, f: GitFile) -> bool {
    &&& f.kind != GitFileKind::Other
    &&& f.content matches Some(c) && g.oid == blake3_digest(c@)@ && g.size == c@.len() as u64
    &&& g.path == f.path@
    &&& g.mode == match f.kind {
        GitFileKind::Executable => 0o100755u32,
        GitFileKind::Link => 0o120000,
        _ => 0o100644,
    }
}

/// The files of a commit that are taken over are its files, executable files and links whose
/// contents can be read, each under its path with its contents and its mode; the store then
/// holds those contents.
pub proof fn files_are_taken_over(m: Objects, fs: Seq<GitFile>)
    requires
        forall|i: int| 0 <= i < fs.len() ==> is_regular((#[trigger] fs[i]).path@),
    ensures
        forall|i: int|
            0 <= i < fs.len() && (#[trigger] fs[i]).kind != GitFileKind::Other && fs[i].content
                is Some ==> {
                &&& exists|k: int|
                    0 <= k < git_files(fs).len() && is_file_from(
                        #[trigger] git_files(fs)[k],
                        fs[i],
                    )
                &&& put_git_files(m, fs).contains_key(
                    (ObjectType::Blob, blake3_digest(fs[i].content->Some_0@)@),
                )
            },
        forall|k: int|
            0 <= k < git_files(fs).len() ==> exists|i: int|
                0 <= i < fs.len() && is_file_from(#[trigger] git_files(fs)[k], #[trigger] fs[i]),
    decreases fs.len(),
{
    if fs.len() > 0 {
        let d = fs.drop_last();
        let f = fs.last();
        let n = fs.len() - 1;
        assert(fs[n] == f);
        assert forall|i: int| 0 <= i < d.len() implies is_regular((#[trigger] d[i]).path@) by {
            assert(d[i] == fs[i]);
        }
        files_are_taken_over(m, d);
        regular_paths_are_plain(f.path@);
        let before = git_files(d);
        let now = git_files(fs);
        assert forall|i: int|
            0 <= i < fs.len() && (#[trigger] fs[i]).kind != GitFileKind::Other && fs[i].content
                is Some implies (exists|k: int|
            0 <= k < now.len() && is_file_from(#[trigger] now[k], fs[i])) && put_git_files(
            m,
            fs,
        ).contains_key((ObjectType::Blob, blake3_digest(fs[i].content->Some_0@)@)) by {
            if i < n {
                assert(d[i] == fs[i]);
                let k = choose|k: int|
                    0 <= k < before.len() && is_file_from(#[trigger] before[k], d[i]);
                assert(now[k] == before[k]);
            } else {
                assert(is_file_from(now[before.len() as int], f));
            }
        }
        assert forall|k: int| 0 <= k < now.len() implies exists|i: int|
            0 <= i < fs.len() && is_file_from(#[trigger] now[k], #[trigger] fs[i]) by {
            if k < before.len() {
                assert(now[k] == before[k]);
                let i = choose|i: int|
                    0 <= i < d.len() && is_file_from(before[k], #[trigger] d[i]);
                assert(fs[i] == d[i]);
            } else {
                assert(is_file_from(now[k], fs[n]));
            }
        }
    }
}

/// A commit keeps its author, with the address in angle brackets, its two times, its title with
/// the rest of the message behind an empty line, the tree of its files, and, in order, all its
/// parents where all were taken over.
pub proof fn commit_is_taken_over(m: Map<Seq<char>, ObjectId>, c: GitCommit)
    requires
        forall|p: int|
            0 <= p < c.parents@.len() ==> m.contains_key(hex_text((#[trigger] c.parents@[p])@)),
    ensures
        ({
            let v = imported_view(m, c);
            &&& v.author == c.author_name@ + seq![' ', '<'] + c.author_email@ + seq!['>']
            &&& c.author_time >= 0 ==> v.author_time == c.author_time
            &&& c.time >= 0 ==> v.commit_time == c.time
            &&& c.body is None ==> v.message == c.title@
            &&& c.body matches Some(b) ==> v.message == c.title@ + seq!['\n', '\n'] + b@
            &&& v.tree_hash == tree_id(snapshot(git_files(c.files@)))
            &&& v.parents.len() == c.parents@.len()
            &&& forall|p: int|
                0 <= p < c.parents@.len() ==> #[trigger] v.parents[p] == m[hex_text(
                    c.parents@[p]@,
                )]@
        }),
{
    reveal_strlit(" <");
    reveal_strlit(">");
    reveal_strlit("\n\n");
    assert(" <"@ =~= seq![' ', '<']);
    assert(">"@ =~= seq!['>']);
    assert("\n\n"@ =~= seq!['\n', '\n']);
    lemma_parents(m, c.parents@);
}

proof fn lemma_parents(m: Map<Seq<char>, ObjectId>, ps: Seq<Vec<u8>>)
    requires
        forall|p: int| 0 <= p < ps.len() ==> m.contains_key(hex_text((#[trigger] ps[p])@)),
    ensures
        imported_parents(m, ps).len() == ps.len(),
        forall|p: int|
            0 <= p < ps.len() ==> #[trigger] imported_parents(m, ps)[p] == m[hex_text(ps[p]@)]@,
    decreases ps.len(),
{
    if ps.len() > 0 {
        let d = ps.drop_last();
        assert forall|p: int| 0 <= p < d.len() implies m.contains_key(
            hex_text((#[trigger] d[p])@),
        ) by {
            assert(d[p] == ps[p]);
        }
        lemma_parents(m, d);
        assert(m.contains_key(hex_text(ps[ps.len() - 1]@)));
    }
}

/// The commit that the text of a reference stands for.
pub open spec fn stands_for(m: CommitMap, content: Seq<char>, h: ObjectId) -> bool {
    let id = decoded_hex(vstd::utf8::encode_utf8(crate::text::trim_spec(content)));
    id is Ok && m.contains_key(hex_text(id->Ok_0)) && m[hex_text(id->Ok_0)] == h
}

/// References that are taken over, each at a place of its own, come to hold the commit that
/// was made of theirs, in hexadecimal digits; at other places nothing changes, and neither
/// does `HEAD`.
pub proof fn references_are_taken_over(r: Refs, dir: Seq<char>, files: Seq<GitRef>, m: CommitMap)
    requires
        taken_over(r, dir, files, m).fault is None,
        forall|i: int, j: int|
            0 <= i < j < files.len() ==> ref_key(dir + (#[trigger] files[i]).path@) != ref_key(
                dir + (#[trigger] files[j]).path@,
            ),
    ensures
        ({
            let now = taken_over(r, dir, files, m).refs;
            &&& now.head == r.head && now.upstreams == r.upstreams
            &&& forall|i: int, h: ObjectId|
                #![trigger stands_for(m, files[i].content@, h)]
                0 <= i < files.len() && stands_for(m, files[i].content@, h)
                    ==> now.refs.contains_key(ref_key(dir + files[i].path@)) && now.refs[ref_key(
                    dir + files[i].path@,
                )] == hex_text(h@) && taken_over(r, dir, files, m).taken.contains(files[i].path@)
            &&& forall|k: Seq<char>|
                (forall|i: int|
                    0 <= i < files.len() ==> k != ref_key(dir + (#[trigger] files[i]).path@)) ==> (
                #[trigger] now.refs.contains_key(k) <==> r.refs.contains_key(k)) && (
                r.refs.contains_key(k) ==> now.refs[k] == r.refs[k])
        }),
    decreases files.len(),
{
    if files.len() > 0 {
        let d = files.drop_last();
        let f = files.last();
        let n = files.len() - 1;
        assert(files[n] == f);
        assert forall|i: int, j: int| 0 <= i < j < d.len() implies ref_key(
            dir + (#[trigger] d[i]).path@,
        ) != ref_key(dir + (#[trigger] d[j]).path@) by {
            assert(d[i] == files[i] && d[j] == files[j]);
        }
        references_are_taken_over(r, dir, d, m);
        let before = taken_over(r, dir, d, m);
        let now = taken_over(r, dir, files, m);
        assert forall|i: int, h: ObjectId|
            #![trigger stands_for(m, files[i].content@, h)]
            0 <= i < files.len() && stands_for(m, files[i].content@, h) implies
            now.refs.refs.contains_key(ref_key(dir + files[i].path@)) && now.refs.refs[ref_key(
            dir + files[i].path@,
        )] == hex_text(h@) && now.taken.contains(files[i].path@) by {
            if i < n {
                assert(d[i] == files[i]);
                assert(stands_for(m, d[i].content@, h));
                assert(ref_key(dir + files[i].path@) != ref_key(dir + files[n].path@));
                let k = choose|k: int| 0 <= k < before.taken.len() && before.taken[k] == d[i].path@;
                assert(now.taken[k] == d[i].path@);
            } else {
                assert(now.taken[before.taken.len() as int] == f.path@);
            }
        }
        assert forall|k: Seq<char>|
            (forall|i: int|
                0 <= i < files.len() ==> k != ref_key(dir + (#[trigger] files[i]).path@)) implies (
        #[trigger] now.refs.refs.contains_key(k) <==> r.refs.contains_key(k)) && (
        r.refs.contains_key(k) ==> now.refs.refs[k] == r.refs[k]) by {
            assert(k != ref_key(dir + files[n].path@));
            assert forall|i: int| 0 <= i < d.len() implies k != ref_key(
                dir + (#[trigger] d[i]).path@,
            ) by {
                assert(d[i] == files[i]);
            }
            assert(before.refs.refs.contains_key(k) <==> r.refs.contains_key(k));
        }
    }
}

/// A `HEAD` that names a reference is kept; one that holds the hash of a commit comes to hold
/// that of the commit that was made of it.
pub proof fn head_is_taken_over(content: Seq<char>, m: CommitMap, h: ObjectId)
    ensures
        has_prefix(content, seq!['r', 'e', 'f', ':']) ==> imported_head(content, m) == Ok::<
            Seq<char>,
            GitHeadError,
        >(content),
        !has_prefix(content, seq!['r', 'e', 'f', ':']) && stands_for(m, content, h)
            ==> imported_head(content, m) == Ok::<Seq<char>, GitHeadError>(hex_text(h@)),
{
    reveal_strlit("ref:");
    assert("ref:"@ =~= seq!['r', 'e', 'f', ':']);
}

/// Branches follow the one that Git gives, or else `main`, or else `master`, or else the first;
/// that one follows none.
pub proof fn branches_follow_the_default(names: Seq<Seq<char>>, branch: Seq<char>)
    ensures
        names.contains(seq!['m', 'a', 'i', 'n']) ==> default_branch(names) == Some(
            seq!['m', 'a', 'i', 'n'],
        ),
        !names.contains(seq!['m', 'a', 'i', 'n']) && names.contains(
            seq!['m', 'a', 's', 't', 'e', 'r'],
        ) ==> default_branch(names) == Some(seq!['m', 'a', 's', 't', 'e', 'r']),
        !names.contains(seq!['m', 'a', 'i', 'n']) && !names.contains(
            seq!['m', 'a', 's', 't', 'e', 'r'],
        ) && names.len() > 0 ==> default_branch(names) == Some(names[0]),
        names.len() == 0 ==> default_branch(names) is None,
        default_branch(names) == Some(branch) ==> forall|config: Option<Seq<char>>|
            #[trigger] imported_upstream(names, config, branch) is None,
        default_branch(names) != Some(branch) ==> imported_upstream(names, None, branch)
            == default_branch(names),
{
    reveal_strlit("main");
    reveal_strlit("master");
    assert("main"@ =~= seq!['m', 'a', 'i', 'n']);
    assert("master"@ =~= seq!['m', 'a', 's', 't', 'e', 'r']);
}

/// `https://`
pub open spec fn secure() -> Seq<char> {
    seq!['h', 't', 't', 'p', 's', ':', '/', '/']
}

/// An address for access by SSH, with or without its scheme, comes out as one for HTTPS with
/// the same host and path; one for HTTP gets the other scheme; and one without a scheme gets
/// it in front.
pub proof fn addresses_become_secure(host: Seq<char>, path: Seq<char>, colon: bool)
    requires
        host.len() > 0,
        !host.contains(':'),
        !host.contains('/'),
        path.len() > 0,
        !path.contains('\n'),
    ensures
        ({
            let sep = if colon {
                ':'
            } else {
                '/'
            };
            let at = seq!['g', 'i', 't', '@'] + host.push(sep) + path;
            &&& https_url(at) == secure() + host.push('/') + path
            &&& https_url(seq!['s', 's', 'h', ':', '/', '/'] + at) == secure() + host.push('/')
                + path
        }),
{
    let sep = if colon {
        ':'
    } else {
        '/'
    };
    let rest = host.push(sep) + path;
    let at = seq!['g', 'i', 't', '@'] + host.push(sep) + path;
    let full = seq!['s', 's', 'h', ':', '/', '/'] + at;
    reveal_strlit("ssh://");
    reveal_strlit("git@");
    reveal_strlit("https://");
    reveal_strlit("/");
    assert("ssh://"@ =~= seq!['s', 's', 'h', ':', '/', '/']);
    assert("git@"@ =~= seq!['g', 'i', 't', '@']);
    assert(at =~= "git@"@ + rest);
    assert(at.subrange(0, 4) =~= "git@"@);
    assert(after(at, 4) =~= rest);
    assert(!has_prefix(at, "ssh://"@)) by {
        if has_prefix(at, "ssh://"@) {
            assert(at.subrange(0, 6)[0] == 's');
            assert(at[0] == 'g');
        }
    }
    assert(full.subrange(0, 6) =~= "ssh://"@);
    assert(after(full, 6) =~= at);
    lemma_first_at(rest, ':');
    lemma_first_at(rest, '/');
    let n = host.len() as int;
    assert(rest[n] == sep);
    let a = first_at(rest, ':');
    let b = first_at(rest, '/');
    assert(a >= n) by {
        if a < n {
            assert(host[a] == ':');
        }
    }
    assert(b >= n) by {
        if b < n {
            assert(host[b] == '/');
        }
    }
    assert(crate::helix_index::git_refs::host_end(rest) == n);
    assert(rest.subrange(0, n) =~= host);
    assert(after(rest, n + 1) =~= path);
    let out = "https://"@ + host + "/"@ + path;
    assert(out.subrange(0, 8) =~= "https://"@);
    assert(out =~= secure() + host.push('/') + path);
}

/// An address that is neither for SSH nor has a scheme of HTTP gets that of HTTPS in front;
/// one for HTTP gets it in place of its own.
pub proof fn plain_addresses_become_secure(url: Seq<char>)
    requires
        ssh_parts(url) is None,
        !has_prefix(url, secure()),
        !has_prefix(url, seq!['h', 't', 't', 'p', ':', '/', '/']),
    ensures
        https_url(url) == secure() + url,
        https_url(seq!['h', 't', 't', 'p', ':', '/', '/'] + url) == secure() + url,
{
    reveal_strlit("https://");
    reveal_strlit("http://");
    reveal_strlit("ssh://");
    reveal_strlit("git@");
    let scheme = seq!['h', 't', 't', 'p', ':', '/', '/'];
    assert("https://"@ =~= secure());
    assert("http://"@ =~= scheme);
    let full = scheme + url;
    assert(full[0] == 'h' && full[4] == ':');
    assert(full.subrange(0, 7) =~= scheme);
    assert(after(full, 7) =~= url);
    if has_prefix(full, "https://"@) {
        assert(full.subrange(0, 8)[4] == 's');
    }
    if has_prefix(full, "ssh://"@) {
        assert(full.subrange(0, 6)[0] == 's');
    }
    if has_prefix(full, "git@"@) {
        assert(full.subrange(0, 4)[0] == 'g');
    }
    assert(ssh_parts(full) is None);
    assert(without_http(url) == url);
    assert(without_http(full) == without_http(url));
}

/// A remote is written under its name: the address to pull from, and behind it that to push
/// to, which is the same one where Git gives no other.
pub proof fn remotes_are_taken_over(content: Seq<char>, rs: Seq<GitRemote>, r: GitRemote)
    requires
        config_with_remotes(content, rs) is Some,
        r.fetch_url is Some,
    ensures
        ({
            let before = config_with_remotes(content, rs)->Some_0;
            let section = seq!['r', 'e', 'm', 'o', 't', 'e', 's'];
            let pulled = toml_with(
                before,
                section,
                r.name@ + seq!['_', 'p', 'u', 'l', 'l'],
                https_url(r.fetch_url->Some_0@),
            );
            let push = if r.push_url is Some {
                r.push_url->Some_0@
            } else {
                r.fetch_url->Some_0@
            };
            pulled is Some ==> config_with_remotes(content, rs.push(r)) == toml_with(
                pulled->Some_0,
                section,
                r.name@ + seq!['_', 'p', 'u', 's', 'h'],
                https_url(push),
            )
        }),
{
    reveal_strlit("remotes");
    reveal_strlit("_pull");
    reveal_strlit("_push");
    assert("remotes"@ =~= seq!['r', 'e', 'm', 'o', 't', 'e', 's']);
    assert("_pull"@ =~= seq!['_', 'p', 'u', 'l', 'l']);
    assert("_push"@ =~= seq!['_', 'p', 'u', 's', 'h']);
    assert(rs.push(r).drop_last() =~= rs);
}

/// Setting the upstreams of branches changes no reference, and gives each branch its own.
pub proof fn upstreams_are_set(
    r: Refs,
    names: Seq<Seq<char>>,
    config: Option<Seq<char>>,
    n: int,
)
    requires
        0 <= n <= names.len(),
        names.no_duplicates(),
    ensures
        ({
            let now = with_upstreams(r, names, config, n);
            &&& now.refs == r.refs && now.head == r.head
            &&& forall|i: int|
                0 <= i < n ==> (imported_upstream(names, config, #[trigger] names[i]) matches Some(
                    u,
                ) ==> now.upstreams.contains_key(names[i]) && now.upstreams[names[i]] == u)
            &&& forall|k: Seq<char>|
                (forall|i: int| 0 <= i < n ==> k != #[trigger] names[i]) ==> (
                #[trigger] now.upstreams.contains_key(k) <==> r.upstreams.contains_key(k)) && (
                r.upstreams.contains_key(k) ==> now.upstreams[k] == r.upstreams[k])
        }),
    decreases n,
{
    if n > 0 {
        upstreams_are_set(r, names, config, n - 1);
        let before = with_upstreams(r, names, config, n - 1);
        let now = with_upstreams(r, names, config, n);
        assert forall|i: int| 0 <= i < n implies (imported_upstream(
            names,
            config,
            #[trigger] names[i],
        ) matches Some(u) ==> now.upstreams.contains_key(names[i]) && now.upstreams[names[i]]
            == u) by {
            if i < n - 1 {
                assert(names[i] != names[n - 1]);
            }
        }
        assert forall|k: Seq<char>|
            (forall|i: int| 0 <= i < n ==> k != #[trigger] names[i]) implies (
        #[trigger] now.upstreams.contains_key(k) <==> r.upstreams.contains_key(k)) && (
        r.upstreams.contains_key(k) ==> now.upstreams[k] == r.upstreams[k]) by {
            assert(k != names[n - 1]);
            assert(before.upstreams.contains_key(k) <==> r.upstreams.contains_key(k));
        }
    }
}

proof fn lemma_taken(r: Refs, dir: Seq<char>, files: Seq<GitRef>, m: CommitMap)
    requires
        forall|i: int, j: int|
            0 <= i < j < files.len() ==> ref_key(dir + (#[trigger] files[i]).path@) != ref_key(
                dir + (#[trigger] files[j]).path@,
            ),
    ensures
        taken_over(r, dir, files, m).taken.no_duplicates(),
        forall|k: int|
            0 <= k < taken_over(r, dir, files, m).taken.len() ==> exists|i: int|
                0 <= i < files.len() && (#[trigger] files[i]).path@ == #[trigger] taken_over(
                    r,
                    dir,
                    files,
                    m,
                ).taken[k],
    decreases files.len(),
{
    if files.len() > 0 {
        let d = files.drop_last();
        let n = files.len() - 1;
        assert forall|i: int, j: int| 0 <= i < j < d.len() implies ref_key(
            dir + (#[trigger] d[i]).path@,
        ) != ref_key(dir + (#[trigger] d[j]).path@) by {
            assert(d[i] == files[i] && d[j] == files[j]);
        }
        lemma_taken(r, dir, d, m);
        let before = taken_over(r, dir, d, m).taken;
        let now = taken_over(r, dir, files, m).taken;
        assert forall|k: int| 0 <= k < now.len() implies exists|i: int|
            0 <= i < files.len() && (#[trigger] files[i]).path@ == #[trigger] now[k] by {
            if k < before.len() {
                assert(now[k] == before[k]);
                let i = choose|i: int| 0 <= i < d.len() && (#[trigger] d[i]).path@ == before[k];
                assert(files[i] == d[i]);
            } else {
                assert(files[n].path@ == now[k]);
            }
        }
        assert forall|a: int, b: int| 0 <= a < b < now.len() implies now[a] != now[b] by {
            if b < before.len() {
                assert(before[a] != before[b]);
            } else {
                assert(now[a] == before[a]);
                let i = choose|i: int| 0 <= i < d.len() && (#[trigger] d[i]).path@ == before[a];
                assert(files[i] == d[i]);
                assert(ref_key(dir + files[i].path@) != ref_key(dir + files[n].path@));
            }
        }
    }
}

/// After a repository was taken over, every branch and every tag whose commit was taken over
/// names the commit that was made of it, below `refs/heads/` and `refs/tags/`; `HEAD` is what
/// becomes of that of the repository; and each branch that was taken over follows its
/// upstream.
pub proof fn repository_references_are_taken_over(r: Refs, git: GitRepository, m: CommitMap)
    requires
        imported_refs(r, git, m).1 is None,
        forall|i: int, j: int|
            0 <= i < j < git.branches@.len() ==> ref_key(
                "refs/heads/"@ + (#[trigger] git.branches@[i]).path@,
            ) != ref_key("refs/heads/"@ + (#[trigger] git.branches@[j]).path@),
        forall|i: int, j: int|
            0 <= i < j < git.tags@.len() ==> ref_key(
                "refs/tags/"@ + (#[trigger] git.tags@[i]).path@,
            ) != ref_key("refs/tags/"@ + (#[trigger] git.tags@[j]).path@),
        forall|i: int, j: int|
            0 <= i < git.branches@.len() && 0 <= j < git.tags@.len() ==> ref_key(
                "refs/heads/"@ + (#[trigger] git.branches@[i]).path@,
            ) != ref_key("refs/tags/"@ + (#[trigger] git.tags@[j]).path@),
    ensures
        ({
            let now = imported_refs(r, git, m).0;
            let heads = seq!['r', 'e', 'f', 's', '/', 'h', 'e', 'a', 'd', 's', '/'];
            let tags = seq!['r', 'e', 'f', 's', '/', 't', 'a', 'g', 's', '/'];
            &&& forall|i: int, h: ObjectId|
                #![trigger stands_for(m, git.branches@[i].content@, h)]
                0 <= i < git.branches@.len() && stands_for(m, git.branches@[i].content@, h) ==> {
                    let k = ref_key(heads + git.branches@[i].path@);
                    now.refs.contains_key(k) && now.refs[k] == hex_text(h@)
                }
            &&& forall|i: int, h: ObjectId|
                #![trigger stands_for(m, git.tags@[i].content@, h)]
                0 <= i < git.tags@.len() && stands_for(m, git.tags@[i].content@, h) ==> {
                    let k = ref_key(tags + git.tags@[i].path@);
                    now.refs.contains_key(k) && now.refs[k] == hex_text(h@)
                }
            &&& imported_head(git.head@, m) == Ok::<Seq<char>, GitHeadError>(now.head->Some_0)
            &&& now.head is Some
            &&& forall|i: int, h: ObjectId|
                #![trigger stands_for(m, git.branches@[i].content@, h)]
                0 <= i < git.branches@.len() && stands_for(m, git.branches@[i].content@, h) ==> {
                    let name = git.branches@[i].path@;
                    let names = taken_over(r, heads, git.branches@, m).taken;
                    imported_upstream(names, text_of(git.config), name) matches Some(u)
                        ==> now.upstreams.contains_key(name) && now.upstreams[name] == u
                }
        }),
{
    reveal_strlit("refs/heads/");
    reveal_strlit("refs/tags/");
    let heads = seq!['r', 'e', 'f', 's', '/', 'h', 'e', 'a', 'd', 's', '/'];
    let tags = seq!['r', 'e', 'f', 's', '/', 't', 'a', 'g', 's', '/'];
    assert("refs/heads/"@ =~= heads);
    assert("refs/tags/"@ =~= tags);
    let b = taken_over(r, heads, git.branches@, m);
    let names = b.taken;
    let up = with_upstreams(b.refs, names, text_of(git.config), names.len() as int);
    let t = taken_over(up, tags, git.tags@, m);
    let now = imported_refs(r, git, m).0;
    references_are_taken_over(r, heads, git.branches@, m);
    lemma_taken(r, heads, git.branches@, m);
    upstreams_are_set(b.refs, names, text_of(git.config), names.len() as int);
    references_are_taken_over(up, tags, git.tags@, m);
    assert forall|i: int, h: ObjectId|
        #![trigger stands_for(m, git.branches@[i].content@, h)]
        0 <= i < git.branches@.len() && stands_for(
            m,
            git.branches@[i].content@,
            h,
        ) implies now.refs.contains_key(ref_key(heads + git.branches@[i].path@)) && now.refs[ref_key(
        heads + git.branches@[i].path@,
    )] == hex_text(h@) by {
        let k = ref_key(heads + git.branches@[i].path@);
        assert(up.refs.contains_key(k) && up.refs[k] == hex_text(h@));
        assert forall|j: int| 0 <= j < git.tags@.len() implies k != ref_key(
            tags + (#[trigger] git.tags@[j]).path@,
        ) by {
            assert(ref_key("refs/heads/"@ + git.branches@[i].path@) != ref_key(
                "refs/tags/"@ + git.tags@[j].path@,
            ));
        }
        assert(t.refs.refs.contains_key(k) <==> up.refs.contains_key(k));
    }
    assert forall|i: int, h: ObjectId|
        #![trigger stands_for(m, git.branches@[i].content@, h)]
        0 <= i < git.branches@.len() && stands_for(
            m,
            git.branches@[i].content@,
            h,
        ) implies (imported_upstream(names, text_of(git.config), git.branches@[i].path@) matches Some(
        u,
    ) ==> now.upstreams.contains_key(git.branches@[i].path@)
        && now.upstreams[git.branches@[i].path@] == u) by {
        assert(names.contains(git.branches@[i].path@));
        let k = choose|k: int| 0 <= k < names.len() && names[k] == git.branches@[i].path@;
        assert(imported_upstream(names, text_of(git.config), names[k]) is Some
            ==> up.upstreams.contains_key(names[k]));
    }
}

/// Every commit is taken over under its own hash: the commits that are to be stored are, in
/// order, what becomes of each with those before it, and each is found by the hash that it had.
pub proof fn every_commit_is_mapped(m: Objects, cs: Seq<GitCommit>, j: int)
    requires
        0 <= j < cs.len(),
        forall|a: int, b: int|
            0 <= a < b < cs.len() ==> hex_text((#[trigger] cs[a]).id@) != hex_text(
                (#[trigger] cs[b]).id@,
            ),
    ensures
        ({
            let all = with_commits(m, cs);
            let before = with_commits(m, cs.subrange(0, j));
            let v = all.commits[j];
            &&& all.commits.len() == cs.len()
            &&& v == imported_view(before.mapping, cs[j])
            &&& all.mapping.contains_key(hex_text(cs[j].id@))
            &&& all.mapping[hex_text(cs[j].id@)] == blake3_digest(commit_bytes(v))
            &&& put_commits(all.store, all.commits).contains_key(
                (ObjectType::Commit, blake3_digest(commit_bytes(v))@),
            )
        }),
    decreases cs.len(),
{
    let d = cs.drop_last();
    let n = cs.len() - 1;
    let all = with_commits(m, cs);
    let most = with_commits(m, d);
    assert(d =~= cs.subrange(0, n));
    lemma_commit_count(m, d);
    if j < n {
        assert forall|a: int, b: int| 0 <= a < b < d.len() implies hex_text((#[trigger] d[a]).id@)
            != hex_text((#[trigger] d[b]).id@) by {
            assert(d[a] == cs[a] && d[b] == cs[b]);
        }
        every_commit_is_mapped(m, d, j);
        assert(d[j] == cs[j]);
        assert(d.subrange(0, j) =~= cs.subrange(0, j));
        assert(hex_text(cs[j].id@) != hex_text(cs[n].id@));
    }
    lemma_commits_put(all.store, all.commits, j);
}

proof fn lemma_commit_count(m: Objects, cs: Seq<GitCommit>)
    ensures
        with_commits(m, cs).commits.len() == cs.len(),
    decreases cs.len(),
{
    if cs.len() > 0 {
        lemma_commit_count(m, cs.drop_last());
    }
}

proof fn lemma_commits_put(m: Objects, vs: Seq<CommitView>, j: int)
    requires
        0 <= j < vs.len(),
    ensures
        put_commits(m, vs).contains_key(
            (ObjectType::Commit, blake3_digest(commit_bytes(vs[j]))@),
        ),
    decreases vs.len(),
{
    if j < vs.len() - 1 {
        lemma_commits_put(m, vs.drop_last(), j);
        assert(vs.drop_last()[j] == vs[j]);
    }
}

proof fn lemma_imported_commits(m: Objects, cs: Seq<GitCommit>, i: int)
    requires
        0 <= i < cs.len(),
    ensures
        ({
            let x = with_commits(m, import_order(cs));
            let key = hex_text(cs[i].id@);
            &&& x.mapping.contains_key(key)
            &&& put_commits(x.store, x.commits).contains_key((ObjectType::Commit, x.mapping[key]@))
        }),
{
    broadcast use vstd::seq_lib::group_to_multiset_ensures;

    every_commit_is_imported_once(cs);
    let once = each_once(cs);
    let order = import_order(cs);
    let key = hex_text(cs[i].id@);
    assert(git_keys(once).contains(key));
    let k = choose|k: int| 0 <= k < git_keys(once).len() && git_keys(once)[k] == key;
    assert(once.to_multiset().count(once[k]) > 0);
    assert(order.contains(once[k]));
    let j = choose|j: int| 0 <= j < order.len() && order[j] == once[k];
    assert forall|a: int, b: int| 0 <= a < b < order.len() implies hex_text(
        (#[trigger] order[a]).id@,
    ) != hex_text((#[trigger] order[b]).id@) by {
        lemma_distinct_order(once, order, a, b);
    }
    every_commit_is_mapped(m, order, j);
}

/// Two places of an order of distinct commits hold commits with distinct hashes.
proof fn lemma_distinct_order(once: Seq<GitCommit>, order: Seq<GitCommit>, a: int, b: int)
    requires
        git_keys(once).no_duplicates(),
        order.to_multiset() == once.to_multiset(),
        0 <= a < b < order.len(),
    ensures
        hex_text(order[a].id@) != hex_text(order[b].id@),
{
    broadcast use vstd::seq_lib::group_to_multiset_ensures;

    assert(once.no_duplicates()) by {
        assert forall|i: int, j: int| 0 <= i < once.len() && 0 <= j < once.len() && i != j implies
            once[i] != once[j] by {
            assert(git_keys(once)[i] != git_keys(once)[j]);
        }
    }
    once.lemma_multiset_has_no_duplicates();
    order.lemma_multiset_has_no_duplicates_conv();
    assert(order[a] != order[b]);
    assert(order.contains(order[a]) && order.contains(order[b]));
    assert(order.to_multiset().count(order[a]) > 0 && order.to_multiset().count(order[b]) > 0);
    assert(once.to_multiset().count(order[a]) > 0 && once.to_multiset().count(order[b]) > 0);
    assert(once.contains(order[a]) && once.contains(order[b]));
    let i = choose|i: int| 0 <= i < once.len() && once[i] == order[a];
    let j = choose|j: int| 0 <= j < once.len() && once[j] == order[b];
    assert(git_keys(once)[i] != git_keys(once)[j]);
}

/// A repository that was taken over has all its commits in the store, each found by the hash
/// that it had; its index file reads back with what becomes of every entry that is not ignored
/// and can be taken; and the references are those that were there, with what becomes of its
/// branches, its tags and its `HEAD`.
pub proof fn repository_is_taken_over(
    a: RepoState,
    b: RepoState,
    git: GitRepository,
    globs: Seq<Seq<char>>,
    now: u64,
    o: Imported,
)
    requires
        is_import(a, b, git, globs, now, Ok::<Imported, ImportError>(o)),
        git.index matches Some(es) && 0 < es@.len() < 0x1_0000_0000,
    ensures
        forall|i: int|
            0 <= i < git.commits@.len() ==> o.mapping@.contains_key(
                hex_text((#[trigger] git.commits@[i]).id@),
            ) && b.store.contains_key(
                (ObjectType::Commit, o.mapping@[hex_text(git.commits@[i].id@)]@),
            ),
        b.file is Some && is_index_file(b.file->Some_0),
        forall|i: int, ix: HelixIndex|
            #![trigger git.index->Some_0@[i], index_reads(ix, b.file->Some_0)]
            0 <= i < git.index->Some_0@.len() && can_be_taken(git.index->Some_0@[i])
                && !any_matches(globs, git.index->Some_0@[i].path@) && index_reads(
                ix,
                b.file->Some_0,
            ) ==> exists|k: int|
                0 <= k < ix.entries@.len() && is_taken_from(
                    (#[trigger] ix.entries@[k])@,
                    git.head_tree@,
                    git.index->Some_0@[i],
                ),
        imported_refs(
            with_imported_head(a.refs, o.mapping@, head_id_of(git)),
            git,
            o.mapping@,
        ) == (b.refs, None::<ImportFault>),
{
    let (generation, m, x) = choose|
        generation: u64,
        m: Objects,
        x: Result<ImportedIndex, FormatError>,
    |
        {
            &&& is_generation_of(a.file, generation)
            &&& #[trigger] is_index_import(
                a.store,
                m,
                index_of(git),
                git.head_tree@,
                globs,
                generation,
                now,
                x,
            )
            &&& x matches Ok(index) && {
                let i = with_commits(m, import_order(git.commits@));
                let started = with_imported_head(a.refs, i.mapping, head_id_of(git));
                let (rs, fault) = imported_refs(started, git, i.mapping);
                &&& b.store == put_commits(i.store, i.commits)
                &&& b.refs == rs
                &&& b.file == (if index.file is Some {
                    file_bytes(index.file)
                } else {
                    a.file
                })
                &&& fault is None
                &&& o.mapping@ == i.mapping
            }
        };
    assert forall|i: int| 0 <= i < git.commits@.len() implies o.mapping@.contains_key(
        hex_text((#[trigger] git.commits@[i]).id@),
    ) && b.store.contains_key(
        (ObjectType::Commit, o.mapping@[hex_text(git.commits@[i].id@)]@),
    ) by {
        lemma_imported_commits(m, git.commits@, i);
    }
    let es = git.index->Some_0@;
    let out = imported_entries(git.head_tree@, globs, es);
    entries_are_taken_over(a.store, git.head_tree@, globs, es);
    let h = choose|h: Header| #[trigger]
        is_import_header(h, (generation + 1) as u64, out.len(), now) && b.file->Some_0
            == index_bytes(h, out);
    lemma_imported_len(git.head_tree@, globs, es);
    assert forall|k: int| 0 <= k < out.len() implies path_fits(#[trigger] out[k])
        && out[k].flags.bits & !0xffffu32 == 0 by {
        let i = choose|i: int|
            0 <= i < es.len() && !any_matches(globs, (#[trigger] es[i]).path@) && is_taken_from(
                out[k],
                git.head_tree@,
                es[i],
            );
        let f = out[k].flags.bits;
        assert(f < 16 ==> f & !0xffffu32 == 0) by (bit_vector);
    }
    index_round_trip(h, out);
    assert forall|i: int, ix: HelixIndex|
        #![trigger es[i], index_reads(ix, b.file->Some_0)]
        0 <= i < es.len() && can_be_taken(es[i]) && !any_matches(globs, es[i].path@) && index_reads(
            ix,
            b.file->Some_0,
        ) implies exists|k: int|
        0 <= k < ix.entries@.len() && is_taken_from(
            (#[trigger] ix.entries@[k])@,
            git.head_tree@,
            es[i],
        ) by {
        let k = choose|k: int|
            0 <= k < out.len() && is_taken_from(#[trigger] out[k], git.head_tree@, es[i]);
        assert(entry_views(ix.entries@)[k] == out[k]);
        assert(ix.entries@[k]@ == out[k]);
    }
}

proof fn lemma_imported_len(head: HeadTree, globs: Seq<Seq<char>>, es: Seq<GitIndexEntry>)
    ensures
        imported_entries(head, globs, es).len() <= es.len(),
    decreases es.len(),
{
    if es.len() > 0 {
        lemma_imported_len(head, globs, es.drop_last());
    }
}

/// The files of the current commit are the records of files, each under its path with its
/// hash; records of anything else do not count.
pub proof fn head_files_are_the_records(v: Seq<GitRecord>)
    requires
        forall|i: int, j: int|
            0 <= i < j < v.len() ==> (#[trigger] v[i]).path@ != (#[trigger] v[j]).path@,
    ensures
        forall|i: int|
            0 <= i < v.len() && (#[trigger] v[i]).is_blob ==> head_tree_of(v).contains_key(
                v[i].path@,
            ) && head_tree_of(v)[v[i].path@] == v[i].oid,
        forall|p: Seq<char>| #[trigger]
            head_tree_of(v).contains_key(p) ==> exists|i: int|
                0 <= i < v.len() && (#[trigger] v[i]).is_blob && v[i].path@ == p,
    decreases v.len(),
{
    if v.len() > 0 {
        let d = v.drop_last();
        let n = v.len() - 1;
        assert forall|i: int, j: int| 0 <= i < j < d.len() implies (#[trigger] d[i]).path@ != (
        #[trigger] d[j]).path@ by {
            assert(d[i] == v[i] && d[j] == v[j]);
        }
        head_files_are_the_records(d);
        assert forall|i: int| 0 <= i < v.len() && (#[trigger] v[i]).is_blob implies head_tree_of(
            v,
        ).contains_key(v[i].path@) && head_tree_of(v)[v[i].path@] == v[i].oid by {
            if i < n {
                assert(d[i] == v[i]);
                assert(v[i].path@ != v[n].path@);
            }
        }
        assert forall|p: Seq<char>| #[trigger] head_tree_of(v).contains_key(p) implies exists|
            i: int,
        |
            0 <= i < v.len() && (#[trigger] v[i]).is_blob && v[i].path@ == p by {
            if head_tree_of(d).contains_key(p) {
                let i = choose|i: int|
                    0 <= i < d.len() && (#[trigger] d[i]).is_blob && d[i].path@ == p;
                assert(v[i] == d[i]);
            } else {
                assert(v[n].is_blob && v[n].path@ == p);
            }
        }
    }
}

/// The current commit, where it was taken over, is then the one that was made of it.
pub proof fn current_commit_is_taken_over(r: Refs, m: CommitMap, id: Seq<u8>)
    requires
        m.contains_key(hex_text(id)),
    ensures
        head_commit(with_imported_head(r, m, Some(id))) == Ok::<Seq<u8>, HeadFault>(
            m[hex_text(id)]@,
        ),
        with_imported_head(r, m, None) == r,
{
    head_round_trip(r, m[hex_text(id)]@);
}

/// Taking a repository over puts its remotes and its author into the configuration, and counts
/// what it took: the files of the index file, the commits and the remotes.
pub proof fn repository_is_counted(
    a: RepoState,
    b: RepoState,
    git: GitRepository,
    globs: Seq<Seq<char>>,
    now: u64,
    o: Imported,
)
    requires
        is_import(a, b, git, globs, now, Ok::<Imported, ImportError>(o)),
    ensures
        o.summary.commits_count == o.mapping.items@.len(),
        o.summary.remotes_count == remote_count(git.remotes@),
        imported_remotes(a.config, git.remotes@) matches Ok(config) && {
            let author = imported_author(
                text_of(git.user_name),
                text_of(git.user_email),
                config,
            );
            &&& author is Ok
            &&& author->Ok_0 is None ==> b.config == config && o.summary.author is None
            &&& author->Ok_0 matches Some(x) ==> b.config == Some(x.1) && text_of(o.summary.author)
                == Some(x.0)
        },
{
}

/// A valid index file is read as it is and nothing changes; in any other case the repository is
/// taken over, and the index that is given is the one of the file that is there then.
pub proof fn index_is_loaded(
    repo_path: Seq<char>,
    found: VerifyResult,
    a: RepoState,
    b: RepoState,
    git: GitRepository,
    globs: Seq<Seq<char>>,
    now: u64,
    l: Loaded,
)
    requires
        is_load(repo_path, found, a, b, git, globs, now, Ok::<Loaded, LoadError>(l)),
    ensures
        b.file is Some && is_index_file(b.file->Some_0) && index_reads(
            l.index.data,
            b.file->Some_0,
        ),
        l.index.repo_path@ == repo_path,
        found is Valid ==> b == a && l.imported is None,
        !(found is Valid) ==> l.imported is Some && is_import(
            a,
            b,
            git,
            globs,
            now,
            Ok::<Imported, ImportError>(l.imported->Some_0),
        ),
{
    if !(found is Valid) {
        let n = choose|n: Result<Rebuilt, LoadError>|
            {
                &&& #[trigger] is_rebuild(repo_path, a, b, git, globs, now, n)
                &&& n matches Ok(x) && l.index == x.index && l.imported == Some(x.imported)
            };
        let x = choose|x: Result<Imported, ImportError>|
            {
                &&& #[trigger] is_import(a, b, git, globs, now, x)
                &&& x matches Ok(i) && n->Ok_0.imported == i && crate::helix_index::rebuild::is_read(
                    repo_path,
                    b.file,
                    Ok(n->Ok_0.index),
                )
            };
        assert(x == Ok::<Imported, ImportError>(l.imported->Some_0));
    }
}

} // verus!
