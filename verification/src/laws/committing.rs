//! What a commit records, and what it leaves in the index and the references.
use vstd::prelude::*;
use vstd::string::*;

use crate::commit_command::{
    author_of, commit_records_staged_files, draft, is_committed, staged_entries, CommitFailure,
    CommitOptions, CommitOutcome, CommitRequest, UserConfig,
};
use crate::hash::blake3_digest;
use crate::helix_index::api::HelixIndexData;
use crate::helix_index::commit::{commit_bytes, commit_storable};
use crate::helix_index::commit_store::commit_at;
use crate::helix_index::format::EntryView;
use crate::helix_index::reader::{index_reads, index_round_trip, HelixIndex};
use crate::helix_index::snapshot::{files_storable, no_clash};
use crate::helix_index::tree::{files_of, put_trees, snapshot, tree_id, FileView};
use crate::helix_index::tree_walk::tree_files;
use crate::object_store::{ObjectType, Objects};
use crate::path::{is_regular, regular_paths_are_plain};
use crate::refs::{head_commit, HeadFault, Refs};
use crate::text::{text_of, trim_spec};

verus! {

/// Whether a file is the one that an entry stages: at its path, with its hash, its mode and
/// its size.
pub open spec fn is_staged_file(g: FileView, e: EntryView) -> bool {
    &&& e.flags.bits & 2 == 2
    &&& g.path == e.path
    &&& g.oid == e.oid@
    &&& g.mode == e.file_mode
    &&& g.size == e.size
}

proof fn lemma_staged(es: Seq<EntryView>, g: FileView)
    requires
        forall|i: int| 0 <= i < es.len() ==> is_regular((#[trigger] es[i]).path),
    ensures
        files_of(staged_entries(es)).contains(g) <==> exists|i: int|
            0 <= i < es.len() && is_staged_file(g, #[trigger] es[i]),
    decreases es.len(),
{
    let all = files_of(staged_entries(es));
    if es.len() > 0 {
        let d = es.drop_last();
        let e = es.last();
        let n = es.len() - 1;
        assert(es[n] == e);
        assert forall|i: int| 0 <= i < d.len() implies is_regular((#[trigger] d[i]).path) by {
            assert(d[i] == es[i]);
        }
        lemma_staged(d, g);
        regular_paths_are_plain(e.path);
        let before = files_of(staged_entries(d));
        if e.flags.bits & 2 == 2 {
            assert(all =~= before.push(crate::helix_index::tree::file_of(e)));
            assert(all[before.len() as int] == crate::helix_index::tree::file_of(e));
        } else {
            assert(all =~= before);
        }
        if before.contains(g) {
            let k = choose|k: int| 0 <= k < before.len() && before[k] == g;
            assert(all[k] == g);
            let i = choose|i: int| 0 <= i < d.len() && is_staged_file(g, #[trigger] d[i]);
            assert(es[i] == d[i]);
        }
        if all.contains(g) && !before.contains(g) {
            let k = choose|k: int| 0 <= k < all.len() && all[k] == g;
            if k < before.len() {
                assert(before[k] == g);
            }
            assert(is_staged_file(g, es[n]));
        }
        if exists|i: int| 0 <= i < es.len() && is_staged_file(g, #[trigger] es[i]) {
            let i = choose|i: int| 0 <= i < es.len() && is_staged_file(g, #[trigger] es[i]);
            if i < n {
                assert(d[i] == es[i]);
            } else {
                assert(crate::helix_index::tree::file_of(e) == g);
            }
        }
    } else {
        assert(all.len() == 0);
    }
}

/// What a commit that was made can be read as: it is the current commit; its tree holds
/// exactly the files of the staged entries, each at its path, with its hash, its mode and its
/// size; its parent is the commit that was current, or, where it amends that one, its parents
/// are those of that one; and it has the message and the time that were given.
pub proof fn commit_is_what_was_staged(
    m: Objects,
    refs: Refs,
    es: Seq<EntryView>,
    native: bool,
    o: CommitOptions,
    config: Result<UserConfig, String>,
    environment: UserConfig,
    now: u64,
)
    requires
        forall|i: int| 0 <= i < es.len() ==> is_regular((#[trigger] es[i]).path),
        draft(m, refs, es, native, o, config, environment, now) is Ok,
        no_clash(m, files_of(staged_entries(es))),
        files_storable(files_of(staged_entries(es))),
        ({
            let d = draft(m, refs, es, native, o, config, environment, now)->Ok_0;
            let key = (ObjectType::Commit, blake3_digest(commit_bytes(d.commit))@);
            &&& commit_storable(d.commit)
            &&& d.store.contains_key(key) ==> d.store[key] == commit_bytes(d.commit)
        }),
    ensures
        ({
            let d = draft(m, refs, es, native, o, config, environment, now)->Ok_0;
            let id = blake3_digest(commit_bytes(d.commit))@;
            let after = crate::object_store::put_object(
                d.store,
                ObjectType::Commit,
                commit_bytes(d.commit),
            );
            let refs2 = crate::refs::with_head_commit(refs, crate::hash::hex_text(id));
            let c = commit_at(after, id)->Ok_0;
            &&& head_commit(refs2) == Ok::<Seq<u8>, HeadFault>(id)
            &&& commit_at(after, id) is Ok
            &&& c.message == o.message@
            &&& c.author_time == now && c.commit_time == now
            &&& !o.amend ==> c.parents == (match head_commit(refs) {
                Ok(h) => seq![h],
                Err(_) => Seq::empty(),
            })
            &&& o.amend ==> {
                let amended = commit_at(
                    put_trees(m, files_of(staged_entries(es))),
                    head_commit(refs)->Ok_0,
                );
                head_commit(refs) is Ok && amended is Ok && c.parents == amended->Ok_0.parents
            }
            &&& o.author matches Some(a) ==> c.author == a@
            &&& o.author is None ==> config is Ok && author_of(config->Ok_0, environment) == Some(
                c.author,
            )
            &&& tree_files(after, c.tree_hash) is Ok
            &&& forall|g: FileView| #[trigger]
                tree_files(after, c.tree_hash)->Ok_0.contains(g) <==> exists|i: int|
                    0 <= i < es.len() && is_staged_file(g, #[trigger] es[i])
        }),
{
    let d = draft(m, refs, es, native, o, config, environment, now)->Ok_0;
    let id = blake3_digest(commit_bytes(d.commit))@;
    let after = crate::object_store::put_object(
        d.store,
        ObjectType::Commit,
        commit_bytes(d.commit),
    );
    commit_records_staged_files(m, refs, es, native, o, config, environment, now);
    let c = commit_at(after, id)->Ok_0;
    assert forall|g: FileView| #[trigger]
        tree_files(after, c.tree_hash)->Ok_0.contains(g) <==> exists|i: int|
        0 <= i < es.len() && is_staged_file(g, #[trigger] es[i]) by {
        lemma_staged(es, g);
    }
}

/// Who is the author: the name with the address behind it in angle brackets, or the name
/// alone, both without white space around them, of the configuration where it gives a name;
/// where it gives none, or a blank one and no address, of the environment.
pub proof fn author_is_the_configured_one(user: UserConfig, environment: UserConfig)
    ensures
        user.name is Some && user.email is Some ==> author_of(user, environment) == Some(
            trim_spec(user.name->Some_0@) + seq![' ', '<'] + trim_spec(user.email->Some_0@)
                + seq!['>'],
        ),
        user.name is Some && user.email is None && trim_spec(user.name->Some_0@).len() > 0
            ==> author_of(user, environment) == Some(trim_spec(user.name->Some_0@)),
        user.name is None || (user.email is None && trim_spec(user.name->Some_0@).len() == 0)
            ==> author_of(user, environment) == author_of(environment, environment),
        user.name is None && environment.name is None ==> author_of(user, environment) is None,
{
    reveal_strlit(" <");
    reveal_strlit(">");
    assert(" <"@ =~= seq![' ', '<']);
    assert(">"@ =~= seq!['>']);
    assert(user.name matches Some(n) ==> text_of(user.name) == Some(n@));
    assert(user.email matches Some(n) ==> text_of(user.email) == Some(n@));
}

/// When a commit is made: the message is not blank; something is staged, or it may be empty;
/// there is a commit to amend, if it amends; the current commit can be read, if it is looked
/// at; the tree is another than that of the current commit, unless it may be empty, amends, or
/// follows a commit that was taken over; and there is an author.
pub proof fn commits_are_made_unless_refused(
    m: Objects,
    refs: Refs,
    es: Seq<EntryView>,
    native: bool,
    o: CommitOptions,
    config: Result<UserConfig, String>,
    environment: UserConfig,
    now: u64,
)
    ensures
        ({
            let trees = put_trees(m, files_of(staged_entries(es)));
            let tree = tree_id(snapshot(files_of(staged_entries(es))));
            let staged = exists|i: int| 0 <= i < es.len() && (#[trigger] es[i]).flags.bits & 2 == 2;
            let looks = o.amend || !o.allow_empty;
            draft(m, refs, es, native, o, config, environment, now) is Ok <==> {
                &&& trim_spec(o.message@).len() > 0
                &&& staged || o.allow_empty
                &&& o.amend ==> head_commit(refs) is Ok
                &&& looks ==> (head_commit(refs) matches Ok(h) ==> commit_at(trees, h) is Ok)
                &&& !o.allow_empty && !o.amend && native ==> (head_commit(refs) matches Ok(h)
                    ==> (commit_at(trees, h) matches Ok(c) ==> c.tree_hash != tree))
                &&& o.author is Some || (config matches Ok(u) && author_of(u, environment) is Some)
            }
        }),
{
    lemma_some_staged(es);
}

proof fn lemma_some_staged(es: Seq<EntryView>)
    ensures
        staged_entries(es).len() > 0 <==> exists|i: int|
            0 <= i < es.len() && (#[trigger] es[i]).flags.bits & 2 == 2,
    decreases es.len(),
{
    if es.len() > 0 {
        let d = es.drop_last();
        lemma_some_staged(d);
        let n = es.len() - 1;
        assert(es[n] == es.last());
        if staged_entries(d).len() > 0 {
            let i = choose|i: int| 0 <= i < d.len() && (#[trigger] d[i]).flags.bits & 2 == 2;
            assert(es[i] == d[i]);
        }
        if exists|i: int| 0 <= i < es.len() && (#[trigger] es[i]).flags.bits & 2 == 2 {
            let i = choose|i: int| 0 <= i < es.len() && (#[trigger] es[i]).flags.bits & 2 == 2;
            if i < n {
                assert(d[i] == es[i]);
            }
        }
    }
}

/// After a commit nothing is staged, and nothing else of the index has changed but its
/// generation, which has grown by one, and its count of entries; the index file that is
/// written reads back as that index. A refused commit changes neither the index nor the
/// references.
pub proof fn commit_clears_what_was_staged(
    q: CommitRequest,
    m: Objects,
    m2: Objects,
    refs: Refs,
    refs2: Refs,
    before: HelixIndexData,
    after: HelixIndexData,
    native: bool,
    r: Result<CommitOutcome, CommitFailure>,
    said: Seq<Seq<char>>,
)
    requires
        is_committed(q, m, m2, refs, refs2, before, after, native, r, said),
        before.data.header.generation < u64::MAX,
    ensures
        q.draft(m, refs, before.es()) is Err ==> after == before && refs2 == refs && r is Err
            && native == q.native,
        q.draft(m, refs, before.es()) is Ok ==> {
            &&& after.es().len() == before.es().len()
            &&& forall|i: int|
                0 <= i < before.es().len() ==> {
                    let e = #[trigger] after.es()[i];
                    let f = before.es()[i];
                    &&& e.flags.bits == f.flags.bits & !2u32
                    &&& e == (EntryView { flags: e.flags, ..f })
                }
            &&& after.data.header.generation == before.data.header.generation + 1
            &&& refs2.upstreams == refs.upstreams
        },
        (r is Ok && before.data.header.magic == crate::helix_index::format::MAGIC
            && before.data.header.version == crate::helix_index::format::VERSION
            && before.es().len() < 0x1_0000_0000 && (forall|i: int|
            0 <= i < before.es().len() ==> (#[trigger] before.es()[i]).flags.bits & !0xffffu32 == 0)
            ==> native && crate::helix_index::reader::is_index_file(r->Ok_0.index_file@) && forall|
            ix: HelixIndex,
        | #[trigger]
            index_reads(ix, r->Ok_0.index_file@) ==> ix.header == after.data.header
                && crate::helix_index::format::entry_views(ix.entries@) == after.es()),
{
    if let Ok(x) = r {
        if before.data.header.magic == crate::helix_index::format::MAGIC
            && before.data.header.version == crate::helix_index::format::VERSION
            && before.es().len() < 0x1_0000_0000 && (forall|i: int|
            0 <= i < before.es().len() ==> (#[trigger] before.es()[i]).flags.bits & !0xffffu32
                == 0) {
            let h = after.data.header;
            let es = after.es();
            assert forall|i: int| 0 <= i < es.len() implies crate::helix_index::reader::path_fits(
                #[trigger] es[i],
            ) && es[i].flags.bits & !0xffffu32 == 0 by {
                let b = before.es()[i].flags.bits;
                assert(before.es()[i].flags.bits & !0xffffu32 == 0);
                assert((b & !2u32) & !0xffffu32 == 0) by (bit_vector)
                    requires
                        b & !0xffffu32 == 0,
                ;
            }
            index_round_trip(h, es);
        }
    }
}

/// After a commit was made the current commit is the one that is given back, or, where the
/// index could not be written, the one that was made; the store holds it and its tree, which
/// reads back as the staged files.
pub proof fn commit_becomes_the_current_one(
    q: CommitRequest,
    m: Objects,
    m2: Objects,
    refs: Refs,
    refs2: Refs,
    before: HelixIndexData,
    after: HelixIndexData,
    native: bool,
    r: Result<CommitOutcome, CommitFailure>,
    said: Seq<Seq<char>>,
)
    requires
        is_committed(q, m, m2, refs, refs2, before, after, native, r, said),
        forall|i: int| 0 <= i < before.es().len() ==> is_regular((#[trigger] before.es()[i]).path),
        q.draft(m, refs, before.es()) is Ok,
        no_clash(m, files_of(staged_entries(before.es()))),
        files_storable(files_of(staged_entries(before.es()))),
        ({
            let d = q.draft(m, refs, before.es())->Ok_0;
            let key = (ObjectType::Commit, blake3_digest(commit_bytes(d.commit))@);
            &&& commit_storable(d.commit)
            &&& d.store.contains_key(key) ==> d.store[key] == commit_bytes(d.commit)
        }),
    ensures
        head_commit(refs2) is Ok,
        ({
            let id = head_commit(refs2)->Ok_0;
            let c = commit_at(m2, id)->Ok_0;
            &&& r matches Ok(x) ==> x.hash@ == id
            &&& commit_at(m2, id) is Ok
            &&& c.message == q.options.message@
            &&& c.author_time == q.now && c.commit_time == q.now
            &&& tree_files(m2, c.tree_hash) is Ok
            &&& forall|g: FileView| #[trigger]
                tree_files(m2, c.tree_hash)->Ok_0.contains(g) <==> exists|i: int|
                    0 <= i < before.es().len() && is_staged_file(g, #[trigger] before.es()[i])
        }),
{
    commit_is_what_was_staged(
        m,
        refs,
        before.es(),
        q.native,
        q.options,
        q.config,
        q.environment,
        q.now,
    );
}

} // verus!
