//! What a merge leaves behind, and what the keys of its view decide.
use vstd::prelude::*;

use crate::hash::{blake3_digest, ObjectId};
use crate::helix_index::commit::{commit_bytes, commit_storable, CommitView};
use crate::helix_index::commit_store::{commit_at, stored_commit_round_trip, ReadFault};
use crate::helix_index::snapshot::{
    extends, files_storable, lemma_holds_extends, no_clash, snapshot_reads_back,
    written_trees_are_held,
};
use crate::helix_index::tree::{put_trees, snapshot, tree_id, FileView};
use crate::helix_index::tree_walk::tree_files;
use crate::keys::{KeyCode, KeyPress};
use crate::merge_command::{
    conflict_views, file_at, is_analysis, is_executed, lists_files, merge_commit, merge_leaves,
    merged_files, put_merged, ConflictResolution, FileMap, MergeAnalysis, MergeError, MergeResult,
};
use crate::merge_tui::app::{
    decided_map, deciding_decides_one, decision, decisions, is_valid, pressed, Decision, Screen,
    StateView,
};
use crate::object_store::{ObjectType, Objects};

verus! {

/// Whether, of some files, the one at `p` has the contents with this hash, or there is none
/// where there is no hash.
pub open spec fn has_at(fs: Seq<FileView>, p: Seq<char>, h: Option<ObjectId>) -> bool {
    match h {
        Some(h) => {
            &&& exists|g: FileView| #[trigger] fs.contains(g) && g.path == p
            &&& forall|g: FileView| #[trigger] fs.contains(g) && g.path == p ==> g.oid == h@
        },
        None => forall|g: FileView| #[trigger] fs.contains(g) ==> g.path != p,
    }
}

/// Whether the objects of a merge can be written without loss: no tree and no commit meets
/// another object under its hash, and every length fits in its field.
pub open spec fn can_store_merge(
    before: Objects,
    a: MergeAnalysis,
    rs: Map<Seq<char>, ConflictResolution>,
    c: CommitView,
) -> bool {
    let m = put_merged(before, conflict_views(a.conflicts@), rs);
    let key = (ObjectType::Commit, blake3_digest(commit_bytes(c))@);
    &&& forall|fs: Seq<FileView>| #[trigger]
        lists_files(fs, merged_files(a, rs)) ==> no_clash(m, fs) && files_storable(fs) && (put_trees(
            m,
            fs,
        ).contains_key(key) ==> put_trees(m, fs)[key] == commit_bytes(c))
    &&& commit_storable(c)
}

/// The commit of a merge is read back with both sides as its parents, the target first, and
/// with its author and its message. Its tree holds at each path what the only side that
/// changed it has there, or both where they agree; and where the sides changed it
/// differently, what was decided: the file of the side that was taken, the contents that
/// were made of both, or none.
pub proof fn merge_commit_holds_both_sides(
    before: Objects,
    after: Objects,
    a: MergeAnalysis,
    b: FileMap,
    t: FileMap,
    s: FileMap,
    rs: Map<Seq<char>, ConflictResolution>,
    target_commit: Seq<u8>,
    sandbox_commit: Seq<u8>,
    author: Seq<char>,
    message: Seq<char>,
    now: u64,
    x: MergeResult,
)
    requires
        is_analysis(a, b, t, s),
        is_executed(
            before,
            after,
            a,
            rs,
            target_commit,
            sandbox_commit,
            author,
            message,
            now,
            Ok::<MergeResult, MergeError>(x),
        ),
        can_store_merge(
            before,
            a,
            rs,
            (CommitView {
                commit_hash: Seq::empty(),
                tree_hash: x.merged_tree_hash@,
                parents: seq![target_commit, sandbox_commit],
                author,
                author_time: now,
                commit_time: now,
                message,
            }),
        ),
    ensures
        commit_at(after, x.commit_hash@) == Ok::<CommitView, ReadFault>(
            (CommitView {
                commit_hash: x.commit_hash@,
                tree_hash: x.merged_tree_hash@,
                parents: seq![target_commit, sandbox_commit],
                author,
                author_time: now,
                commit_time: now,
                message,
            }),
        ),
        tree_files(after, x.merged_tree_hash@) is Ok,
        forall|p: Seq<char>|
            #![trigger file_at(b, p)]
            {
                let fs = tree_files(after, x.merged_tree_hash@)->Ok_0;
                let old = file_at(b, p);
                let ours = file_at(t, p);
                let theirs = file_at(s, p);
                &&& ours == old ==> has_at(fs, p, theirs)
                &&& theirs == old || ours == theirs ==> has_at(fs, p, ours)
                &&& ours != old && theirs != old && ours != theirs ==> rs.contains_key(p)
                    && match rs[p] {
                    ConflictResolution::TakeTarget => has_at(fs, p, ours),
                    ConflictResolution::TakeSandbox => has_at(fs, p, theirs),
                    ConflictResolution::TakeBase => has_at(fs, p, old),
                    ConflictResolution::Merged(content) => has_at(
                        fs,
                        p,
                        Some(blake3_digest(content@)),
                    ),
                    ConflictResolution::Delete => has_at(fs, p, None),
                }
            },
{
    let cs = conflict_views(a.conflicts@);
    let m = put_merged(before, cs, rs);
    let all = merged_files(a, rs);
    let fs = choose|fs: Seq<FileView>|
        {
            let c = merge_commit(fs, target_commit, sandbox_commit, author, message, now);
            &&& #[trigger] lists_files(fs, all)
            &&& x.merged_tree_hash@ == tree_id(snapshot(fs))
            &&& x.commit_hash == blake3_digest(commit_bytes(c))
            &&& after == crate::object_store::put_object(
                put_trees(m, fs),
                ObjectType::Commit,
                commit_bytes(c),
            )
        };
    let c = merge_commit(fs, target_commit, sandbox_commit, author, message, now);
    let trees = put_trees(m, fs);
    stored_commit_round_trip(trees, c);
    written_trees_are_held(m, fs);
    assert(extends(trees, after));
    lemma_holds_extends(trees, after, fs);
    snapshot_reads_back(after, fs);
    let read = tree_files(after, x.merged_tree_hash@)->Ok_0;
    assert forall|p: Seq<char>|
        #![trigger file_at(b, p)]
        {
            let old = file_at(b, p);
            let ours = file_at(t, p);
            let theirs = file_at(s, p);
            &&& ours == old ==> has_at(read, p, theirs)
            &&& theirs == old || ours == theirs ==> has_at(read, p, ours)
            &&& ours != old && theirs != old && ours != theirs ==> rs.contains_key(p)
                && match rs[p] {
                ConflictResolution::TakeTarget => has_at(read, p, ours),
                ConflictResolution::TakeSandbox => has_at(read, p, theirs),
                ConflictResolution::TakeBase => has_at(read, p, old),
                ConflictResolution::Merged(content) => has_at(
                    read,
                    p,
                    Some(blake3_digest(content@)),
                ),
                ConflictResolution::Delete => has_at(read, p, None),
            }
        } by {
        merge_leaves(a, b, t, s, rs, p);
        let h = crate::merge_command::hash_at(all, p);
        assert(has_at(read, p, h)) by {
            assert forall|g: FileView| #[trigger] read.contains(g) && g.path == p implies h
                matches Some(x) && g.oid == x@ by {
                assert(fs.contains(g));
            }
            if all.contains_key(p) {
                let g = crate::merge_command::merged_file(p, all[p]);
                assert(fs.contains(g));
                assert(read.contains(g));
            }
        }
        if file_at(t, p) != file_at(b, p) && file_at(s, p) != file_at(b, p) && file_at(t, p)
            != file_at(s, p) {
            let cv = crate::merge_command::conflict_at(b, t, s, p)->0;
            assert(cs.contains(cv));
            let k = choose|k: int| 0 <= k < cs.len() && cs[k] == cv;
            lemma_none_open(cs, rs, k);
        }
    }
}

proof fn lemma_none_open(
    cs: Seq<crate::merge_command::ConflictView>,
    rs: Map<Seq<char>, ConflictResolution>,
    k: int,
)
    requires
        0 <= k < cs.len(),
        crate::merge_command::first_open(cs, rs) is None,
    ensures
        rs.contains_key(cs[k].path),
    decreases cs.len(),
{
    if k < cs.len() - 1 {
        assert(cs.drop_last()[k] == cs[k]);
        lemma_none_open(cs.drop_last(), rs, k);
    }
}

proof fn lemma_decisions(cs: Seq<StateView>, k: int)
    requires
        0 <= k < cs.len(),
        forall|i: int, j: int|
            0 <= i < j < cs.len() ==> (#[trigger] cs[i]).conflict.path != (
            #[trigger] cs[j]).conflict.path,
    ensures
        decisions(cs).contains_key(cs[k].conflict.path) <==> cs[k].resolution is Some,
        cs[k].resolution matches Some(d) ==> decisions(cs)[cs[k].conflict.path] == d,
    decreases cs.len(),
{
    let d = cs.drop_last();
    assert forall|i: int, j: int| 0 <= i < j < d.len() implies (#[trigger] d[i]).conflict.path != (
    #[trigger] d[j]).conflict.path by {
        assert(d[i] == cs[i] && d[j] == cs[j]);
    }
    if k < cs.len() - 1 {
        assert(d[k] == cs[k]);
        assert(cs[k].conflict.path != cs[cs.len() - 1].conflict.path);
        lemma_decisions(d, k);
    } else {
        lemma_decisions_before(d, cs[k].conflict.path);
    }
}

proof fn lemma_decisions_before(cs: Seq<StateView>, p: Seq<char>)
    ensures
        (forall|i: int| 0 <= i < cs.len() ==> (#[trigger] cs[i]).conflict.path != p)
            ==> !decisions(cs).contains_key(p),
    decreases cs.len(),
{
    if cs.len() > 0 {
        let d = cs.drop_last();
        lemma_decisions_before(d, p);
        if forall|i: int| 0 <= i < cs.len() ==> (#[trigger] cs[i]).conflict.path != p {
            assert forall|i: int| 0 <= i < d.len() implies (#[trigger] d[i]).conflict.path != p by {
                assert(d[i] == cs[i]);
            }
            assert(cs[cs.len() - 1].conflict.path != p);
        }
    }
}

/// Whether the view shows the conflicts of an analysis.
pub open spec fn shows(s: Screen, a: MergeAnalysis) -> bool {
    &&& s.conflicts.len() == a.conflicts@.len()
    &&& forall|i: int|
        0 <= i < s.conflicts.len() ==> (#[trigger] s.conflicts[i]).conflict == a.conflicts@[i]@
}

/// The keys that take a side: after one, a merge that is carried out has at the path of the
/// selected conflict the file of that side: the target's for `t` and `1`, the sandbox's for
/// `s` and `2`, and the common ancestor's for `b` and `3`, where its contents are there. After
/// `a` it has the target's contents and then the sandbox's, with at most a line feed between
/// them.
pub proof fn keys_take_their_side(
    screen: Screen,
    key: KeyPress,
    before: Objects,
    after: Objects,
    a: MergeAnalysis,
    b: FileMap,
    t: FileMap,
    s: FileMap,
    rs: Map<Seq<char>, ConflictResolution>,
    target_commit: Seq<u8>,
    sandbox_commit: Seq<u8>,
    author: Seq<char>,
    message: Seq<char>,
    now: u64,
    x: MergeResult,
)
    requires
        is_valid(screen),
        screen.selected < screen.conflicts.len(),
        !screen.show_help,
        shows(screen, a),
        decided_map(rs) == decisions(pressed(screen, key).conflicts),
        is_analysis(a, b, t, s),
        is_executed(
            before,
            after,
            a,
            rs,
            target_commit,
            sandbox_commit,
            author,
            message,
            now,
            Ok::<MergeResult, MergeError>(x),
        ),
        can_store_merge(
            before,
            a,
            rs,
            (CommitView {
                commit_hash: Seq::empty(),
                tree_hash: x.merged_tree_hash@,
                parents: seq![target_commit, sandbox_commit],
                author,
                author_time: now,
                commit_time: now,
                message,
            }),
        ),
    ensures
        ({
            let c = screen.conflicts[screen.selected];
            let p = c.conflict.path;
            let fs = tree_files(after, x.merged_tree_hash@)->Ok_0;
            &&& tree_files(after, x.merged_tree_hash@) is Ok
            &&& key.code == KeyCode::Char('t') || key.code == KeyCode::Char('1') ==> has_at(
                fs,
                p,
                file_at(t, p),
            )
            &&& key.code == KeyCode::Char('s') || key.code == KeyCode::Char('2') ==> has_at(
                fs,
                p,
                file_at(s, p),
            )
            &&& (key.code == KeyCode::Char('b') || key.code == KeyCode::Char('3'))
                && c.base_content is Some ==> has_at(fs, p, file_at(b, p))
            &&& key.code == KeyCode::Char('a') ==> exists|content: Seq<u8>|
                {
                    &&& #[trigger] has_at(fs, p, Some(blake3_digest(content)))
                    &&& content == c.target_content + c.sandbox_content || (content
                        == c.target_content + seq![10u8] + c.sandbox_content
                        && c.target_content.len() > 0 && c.target_content.last() != 10)
                }
        }),
{
    let c = screen.conflicts[screen.selected];
    let p = c.conflict.path;
    let cs = pressed(screen, key).conflicts;
    let views = conflict_views(a.conflicts@);
    assert(views[screen.selected] == a.conflicts@[screen.selected]@);
    assert(views.contains(views[screen.selected]));
    merge_commit_holds_both_sides(
        before,
        after,
        a,
        b,
        t,
        s,
        rs,
        target_commit,
        sandbox_commit,
        author,
        message,
        now,
        x,
    );
    crate::merge_tui::app::keys_keep_the_conflicts(screen, key);
    assert forall|i: int, j: int| 0 <= i < j < cs.len() implies (#[trigger] cs[i]).conflict.path
        != (#[trigger] cs[j]).conflict.path by {
        assert(screen.conflicts[i].conflict == views[i]);
        assert(screen.conflicts[j].conflict == views[j]);
        assert(views[i].path != views[j].path);
    }
    lemma_decisions(cs, screen.selected);
    lemma_none_open(views, rs, screen.selected);
    let fs = tree_files(after, x.merged_tree_hash@)->Ok_0;
    assert(decided_map(rs).contains_key(p));
    assert(decided_map(rs)[p] == decision(rs[p]));
    if key.code == KeyCode::Char('t') || key.code == KeyCode::Char('1') {
        deciding_decides_one(screen, Decision::TakeTarget);
    } else if key.code == KeyCode::Char('s') || key.code == KeyCode::Char('2') {
        deciding_decides_one(screen, Decision::TakeSandbox);
    } else if key.code == KeyCode::Char('b') || key.code == KeyCode::Char('3') {
        deciding_decides_one(screen, Decision::TakeBase);
    } else if key.code == KeyCode::Char('a') {
        let both = crate::merge_tui::app::both_contents(c);
        deciding_decides_one(screen, Decision::Merged(both));
        assert(c.target_content.push(10) =~= c.target_content + seq![10u8]);
        assert(has_at(fs, p, Some(blake3_digest(both))));
    }
}

} // verus!
