//! Which paths of a merge are in conflict, and how a conflict is written down.
use vstd::prelude::*;
use vstd::string::*;
use vstd::utf8::encode_utf8;

use crate::helix_index::commit_store::commit_at;
use crate::helix_index::tree_walk::tree_files;
use crate::merge_command::{
    conflict_at, conflict_views, file_at, first_open, is_analysis, is_diff, is_executed, marked,
    merge_sides, resolved_at, resolved_views, stored_files, ChangeView, ConflictResolution,
    ConflictView, FileMap, MergeAnalysis, MergeError, MergeResult,
};
use crate::merge_tui::app::{merge_message, open_state};
use crate::object_store::{ObjectType, Objects};

verus! {

/// A path is in conflict just where both sides changed it, each to something else: then the
/// conflict tells the three files, and whether both added it, one changed what the other took
/// away, or both changed it. It is settled just where some side changed it and there is no
/// conflict: it becomes what the side that changed it has.
pub proof fn conflicts_are_disagreements(
    a: MergeAnalysis,
    b: FileMap,
    t: FileMap,
    s: FileMap,
    p: Seq<char>,
)
    requires
        is_analysis(a, b, t, s),
    ensures
        ({
            let old = file_at(b, p);
            let ours = file_at(t, p);
            let theirs = file_at(s, p);
            let cs = conflict_views(a.conflicts@);
            let rs = resolved_views(a.auto_resolved@);
            &&& (exists|i: int| 0 <= i < cs.len() && (#[trigger] cs[i]).path == p) <==> ours != old
                && theirs != old && ours != theirs
            &&& forall|i: int|
                0 <= i < cs.len() && (#[trigger] cs[i]).path == p ==> {
                    &&& cs[i].base == old && cs[i].target == ours && cs[i].sandbox == theirs
                    &&& cs[i].conflict_type is BothAdded <==> old is None
                    &&& cs[i].conflict_type is ModifyDelete <==> old is Some && (ours is None
                        || theirs is None)
                    &&& cs[i].conflict_type is BothModified <==> old is Some && ours is Some
                        && theirs is Some
                }
            &&& (exists|i: int| 0 <= i < rs.len() && (#[trigger] rs[i]).path == p) <==> (ours != old
                || theirs != old) && (ours == old || theirs == old || ours == theirs)
            &&& forall|i: int|
                0 <= i < rs.len() && (#[trigger] rs[i]).path == p ==> (ours != old
                    ==> rs[i].blob_hash == ours) && (theirs != old ==> rs[i].blob_hash == theirs)
        }),
{
    let old = file_at(b, p);
    let ours = file_at(t, p);
    let theirs = file_at(s, p);
    let cs = conflict_views(a.conflicts@);
    let rs = resolved_views(a.auto_resolved@);
    assert forall|i: int| 0 <= i < cs.len() && (#[trigger] cs[i]).path == p implies conflict_at(
        b,
        t,
        s,
        p,
    ) == Some(cs[i]) by {
        assert(cs.contains(cs[i]));
    }
    assert forall|i: int| 0 <= i < rs.len() && (#[trigger] rs[i]).path == p implies resolved_at(
        b,
        t,
        s,
        p,
    ) == Some(rs[i]) by {
        assert(rs.contains(rs[i]));
    }
    if ours != old && theirs != old && ours != theirs {
        let c = conflict_at(b, t, s, p)->Some_0;
        assert(cs.contains(c));
        let i = choose|i: int| 0 <= i < cs.len() && cs[i] == c;
        assert(cs[i].path == p);
    }
    if (ours != old || theirs != old) && (ours == old || theirs == old || ours == theirs) {
        let c = resolved_at(b, t, s, p)->Some_0;
        assert(rs.contains(c));
        let i = choose|i: int| 0 <= i < rs.len() && rs[i] == c;
        assert(rs[i].path == p);
    }
}

/// Between two trees a path is added, modified or deleted as its file comes, changes or goes,
/// and is not told of where its file stays.
pub proof fn differences_are_told(cs: Seq<ChangeView>, base: FileMap, other: FileMap, p: Seq<char>)
    requires
        is_diff(cs, base, other),
    ensures
        (exists|i: int| 0 <= i < cs.len() && (#[trigger] cs[i]).at() == p) <==> file_at(base, p)
            != file_at(other, p),
        forall|i: int|
            0 <= i < cs.len() && (#[trigger] cs[i]).at() == p ==> match cs[i] {
                ChangeView::Added { blob_hash, .. } => file_at(base, p) is None && file_at(other, p)
                    == Some(blob_hash),
                ChangeView::Modified { old_hash, new_hash, .. } => file_at(base, p) == Some(
                    old_hash,
                ) && file_at(other, p) == Some(new_hash) && old_hash != new_hash,
                ChangeView::Deleted { old_hash, .. } => file_at(base, p) == Some(old_hash)
                    && file_at(other, p) is None,
            },
{
    assert forall|i: int| 0 <= i < cs.len() && (#[trigger] cs[i]).at() == p implies
        crate::merge_command::change_at(base, other, p) == Some(cs[i]) by {
        assert(cs.contains(cs[i]));
    }
    if file_at(base, p) != file_at(other, p) {
        let c = crate::merge_command::change_at(base, other, p)->Some_0;
        assert(c.at() == p);
        assert(cs.contains(c));
        let i = choose|i: int| 0 <= i < cs.len() && cs[i] == c;
        assert(cs[i].at() == p);
    }
}

/// The three sides of a merge are the files of the trees of the three commits, in their order.
pub proof fn sides_are_the_commits(m: Objects, base: Seq<u8>, target: Seq<u8>, sandbox: Seq<u8>)
    ensures
        merge_sides(m, base, target, sandbox) is Ok <==> {
            &&& commit_at(m, base) is Ok && commit_at(m, target) is Ok && commit_at(m, sandbox) is Ok
            &&& tree_files(m, commit_at(m, base)->Ok_0.tree_hash) is Ok
            &&& tree_files(m, commit_at(m, target)->Ok_0.tree_hash) is Ok
            &&& tree_files(m, commit_at(m, sandbox)->Ok_0.tree_hash) is Ok
        },
        merge_sides(m, base, target, sandbox) matches Ok(x) ==> {
            &&& x.0 == stored_files(m, commit_at(m, base)->Ok_0.tree_hash)
            &&& x.1 == stored_files(m, commit_at(m, target)->Ok_0.tree_hash)
            &&& x.2 == stored_files(m, commit_at(m, sandbox)->Ok_0.tree_hash)
        },
{
}

/// Contents up to the end of their last line.
pub open spec fn closed(b: Seq<u8>) -> Seq<u8> {
    if b.len() > 0 && b[b.len() - 1] == 10 {
        b
    } else {
        b.push(10)
    }
}

/// A conflict is written as the target's contents behind a line of `<` with its name, what they
/// both come from behind a line of `|` where there is such, the sandbox's contents behind a
/// line of `=`, and a line of `>` with its name.
pub proof fn conflicts_are_marked(
    target: Seq<u8>,
    base: Option<Seq<u8>>,
    sandbox: Seq<u8>,
    ours: Seq<char>,
    theirs: Seq<char>,
)
    ensures
        ({
            let front = encode_utf8(
                seq!['<', '<', '<', '<', '<', '<', '<', ' '] + ours + seq![
                    ' ', '(', 't', 'a', 'r', 'g', 'e', 't', ')', '\n',
                ],
            ) + closed(target);
            let back = encode_utf8(seq!['=', '=', '=', '=', '=', '=', '=', '\n']) + closed(sandbox)
                + encode_utf8(
                seq!['>', '>', '>', '>', '>', '>', '>', ' '] + theirs + seq![
                    ' ', '(', 's', 'a', 'n', 'd', 'b', 'o', 'x', ')', '\n',
                ],
            );
            &&& base is None ==> marked(target, base, sandbox, ours, theirs) == front + back
            &&& base matches Some(b) ==> marked(target, base, sandbox, ours, theirs) == front
                + encode_utf8(
                seq!['|', '|', '|', '|', '|', '|', '|', ' ', 'b', 'a', 's', 'e', '\n'],
            ) + closed(b) + back
        }),
{
    reveal_strlit("<<<<<<< ");
    reveal_strlit(" (target)\n");
    reveal_strlit("||||||| base\n");
    reveal_strlit("=======\n");
    reveal_strlit(">>>>>>> ");
    reveal_strlit(" (sandbox)\n");
    assert("<<<<<<< "@ =~= seq!['<', '<', '<', '<', '<', '<', '<', ' ']);
    assert(" (target)\n"@ =~= seq![' ', '(', 't', 'a', 'r', 'g', 'e', 't', ')', '\n']);
    assert("||||||| base\n"@ =~= seq![
        '|', '|', '|', '|', '|', '|', '|', ' ', 'b', 'a', 's', 'e', '\n',
    ]);
    assert("=======\n"@ =~= seq!['=', '=', '=', '=', '=', '=', '=', '\n']);
    assert(">>>>>>> "@ =~= seq!['>', '>', '>', '>', '>', '>', '>', ' ']);
    assert(" (sandbox)\n"@ =~= seq![' ', '(', 's', 'a', 'n', 'd', 'b', 'o', 'x', ')', '\n']);
    let front = encode_utf8("<<<<<<< "@ + ours + " (target)\n"@) + closed(target);
    let back = encode_utf8("=======\n"@) + closed(sandbox) + encode_utf8(
        ">>>>>>> "@ + theirs + " (sandbox)\n"@,
    );
    match base {
        None => {
            assert(marked(target, base, sandbox, ours, theirs) =~= front + back);
        },
        Some(b) => {
            assert(marked(target, base, sandbox, ours, theirs) =~= front + encode_utf8(
                "||||||| base\n"@,
            ) + closed(b) + back);
        },
    }
}

/// A conflict is first shown undecided, with the stored contents of the target's file, of the
/// sandbox's and of the one that both come from; what is not there or not stored is shown as
/// empty.
pub proof fn conflicts_are_shown_with_both_sides(m: Objects, c: ConflictView)
    ensures
        ({
            let s = open_state(m, c);
            &&& s.conflict == c
            &&& s.resolution is None
            &&& c.target matches Some(h) ==> (m.contains_key((ObjectType::Blob, h@))
                ==> s.target_content == m[(ObjectType::Blob, h@)])
            &&& c.sandbox matches Some(h) ==> (m.contains_key((ObjectType::Blob, h@))
                ==> s.sandbox_content == m[(ObjectType::Blob, h@)])
            &&& c.base matches Some(h) ==> (m.contains_key((ObjectType::Blob, h@))
                ==> s.base_content == Some(m[(ObjectType::Blob, h@)]))
            &&& c.target is None ==> s.target_content.len() == 0
            &&& c.sandbox is None ==> s.sandbox_content.len() == 0
            &&& c.base is None ==> s.base_content is None
        }),
{
}

/// The commit of a merge says which sandbox was merged into which branch.
pub proof fn merges_name_both_sides(sandbox: Seq<char>, target: Seq<char>)
    ensures
        merge_message(sandbox, target) == seq![
            'M', 'e', 'r', 'g', 'e', ' ', 's', 'a', 'n', 'd', 'b', 'o', 'x', ' ', '\'',
        ] + sandbox + seq!['\'', ' ', 'i', 'n', 't', 'o', ' ', '\''] + target + seq!['\''],
{
    reveal_strlit("Merge sandbox '");
    reveal_strlit("' into '");
    reveal_strlit("'");
    assert("Merge sandbox '"@ =~= seq![
        'M', 'e', 'r', 'g', 'e', ' ', 's', 'a', 'n', 'd', 'b', 'o', 'x', ' ', '\'',
    ]);
    assert("' into '"@ =~= seq!['\'', ' ', 'i', 'n', 't', 'o', ' ', '\'']);
    assert("'"@ =~= seq!['\'']);
}

proof fn lemma_open(cs: Seq<ConflictView>, rs: Map<Seq<char>, ConflictResolution>)
    ensures
        first_open(cs, rs) is None <==> forall|i: int|
            0 <= i < cs.len() ==> rs.contains_key((#[trigger] cs[i]).path),
        first_open(cs, rs) matches Some(p) ==> !rs.contains_key(p) && exists|i: int|
            0 <= i < cs.len() && (#[trigger] cs[i]).path == p,
    decreases cs.len(),
{
    if cs.len() > 0 {
        let d = cs.drop_last();
        let n = cs.len() - 1;
        lemma_open(d, rs);
        assert(cs[n] == cs.last());
        if first_open(d, rs) is None {
            assert forall|i: int| 0 <= i < n implies rs.contains_key((#[trigger] cs[i]).path) by {
                assert(d[i] == cs[i]);
            }
        } else {
            let p = first_open(d, rs)->Some_0;
            let i = choose|i: int| 0 <= i < d.len() && (#[trigger] d[i]).path == p;
            assert(cs[i] == d[i]);
        }
    }
}

/// A merge is carried out just where every conflict is decided; it then counts the conflicts,
/// and with them the paths that were settled. Else it is refused for a conflict that is not
/// decided, and the store stays as it is.
pub proof fn merges_need_every_decision(
    before: Objects,
    after: Objects,
    a: MergeAnalysis,
    rs: Map<Seq<char>, ConflictResolution>,
    target: Seq<u8>,
    sandbox: Seq<u8>,
    author: Seq<char>,
    message: Seq<char>,
    now: u64,
    r: Result<MergeResult, MergeError>,
)
    requires
        is_executed(before, after, a, rs, target, sandbox, author, message, now, r),
    ensures
        r is Ok <==> forall|i: int|
            0 <= i < a.conflicts@.len() ==> rs.contains_key((#[trigger] a.conflicts@[i]).path@),
        r matches Err(e) ==> after == before && (e matches MergeError::Unresolved(p)
            && !rs.contains_key(p@)),
        r matches Ok(x) ==> x.conflicts_resolved == a.conflicts@.len() && x.files_changed
            == a.auto_resolved@.len() + a.conflicts@.len(),
{
    let cs = conflict_views(a.conflicts@);
    lemma_open(cs, rs);
    assert forall|i: int| 0 <= i < cs.len() implies (#[trigger] cs[i]).path
        == a.conflicts@[i].path@ by {}
    if r is Ok {
        assert forall|i: int| 0 <= i < a.conflicts@.len() implies rs.contains_key(
            (#[trigger] a.conflicts@[i]).path@,
        ) by {
            assert(rs.contains_key(cs[i].path));
        }
    }
    if forall|i: int|
        0 <= i < a.conflicts@.len() ==> rs.contains_key((#[trigger] a.conflicts@[i]).path@) {
        assert forall|i: int| 0 <= i < cs.len() implies rs.contains_key(
            (#[trigger] cs[i]).path,
        ) by {
            assert(rs.contains_key(a.conflicts@[i].path@));
        }
    }
}

} // verus!
