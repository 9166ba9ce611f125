//! What a diff shows, and what it leaves out.
use vstd::prelude::*;
use vstd::string::*;

use crate::add_command::WorkFile;
use crate::branch_command::{ends_solid, lemma_symbol};
use crate::diff_command::{
    base_commit, blob_text, content_at, content_from, diff_text, head_files, new_files, path_width,
    plural, rows_text, shown_text, staged_entries_text, staged_entry, staged_rows, staged_stat,
    staged_text, summary_text, totals, unstaged_entries, unstaged_entry, unstaged_rows,
    unstaged_stat, unstaged_text, wanted, DiffFault, DiffOptions, StatRow,
};
use crate::hash::blake3_digest;
use crate::helix_index::commit_store::commit_at;
use crate::helix_index::format::EntryView;
use crate::helix_index::tree_walk::{file_map, tree_files};
use crate::laws::branching::place_of;
use crate::line_diff::{change_groups, change_text, groups_text, stat_of, ChangeTag};
use crate::object_store::{ObjectType, Objects};
use crate::path::{is_regular, regular_paths_lie_under, same_path};
use crate::refs::{head_commit, head_symbol, ref_dir, Refs};
use crate::text::{after, decimal, has_infix, has_prefix, lines_spec};

verus! {

/// Whether no file of the working tree has this path.
pub open spec fn is_gone(wt: Seq<WorkFile>, p: Seq<char>) -> bool {
    forall|i: int| 0 <= i < wt.len() ==> (#[trigger] wt[i]).path@ != p
}

/// Whether the first file of the working tree with this path has these contents.
pub open spec fn is_on_disk(wt: Seq<WorkFile>, p: Seq<char>, content: Seq<u8>) -> bool {
    exists|i: int|
        {
            &&& 0 <= i < wt.len()
            &&& (#[trigger] wt[i]).path@ == p
            &&& wt[i].content@ == content
            &&& forall|j: int| 0 <= j < i ==> (#[trigger] wt[j]).path@ != p
        }
}

proof fn lemma_on_disk(wt: Seq<WorkFile>, p: Seq<char>, at: int)
    requires
        0 <= at <= wt.len(),
        forall|j: int| 0 <= j < at ==> (#[trigger] wt[j]).path@ != p,
    ensures
        content_from(wt, p, at) is None <==> is_gone(wt, p),
        content_from(wt, p, at) matches Some(c) ==> is_on_disk(wt, p, c),
        forall|c: Seq<u8>| #[trigger] is_on_disk(wt, p, c) ==> content_from(wt, p, at) == Some(c),
    decreases wt.len() - at,
{
    if at < wt.len() {
        if wt[at].path@ != p {
            lemma_on_disk(wt, p, at + 1);
        } else {
            assert(is_on_disk(wt, p, wt[at].content@));
            assert forall|c: Seq<u8>| #[trigger] is_on_disk(wt, p, c) implies c
                == wt[at].content@ by {
                let i = choose|i: int|
                    {
                        &&& 0 <= i < wt.len()
                        &&& (#[trigger] wt[i]).path@ == p
                        &&& wt[i].content@ == c
                        &&& forall|j: int| 0 <= j < i ==> (#[trigger] wt[j]).path@ != p
                    };
                if i > at {
                    assert(wt[at].path@ != p);
                } else if i < at {
                    assert(wt[i].path@ != p);
                }
            }
        }
    }
}

/// What is shown of a file from one text to another: the four lines of its header, and the
/// changed lines.
pub open spec fn shown_change(
    path: Seq<char>,
    change: Seq<char>,
    before: Seq<char>,
    now: Seq<char>,
) -> Seq<char> {
    "diff --helix a/"@ + path + " b/"@ + path + "\n"@ + change + " mode 100644\n--- a/"@ + path
        + "\n+++ b/"@ + path + "\n"@ + groups_text(change_groups(before, now, 3), true)
}

proof fn lemma_shown_change(path: Seq<char>, change: Seq<char>, before: Seq<char>, now: Seq<char>)
    ensures
        crate::diff_command::file_diff(path, change, before, now, true) == shown_change(
            path,
            change,
            before,
            now,
        ),
{
    reveal_strlit("");
    reveal_strlit("\n");
    reveal_strlit(" mode 100644");
    reveal_strlit("--- a/");
    reveal_strlit("+++ b/");
    reveal_strlit(" mode 100644\n--- a/");
    reveal_strlit("\n+++ b/");
    assert(crate::diff_command::file_diff(path, change, before, now, true) =~= shown_change(
        path,
        change,
        before,
        now,
    ));
}

/// Each line of a change is shown behind its sign: a minus for one that is gone, a plus for
/// one that is new, and a space for one that stayed.
pub proof fn lines_are_shown_behind_their_sign(line: Seq<char>)
    ensures
        change_text((ChangeTag::Delete, line, false), true) == seq!['-'] + line,
        change_text((ChangeTag::Insert, line, false), true) == seq!['+'] + line,
        change_text((ChangeTag::Equal, line, false), true) == seq![' '] + line,
{
    reveal_strlit("-");
    reveal_strlit("+");
    reveal_strlit(" ");
    assert(change_text((ChangeTag::Delete, line, false), true) =~= seq!['-'] + line);
    assert(change_text((ChangeTag::Insert, line, false), true) =~= seq!['+'] + line);
    assert(change_text((ChangeTag::Equal, line, false), true) =~= seq![' '] + line);
}

/// Which paths are shown: all without filters; with filters of regular paths, those that are
/// one of them or lie below one.
pub proof fn filters_pick_paths(path: Seq<char>, filters: Seq<Seq<char>>)
    requires
        is_regular(path),
        forall|i: int| 0 <= i < filters.len() ==> is_regular(#[trigger] filters[i]),
    ensures
        wanted(path, filters) <==> filters.len() == 0 || exists|i: int|
            0 <= i < filters.len() && (path == #[trigger] filters[i] || has_prefix(
                path,
                filters[i].push('/'),
            )),
{
    reveal_strlit(".");
    if exists|i: int|
        0 <= i < filters.len() && (crate::path::is_under(path, #[trigger] filters[i])
            || filters[i] == "."@) {
        let i = choose|i: int|
            0 <= i < filters.len() && (crate::path::is_under(path, #[trigger] filters[i])
                || filters[i] == "."@);
        assert(is_regular(filters[i]));
        regular_paths_lie_under(path, filters[i]);
        if filters[i] == "."@ {
            let s = filters[i];
            crate::text::lemma_first_at(s, '/');
            assert(s[0] == '.');
            assert(crate::text::split_spec(s, '/')[0] =~= s);
            assert(crate::path::is_name(crate::text::split_spec(s, '/')[0]));
        }
    }
    if exists|i: int|
        0 <= i < filters.len() && (path == #[trigger] filters[i] || has_prefix(
            path,
            filters[i].push('/'),
        )) {
        let i = choose|i: int|
            0 <= i < filters.len() && (path == #[trigger] filters[i] || has_prefix(
                path,
                filters[i].push('/'),
            ));
        assert(is_regular(filters[i]));
        regular_paths_lie_under(path, filters[i]);
    }
}

/// The text that the store has for contents, where it has them.
pub open spec fn stored_text(m: Objects, oid: Seq<u8>) -> Seq<char> {
    if m.contains_key((ObjectType::Blob, oid)) {
        shown_text(m[(ObjectType::Blob, oid)])
    } else {
        Seq::empty()
    }
}

/// What the diff of the working tree shows of a tracked entry that is asked for: a file that
/// is gone is shown as deleted, with all of its stored text, unless it is staged as deleted; a
/// file with other contents as modified, from the stored text to its own; and nothing is shown
/// of a file with the contents of the entry, nor of an entry that is not tracked or not asked
/// for.
pub proof fn working_changes_are_shown(
    m: Objects,
    wt: Seq<WorkFile>,
    e: EntryView,
    filters: Seq<Seq<char>>,
)
    ensures
        ({
            let part = unstaged_entry(m, wt, e, filters, true);
            let asked = e.flags.bits & 1 == 1 && wanted(e.path, filters);
            &&& asked && is_gone(wt, e.path) && !(e.flags.bits & 2 == 2 && e.flags.bits & 8 == 8)
                ==> part == shown_change(
                e.path,
                "deleted"@,
                stored_text(m, e.oid@),
                Seq::empty(),
            )
            &&& forall|c: Seq<u8>|
                asked && #[trigger] is_on_disk(wt, e.path, c) && blake3_digest(c) != e.oid
                    ==> part == shown_change(
                    e.path,
                    "modified"@,
                    stored_text(m, e.oid@),
                    shown_text(c),
                )
            &&& forall|c: Seq<u8>| #[trigger]
                is_on_disk(wt, e.path, c) && blake3_digest(c) == e.oid ==> part.len() == 0
            &&& is_gone(wt, e.path) && e.flags.bits & 2 == 2 && e.flags.bits & 8 == 8
                ==> part.len() == 0
            &&& !asked ==> part.len() == 0
        }),
{
    lemma_on_disk(wt, e.path, 0);
    lemma_shown_change(e.path, "deleted"@, blob_text(m, e.oid@), Seq::empty());
    assert forall|c: Seq<u8>| #[trigger] is_on_disk(wt, e.path, c) implies content_at(wt, e.path)
        == Some(c) by {}
    if let Some(c) = content_at(wt, e.path) {
        lemma_shown_change(e.path, "modified"@, blob_text(m, e.oid@), shown_text(c));
    }
}

/// What the diff of the index shows of a staged entry that is asked for: a file that the head
/// commit does not have is new, one that it has with other contents is modified, and one that
/// is staged as deleted is shown with the text that the head commit has. Nothing is shown of
/// one that the head commit has as it is, nor of an entry that is not staged or not asked for.
pub proof fn staged_changes_are_shown(
    m: Objects,
    head: Map<Seq<char>, Seq<u8>>,
    e: EntryView,
    filters: Seq<Seq<char>>,
)
    ensures
        ({
            let part = staged_entry(m, head, e, filters, true);
            let asked = e.flags.bits & 2 == 2 && wanted(e.path, filters);
            let deleted = e.flags.bits & 8 == 8;
            &&& asked && !deleted && !head.contains_key(e.path) ==> part == shown_change(
                e.path,
                "new file"@,
                Seq::empty(),
                stored_text(m, e.oid@),
            )
            &&& asked && !deleted && head.contains_key(e.path) && head[e.path] != e.oid@ ==> part
                == shown_change(
                e.path,
                "modified"@,
                stored_text(m, head[e.path]),
                stored_text(m, e.oid@),
            )
            &&& asked && deleted && head.contains_key(e.path) ==> part == shown_change(
                e.path,
                "deleted"@,
                stored_text(m, head[e.path]),
                Seq::empty(),
            )
            &&& !deleted && head.contains_key(e.path) && head[e.path] == e.oid@ ==> part.len() == 0
            &&& deleted && !head.contains_key(e.path) ==> part.len() == 0
            &&& !asked ==> part.len() == 0
        }),
{
    let t = stored_text(m, e.oid@);
    lemma_shown_change(e.path, "new file"@, Seq::empty(), t);
    lemma_shown_change(e.path, "modified"@, stored_text(m, head[e.path]), t);
    lemma_shown_change(e.path, "deleted"@, stored_text(m, head[e.path]), Seq::empty());
}

proof fn lemma_infix_left(a: Seq<char>, b: Seq<char>, p: Seq<char>)
    requires
        has_infix(a, p),
    ensures
        has_infix(a + b, p),
{
    let i = choose|i: int|
        0 <= i <= a.len() - p.len() && #[trigger] a.subrange(i, i + p.len()) == p;
    assert((a + b).subrange(i, i + p.len()) =~= p);
}

proof fn lemma_infix_right(a: Seq<char>, b: Seq<char>)
    ensures
        has_infix(a + b, b),
{
    assert((a + b).subrange(a.len() as int, a.len() as int + b.len()) =~= b);
}

/// The diff of the working tree holds what is shown of every entry, wherever it stands in the
/// index, and is empty only if nothing is shown of any.
pub proof fn every_entry_has_its_part(
    m: Objects,
    wt: Seq<WorkFile>,
    es: Seq<EntryView>,
    filters: Seq<Seq<char>>,
    i: int,
)
    requires
        0 <= i < es.len(),
    ensures
        has_infix(
            unstaged_entries(m, wt, es, filters, true),
            unstaged_entry(m, wt, es[i], filters, true),
        ),
        unstaged_entries(m, wt, es, filters, true).len() == 0 ==> unstaged_entry(
            m,
            wt,
            es[i],
            filters,
            true,
        ).len() == 0,
    decreases es.len(),
{
    let d = es.drop_last();
    let a = unstaged_entries(m, wt, d, filters, true);
    let b = unstaged_entry(m, wt, es.last(), filters, true);
    if i < d.len() {
        assert(d[i] == es[i]);
        every_entry_has_its_part(m, wt, d, filters, i);
        lemma_infix_left(a, b, unstaged_entry(m, wt, es[i], filters, true));
    } else {
        lemma_infix_right(a, b);
    }
}

/// The diff of the index holds what is shown of every entry, and is empty only if nothing is
/// shown of any.
pub proof fn every_staged_entry_has_its_part(
    m: Objects,
    head: Map<Seq<char>, Seq<u8>>,
    es: Seq<EntryView>,
    filters: Seq<Seq<char>>,
    i: int,
)
    requires
        0 <= i < es.len(),
    ensures
        has_infix(
            staged_entries_text(m, head, es, filters, true),
            staged_entry(m, head, es[i], filters, true),
        ),
        staged_entries_text(m, head, es, filters, true).len() == 0 ==> staged_entry(
            m,
            head,
            es[i],
            filters,
            true,
        ).len() == 0,
    decreases es.len(),
{
    let d = es.drop_last();
    let a = staged_entries_text(m, head, d, filters, true);
    let b = staged_entry(m, head, es.last(), filters, true);
    if i < d.len() {
        assert(d[i] == es[i]);
        every_staged_entry_has_its_part(m, head, d, filters, i);
        lemma_infix_left(a, b, staged_entry(m, head, es[i], filters, true));
    } else {
        lemma_infix_right(a, b);
    }
}

/// A filter that names a file which the index does not track shows it as new, with all of its
/// text; one that names a tracked file or none adds nothing.
pub proof fn named_new_files_are_shown(
    wt: Seq<WorkFile>,
    es: Seq<EntryView>,
    filters: Seq<Seq<char>>,
    p: Seq<char>,
)
    ensures
        ({
            let before = new_files(wt, es, filters, true);
            let now = new_files(wt, es, filters.push(p), true);
            let known = exists|i: int|
                0 <= i < es.len() && same_path((#[trigger] es[i]).path, p) && es[i].flags.bits & 1
                    == 1;
            &&& forall|c: Seq<u8>| #[trigger]
                is_on_disk(wt, p, c) && !known ==> now == before + shown_change(
                    p,
                    "new file"@,
                    Seq::empty(),
                    shown_text(c),
                )
            &&& known || is_gone(wt, p) ==> now == before
        }),
{
    lemma_on_disk(wt, p, 0);
    let fs = filters.push(p);
    assert(fs.drop_last() =~= filters);
    assert forall|c: Seq<u8>| #[trigger] is_on_disk(wt, p, c) implies content_at(wt, p) == Some(
        c,
    ) by {}
    if let Some(c) = content_at(wt, p) {
        lemma_shown_change(p, "new file"@, Seq::empty(), shown_text(c));
    }
    assert(crate::diff_command::is_tracked_in(es, p) <==> exists|i: int|
        0 <= i < es.len() && same_path((#[trigger] es[i]).path, p) && es[i].flags.bits & 1 == 1);
}

/// The diff of the working tree is empty only where every tracked entry that is asked for has
/// its file with its contents, or has none and is staged as deleted.
pub proof fn silence_means_no_changes(
    m: Objects,
    wt: Seq<WorkFile>,
    es: Seq<EntryView>,
    filters: Seq<Seq<char>>,
    options: DiffOptions,
    i: int,
)
    requires
        options.no_color,
        !options.verbose,
        unstaged_text(m, wt, es, filters, options).len() == 0,
        0 <= i < es.len(),
        es[i].flags.bits & 1 == 1,
        wanted(es[i].path, filters),
    ensures
        (exists|c: Seq<u8>| #[trigger] is_on_disk(wt, es[i].path, c) && blake3_digest(c)
            == es[i].oid) || (is_gone(wt, es[i].path) && es[i].flags.bits & 2 == 2
            && es[i].flags.bits & 8 == 8),
{
    every_entry_has_its_part(m, wt, es, filters, i);
    working_changes_are_shown(m, wt, es[i], filters);
    lemma_on_disk(wt, es[i].path, 0);
    reveal_strlit("diff --helix a/");
}

/// What the summary counts: a file that is gone has every stored line as deleted, one that is
/// new to the head commit every stored line as inserted, and one with its contents nothing;
/// else what leads from the one text to the other. A file with nothing to count has no row.
pub proof fn summary_counts_changes(
    m: Objects,
    wt: Seq<WorkFile>,
    head: Map<Seq<char>, Seq<u8>>,
    e: EntryView,
    filters: Seq<Seq<char>>,
)
    ensures
        ({
            let n = unstaged_stat(m, wt, e, filters);
            let asked = e.flags.bits & 1 == 1 && wanted(e.path, filters);
            &&& asked && is_gone(wt, e.path) ==> n == (
                0nat,
                lines_spec(stored_text(m, e.oid@)).len(),
            )
            &&& forall|c: Seq<u8>| #[trigger]
                is_on_disk(wt, e.path, c) && blake3_digest(c) == e.oid ==> n == (0nat, 0nat)
            &&& forall|c: Seq<u8>|
                asked && #[trigger] is_on_disk(wt, e.path, c) && blake3_digest(c) != e.oid ==> n
                    == stat_of(stored_text(m, e.oid@), shown_text(c))
            &&& !asked ==> n == (0nat, 0nat)
        }),
        ({
            let n = staged_stat(m, head, e, filters);
            let asked = e.flags.bits & 2 == 2 && wanted(e.path, filters);
            let deleted = e.flags.bits & 8 == 8;
            &&& asked && !deleted && !head.contains_key(e.path) ==> n == (
                lines_spec(stored_text(m, e.oid@)).len(),
                0nat,
            )
            &&& asked && !deleted && head.contains_key(e.path) ==> n == stat_of(
                stored_text(m, head[e.path]),
                stored_text(m, e.oid@),
            )
            &&& asked && deleted && head.contains_key(e.path) ==> n == (
                0nat,
                lines_spec(stored_text(m, head[e.path])).len(),
            )
            &&& !asked || (deleted && !head.contains_key(e.path)) ==> n == (0nat, 0nat)
        }),
{
    lemma_on_disk(wt, e.path, 0);
}

/// The rows of a summary are those of the entries with something to count, in the order of
/// the entries.
pub proof fn summary_has_a_row_for_each_change(
    m: Objects,
    wt: Seq<WorkFile>,
    head: Map<Seq<char>, Seq<u8>>,
    es: Seq<EntryView>,
    filters: Seq<Seq<char>>,
    e: EntryView,
)
    ensures
        ({
            let n = unstaged_stat(m, wt, e, filters);
            let before = unstaged_rows(m, wt, es, filters);
            let now = unstaged_rows(m, wt, es.push(e), filters);
            &&& n.0 + n.1 > 0 ==> now == before.push((e.path, n.0, n.1))
            &&& n.0 + n.1 == 0 ==> now == before
        }),
        ({
            let n = staged_stat(m, head, e, filters);
            let before = staged_rows(m, head, es, filters);
            let now = staged_rows(m, head, es.push(e), filters);
            &&& n.0 + n.1 > 0 ==> now == before.push((e.path, n.0, n.1))
            &&& n.0 + n.1 == 0 ==> now == before
        }),
{
    assert(es.push(e).drop_last() =~= es);
}

/// The totals of a summary add up: those of two lists of rows are the sums of theirs.
pub proof fn totals_add_up(a: Seq<StatRow>, b: Seq<StatRow>)
    ensures
        totals(a + b) == (totals(a).0 + totals(b).0, totals(a).1 + totals(b).1),
        forall|row: StatRow| totals(#[trigger] seq![row]) == (row.1, row.2),
    decreases b.len(),
{
    assert forall|row: StatRow| totals(#[trigger] seq![row]) == (row.1, row.2) by {
        assert(seq![row].drop_last() =~= Seq::<StatRow>::empty());
        assert(totals(Seq::<StatRow>::empty()) == (0nat, 0nat));
    }
    if b.len() == 0 {
        assert(a + b =~= a);
    } else {
        assert((a + b).drop_last() =~= a + b.drop_last());
        assert((a + b).last() == b.last());
        totals_add_up(a, b.drop_last());
    }
}

/// The staged changes are held against the files of the current commit: where `HEAD` names a
/// branch, of the commit that the branch names, and of none where it names none yet.
pub proof fn staged_changes_start_from_the_current_commit(m: Objects, r: Refs, name: Seq<char>)
    requires
        ends_solid(name),
        r.head == Some(seq!['r', 'e', 'f', ':', ' '] + place_of(name) + seq!['\n']),
        !ref_dir(r, place_of(name)),
    ensures
        head_commit(r) matches Ok(h) ==> base_commit(r) == Ok::<Option<Seq<u8>>, DiffFault>(Some(h))
            && (commit_at(m, h) matches Ok(c) ==> (tree_files(m, c.tree_hash) matches Ok(fs)
            ==> head_files(m, r) == Ok::<Map<Seq<char>, Seq<u8>>, DiffFault>(file_map(fs)))),
        !r.has(place_of(name)) ==> head_files(m, r) == Ok::<Map<Seq<char>, Seq<u8>>, DiffFault>(
            Map::empty(),
        ),
{
    reveal_strlit("ref: ");
    reveal_strlit("ref:");
    reveal_strlit("\n");
    let heads = seq!['r', 'e', 'f', 's', '/', 'h', 'e', 'a', 'd', 's', '/'];
    let path = place_of(name);
    let line = seq!['r', 'e', 'f', ':', ' '] + path;
    assert("ref: "@ =~= seq!['r', 'e', 'f', ':', ' ']);
    assert("\n"@ =~= seq!['\n']);
    lemma_symbol(heads, name);
    assert("ref: "@ + (heads + name) + "\n"@ =~= line + seq!['\n']);
    assert(head_symbol(r.head->Some_0) == Some(path));
    assert(path.last() == name.last());
    assert(line.last() == name.last());
    crate::text::lemma_trim_around(line, Seq::empty(), seq!['\n']);
    assert(Seq::<char>::empty() + line + seq!['\n'] =~= line + seq!['\n']);
    assert(line.subrange(0, 5) =~= "ref: "@);
    assert(after(line, 5) =~= path);
}

/// A diff shows the staged changes where these are asked for, and else those of the working
/// tree.
pub proof fn diffs_show_what_is_asked_for(
    m: Objects,
    r: Refs,
    wt: Seq<WorkFile>,
    es: Seq<EntryView>,
    filters: Seq<Seq<char>>,
    o: DiffOptions,
)
    ensures
        !o.staged ==> diff_text(m, r, wt, es, filters, o) == Ok::<Seq<char>, DiffFault>(
            unstaged_text(m, wt, es, filters, o),
        ),
        o.staged ==> (head_files(m, r) matches Ok(head) ==> diff_text(m, r, wt, es, filters, o)
            == Ok::<Seq<char>, DiffFault>(staged_text(m, head, es, filters, o))),
{
}

/// The last line of a summary tells how many files changed, and how many lines were inserted
/// and deleted in all of them.
#[verifier::rlimit(60)]
pub proof fn summaries_end_with_the_totals(rows: Seq<StatRow>)
    requires
        rows.len() > 0,
    ensures
        ({
            let t = totals(rows);
            has_infix(summary_text(rows), decimal(rows.len())) && has_infix(
                summary_text(rows),
                seq!['c', 'h', 'a', 'n', 'g', 'e', 'd', ',', ' '] + decimal(t.0) + seq![
                    ' ', 'i', 'n', 's', 'e', 'r', 't', 'i', 'o', 'n',
                ],
            ) && has_infix(
                summary_text(rows),
                seq!['(', '+', ')', ',', ' '] + decimal(t.1) + seq![
                    ' ', 'd', 'e', 'l', 'e', 't', 'i', 'o', 'n',
                ],
            )
        }),
{
    reveal_strlit(" changed, ");
    reveal_strlit(" insertion");
    reveal_strlit("(+), ");
    reveal_strlit(" deletion");
    let t = totals(rows);
    let s = summary_text(rows);
    let n = rows.len();
    let ins = seq!['c', 'h', 'a', 'n', 'g', 'e', 'd', ',', ' '] + decimal(t.0) + seq![
        ' ', 'i', 'n', 's', 'e', 'r', 't', 'i', 'o', 'n',
    ];
    let del = seq!['(', '+', ')', ',', ' '] + decimal(t.1) + seq![
        ' ', 'd', 'e', 'l', 'e', 't', 'i', 'o', 'n',
    ];
    let a = rows_text(rows, path_width(rows)) + " "@;
    let b = a + decimal(n) + " file"@ + plural(n) + seq![' '];
    let c = b + ins + plural(t.0);
    assert(" changed, "@ =~= seq![' ', 'c', 'h', 'a', 'n', 'g', 'e', 'd', ',', ' ']);
    assert(" insertion"@ =~= seq![' ', 'i', 'n', 's', 'e', 'r', 't', 'i', 'o', 'n']);
    assert("(+), "@ =~= seq!['(', '+', ')', ',', ' ']);
    assert(" deletion"@ =~= seq![' ', 'd', 'e', 'l', 'e', 't', 'i', 'o', 'n']);
    let end = plural(t.1) + "(-)\n"@;
    let counted = a + decimal(n) + " file"@ + plural(n);
    let inserted = counted + " changed, "@ + decimal(t.0) + " insertion"@;
    let deleted = inserted + plural(t.0) + "(+), "@ + decimal(t.1) + " deletion"@;
    assert(inserted =~= b + ins);
    assert(deleted =~= c + del) by {
        assert(deleted =~= inserted + plural(t.0) + del);
    }
    assert(s =~= deleted + end) by {
        assert(s == deleted + plural(t.1) + "(-)\n"@);
    }
    lemma_inside(c, del, end);
    let behind = plural(t.0) + del + end;
    assert(s =~= b + ins + behind);
    lemma_inside(b, ins, behind);
    let rest = " file"@ + plural(n) + seq![' '] + ins + behind;
    assert(b + ins + behind =~= a + decimal(n) + rest);
    lemma_inside(a, decimal(n), rest);
}

proof fn lemma_inside(a: Seq<char>, b: Seq<char>, c: Seq<char>)
    ensures
        has_infix(a + b + c, b),
{
    let s = a + b + c;
    let i = a.len() as int;
    assert(s.subrange(i, i + b.len()) =~= b);
}

} // verus!
