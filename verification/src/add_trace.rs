//! What is said while files are added.
use vstd::prelude::*;
use vstd::string::*;

use crate::add_command::{seen, FileSeen, WorkFile};
use crate::add_select::{file_for, find_named, follow, followed, has_file, named, Named};
use crate::helix_index::api::{paths_where, HelixIndexData};
use crate::helix_index::flag_text::{flags_text, text_of_flags};
use crate::helix_index::format::{Entry, EntryFlags, EntryView};
use crate::text::{
    concat, concat3, decimal, decimal_of, join, join_spec, push_line, str_eq, texts,
};

verus! {

/// A truth value in words.
pub open spec fn truth(b: bool) -> Seq<char> {
    if b {
        "true"@
    } else {
        "false"@
    }
}

fn truth_of(b: bool) -> (r: &'static str)
    ensures
        r@ == truth(b),
{
    if b {
        "true"
    } else {
        "false"
    }
}

/// Appends lines to lines.
pub fn push_lines(out: &mut Vec<String>, mut more: Vec<String>)
    ensures
        texts(final(out)@) == texts(old(out)@) + texts(more@),
{
    let ghost a = out@;
    let ghost b = more@;
    out.append(&mut more);
    assert(texts(out@) =~= texts(a) + texts(b));
}

/// When the file with this path was modified, or 0 where that is not known.
pub open spec fn disk_time(wt: Seq<FileSeen>, path: Seq<char>) -> u64 {
    let fs = followed(wt, seq![path]);
    if has_file(fs, path) {
        match file_for(fs, path).mtime {
            Some(t) => t,
            None => 0,
        }
    } else {
        0
    }
}

proof fn lemma_file_for_in_front(a: Seq<FileSeen>, b: Seq<FileSeen>, path: Seq<char>, i: int)
    requires
        0 <= i < a.len(),
        a[i].path == path,
        forall|j: int| 0 <= j < i ==> (#[trigger] a[j]).path != path,
    ensures
        has_file(a + b, path),
        file_for(a + b, path) == a[i],
{
    let s = a + b;
    assert(s[i] == a[i]);
    assert forall|j: int| 0 <= j < i implies (#[trigger] s[j]).path != path by {
        assert(s[j] == a[j]);
    }
    crate::add_select::lemma_file_for(s, path, i);
}

/// When the file with this path was modified, or 0 where that is not known.
fn time_on_disk(wt: &Vec<WorkFile>, path: &String) -> (r: u64)
    ensures
        r == disk_time(seen(wt@), path@),
{
    let ghost fs = seen(wt@);
    let mut i: usize = 0;
    while i < wt.len()
        invariant
            i <= wt.len(),
            fs == seen(wt@),
            forall|j: int| 0 <= j < i ==> (#[trigger] fs[j]).path != path@,
        decreases wt.len() - i,
    {
        assert(fs[i as int] == wt@[i as int]@);
        if str_eq(wt[i].path.as_str(), path.as_str()) {
            proof {
                lemma_file_for_in_front(
                    fs,
                    crate::add_select::all_ways(fs, seq![path@]),
                    path@,
                    i as int,
                );
            }
            return match wt[i].mtime {
                Some(t) => t,
                None => 0,
            };
        }
        i += 1;
    }
    let mut one: Vec<String> = Vec::new();
    one.push(path.clone());
    assert(texts(one@) =~= seq![path@]);
    let v = follow(wt, &one);
    match find_named(Ghost(wt@), &v, path.as_str()) {
        Some(k) => {
            assert(named(wt@, v@)[k as int].path == path@);
            match wt[v[k].at].mtime {
                Some(t) => t,
                None => 0,
            }
        },
        None => 0,
    }
}

/// The line on an entry and its file.
pub open spec fn entry_line(e: EntryView, wt: Seq<FileSeen>) -> Seq<char> {
    let t = disk_time(wt, e.path);
    "  "@ + e.path + " | index_mtime="@ + decimal(e.mtime_sec as nat) + " | disk_mtime="@ + decimal(
        t as nat,
    ) + " | modified="@ + truth(t != e.mtime_sec)
}

/// The lines on the entries of the index.
pub open spec fn index_lines(es: Seq<EntryView>, wt: Seq<FileSeen>) -> Seq<Seq<char>> {
    seq!["DEBUG: Index has "@ + decimal(es.len()) + " entries"@] + Seq::new(
        es.len(),
        |i: int| entry_line(es[i], wt),
    )
}

/// The line on the generation of the index.
pub open spec fn loaded_line(generation: nat) -> Seq<char> {
    "Loaded index (generation "@ + decimal(generation) + ")"@
}

/// What is said once the index is there.
pub open spec fn opening_lines(
    generation: nat,
    es: Seq<EntryView>,
    wt: Seq<FileSeen>,
    verbose: bool,
) -> Seq<Seq<char>> {
    if verbose {
        seq![loaded_line(generation)] + index_lines(es, wt) + seq![loaded_line(generation)]
    } else {
        index_lines(es, wt)
    }
}

fn line_of_entry(e: &Entry, wt: &Vec<WorkFile>) -> (r: String)
    ensures
        r@ == entry_line(e@, seen(wt@)),
{
    let t: u64 = time_on_disk(wt, &e.path);
    let mut r: String = concat("  ", e.path.as_str());
    r.append(" | index_mtime=");
    r.append(decimal_of(e.mtime_sec).as_str());
    r.append(" | disk_mtime=");
    r.append(decimal_of(t).as_str());
    r.append(" | modified=");
    r.append(truth_of(t != e.mtime_sec));
    r
}

/// What is said once the index is there.
pub(crate) fn say_opening(index: &HelixIndexData, wt: &Vec<WorkFile>, verbose: bool) -> (r: Vec<
    String,
>)
    ensures
        texts(r@) == opening_lines(
            index.data.header.generation as nat,
            index.es(),
            seen(wt@),
            verbose,
        ),
{
    let ghost es = index.es();
    let ghost fs = seen(wt@);
    let ghost g = index.data.header.generation as nat;
    let number = decimal_of(index.generation());
    let mut r: Vec<String> = Vec::new();
    if verbose {
        push_line(&mut r, concat3("Loaded index (generation ", number.as_str(), ")"));
    }
    let count = decimal_of(index.data.entries.len() as u64);
    let ghost start = texts(r@);
    push_line(&mut r, concat3("DEBUG: Index has ", count.as_str(), " entries"));
    let ghost head = texts(r@);
    let ghost all = Seq::new(es.len(), |i: int| entry_line(es[i], fs));
    let mut i: usize = 0;
    assert(texts(r@) =~= head + all.subrange(0, 0));
    while i < index.data.entries.len()
        invariant
            i <= index.data.entries.len(),
            es == index.es(),
            fs == seen(wt@),
            all == Seq::new(es.len(), |i: int| entry_line(es[i], fs)),
            texts(r@) == head + all.subrange(0, i as int),
        decreases index.data.entries.len() - i,
    {
        let ghost before = texts(r@);
        push_line(&mut r, line_of_entry(&index.data.entries[i], wt));
        proof {
            assert(es[i as int] == index.data.entries@[i as int]@);
            assert(texts(r@) =~= before.push(all[i as int]));
            assert(texts(r@) =~= head + all.subrange(0, i + 1));
        }
        i += 1;
    }
    assert(all.subrange(0, i as int) =~= all);
    if verbose {
        push_line(&mut r, concat3("Loaded index (generation ", number.as_str(), ")"));
        assert(texts(r@) =~= seq![loaded_line(g)] + index_lines(es, fs) + seq![loaded_line(g)]);
    } else {
        assert(texts(r@) =~= index_lines(es, fs));
    }
    r
}

/// How many paths have this flag.
pub open spec fn path_count(es: Seq<EntryView>, flag: u32) -> nat {
    paths_where(es, |f: EntryFlags| f.has(flag)).len()
}

/// What is said of the files that the paths mean.
pub open spec fn candidate_lines(
    es: Seq<EntryView>,
    cs: Seq<Seq<char>>,
    verbose: bool,
) -> Seq<Seq<char>> {
    let listed = seq!["DEBUG: expand_paths found "@ + decimal(cs.len()) + " candidates:"@] + Seq::new(
        cs.len(),
        |i: int| "  candidate: "@ + cs[i],
    );
    if verbose {
        seq![
            "Currently tracked: "@ + decimal(path_count(es, EntryFlags::TRACKED)),
            "Currently staged: "@ + decimal(path_count(es, EntryFlags::STAGED)),
        ] + listed + seq!["Found "@ + decimal(cs.len()) + " candidate files"@]
    } else {
        listed
    }
}

/// Adds one line for each text, between `prefix` and `suffix`.
pub(crate) fn push_each(lines: &mut Vec<String>, prefix: &str, v: &Vec<String>, suffix: &str)
    ensures
        texts(final(lines)@) == texts(old(lines)@) + Seq::new(
            v@.len(),
            |i: int| prefix@ + texts(v@)[i] + suffix@,
        ),
{
    let ghost start = texts(lines@);
    let ghost all = Seq::new(v@.len(), |i: int| prefix@ + texts(v@)[i] + suffix@);
    let mut i: usize = 0;
    assert(texts(lines@) =~= start + all.subrange(0, 0));
    while i < v.len()
        invariant
            i <= v.len(),
            all == Seq::new(v@.len(), |i: int| prefix@ + texts(v@)[i] + suffix@),
            texts(lines@) == start + all.subrange(0, i as int),
        decreases v.len() - i,
    {
        let ghost before = texts(lines@);
        push_line(lines, concat3(prefix, v[i].as_str(), suffix));
        proof {
            assert(texts(lines@) =~= before.push(all[i as int]));
            assert(texts(lines@) =~= start + all.subrange(0, i + 1));
        }
        i += 1;
    }
    assert(all.subrange(0, i as int) =~= all);
}

/// What is said of the files that the paths mean.
pub(crate) fn say_candidates(index: &HelixIndexData, cs: &Vec<String>, verbose: bool) -> (r: Vec<
    String,
>)
    ensures
        texts(r@) == candidate_lines(index.es(), texts(cs@), verbose),
{
    let mut r: Vec<String> = Vec::new();
    assert(texts(r@) =~= Seq::empty());
    if verbose {
        let known = index.get_tracked();
        let staged = index.get_staged();
        proof {
            assert(texts(known@).len() == path_count(index.es(), EntryFlags::TRACKED));
            assert(texts(staged@).len() == path_count(index.es(), EntryFlags::STAGED));
        }
        push_line(&mut r, concat("Currently tracked: ", decimal_of(known.len() as u64).as_str()));
        push_line(&mut r, concat("Currently staged: ", decimal_of(staged.len() as u64).as_str()));
    }
    let ghost start = texts(r@);
    let n = decimal_of(cs.len() as u64);
    push_line(&mut r, concat3("DEBUG: expand_paths found ", n.as_str(), " candidates:"));
    push_each(&mut r, "  candidate: ", cs, "");
    if verbose {
        push_line(&mut r, concat3("Found ", n.as_str(), " candidate files"));
    }
    proof {
        let t = texts(cs@);
        reveal_strlit("");
        let a = Seq::new(cs@.len(), |i: int| "  candidate: "@ + t[i] + ""@);
        let b = Seq::new(t.len(), |i: int| "  candidate: "@ + t[i]);
        assert forall|i: int| 0 <= i < b.len() implies a[i] == b[i] by {
            assert("  candidate: "@ + t[i] + ""@ =~= "  candidate: "@ + t[i]);
        }
        assert(a =~= b);
        assert(texts(r@) =~= candidate_lines(index.es(), t, verbose));
    }
    r
}

/// What is said of a tracked file while it is decided whether it needs adding: the time
/// of its entry and its own, whether it is staged, and why it is added or not.
pub open spec fn compared_lines(
    e: EntryView,
    staged: bool,
    t: u64,
    stored: bool,
    same: bool,
) -> Seq<Seq<char>> {
    let differs = t != e.mtime_sec;
    let first = seq![
        "  entry.mtime="@ + decimal(e.mtime_sec as nat) + ", current_mtime="@ + decimal(t as nat),
        "  staged.contains="@ + truth(staged),
    ];
    if staged {
        first.push(
            if differs {
                "  -> staged but modified, re-staging"@
            } else if !stored {
                "  -> blob missing, re-staging"@
            } else if !same {
                "  -> staged but contents differ, re-staging"@
            } else {
                "  -> staged and unchanged, skipping"@
            },
        )
    } else {
        first.push(
            "  checking mtime: "@ + decimal(t as nat) + " != "@ + decimal(e.mtime_sec as nat)
                + " = "@ + truth(differs),
        ).push(
            if differs {
                "  -> modified (mtime differs), adding"@
            } else if !stored {
                "  -> blob missing, adding"@
            } else if !same {
                "  -> modified (contents differ), adding"@
            } else {
                "  -> unchanged, skipping"@
            },
        )
    }
}

/// What is said of a tracked file while it is decided whether it needs adding.
pub(crate) fn say_compared(e: &Entry, staged: bool, t: u64, stored: bool, same: bool) -> (r: Vec<
    String,
>)
    ensures
        texts(r@) == compared_lines(e@, staged, t, stored, same),
{
    let old_time = decimal_of(e.mtime_sec);
    let new_time = decimal_of(t);
    let differs: bool = t != e.mtime_sec;
    let mut r: Vec<String> = Vec::new();
    let mut line: String = concat("  entry.mtime=", old_time.as_str());
    line.append(", current_mtime=");
    line.append(new_time.as_str());
    push_line(&mut r, line);
    push_line(&mut r, concat("  staged.contains=", truth_of(staged)));
    if staged {
        let why: &'static str = if differs {
            "  -> staged but modified, re-staging"
        } else if !stored {
            "  -> blob missing, re-staging"
        } else if !same {
            "  -> staged but contents differ, re-staging"
        } else {
            "  -> staged and unchanged, skipping"
        };
        push_line(&mut r, why.to_owned());
    } else {
        let mut line: String = concat3("  checking mtime: ", new_time.as_str(), " != ");
        line.append(old_time.as_str());
        line.append(" = ");
        line.append(truth_of(differs));
        push_line(&mut r, line);
        let why: &'static str = if differs {
            "  -> modified (mtime differs), adding"
        } else if !stored {
            "  -> blob missing, adding"
        } else if !same {
            "  -> modified (contents differ), adding"
        } else {
            "  -> unchanged, skipping"
        };
        push_line(&mut r, why.to_owned());
    }
    assert(texts(r@) =~= compared_lines(e@, staged, t, stored, same));
    r
}

/// A path as `std::path::Path` shows it for debugging.
pub uninterp spec fn quoted_path(path: Seq<char>) -> Seq<char>;

/// Wraps the `Debug` form of `std::path::Path`: a path in quotes, with escapes. What it
/// writes depends on the path alone.
#[verifier::external_body]
fn quote_path(path: &str) -> (r: String)
    ensures
        r@ == quoted_path(path@),
{
    format!("{:?}", std::path::Path::new(path))
}

/// The line on the files that need adding.
pub open spec fn files_line(fs: Seq<FileSeen>) -> Seq<char> {
    "DEBUG: files_to_add = ["@ + join_spec(
        Seq::new(fs.len(), |i: int| quoted_path(fs[i].path)),
        ", "@,
    ) + "]"@
}

/// The line on the files that need adding.
pub(crate) fn say_files(Ghost(wt): Ghost<Seq<WorkFile>>, v: &Vec<Named>) -> (r: String)
    ensures
        r@ == files_line(named(wt, v@)),
{
    let ghost fs = named(wt, v@);
    let ghost all = Seq::new(fs.len(), |i: int| quoted_path(fs[i].path));
    let mut parts: Vec<String> = Vec::new();
    let mut i: usize = 0;
    assert(texts(parts@) =~= all.subrange(0, 0));
    while i < v.len()
        invariant
            i <= v.len(),
            fs == named(wt, v@),
            all == Seq::new(fs.len(), |i: int| quoted_path(fs[i].path)),
            texts(parts@) == all.subrange(0, i as int),
        decreases v.len() - i,
    {
        let ghost before = texts(parts@);
        push_line(&mut parts, quote_path(v[i].path.as_str()));
        proof {
            assert(fs[i as int].path == v@[i as int].path@);
            assert(texts(parts@) =~= before.push(all[i as int]));
            assert(texts(parts@) =~= all.subrange(0, i + 1));
        }
        i += 1;
    }
    assert(all.subrange(0, i as int) =~= all);
    let inner = join(parts.as_slice(), ", ");
    concat3("DEBUG: files_to_add = [", inner.as_str(), "]")
}

/// What is said if there is nothing to add.
pub open spec fn nothing_to_add(staged: nat, verbose: bool) -> Seq<char> {
    if staged > 0 {
        if verbose {
            "No new files to add ("@ + decimal(staged) + " files already staged)"@
        } else {
            "No new files to add ("@ + decimal(staged) + " already staged, ready to commit)"@
        }
    } else if verbose {
        "No files to add (everything up-to-date)"@
    } else {
        "No files to add"@
    }
}

/// The lines that end an addition of nothing.
pub open spec fn nothing_lines(es: Seq<EntryView>, verbose: bool) -> Seq<Seq<char>> {
    let n = path_count(es, EntryFlags::STAGED);
    seq!["staged count "@ + decimal(n), nothing_to_add(n, verbose)]
}

/// The lines that end an addition of nothing.
pub(crate) fn say_nothing(index: &HelixIndexData, verbose: bool) -> (r: Vec<String>)
    ensures
        texts(r@) == nothing_lines(index.es(), verbose),
{
    let staged = index.get_staged();
    assert(texts(staged@).len() == path_count(index.es(), EntryFlags::STAGED));
    let n = decimal_of(staged.len() as u64);
    let mut r: Vec<String> = Vec::new();
    push_line(&mut r, concat("staged count ", n.as_str()));
    let last: String = if staged.len() > 0 {
        let end: &'static str = if verbose {
            " files already staged)"
        } else {
            " already staged, ready to commit)"
        };
        concat3("No new files to add (", n.as_str(), end)
    } else if verbose {
        "No files to add (everything up-to-date)".to_owned()
    } else {
        "No files to add".to_owned()
    };
    push_line(&mut r, last);
    assert(texts(r@) =~= nothing_lines(index.es(), verbose));
    r
}

/// One line for each staged entry.
pub open spec fn staged_list(es: Seq<EntryView>) -> Seq<Seq<char>>
    decreases es.len(),
{
    if es.len() == 0 {
        Seq::empty()
    } else {
        let before = staged_list(es.drop_last());
        if es.last().flags.has(EntryFlags::STAGED) {
            before.push("  STAGED: "@ + es.last().path)
        } else {
            before
        }
    }
}

/// What is said when a file is entered into the index with these entries.
pub open spec fn entering_lines(
    es: Seq<EntryView>,
    path: Seq<char>,
    flags: EntryFlags,
    known: bool,
) -> Seq<Seq<char>> {
    seq![
        "DEBUG: creating entry for "@ + path + " with flags "@ + flags_text(flags),
        "DEBUG stage_files: index now has "@ + decimal(es.len()) + " entries"@,
    ] + staged_list(es) + seq![
        if known {
            "DEBUG: updating existing entry for "@ + path
        } else {
            "DEBUG: inserting new entry for "@ + path
        },
    ]
}

/// What is said when a file is entered into the index.
pub(crate) fn say_entering(
    index: &HelixIndexData,
    path: &str,
    flags: EntryFlags,
    known: bool,
    lines: &mut Vec<String>,
)
    ensures
        texts(final(lines)@) == texts(old(lines)@) + entering_lines(
            index.es(),
            path@,
            flags,
            known,
        ),
{
    let ghost start = texts(lines@);
    let ghost es = index.es();
    let mut line: String = concat3("DEBUG: creating entry for ", path, " with flags ");
    line.append(text_of_flags(flags).as_str());
    push_line(lines, line);
    let n = decimal_of(index.data.entries.len() as u64);
    push_line(lines, concat3("DEBUG stage_files: index now has ", n.as_str(), " entries"));
    let ghost head = texts(lines@);
    let mut i: usize = 0;
    assert(head + staged_list(es.subrange(0, 0)) =~= head);
    while i < index.data.entries.len()
        invariant
            i <= index.data.entries.len(),
            es == index.es(),
            texts(lines@) == head + staged_list(es.subrange(0, i as int)),
        decreases index.data.entries.len() - i,
    {
        let ghost before = texts(lines@);
        let e = &index.data.entries[i];
        proof {
            let t = es.subrange(0, i + 1);
            assert(t.drop_last() =~= es.subrange(0, i as int));
            assert(t.last() == e@);
        }
        if e.flags.contains(EntryFlags::STAGED) {
            push_line(lines, concat("  STAGED: ", e.path.as_str()));
            assert(texts(lines@) =~= head + staged_list(es.subrange(0, i + 1)));
        }
        i += 1;
    }
    assert(es.subrange(0, i as int) =~= es);
    let last: String = if known {
        concat("DEBUG: updating existing entry for ", path)
    } else {
        concat("DEBUG: inserting new entry for ", path)
    };
    push_line(lines, last);
    assert(texts(lines@) =~= start + entering_lines(es, path@, flags, known));
}

/// The lines on the index after files were entered.
pub open spec fn entered_lines(es: Seq<EntryView>) -> Seq<Seq<char>> {
    seq!["DEBUG stage_files: index now has "@ + decimal(es.len()) + " entries"@] + Seq::new(
        es.len(),
        |i: int|
            "  "@ + es[i].path + " -> flags: "@ + flags_text(es[i].flags) + ", STAGED="@ + truth(
                es[i].flags.has(EntryFlags::STAGED),
            ),
    )
}

/// The lines on the index after files were entered.
pub(crate) fn say_entered(index: &HelixIndexData, lines: &mut Vec<String>)
    ensures
        texts(final(lines)@) == texts(old(lines)@) + entered_lines(index.es()),
{
    let ghost start = texts(lines@);
    let ghost es = index.es();
    let n = decimal_of(index.data.entries.len() as u64);
    push_line(lines, concat3("DEBUG stage_files: index now has ", n.as_str(), " entries"));
    let ghost all = entered_lines(es);
    let mut i: usize = 0;
    assert(texts(lines@) =~= start + all.subrange(0, 1));
    while i < index.data.entries.len()
        invariant
            i <= index.data.entries.len(),
            es == index.es(),
            all == entered_lines(es),
            texts(lines@) == start + all.subrange(0, i + 1),
        decreases index.data.entries.len() - i,
    {
        let ghost before = texts(lines@);
        let e = &index.data.entries[i];
        assert(es[i as int] == e@);
        let mut line: String = concat3("  ", e.path.as_str(), " -> flags: ");
        line.append(text_of_flags(e.flags).as_str());
        line.append(", STAGED=");
        line.append(truth_of(e.flags.contains(EntryFlags::STAGED)));
        assert(line@ == all[i + 1]);
        push_line(lines, line);
        proof {
            assert(texts(lines@) =~= before.push(all[i + 1]));
            assert(texts(lines@) =~= start + all.subrange(0, i + 2));
        }
        i += 1;
    }
    assert(all.subrange(0, i + 1) =~= all);
}

/// What is said before files are staged.
pub open spec fn staging_lines(fs: Seq<FileSeen>, verbose: bool) -> Seq<Seq<char>> {
    if verbose {
        seq!["Staging "@ + decimal(fs.len()) + " files..."@] + Seq::new(
            fs.len(),
            |i: int| "  add '"@ + fs[i].path + "'"@,
        )
    } else {
        Seq::empty()
    }
}

/// What a dry run says.
pub open spec fn would_add_lines(fs: Seq<FileSeen>) -> Seq<Seq<char>> {
    Seq::new(fs.len(), |i: int| "Would add: "@ + fs[i].path)
}

/// What is said while files are read, written and about to be entered.
pub open spec fn reading_lines(n: nat, verbose: bool) -> Seq<Seq<char>> {
    if verbose {
        seq![
            "Reading and hashing "@ + decimal(n) + " files..."@,
            "Writing blobs to storage..."@,
            "Updating index entries..."@,
        ]
    } else {
        Seq::empty()
    }
}

/// What is said after `n` files were staged and the index file was made.
pub open spec fn staged_lines(
    n: nat,
    generation: nat,
    index_path: Seq<char>,
    verbose: bool,
) -> Seq<Seq<char>> {
    let first = seq!["DEBUG: persisted index to "@ + index_path];
    if verbose {
        first + seq![
            "Staged "@ + decimal(n) + " files"@,
            "Index generation: "@ + decimal(generation),
        ]
    } else {
        first
    }
}

/// Adds one line for each file, between `prefix` and `suffix`.
fn push_named(
    lines: &mut Vec<String>,
    prefix: &str,
    Ghost(wt): Ghost<Seq<WorkFile>>,
    v: &Vec<Named>,
    suffix: &str,
)
    ensures
        texts(final(lines)@) == texts(old(lines)@) + Seq::new(
            v@.len(),
            |i: int| prefix@ + named(wt, v@)[i].path + suffix@,
        ),
{
    let ghost start = texts(lines@);
    let ghost all = Seq::new(v@.len(), |i: int| prefix@ + named(wt, v@)[i].path + suffix@);
    let mut i: usize = 0;
    assert(texts(lines@) =~= start + all.subrange(0, 0));
    while i < v.len()
        invariant
            i <= v.len(),
            all == Seq::new(v@.len(), |i: int| prefix@ + named(wt, v@)[i].path + suffix@),
            texts(lines@) == start + all.subrange(0, i as int),
        decreases v.len() - i,
    {
        let ghost before = texts(lines@);
        assert(named(wt, v@)[i as int].path == v@[i as int].path@);
        push_line(lines, concat3(prefix, v[i].path.as_str(), suffix));
        proof {
            assert(texts(lines@) =~= before.push(all[i as int]));
            assert(texts(lines@) =~= start + all.subrange(0, i + 1));
        }
        i += 1;
    }
    assert(all.subrange(0, i as int) =~= all);
}

/// What is said before files are staged.
pub(crate) fn say_staging(
    Ghost(wt): Ghost<Seq<WorkFile>>,
    v: &Vec<Named>,
    verbose: bool,
    lines: &mut Vec<String>,
)
    ensures
        texts(final(lines)@) == texts(old(lines)@) + staging_lines(named(wt, v@), verbose),
{
    let ghost start = texts(lines@);
    if verbose {
        let n = decimal_of(v.len() as u64);
        push_line(lines, concat3("Staging ", n.as_str(), " files..."));
        push_named(lines, "  add '", Ghost(wt), v, "'");
    }
    assert(texts(lines@) =~= start + staging_lines(named(wt, v@), verbose));
}

/// What a dry run says.
pub(crate) fn say_would_add(
    Ghost(wt): Ghost<Seq<WorkFile>>,
    v: &Vec<Named>,
    lines: &mut Vec<String>,
)
    ensures
        texts(final(lines)@) == texts(old(lines)@) + would_add_lines(named(wt, v@)),
{
    let ghost start = texts(lines@);
    push_named(lines, "Would add: ", Ghost(wt), v, "");
    proof {
        reveal_strlit("");
        let fs = named(wt, v@);
        let a = Seq::new(v@.len(), |i: int| "Would add: "@ + fs[i].path + ""@);
        assert forall|i: int| 0 <= i < a.len() implies a[i] == would_add_lines(fs)[i] by {
            assert("Would add: "@ + fs[i].path + ""@ =~= "Would add: "@ + fs[i].path);
        }
        assert(a =~= would_add_lines(fs));
    }
}

/// What is said while files are read, written and about to be entered.
pub(crate) fn say_reading(n: usize, verbose: bool, lines: &mut Vec<String>)
    ensures
        texts(final(lines)@) == texts(old(lines)@) + reading_lines(n as nat, verbose),
{
    let ghost start = texts(lines@);
    if verbose {
        let n = decimal_of(n as u64);
        push_line(lines, concat3("Reading and hashing ", n.as_str(), " files..."));
        push_line(lines, "Writing blobs to storage...".to_owned());
        push_line(lines, "Updating index entries...".to_owned());
    }
    assert(texts(lines@) =~= start + reading_lines(n as nat, verbose));
}

/// What is said after `n` files were staged and the index file was made.
pub(crate) fn say_staged(
    n: usize,
    generation: u64,
    index_path: &str,
    verbose: bool,
    lines: &mut Vec<String>,
)
    ensures
        texts(final(lines)@) == texts(old(lines)@) + staged_lines(
            n as nat,
            generation as nat,
            index_path@,
            verbose,
        ),
{
    let ghost start = texts(lines@);
    push_line(lines, concat("DEBUG: persisted index to ", index_path));
    if verbose {
        let n = decimal_of(n as u64);
        push_line(lines, concat3("Staged ", n.as_str(), " files"));
        push_line(lines, concat("Index generation: ", decimal_of(generation).as_str()));
    }
    assert(texts(lines@) =~= start + staged_lines(
        n as nat,
        generation as nat,
        index_path@,
        verbose,
    ));
}

} // verus!
