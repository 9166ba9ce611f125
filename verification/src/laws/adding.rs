//! What adding files enters in the index and in the store.
use vstd::prelude::*;
use vstd::string::*;

use crate::add_command::{
    files_to_stage_are_selected, is_added, lemma_all_timed, lemma_contents_put, lemma_timed_most,
    staged_entry, staged_files_are_entered, staged_into, upsert, AddError, AddRequest, FileSeen,
};
use crate::add_select::{
    dir_holds, expanded_paths_are_selected, file_for, has_dir, has_file, lemma_file_for,
    plain_paths_add_no_names, selected, selects,
};
use crate::hash::blake3_digest;
use crate::helix_index::api::HelixIndexData;
use crate::helix_index::format::{entry_views, EntryView, MAGIC, VERSION};
use crate::helix_index::reader::{
    first_entry, index_reads, index_round_trip, is_index_file, lemma_first_entry, HelixIndex,
};
use crate::ignore::{any_matches, pattern_of};
use crate::object_store::{ObjectType, Objects};
use crate::path::{
    has_path, is_regular, lemma_regular_components, path_names, regular_paths_are_plain,
    regular_paths_are_texts, regular_paths_lie_under, same_path,
};
use crate::text::{has_prefix, split_spec};

verus! {

/// Whether a name is one that a repository keeps for itself.
pub open spec fn is_own_name(name: Seq<char>) -> bool {
    name == seq!['.', 'g', 'i', 't'] || name == seq!['.', 'h', 'e', 'l', 'i', 'x']
}

/// Whether `p` has a file below it.
pub open spec fn has_below(wt: Seq<FileSeen>, p: Seq<char>) -> bool {
    exists|i: int| 0 <= i < wt.len() && has_prefix((#[trigger] wt[i]).path, p.push('/'))
}

/// Whether the path `p` asks for the file at `f`: it is the file; or it is a directory, the
/// file lies below it, and no name from that of the directory on is a repository's own; or it
/// is the whole working tree, by a dot, and no name is; or it is neither a file nor a
/// directory, and matches as a pattern.
pub open spec fn asks_for(wt: Seq<FileSeen>, p: Seq<char>, f: Seq<char>) -> bool {
    let names = split_spec(f, '/');
    if p == seq!['.'] {
        forall|i: int| 0 <= i < names.len() ==> !is_own_name(#[trigger] names[i])
    } else if has_file(wt, p) {
        f == p
    } else if has_below(wt, p) {
        &&& has_prefix(f, p.push('/'))
        &&& forall|i: int|
            split_spec(p, '/').len() - 1 <= i < names.len() ==> !is_own_name(#[trigger] names[i])
    } else {
        &&& any_matches(pattern_of(p), f)
        &&& forall|i: int| 0 <= i < names.len() ==> !is_own_name(#[trigger] names[i])
    }
}

/// Whether a file is to be entered: some path asks for it; it is not ignored, or adding is
/// forced; and it is forced, or not tracked, or its time or its contents are not those of its
/// entry, or these are not in the store.
pub open spec fn is_due(q: AddRequest, es: Seq<EntryView>, m: Objects, f: FileSeen) -> bool {
    &&& exists|j: int| 0 <= j < q.paths.len() && asks_for(q.wt, #[trigger] q.paths[j], f.path)
    &&& q.options.force || !any_matches(q.globs, f.path)
    &&& q.options.force || forall|k: int|
        0 <= k < es.len() && (#[trigger] es[k]).path == f.path ==> es[k].flags.bits & 1 != 1 || (
        f.mtime is Some && !(f.mtime->Some_0 == es[k].mtime_sec && blake3_digest(f.content)
            == es[k].oid && m.contains_key((ObjectType::Blob, es[k].oid@))))
}

/// Whether the entry `e` is that of the staged file `f`.
pub open spec fn is_entry_of(e: EntryView, f: FileSeen) -> bool {
    &&& e.path == f.path
    &&& e.oid == blake3_digest(f.content)
    &&& e.size == f.content.len() as u64
    &&& f.mtime == Some(e.mtime_sec)
    &&& e.flags.bits == 3
    &&& e.merge_conflict_stage == 0
    &&& e.file_mode == (if f.permissions & 0o111 == 0 {
        0o100644u32
    } else {
        0o100755u32
    })
}

/// Whether paths of files are plain, and each occurs once.
pub open spec fn are_plain(wt: Seq<FileSeen>) -> bool {
    &&& forall|i: int| 0 <= i < wt.len() ==> is_regular((#[trigger] wt[i]).path)
    &&& forall|i: int, j: int|
        0 <= i < j < wt.len() ==> (#[trigger] wt[i]).path != (#[trigger] wt[j]).path
}

/// Whether paths of entries are plain, and each occurs once.
pub open spec fn are_plain_entries(es: Seq<EntryView>) -> bool {
    &&& forall|i: int| 0 <= i < es.len() ==> is_regular((#[trigger] es[i]).path)
    &&& forall|i: int, j: int|
        0 <= i < j < es.len() ==> (#[trigger] es[i]).path != (#[trigger] es[j]).path
}

proof fn lemma_own_names()
    ensures
        ".git"@ == seq!['.', 'g', 'i', 't'],
        ".helix"@ == seq!['.', 'h', 'e', 'l', 'i', 'x'],
        "."@ == seq!['.'],
{
    reveal_strlit(".git");
    reveal_strlit(".helix");
    reveal_strlit(".");
    assert(".git"@ =~= seq!['.', 'g', 'i', 't']);
    assert(".helix"@ =~= seq!['.', 'h', 'e', 'l', 'i', 'x']);
    assert("."@ =~= seq!['.']);
}

proof fn lemma_dot()
    ensures
        path_names(seq!['.']) == Seq::<Seq<char>>::empty(),
        crate::path::plain_path(seq!['.']) == Seq::<char>::empty(),
{
    lemma_own_names();
    crate::text::lemma_first_at(seq!['.'], '/');
    let parts = split_spec(seq!['.'], '/');
    assert(parts =~= seq![seq!['.']]);
    assert(parts.drop_last() =~= Seq::<Seq<char>>::empty());
    assert(parts.last() == "."@);
    assert(crate::path::names_of(parts.drop_last()) =~= Seq::<Seq<char>>::empty());
}

/// A directory holds a file by its names where the path of the file starts with its own.
proof fn lemma_holds(p: Seq<char>, f: Seq<char>)
    requires
        is_regular(p),
        is_regular(f),
    ensures
        dir_holds(p, f) <==> f == p || has_prefix(f, p.push('/')),
{
    regular_paths_lie_under(f, p);
    regular_paths_are_plain(p);
    regular_paths_are_plain(f);
    lemma_regular_components(p);
    lemma_regular_components(f);
}

proof fn lemma_asks_for(wt: Seq<FileSeen>, p: Seq<char>, f: Seq<char>)
    requires
        are_plain(wt),
        is_regular(p) || p == seq!['.'],
        has_file(wt, f),
    ensures
        selects(wt, p, f) <==> asks_for(wt, p, f),
{
    lemma_own_names();
    let n = choose|i: int| 0 <= i < wt.len() && (#[trigger] wt[i]).path == f;
    assert(is_regular(wt[n].path));
    regular_paths_are_plain(f);
    let names = split_spec(f, '/');
    if p == seq!['.'] {
        lemma_dot();
        assert(!has_file(wt, Seq::<char>::empty())) by {
            if has_file(wt, Seq::<char>::empty()) {
                let i = choose|i: int|
                    0 <= i < wt.len() && (#[trigger] wt[i]).path == Seq::<char>::empty();
                crate::text::lemma_first_at(Seq::<char>::empty(), '/');
                assert(!crate::path::is_name(split_spec(wt[i].path, '/')[0]));
            }
        }
        assert(dir_holds(p, wt[n].path));
        assert(has_dir(wt, p));
    } else {
        regular_paths_are_plain(p);
        assert(p != seq!['.']);
        crate::text::lemma_first_at(p, '/');
        let parts = split_spec(p, '/');
        assert(parts.len() > 0);
        assert(crate::path::is_name(parts[0]) && crate::path::is_name(parts[parts.len() - 1]));
        if p.len() > 0 && p[0] == '/' {
            assert(crate::text::first_at(p, '/') == 0);
            assert(parts[0] =~= Seq::empty());
        }
        assert forall|i: int| 0 <= i < wt.len() && wt[i].path != p implies (dir_holds(
            p,
            (#[trigger] wt[i]).path,
        ) <==> has_prefix(wt[i].path, p.push('/'))) by {
            lemma_holds(p, wt[i].path);
        }
        if !has_file(wt, p) {
            assert forall|i: int| 0 <= i < wt.len() implies (#[trigger] wt[i]).path != p by {
                if wt[i].path == p {
                    assert(has_file(wt, p));
                }
            }
            assert(has_dir(wt, p) <==> has_below(wt, p));
            assert(wt[n].path == f);
        }
    }
    if selects(wt, p, f) && !asks_for(wt, p, f) {
        assert forall|i: int| 0 <= i < names.len() && is_own_name(#[trigger] names[i]) implies
            names.contains(".git"@) || names.contains(".helix"@) by {}
    }
    let from = crate::add_select::names_from(p, f);
    let k = path_names(p).len() as int;
    if dir_holds(p, f) {
        assert forall|i: int| k - 1 <= i < names.len() && i >= 0 && is_own_name(
            #[trigger] names[i],
        ) implies crate::add_select::is_internal(from) by {
            if k > 0 {
                assert(from[i - (k - 1)] == names[i]);
            } else {
                assert(from[i] == names[i]);
            }
        }
        if crate::add_select::is_internal(from) {
            let i = choose|i: int| 0 <= i < from.len() && is_own_name(from[i]);
            if k > 0 {
                assert(is_own_name(names[i + k - 1]));
            } else {
                assert(is_own_name(names[i]));
            }
        }
    }
}

proof fn lemma_entered(es: Seq<EntryView>, fs: Seq<FileSeen>, n: int)
    requires
        0 <= n <= fs.len(),
        forall|i: int| 0 <= i < fs.len() ==> is_regular((#[trigger] fs[i]).path),
        forall|k: int| 0 <= k < es.len() ==> is_regular((#[trigger] es[k]).path),
    ensures
        staged_into(es, fs, n).len() >= es.len(),
        forall|k: int|
            0 <= k < staged_into(es, fs, n).len() ==> is_regular(
                (#[trigger] staged_into(es, fs, n)[k]).path,
            ),
        forall|k: int|
            0 <= k < es.len() ==> (#[trigger] staged_into(es, fs, n)[k]).path == es[k].path,
        forall|k: int|
            0 <= k < staged_into(es, fs, n).len() ==> (k < es.len() && (
            #[trigger] staged_into(es, fs, n)[k]) == es[k]) || exists|i: int|
                0 <= i < n && staged_into(es, fs, n)[k] == staged_entry(#[trigger] fs[i]),
    decreases n,
{
    if n > 0 {
        let d = staged_into(es, fs, n - 1);
        let r = staged_into(es, fs, n);
        let e = staged_entry(fs[n - 1]);
        lemma_entered(es, fs, n - 1);
        lemma_first_entry(d, e.path);
        let at = first_entry(d, e.path);
        assert(r == upsert(d, e));
        if at < d.len() {
            assert(is_regular(d[at].path));
            assert(is_regular(fs[n - 1].path));
            regular_paths_are_texts(d[at].path, e.path);
        }
        assert forall|k: int| 0 <= k < r.len() implies is_regular((#[trigger] r[k]).path) by {
            if k != at {
                assert(r[k] == d[k]);
            } else {
                assert(is_regular(fs[n - 1].path));
            }
        }
        assert forall|k: int| 0 <= k < es.len() implies (#[trigger] r[k]).path == es[k].path by {
            assert(d[k].path == es[k].path);
        }
        assert forall|k: int| 0 <= k < r.len() implies (k < es.len() && (#[trigger] r[k]) == es[k])
            || exists|i: int| 0 <= i < n && r[k] == staged_entry(#[trigger] fs[i]) by {
            if k == at {
                assert(r[k] == staged_entry(fs[n - 1]));
            } else {
                assert(r[k] == d[k]);
                if !(k < es.len() && d[k] == es[k]) {
                    let i = choose|i: int| 0 <= i < n - 1 && d[k] == staged_entry(#[trigger] fs[i]);
                    assert(r[k] == staged_entry(fs[i]));
                }
            }
        }
    }
}

/// The files to be staged are those that are due.
proof fn lemma_due(q: AddRequest, es: Seq<EntryView>, m: Objects, f: FileSeen)
    requires
        are_plain(q.wt),
        are_plain_entries(es),
        forall|j: int|
            0 <= j < q.paths.len() ==> (is_regular(#[trigger] q.paths[j]) || q.paths[j]
                == seq!['.']) && !path_names(q.paths[j]).contains(".."@),
        q.wt.contains(f),
    ensures
        q.files_to_stage(es, m).contains(f) <==> is_due(q, es, m, f),
{
    let fs = q.files_to_stage(es, m);
    let ps = q.paths_to_stage(es, m);
    plain_paths_add_no_names(q.wt, q.paths);
    files_to_stage_are_selected(q, es, m);
    expanded_paths_are_selected(q.wt, q.paths);
    let n = choose|i: int| 0 <= i < q.wt.len() && q.wt[i] == f;
    assert(q.wt[n].path == f.path);
    assert(is_regular(f.path));
    assert(has_file(q.wt, f.path));
    assert forall|j: int| 0 <= j < q.wt.len() && j < n implies (#[trigger] q.wt[j]).path
        != f.path by {
        assert(q.wt[j].path != q.wt[n].path);
    }
    lemma_file_for(q.wt, f.path, n);
    assert(file_for(q.files(), f.path) == f);
    assert(selected(q.wt, q.paths, f.path) <==> exists|j: int|
        0 <= j < q.paths.len() && asks_for(q.wt, #[trigger] q.paths[j], f.path)) by {
        assert forall|j: int| 0 <= j < q.paths.len() implies (selects(
            q.wt,
            #[trigger] q.paths[j],
            f.path,
        ) <==> asks_for(q.wt, q.paths[j], f.path)) by {
            lemma_asks_for(q.wt, q.paths[j], f.path);
        }
    }
    let cs = q.candidates();
    if selected(q.wt, q.paths, f.path) {
        assert(has_path(cs, f.path));
        let k = choose|k: int| 0 <= k < cs.len() && same_path(#[trigger] cs[k], f.path);
        assert(cs.contains(cs[k]));
        assert(has_file(q.wt, cs[k]));
        let i = choose|i: int| 0 <= i < q.wt.len() && (#[trigger] q.wt[i]).path == cs[k];
        assert(is_regular(q.wt[i].path));
        regular_paths_are_texts(cs[k], f.path);
        assert(cs.contains(f.path));
    }
    assert(cs.contains(f.path) <==> selected(q.wt, q.paths, f.path));
    lemma_first_entry(es, f.path);
    let at = first_entry(es, f.path);
    assert forall|k: int| 0 <= k < es.len() implies (same_path((#[trigger] es[k]).path, f.path)
        <==> es[k].path == f.path) && (es[k].path == f.path ==> k == at) by {
        regular_paths_are_texts(es[k].path, f.path);
        if es[k].path == f.path {
            assert(at <= k);
            if at < k {
                regular_paths_are_texts(es[at].path, f.path);
                assert(es[at].path != es[k].path);
            }
        }
    }
    let tracks = crate::add_command::tracked_path(es, f.path);
    assert(tracks <==> at < es.len() && es[at].flags.bits & 1 == 1) by {
        if at < es.len() && es[at].flags.bits & 1 == 1 {
            assert(es[at].path == f.path);
            assert(same_path(es[at].path, f.path) && es[at].flags.has(
                crate::helix_index::format::EntryFlags::TRACKED,
            ));
        }
    }
    assert(q.stages(es, m, f.path) && cs.contains(f.path) <==> is_due(q, es, m, f)) by {
        if at < es.len() {
            assert(es[at].path == f.path);
        }
    }
    assert(ps.contains(f.path) <==> is_due(q, es, m, f));
    if ps.contains(f.path) {
        let k = choose|k: int| 0 <= k < ps.len() && ps[k] == f.path;
        assert(fs[k] == f);
    }
    if fs.contains(f) {
        let k = choose|k: int| 0 <= k < fs.len() && fs[k] == f;
        assert(fs[k].path == ps[k]);
        assert(ps.contains(ps[k]));
    }
}

/// After files were added, the index has for each file that was due an entry with its path,
/// the hash and the length of its contents, its time and its mode, tracked and staged, and the
/// store holds its contents; every entry stands where it stood, and is as it was unless its
/// file was due; every new entry is that of a file that was due. Of nothing that was due
/// nothing changes.
pub proof fn due_files_are_entered(
    before: HelixIndexData,
    m: Objects,
    after: HelixIndexData,
    m2: Objects,
    q: AddRequest,
    r: Result<Option<Vec<u8>>, AddError>,
    said: Seq<Seq<char>>,
)
    requires
        is_added(before, m, after, m2, q, r, said),
        r is Ok,
        !q.options.dry_run,
        are_plain(q.wt),
        are_plain_entries(before.es()),
        forall|j: int|
            0 <= j < q.paths.len() ==> (is_regular(#[trigger] q.paths[j]) || q.paths[j]
                == seq!['.']) && !path_names(q.paths[j]).contains(".."@),
    ensures
        ({
            let es = before.es();
            let now = after.es();
            &&& forall|i: int|
                0 <= i < q.wt.len() && is_due(q, es, m, #[trigger] q.wt[i]) ==> {
                    &&& exists|k: int| 0 <= k < now.len() && is_entry_of(#[trigger] now[k], q.wt[i])
                    &&& m2.contains_key((ObjectType::Blob, blake3_digest(q.wt[i].content)@))
                }
            &&& now.len() >= es.len()
            &&& forall|k: int| 0 <= k < es.len() ==> (#[trigger] now[k]).path == es[k].path
            &&& forall|k: int|
                0 <= k < now.len() ==> (k < es.len() && #[trigger] now[k] == es[k]) || exists|
                    i: int,
                |
                    0 <= i < q.wt.len() && is_due(q, es, m, #[trigger] q.wt[i]) && is_entry_of(
                        now[k],
                        q.wt[i],
                    )
            &&& r == Ok::<Option<Vec<u8>>, AddError>(None) <==> forall|i: int|
                0 <= i < q.wt.len() ==> !is_due(q, es, m, #[trigger] q.wt[i])
        }),
{
    let es = before.es();
    let now = after.es();
    let fs = q.files_to_stage(es, m);
    let ps = q.paths_to_stage(es, m);
    plain_paths_add_no_names(q.wt, q.paths);
    files_to_stage_are_selected(q, es, m);
    expanded_paths_are_selected(q.wt, q.paths);
    assert(q.paths.len() > 0);
    assert forall|k: int| 0 <= k < fs.len() implies is_regular((#[trigger] fs[k]).path)
        && q.wt.contains(fs[k]) && is_due(q, es, m, fs[k]) by {
        assert(ps.contains(ps[k]));
        assert(q.candidates().contains(ps[k]));
        assert(has_file(q.wt, ps[k]));
        let i = choose|i: int| 0 <= i < q.wt.len() && (#[trigger] q.wt[i]).path == ps[k];
        assert forall|j: int| 0 <= j < i implies (#[trigger] q.wt[j]).path != ps[k] by {
            assert(q.wt[j].path != q.wt[i].path);
        }
        lemma_file_for(q.wt, ps[k], i);
        assert(fs[k] == q.wt[i]);
        assert(is_regular(q.wt[i].path));
        assert(fs.contains(fs[k]));
        lemma_due(q, es, m, fs[k]);
    }
    assert forall|i: int| 0 <= i < q.wt.len() implies (fs.contains(#[trigger] q.wt[i]) <==> is_due(
        q,
        es,
        m,
        q.wt[i],
    )) by {
        lemma_due(q, es, m, q.wt[i]);
    }
    assert((fs.len() == 0) <==> forall|i: int|
        0 <= i < q.wt.len() ==> !is_due(q, es, m, #[trigger] q.wt[i])) by {
        if fs.len() > 0 {
            assert(q.wt.contains(fs[0]) && is_due(q, es, m, fs[0]));
            let i = choose|i: int| 0 <= i < q.wt.len() && q.wt[i] == fs[0];
            assert(is_due(q, es, m, q.wt[i]));
        }
    }
    if fs.len() > 0 {
        lemma_timed_most(fs);
        let n = fs.len() as int;
        lemma_entered(es, fs, n);
        assert(1u32 | 2u32 == 3u32) by (bit_vector);
        assert forall|k: int| 0 <= k < fs.len() implies is_entry_of(
            staged_entry(#[trigger] fs[k]),
            fs[k],
        ) by {
            lemma_all_timed(fs, k);
        }
        assert forall|i: int, j: int| 0 <= i < j < fs.len() implies !same_path(
            (#[trigger] fs[i]).path,
            (#[trigger] fs[j]).path,
        ) by {
            assert(!same_path(ps[i], ps[j]));
            assert(fs[i].path == ps[i] && fs[j].path == ps[j]);
        }
        assert forall|i: int| 0 <= i < q.wt.len() && is_due(q, es, m, #[trigger] q.wt[i]) implies (
        exists|k: int| 0 <= k < now.len() && is_entry_of(#[trigger] now[k], q.wt[i]))
            && m2.contains_key((ObjectType::Blob, blake3_digest(q.wt[i].content)@)) by {
            assert(fs.contains(q.wt[i]));
            let k = choose|k: int| 0 <= k < fs.len() && fs[k] == q.wt[i];
            staged_files_are_entered(es, fs, n, k);
            lemma_contents_put(m, fs, n, k);
            lemma_first_entry(now, fs[k].path);
            assert(is_entry_of(now[first_entry(now, fs[k].path)], q.wt[i]));
        }
        assert forall|k: int| 0 <= k < now.len() implies (k < es.len() && #[trigger] now[k]
            == es[k]) || exists|i: int|
            0 <= i < q.wt.len() && is_due(q, es, m, #[trigger] q.wt[i]) && is_entry_of(
                now[k],
                q.wt[i],
            ) by {
            if !(k < es.len() && now[k] == es[k]) {
                let j = choose|j: int| 0 <= j < n && now[k] == staged_entry(#[trigger] fs[j]);
                assert(q.wt.contains(fs[j]));
                let i = choose|i: int| 0 <= i < q.wt.len() && q.wt[i] == fs[j];
                assert(is_due(q, es, m, q.wt[i]));
            }
        }
    }
}

/// The index file that an addition gives reads back as the index after it, with the next
/// generation.
pub proof fn added_index_reads_back(
    before: HelixIndexData,
    m: Objects,
    after: HelixIndexData,
    m2: Objects,
    q: AddRequest,
    r: Result<Option<Vec<u8>>, AddError>,
    said: Seq<Seq<char>>,
)
    requires
        is_added(before, m, after, m2, q, r, said),
        before.data.header.magic == MAGIC,
        before.data.header.version == VERSION,
        before.data.header.generation < u64::MAX,
        after.es().len() < 0x1_0000_0000,
        forall|k: int|
            0 <= k < after.es().len() ==> (#[trigger] after.es()[k]).flags.bits & !0xffffu32 == 0,
    ensures
        r matches Ok(Some(b)) ==> {
            &&& after.data.header.generation == before.data.header.generation + 1
            &&& is_index_file(b@)
            &&& forall|ix: HelixIndex| #[trigger]
                index_reads(ix, b@) ==> ix.header == after.data.header && entry_views(ix.entries@)
                    == after.es()
        },
{
    if let Ok(Some(b)) = r {
        index_round_trip(after.data.header, after.es());
    }
}

} // verus!
