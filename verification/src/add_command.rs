//! Staging files of the working tree.
use vstd::prelude::*;
use vstd::string::*;

use crate::add_select::{
    are_placed, expand_named, expanded, file_for, find_named, follow, followed, has_file, named,
    seen_as, Named,
};
use crate::add_trace::{
    candidate_lines, compared_lines, entered_lines, entering_lines, files_line, nothing_lines,
    opening_lines, push_lines, reading_lines, say_candidates, say_compared, say_entered,
    say_entering, say_files, say_nothing, say_opening, say_reading, say_staged, say_staging,
    say_would_add, staged_lines, staging_lines, would_add_lines,
};
use crate::hash::{blake3_digest, hash_bytes, hash_eq, ObjectId};
use crate::helix_index::api::{any_where, HelixIndexData};
use crate::helix_index::format::{blank_reserve, Entry, EntryFlags, EntryView, FormatError, Header};
use crate::helix_index::reader::{
    all_fit, find_entry_at, first_entry, index_bytes, is_misfit, lemma_first_entry,
};
use crate::ignore::{any_matches, set_globs, IgnoreRules};
use crate::object_store::{put_object, ObjectStore, ObjectType, Objects};
use crate::order::{in_order, ByPath};
use crate::path::{are_distinct, same_path};
use crate::text::{concat, concat3, push_line, texts};

verus! {

/// How to add files.
#[derive(Debug, Clone, Copy, PartialEq, Eq)]
pub struct AddOptions {
    pub verbose: bool,
    /// Say what would be added, and add nothing.
    pub dry_run: bool,
    /// Add ignored and unchanged files too.
    pub force: bool,
}

impl Default for AddOptions {
    fn default() -> (o: AddOptions)
        ensures
            !o.verbose && !o.dry_run && !o.force,
    {
        AddOptions { verbose: false, dry_run: false, force: false }
    }
}

/// A regular file of the working tree.
#[derive(Debug, Clone, PartialEq, Eq)]
pub struct WorkFile {
    /// The path below the working tree.
    pub path: String,
    pub content: Vec<u8>,
    /// When the file was modified, in seconds since the Unix epoch, if that is
    /// known.
    pub mtime: Option<u64>,
    /// The Unix permissions.
    pub permissions: u32,
}

/// A file as it is seen, with its path as characters.
pub struct FileSeen {
    pub path: Seq<char>,
    pub content: Seq<u8>,
    pub mtime: Option<u64>,
    pub permissions: u32,
}

impl View for WorkFile {
    type V = FileSeen;

    open spec fn view(&self) -> FileSeen {
        FileSeen {
            path: self.path@,
            content: self.content@,
            mtime: self.mtime,
            permissions: self.permissions,
        }
    }
}

/// The files as they are seen.
pub open spec fn seen(v: Seq<WorkFile>) -> Seq<FileSeen> {
    Seq::new(v.len(), |i: int| v[i]@)
}

/// The mode of a file with these permissions: executable or regular.
pub open spec fn file_mode_of(permissions: u32) -> u32 {
    if permissions & 0o111 != 0 {
        0o100755
    } else {
        0o100644
    }
}

/// The mode of a file with these Unix permissions.
pub fn get_file_mode(permissions: u32) -> (r: u32)
    ensures
        r == file_mode_of(permissions),
{
    if permissions & 0o111 != 0 {
        0o100755
    } else {
        0o100644
    }
}

/// Whether some entry of this path is tracked.
pub open spec fn tracked_path(es: Seq<EntryView>, path: Seq<char>) -> bool {
    any_where(es, path, |f: EntryFlags| f.has(EntryFlags::TRACKED))
}

/// Whether some entry of this path is staged.
pub open spec fn staged_path(es: Seq<EntryView>, path: Seq<char>) -> bool {
    any_where(es, path, |f: EntryFlags| f.has(EntryFlags::STAGED))
}

/// Whether a file needs adding: it is not tracked, or adding is forced, or it
/// was modified since, or the contents of its entry are not in the store or are not
/// those of the file. A tracked file whose time is not known does not.
pub open spec fn needs_add(es: Seq<EntryView>, m: Objects, f: FileSeen, force: bool) -> bool {
    let e = es[first_entry(es, f.path)];
    if !tracked_path(es, f.path) || force {
        true
    } else {
        f.mtime matches Some(t) && (t != e.mtime_sec || !m.contains_key(
            (ObjectType::Blob, e.oid@),
        ) || blake3_digest(f.content) != e.oid)
    }
}

/// What is said while it is decided whether a file needs adding.
pub open spec fn decision_lines(
    es: Seq<EntryView>,
    m: Objects,
    f: FileSeen,
    force: bool,
) -> Seq<Seq<char>> {
    let e = es[first_entry(es, f.path)];
    let first = seq!["should add?? "@ + f.path];
    if !tracked_path(es, f.path) {
        first.push("  -> untracked, adding"@)
    } else if force {
        first
    } else {
        match f.mtime {
            Some(t) => first + compared_lines(
                e,
                staged_path(es, f.path),
                t,
                m.contains_key((ObjectType::Blob, e.oid@)),
                blake3_digest(f.content) == e.oid,
            ),
            None => first,
        }
    }
}

/// Whether a file needs adding.
pub fn should_add_file(
    index: &HelixIndexData,
    store: &ObjectStore,
    file: &WorkFile,
    options: AddOptions,
) -> (r: bool)
    requires
        store.wf(),
    ensures
        r == needs_add(index.es(), store@, file@, options.force),
{
    let mut lines: Vec<String> = Vec::new();
    decide(index, store, file.path.as_str(), file, options, &mut lines)
}

/// Whether a file, by this path, needs adding. It says why.
fn decide(
    index: &HelixIndexData,
    store: &ObjectStore,
    path: &str,
    file: &WorkFile,
    options: AddOptions,
    lines: &mut Vec<String>,
) -> (r: bool)
    requires
        store.wf(),
    ensures
        ({
            let f = FileSeen { path: path@, ..file@ };
            &&& r == needs_add(index.es(), store@, f, options.force)
            &&& texts(final(lines)@) == texts(old(lines)@) + decision_lines(
                index.es(),
                store@,
                f,
                options.force,
            )
        }),
{
    let ghost start = texts(lines@);
    let ghost es = index.es();
    let ghost f = FileSeen { path: path@, ..file@ };
    let ghost said = decision_lines(es, store@, f, options.force);
    push_line(lines, concat("should add?? ", path));
    if !index.is_tracked(path) {
        push_line(lines, "  -> untracked, adding".to_owned());
        assert(texts(lines@) =~= start + said);
        return true;
    }
    if options.force {
        assert(texts(lines@) =~= start + said);
        return true;
    }
    match find_entry_at(&index.data.entries, path) {
        Some(k) => {
            assert(es[k as int] == index.data.entries@[k as int]@);
            let e = &index.data.entries[k];
            match file.mtime {
                Some(t) => {
                    let staged: bool = index.is_staged(path);
                    let stored: bool = store.has_object(ObjectType::Blob, &e.oid);
                    let hash: ObjectId = hash_bytes(file.content.as_slice());
                    let same: bool = hash_eq(&hash, &e.oid);
                    push_lines(lines, say_compared(e, staged, t, stored, same));
                    assert(texts(lines@) =~= start + said);
                    t != e.mtime_sec || !stored || !same
                },
                None => {
                    assert(texts(lines@) =~= start + said);
                    false
                },
            }
        },
        None => {
            proof {
                lemma_first_entry(es, path@);
                let i = choose|i: int|
                    0 <= i < es.len() && same_path((#[trigger] es[i]).path, path@)
                        && es[i].flags.has(EntryFlags::TRACKED);
                assert(!same_path(es[i].path, path@));
            }
            false
        },
    }
}

/// Whether a selected file is to be staged: it is not ignored, unless adding is
/// forced, and it needs adding.
pub open spec fn to_be_staged(
    es: Seq<EntryView>,
    m: Objects,
    globs: Seq<Seq<char>>,
    force: bool,
    f: FileSeen,
) -> bool {
    &&& force || !any_matches(globs, f.path)
    &&& needs_add(es, m, f, force)
}

/// What is said of a file that the paths mean.
pub open spec fn check_lines(
    es: Seq<EntryView>,
    m: Objects,
    globs: Seq<Seq<char>>,
    options: AddOptions,
    f: FileSeen,
) -> Seq<Seq<char>> {
    if !options.force && any_matches(globs, f.path) {
        if options.verbose {
            seq!["  skipping '"@ + f.path + "' (ignored)"@]
        } else {
            Seq::empty()
        }
    } else {
        decision_lines(es, m, f, options.force)
    }
}

/// What is said of the files that the paths mean.
pub open spec fn checked_lines(
    es: Seq<EntryView>,
    m: Objects,
    fs: Seq<FileSeen>,
    globs: Seq<Seq<char>>,
    options: AddOptions,
    cs: Seq<Seq<char>>,
) -> Seq<Seq<char>>
    decreases cs.len(),
{
    if cs.len() == 0 {
        Seq::empty()
    } else {
        checked_lines(es, m, fs, globs, options, cs.drop_last()) + check_lines(
            es,
            m,
            globs,
            options,
            file_for(fs, cs.last()),
        )
    }
}

/// The texts that satisfy `p`, in order.
pub open spec fn kept(s: Seq<Seq<char>>, p: spec_fn(Seq<char>) -> bool) -> Seq<Seq<char>>
    decreases s.len(),
{
    if s.len() == 0 {
        s
    } else if p(s.last()) {
        kept(s.drop_last(), p).push(s.last())
    } else {
        kept(s.drop_last(), p)
    }
}

proof fn lemma_kept(s: Seq<Seq<char>>, p: spec_fn(Seq<char>) -> bool)
    ensures
        forall|x: Seq<char>| #[trigger] kept(s, p).contains(x) <==> s.contains(x) && p(x),
        kept(s, p).len() <= s.len(),
    decreases s.len(),
{
    if s.len() > 0 {
        let d = s.drop_last();
        lemma_kept(d, p);
        let k = kept(d, p);
        let r = kept(s, p);
        assert forall|x: Seq<char>| #[trigger] r.contains(x) <==> s.contains(x) && p(x) by {
            if r.contains(x) {
                let n = choose|n: int| 0 <= n < r.len() && r[n] == x;
                if n < k.len() {
                    assert(k[n] == x);
                    assert(k.contains(x));
                    let q = choose|q: int| 0 <= q < d.len() && d[q] == x;
                    assert(s[q] == x);
                } else {
                    assert(s[s.len() - 1] == x);
                }
            }
            if s.contains(x) && p(x) {
                let q = choose|q: int| 0 <= q < s.len() && s[q] == x;
                if q < d.len() {
                    assert(d[q] == x);
                    assert(k.contains(x));
                    let n = choose|n: int| 0 <= n < k.len() && k[n] == x;
                    assert(r[n] == x);
                } else {
                    assert(r[r.len() - 1] == x);
                }
            }
        }
    }
}

/// What is kept of distinct paths in order is distinct and in order.
proof fn lemma_kept_order(s: Seq<Seq<char>>, p: spec_fn(Seq<char>) -> bool)
    requires
        are_distinct(s),
        in_order::<ByPath, Seq<char>>(s),
    ensures
        are_distinct(kept(s, p)),
        in_order::<ByPath, Seq<char>>(kept(s, p)),
    decreases s.len(),
{
    if s.len() > 0 {
        let d = s.drop_last();
        assert forall|i: int, j: int| 0 <= i < j < d.len() implies !crate::order::lex_less(
            #[trigger] <ByPath as crate::order::Ranking<Seq<char>>>::key(d[j]),
            #[trigger] <ByPath as crate::order::Ranking<Seq<char>>>::key(d[i]),
        ) by {
            assert(d[i] == s[i] && d[j] == s[j]);
        }
        lemma_kept_order(d, p);
        lemma_kept(d, p);
        let k = kept(d, p);
        let r = kept(s, p);
        if p(s.last()) {
            assert forall|i: int, j: int| 0 <= i < j < r.len() implies !same_path(
                #[trigger] r[i],
                #[trigger] r[j],
            ) by {
                assert(r[i] == k[i]);
                if j < k.len() {
                    assert(r[j] == k[j]);
                } else {
                    assert(k.contains(k[i]));
                    let n = choose|n: int| 0 <= n < d.len() && d[n] == k[i];
                    assert(!same_path(s[n], s[s.len() - 1]));
                }
            }
            assert forall|i: int, j: int| 0 <= i < j < r.len() implies !crate::order::lex_less(
                #[trigger] <ByPath as crate::order::Ranking<Seq<char>>>::key(r[j]),
                #[trigger] <ByPath as crate::order::Ranking<Seq<char>>>::key(r[i]),
            ) by {
                if j < k.len() {
                    assert(r[i] == k[i] && r[j] == k[j]);
                } else {
                    assert(k.contains(k[i]));
                    let n = choose|n: int| 0 <= n < d.len() && d[n] == k[i];
                    assert(s[n] == r[i] && s[s.len() - 1] == r[j]);
                }
            }
        }
    }
}

/// What adding files works on.
pub struct AddRequest {
    /// The files of the working tree.
    pub wt: Seq<FileSeen>,
    /// The patterns of ignored files.
    pub globs: Seq<Seq<char>>,
    /// The paths that were given.
    pub paths: Seq<Seq<char>>,
    pub options: AddOptions,
    /// Where the index file is.
    pub index_path: Seq<char>,
}

impl AddRequest {
    /// The files as the paths name them.
    pub open spec fn files(self) -> Seq<FileSeen> {
        followed(self.wt, self.paths)
    }

    /// The paths of the files that the paths mean.
    pub open spec fn candidates(self) -> Seq<Seq<char>> {
        expanded(self.wt, self.paths)
    }

    /// Whether the file with this path is to be staged.
    pub open spec fn stages(self, es: Seq<EntryView>, m: Objects, f: Seq<char>) -> bool {
        to_be_staged(es, m, self.globs, self.options.force, file_for(self.files(), f))
    }

    /// The paths of the files to be staged.
    pub open spec fn paths_to_stage(self, es: Seq<EntryView>, m: Objects) -> Seq<Seq<char>> {
        kept(self.candidates(), |f: Seq<char>| self.stages(es, m, f))
    }

    /// The files to be staged: of those that the paths mean, the ones that are not
    /// ignored and need adding. They come in the order of their paths.
    pub open spec fn files_to_stage(self, es: Seq<EntryView>, m: Objects) -> Seq<FileSeen> {
        self.paths_to_stage(es, m).map_values(|f: Seq<char>| file_for(self.files(), f))
    }

    /// What is said up to the list of the files to be staged.
    pub open spec fn first_lines(
        self,
        generation: nat,
        es: Seq<EntryView>,
        m: Objects,
    ) -> Seq<Seq<char>> {
        opening_lines(generation, es, self.wt, self.options.verbose) + self.resolving_lines(es, m)
            + seq![files_line(self.files_to_stage(es, m))]
    }

    /// What is said while the files to be staged are found.
    pub open spec fn resolving_lines(self, es: Seq<EntryView>, m: Objects) -> Seq<Seq<char>> {
        candidate_lines(es, self.candidates(), self.options.verbose) + checked_lines(
            es,
            m,
            self.files(),
            self.globs,
            self.options,
            self.candidates(),
        )
    }
}

/// What adding files works on, from the arguments of a call.
pub open spec fn request_of(
    wt: Seq<WorkFile>,
    rules: IgnoreRules,
    paths: Seq<String>,
    options: AddOptions,
    index_path: Seq<char>,
) -> AddRequest {
    AddRequest {
        wt: seen(wt),
        globs: set_globs(rules.globset),
        paths: texts(paths),
        options,
        index_path,
    }
}

/// No two of the paths to be staged are the same, they are in order, and they are those of
/// the files that the paths mean, that are not ignored and that need adding.
pub proof fn files_to_stage_are_selected(q: AddRequest, es: Seq<EntryView>, m: Objects)
    ensures
        are_distinct(q.paths_to_stage(es, m)),
        in_order::<ByPath, Seq<char>>(q.paths_to_stage(es, m)),
        forall|f: Seq<char>| #[trigger]
            q.paths_to_stage(es, m).contains(f) <==> q.candidates().contains(f) && q.stages(
                es,
                m,
                f,
            ),
        forall|k: int|
            0 <= k < q.paths_to_stage(es, m).len() ==> (#[trigger] q.files_to_stage(
                es,
                m,
            )[k]).path == q.paths_to_stage(es, m)[k],
{
    let p = |f: Seq<char>| q.stages(es, m, f);
    let cs = q.candidates();
    crate::add_select::expanded_paths_are_selected(q.wt, q.paths);
    lemma_kept(cs, p);
    lemma_kept_order(cs, p);
    let r = q.paths_to_stage(es, m);
    assert forall|f: Seq<char>| #[trigger]
        r.contains(f) <==> q.candidates().contains(f) && q.stages(es, m, f) by {
        assert(p(f) == q.stages(es, m, f));
    }
    assert forall|k: int| 0 <= k < r.len() implies (#[trigger] q.files_to_stage(es, m)[k]).path
        == r[k] by {
        assert(r.contains(r[k]));
        lemma_file_for_path(q.files(), r[k]);
    }
}

proof fn lemma_file_for_path(fs: Seq<FileSeen>, path: Seq<char>)
    requires
        has_file(fs, path),
    ensures
        file_for(fs, path).path == path,
    decreases fs.len(),
{
    let i = choose|i: int| 0 <= i < fs.len() && (#[trigger] fs[i]).path == path;
    assert(fs[i].path == path);
    if fs.len() > 1 && fs[0].path != path {
        let t = fs.subrange(1, fs.len() as int);
        assert(t[i - 1].path == path);
        lemma_file_for_path(t, path);
    }
}

/// The files to be staged. What is found on the way is said.
pub fn resolve_files_to_add(
    index: &HelixIndexData,
    store: &ObjectStore,
    wt: &Vec<WorkFile>,
    rules: &IgnoreRules,
    paths: &Vec<String>,
    options: AddOptions,
    lines: &mut Vec<String>,
) -> (r: Vec<Named>)
    requires
        store.wf(),
    ensures
        are_placed(wt@, r@),
        ({
            let q = request_of(wt@, *rules, paths@, options, Seq::empty());
            &&& named(wt@, r@) == q.files_to_stage(index.es(), store@)
            &&& texts(final(lines)@) == texts(old(lines)@) + q.resolving_lines(index.es(), store@)
        }),
{
    let ghost q = request_of(wt@, *rules, paths@, options, Seq::empty());
    let ghost es = index.es();
    let ghost m = store@;
    let ghost start = texts(lines@);
    let v = follow(wt, paths);
    let ghost fs = q.files();
    let candidates = expand_named(Ghost(wt@), &v, paths);
    let ghost cs = q.candidates();
    push_lines(lines, say_candidates(index, &candidates, options.verbose));
    let ghost head = texts(lines@);
    let ghost p = |f: Seq<char>| q.stages(es, m, f);
    let ghost g = |f: Seq<char>| file_for(fs, f);
    let mut r: Vec<Named> = Vec::new();
    let mut i: usize = 0;
    proof {
        crate::add_select::expanded_paths_are_selected(q.wt, q.paths);
        assert(named(wt@, r@) =~= kept(cs.subrange(0, 0), p).map_values(g));
        assert(head + checked_lines(es, m, fs, q.globs, options, cs.subrange(0, 0)) =~= head);
    }
    while i < candidates.len()
        invariant
            i <= candidates.len(),
            store.wf(),
            q == request_of(wt@, *rules, paths@, options, Seq::empty()),
            fs == q.files(),
            fs == named(wt@, v@),
            cs == texts(candidates@),
            es == index.es(),
            m == store@,
            are_placed(wt@, v@),
            are_placed(wt@, r@),
            p == (|f: Seq<char>| q.stages(es, m, f)),
            g == (|f: Seq<char>| file_for(fs, f)),
            forall|f: Seq<char>| #[trigger] cs.contains(f) ==> has_file(fs, f),
            named(wt@, r@) == kept(cs.subrange(0, i as int), p).map_values(g),
            texts(lines@) == head + checked_lines(
                es,
                m,
                fs,
                q.globs,
                options,
                cs.subrange(0, i as int),
            ),
        decreases candidates.len() - i,
    {
        let c = candidates[i].as_str();
        let ghost before = named(wt@, r@);
        let ghost said = texts(lines@);
        proof {
            let t = cs.subrange(0, i + 1);
            assert(t.drop_last() =~= cs.subrange(0, i as int));
            assert(t.last() == cs[i as int]);
            assert(cs[i as int] == c@);
            assert(cs.contains(c@));
        }
        match find_named(Ghost(wt@), &v, c) {
            Some(k) => {
                let at: usize = v[k].at;
                let ghost f = file_for(fs, c@);
                assert(f == FileSeen { path: c@, ..wt@[at as int]@ });
                let mut wanted: bool = false;
                if !options.force && rules.should_ignore(c) {
                    if options.verbose {
                        push_line(lines, concat3("  skipping '", c, "' (ignored)"));
                    }
                    assert(texts(lines@) =~= said + check_lines(es, m, q.globs, options, f));
                } else {
                    wanted = decide(index, store, c, &wt[at], options, lines);
                }
                assert(wanted == p(c@));
                if wanted {
                    let n = Named { path: candidates[i].clone(), at };
                    r.push(n);
                    assert(seen_as(wt@, n) == f);
                    assert(named(wt@, r@) =~= before.push(f));
                }
                proof {
                    assert(texts(lines@) == said + check_lines(es, m, q.globs, options, f));
                    assert(texts(lines@) =~= head + checked_lines(
                        es,
                        m,
                        fs,
                        q.globs,
                        options,
                        cs.subrange(0, i + 1),
                    ));
                    assert(named(wt@, r@) =~= kept(cs.subrange(0, i + 1), p).map_values(g));
                }
            },
            None => {},
        }
        i += 1;
    }
    proof {
        assert(cs.subrange(0, i as int) =~= cs);
        assert(texts(lines@) =~= start + q.resolving_lines(es, m));
        assert(named(wt@, r@) =~= q.files_to_stage(es, m));
    }
    r
}

/// The entry of a staged file.
pub open spec fn staged_entry(f: FileSeen) -> EntryView {
    EntryView {
        path: f.path,
        size: f.content.len() as u64,
        mtime_sec: f.mtime->0,
        mtime_nsec: 0,
        flags: EntryFlags { bits: EntryFlags::TRACKED | EntryFlags::STAGED },
        oid: blake3_digest(f.content),
        merge_conflict_stage: 0,
        file_mode: file_mode_of(f.permissions),
        reserved: blank_reserve(),
    }
}

/// The entries after one has replaced the first of its path, or has been added.
pub open spec fn upsert(es: Seq<EntryView>, e: EntryView) -> Seq<EntryView> {
    let k = first_entry(es, e.path);
    if k < es.len() {
        es.update(k, e)
    } else {
        es.push(e)
    }
}

/// The entries after the first `n` of the files have been staged.
pub open spec fn staged_into(es: Seq<EntryView>, fs: Seq<FileSeen>, n: int) -> Seq<EntryView>
    decreases n,
{
    if n <= 0 {
        es
    } else {
        upsert(staged_into(es, fs, n - 1), staged_entry(fs[n - 1]))
    }
}

/// What a store holds after the contents of the first `n` files have been
/// written to it.
pub open spec fn put_contents(m: Objects, fs: Seq<FileSeen>, n: int) -> Objects
    decreases n,
{
    if n <= 0 {
        m
    } else {
        put_object(put_contents(m, fs, n - 1), ObjectType::Blob, fs[n - 1].content)
    }
}

/// How many leading files have a known time.
pub open spec fn timed(fs: Seq<FileSeen>) -> int
    decreases fs.len(),
{
    if fs.len() == 0 || fs[0].mtime is None {
        0
    } else {
        1 + timed(fs.subrange(1, fs.len() as int))
    }
}

/// What is said while the first `n` of the files are entered.
pub open spec fn all_entering_lines(
    es: Seq<EntryView>,
    fs: Seq<FileSeen>,
    n: int,
) -> Seq<Seq<char>>
    decreases n,
{
    if n <= 0 {
        Seq::empty()
    } else {
        let before = staged_into(es, fs, n - 1);
        let e = staged_entry(fs[n - 1]);
        all_entering_lines(es, fs, n - 1) + entering_lines(
            before,
            e.path,
            e.flags,
            first_entry(before, e.path) < before.len(),
        )
    }
}

/// What is said while the files are staged. It ends early where a file has no known time.
pub open spec fn stage_lines(
    es: Seq<EntryView>,
    fs: Seq<FileSeen>,
    verbose: bool,
) -> Seq<Seq<char>> {
    let n = timed(fs);
    let first = reading_lines(fs.len(), verbose) + all_entering_lines(es, fs, n);
    if n < fs.len() {
        first
    } else {
        first + entered_lines(staged_into(es, fs, n))
    }
}

proof fn lemma_timed(fs: Seq<FileSeen>, i: int)
    requires
        0 <= i <= fs.len(),
        forall|j: int| 0 <= j < i ==> (#[trigger] fs[j]).mtime is Some,
        i < fs.len() ==> fs[i].mtime is None,
    ensures
        timed(fs) == i,
    decreases fs.len(),
{
    if i > 0 {
        let t = fs.subrange(1, fs.len() as int);
        assert(fs[0].mtime is Some);
        assert forall|j: int| 0 <= j < i - 1 implies (#[trigger] t[j]).mtime is Some by {
            assert(t[j] == fs[j + 1]);
        }
        lemma_timed(t, i - 1);
    }
}

/// Stages files: writes their contents to the store, and enters them into the
/// index as tracked and staged. It stops at a file whose time is not known, and
/// gives its path.
pub fn stage_files(
    index: &mut HelixIndexData,
    store: &mut ObjectStore,
    wt: &Vec<WorkFile>,
    files: &Vec<Named>,
    options: AddOptions,
    lines: &mut Vec<String>,
) -> (r: Result<(), String>)
    requires
        old(store).wf(),
        are_placed(wt@, files@),
    ensures
        final(store).wf(),
        final(index).repo_path == old(index).repo_path,
        final(index).data.header == old(index).data.header,
        ({
            let fs = named(wt@, files@);
            let n = timed(fs);
            &&& 0 <= n <= fs.len()
            &&& final(store)@ == put_contents(old(store)@, fs, fs.len() as int)
            &&& final(index).es() == staged_into(old(index).es(), fs, n)
            &&& texts(final(lines)@) == texts(old(lines)@) + stage_lines(
                old(index).es(),
                fs,
                options.verbose,
            )
            &&& if n < fs.len() {
                r matches Err(p) && p@ == fs[n].path
            } else {
                r is Ok
            }
        }),
{
    let ghost fs = named(wt@, files@);
    let ghost m = store@;
    let ghost es = index.es();
    let ghost start = texts(lines@);
    say_reading(files.len(), options.verbose, lines);
    let ghost head = texts(lines@);
    let mut hashes: Vec<ObjectId> = Vec::new();
    let mut i: usize = 0;
    while i < files.len()
        invariant
            i <= files.len(),
            store.wf(),
            fs == named(wt@, files@),
            are_placed(wt@, files@),
            store@ == put_contents(m, fs, i as int),
            hashes@.len() == i,
            forall|k: int| 0 <= k < i ==> #[trigger] hashes@[k] == blake3_digest(fs[k].content),
        decreases files.len() - i,
    {
        let f = &wt[files[i].at];
        assert(fs[i as int].content == f.content@);
        let mut content: Vec<u8> = Vec::new();
        crate::codec::push_bytes(&mut content, f.content.as_slice());
        assert(content@ =~= f.content@);
        let h: ObjectId = store.write_object(ObjectType::Blob, content);
        hashes.push(h);
        i += 1;
    }
    let mut i: usize = 0;
    assert(head + all_entering_lines(es, fs, 0) =~= head);
    while i < files.len()
        invariant
            i <= files.len(),
            fs == named(wt@, files@),
            fs.len() == files@.len(),
            store.wf(),
            store@ == put_contents(m, fs, fs.len() as int),
            m == old(store)@,
            es == old(index).es(),
            start == texts(old(lines)@),
            head == start + reading_lines(fs.len(), options.verbose),
            are_placed(wt@, files@),
            hashes@.len() == files@.len(),
            forall|k: int|
                0 <= k < hashes@.len() ==> #[trigger] hashes@[k] == blake3_digest(fs[k].content),
            forall|k: int| 0 <= k < i ==> (#[trigger] fs[k]).mtime is Some,
            index.repo_path == old(index).repo_path,
            index.data.header == old(index).data.header,
            index.es() == staged_into(es, fs, i as int),
            texts(lines@) == head + all_entering_lines(es, fs, i as int),
        decreases files.len() - i,
    {
        let f = &wt[files[i].at];
        assert(fs[i as int] == FileSeen { path: files@[i as int].path@, ..f@ });
        let mtime: u64 = match f.mtime {
            Some(t) => t,
            None => {
                proof {
                    lemma_timed(fs, i as int);
                    assert(texts(lines@) =~= start + stage_lines(es, fs, options.verbose));
                }
                return Err(files[i].path.clone());
            },
        };
        let mut e = Entry::new(
            files[i].path.clone(),
            f.content.len() as u64,
            mtime,
            hashes[i],
            get_file_mode(f.permissions),
        );
        e.flags = EntryFlags::from_bits_retain(EntryFlags::TRACKED | EntryFlags::STAGED);
        assert(e@ == staged_entry(fs[i as int]));
        let ghost before = index.es();
        let ghost said = texts(lines@);
        match find_entry_at(&index.data.entries, files[i].path.as_str()) {
            Some(k) => {
                say_entering(index, files[i].path.as_str(), e.flags, true, lines);
                index.data.entries[k] = e;
                assert(index.es() =~= before.update(k as int, e@));
            },
            None => {
                say_entering(index, files[i].path.as_str(), e.flags, false, lines);
                index.data.entries.push(e);
                assert(index.es() =~= before.push(e@));
            },
        }
        assert(texts(lines@) =~= head + all_entering_lines(es, fs, i + 1));
        i += 1;
    }
    say_entered(index, lines);
    proof {
        lemma_timed(fs, i as int);
        assert(texts(lines@) =~= start + stage_lines(es, fs, options.verbose));
    }
    Ok(())
}

/// Why files cannot be added.
#[derive(Debug)]
pub enum AddError {
    /// No paths were given.
    NoPaths,
    /// The time of this file is not known.
    NoTime(String),
    /// The index cannot be written.
    Index(FormatError),
}

impl AddError {
    /// The error in words.
    pub fn message(&self) -> (r: String)
        ensures
            *self is NoPaths ==> r@
                == "No paths specified. Use 'helix add <files>' or 'helix add .'"@,
            *self matches AddError::NoTime(p) ==> r@ == "Failed to get metadata for "@ + p@,
            *self is Index ==> r@ == "Failed to write index"@,
    {
        match self {
            AddError::NoPaths =>
                "No paths specified. Use 'helix add <files>' or 'helix add .'".to_owned(),
            AddError::NoTime(p) => concat("Failed to get metadata for ", p.as_str()),
            AddError::Index(_) => "Failed to write index".to_owned(),
        }
    }
}

/// What adding files does: with no paths it fails; with nothing to be staged, and in a
/// dry run, it changes nothing; else the contents of the files are in the store, their
/// entries in the index, and the index file of the next generation is made. A file whose
/// time is not known stops it. What was said comes along.
pub open spec fn is_added(
    before: HelixIndexData,
    m: Objects,
    after: HelixIndexData,
    m2: Objects,
    q: AddRequest,
    r: Result<Option<Vec<u8>>, AddError>,
    said: Seq<Seq<char>>,
) -> bool {
    let es = before.es();
    let verbose = q.options.verbose;
    let fs = q.files_to_stage(es, m);
    let n = timed(fs);
    let first = q.first_lines(before.data.header.generation as nat, es, m);
    let staging = first + staging_lines(fs, verbose);
    if q.paths.len() == 0 {
        &&& r matches Err(AddError::NoPaths)
        &&& after == before
        &&& m2 == m
        &&& said == Seq::<Seq<char>>::empty()
    } else if fs.len() == 0 {
        &&& r == Ok::<Option<Vec<u8>>, AddError>(None)
        &&& after == before
        &&& m2 == m
        &&& said == first + nothing_lines(es, verbose)
    } else if q.options.dry_run {
        &&& r == Ok::<Option<Vec<u8>>, AddError>(None)
        &&& after == before
        &&& m2 == m
        &&& said == staging + would_add_lines(fs)
    } else {
        &&& after.repo_path == before.repo_path
        &&& m2 == put_contents(m, fs, fs.len() as int)
        &&& after.es() == staged_into(es, fs, n)
        &&& if n < fs.len() {
            &&& r matches Err(AddError::NoTime(p))
            &&& p@ == fs[n].path
            &&& after.data.header == before.data.header
            &&& said == staging + stage_lines(es, fs, verbose)
        } else {
            &&& after.data.header == (Header {
                generation: (before.data.header.generation + 1) as u64,
                entry_count: (after.es().len() % 0x1_0000_0000) as u32,
                ..before.data.header
            })
            &&& match r {
                Ok(x) => {
                    &&& all_fit(after.es())
                    &&& x matches Some(b)
                    &&& b@ == index_bytes(after.data.header, after.es())
                    &&& said == staging + stage_lines(es, fs, verbose) + staged_lines(
                        fs.len(),
                        after.data.header.generation as nat,
                        q.index_path,
                        verbose,
                    )
                },
                Err(e) => {
                    &&& e matches AddError::Index(f)
                    &&& is_misfit(after.es(), f)
                    &&& said == staging + stage_lines(es, fs, verbose)
                },
            }
        }
    }
}

/// Whether an addition makes an index file of the next generation.
pub open spec fn counts_up(es: Seq<EntryView>, m: Objects, q: AddRequest) -> bool {
    let fs = q.files_to_stage(es, m);
    q.paths.len() > 0 && fs.len() > 0 && !q.options.dry_run && timed(fs) == fs.len()
}

/// Adds the files that the paths mean to what is staged. It gives the bytes of the index
/// file, if something was staged, and adds what is to be said to `lines`.
#[verifier::rlimit(40)]
pub fn add(
    index: &mut HelixIndexData,
    store: &mut ObjectStore,
    wt: &Vec<WorkFile>,
    rules: &IgnoreRules,
    paths: &Vec<String>,
    options: AddOptions,
    index_path: &str,
    lines: &mut Vec<String>,
) -> (r: Result<Option<Vec<u8>>, AddError>)
    requires
        old(store).wf(),
        counts_up(
            old(index).es(),
            old(store)@,
            request_of(wt@, *rules, paths@, options, index_path@),
        ) ==> old(index).data.header.generation < u64::MAX,
    ensures
        final(store).wf(),
        texts(old(lines)@).is_prefix_of(texts(final(lines)@)),
        is_added(
            *old(index),
            old(store)@,
            *final(index),
            final(store)@,
            request_of(wt@, *rules, paths@, options, index_path@),
            r,
            texts(final(lines)@).subrange(old(lines)@.len() as int, final(lines)@.len() as int),
        ),
{
    let ghost q = request_of(wt@, *rules, paths@, options, index_path@);
    let ghost start = texts(lines@);
    let ghost es = index.es();
    let ghost m = store@;
    if paths.len() == 0 {
        assert(start.subrange(lines@.len() as int, lines@.len() as int) =~= Seq::empty());
        return Err(AddError::NoPaths);
    }
    push_lines(lines, say_opening(index, wt, options.verbose));
    let files = resolve_files_to_add(index, store, wt, rules, paths, options, lines);
    let ghost fs = q.files_to_stage(es, m);
    proof {
        lemma_place_of_index(q, Seq::empty(), es, m);
    }
    push_line(lines, say_files(Ghost(wt@), &files));
    let ghost first = q.first_lines(index.data.header.generation as nat, es, m);
    assert(texts(lines@) =~= start + first);
    if files.len() == 0 {
        push_lines(lines, say_nothing(index, options.verbose));
        proof {
            lemma_behind(start, first + nothing_lines(es, options.verbose), texts(lines@));
        }
        return Ok(None);
    }
    say_staging(Ghost(wt@), &files, options.verbose, lines);
    let ghost staging = first + staging_lines(fs, options.verbose);
    if options.dry_run {
        say_would_add(Ghost(wt@), &files, lines);
        proof {
            lemma_behind(start, staging + would_add_lines(fs), texts(lines@));
        }
        return Ok(None);
    }
    let ghost staged = staging + stage_lines(es, fs, options.verbose);
    match stage_files(index, store, wt, &files, options, lines) {
        Ok(_) => {},
        Err(p) => {
            proof {
                lemma_behind(start, staged, texts(lines@));
            }
            return Err(AddError::NoTime(p));
        },
    }
    match index.persist() {
        Ok(b) => {
            say_staged(files.len(), index.generation(), index_path, options.verbose, lines);
            proof {
                let last = staged_lines(
                    fs.len(),
                    index.data.header.generation as nat,
                    index_path@,
                    options.verbose,
                );
                lemma_behind(start, staged + last, texts(lines@));
            }
            Ok(Some(b))
        },
        Err(e) => {
            proof {
                lemma_behind(start, staged, texts(lines@));
            }
            Err(AddError::Index(e))
        },
    }
}

/// What stands behind the start of a sequence.
proof fn lemma_behind(start: Seq<Seq<char>>, more: Seq<Seq<char>>, all: Seq<Seq<char>>)
    requires
        all =~= start + more,
    ensures
        start.is_prefix_of(all),
        all.subrange(start.len() as int, all.len() as int) == more,
{
    assert(all.subrange(start.len() as int, all.len() as int) =~= more);
}

/// Where the index file is has no part in which files are to be staged.
proof fn lemma_place_of_index(
    q: AddRequest,
    index_path: Seq<char>,
    es: Seq<EntryView>,
    m: Objects,
)
    ensures
        q.files_to_stage(es, m) == (AddRequest { index_path, ..q }).files_to_stage(es, m),
        q.resolving_lines(es, m) == (AddRequest { index_path, ..q }).resolving_lines(es, m),
{
    let o = AddRequest { index_path, ..q };
    let p = |f: Seq<char>| q.stages(es, m, f);
    let p2 = |f: Seq<char>| o.stages(es, m, f);
    assert(p =~= p2);
    assert(q.files_to_stage(es, m) =~= o.files_to_stage(es, m));
}

/// Staging files enters each of them as tracked and staged, with the hash of its
/// contents, and leaves the entries of other paths alone.
pub proof fn staged_files_are_entered(es: Seq<EntryView>, fs: Seq<FileSeen>, n: int, k: int)
    requires
        0 <= k < n <= fs.len(),
        forall|i: int, j: int|
            0 <= i < j < fs.len() ==> !same_path(
                (#[trigger] fs[i]).path,
                (#[trigger] fs[j]).path,
            ),
    ensures
        ({
            let r = staged_into(es, fs, n);
            let at = first_entry(r, fs[k].path);
            &&& at < r.len()
            &&& r[at] == staged_entry(fs[k])
        }),
    decreases n,
{
    let before = staged_into(es, fs, n - 1);
    let e = staged_entry(fs[n - 1]);
    lemma_first_entry(before, e.path);
    lemma_upsert(before, e, fs[k].path);
    if k < n - 1 {
        staged_files_are_entered(es, fs, n - 1, k);
        assert(!same_path(fs[k].path, fs[n - 1].path));
    }
}

/// After an entry has replaced the first of its path, or has been added, it is
/// the first of its path, and other paths are not affected.
proof fn lemma_upsert(es: Seq<EntryView>, e: EntryView, p: Seq<char>)
    ensures
        ({
            let r = upsert(es, e);
            let a = first_entry(es, p);
            let b = first_entry(r, p);
            &&& same_path(p, e.path) ==> b < r.len() && r[b] == e
            &&& !same_path(p, e.path) && a < es.len() ==> b == a && r[b] == es[a]
            &&& !same_path(p, e.path) && a == es.len() ==> b == r.len()
        }),
{
    let r = upsert(es, e);
    let k = first_entry(es, e.path);
    lemma_first_entry(es, e.path);
    lemma_first_entry(es, p);
    lemma_first_entry(r, p);
    let a = first_entry(es, p);
    let b = first_entry(r, p);
    if same_path(p, e.path) {
        assert(r[k] == e);
        if b < k {
            assert(r[b] == es[b]);
        }
        if k < b {
            assert(!same_path(r[k].path, p));
        }
    } else if a < es.len() {
        assert(r[a] == es[a]);
        if b < a {
            if b == k {
                assert(r[b] == e);
            } else {
                assert(r[b] == es[b]);
            }
        }
        if a < b {
            assert(!same_path(r[a].path, p));
        }
    } else {
        if b < r.len() {
            if b == k {
                assert(r[b] == e);
            } else {
                assert(r[b] == es[b]);
            }
        }
    }
}

pub proof fn lemma_contents_put(m: Objects, fs: Seq<FileSeen>, n: int, k: int)
    requires
        0 <= k < n <= fs.len(),
    ensures
        put_contents(m, fs, n).contains_key(
            (ObjectType::Blob, blake3_digest(fs[k].content)@),
        ),
    decreases n,
{
    if k < n - 1 {
        lemma_contents_put(m, fs, n - 1, k);
    }
}

/// Adding a file again right after it was staged does nothing, unless it is
/// forced: it does not need adding.
pub proof fn adding_is_idempotent(es: Seq<EntryView>, m: Objects, fs: Seq<FileSeen>, k: int)
    requires
        0 <= k < fs.len(),
        fs[k].mtime is Some,
        forall|i: int, j: int|
            0 <= i < j < fs.len() ==> !same_path(
                (#[trigger] fs[i]).path,
                (#[trigger] fs[j]).path,
            ),
    ensures
        !needs_add(
            staged_into(es, fs, fs.len() as int),
            put_contents(m, fs, fs.len() as int),
            fs[k],
            false,
        ),
{
    let n = fs.len() as int;
    let r = staged_into(es, fs, n);
    staged_files_are_entered(es, fs, n, k);
    lemma_contents_put(m, fs, n, k);
    let at = first_entry(r, fs[k].path);
    lemma_first_entry(r, fs[k].path);
    assert(1u32 | 2u32 == 3u32 && 3u32 & 1u32 == 1u32) by (bit_vector);
    assert(r[at].flags.has(EntryFlags::TRACKED));
    assert(tracked_path(r, fs[k].path));
}

/// Entering other files changes nothing about whether a path is tracked, nor about its
/// first entry, nor about which contents are stored.
proof fn lemma_others_kept(es: Seq<EntryView>, m: Objects, fs: Seq<FileSeen>, n: int, p: Seq<char>)
    requires
        0 <= n <= fs.len(),
        forall|i: int| 0 <= i < n ==> !same_path((#[trigger] fs[i]).path, p),
        tracked_path(es, p),
    ensures
        tracked_path(staged_into(es, fs, n), p),
        first_entry(es, p) < es.len(),
        first_entry(staged_into(es, fs, n), p) < staged_into(es, fs, n).len(),
        staged_into(es, fs, n)[first_entry(staged_into(es, fs, n), p)] == es[first_entry(es, p)],
        forall|k: (ObjectType, Seq<u8>)| #[trigger]
            m.contains_key(k) ==> put_contents(m, fs, n).contains_key(k),
    decreases n,
{
    lemma_first_entry(es, p);
    if n > 0 {
        lemma_others_kept(es, m, fs, n - 1, p);
        let before = staged_into(es, fs, n - 1);
        let e = staged_entry(fs[n - 1]);
        lemma_upsert(before, e, p);
        lemma_first_entry(before, e.path);
        let r = staged_into(es, fs, n);
        let j = choose|j: int|
            0 <= j < before.len() && same_path((#[trigger] before[j]).path, p)
                && before[j].flags.has(EntryFlags::TRACKED);
        assert(r[j] == before[j]);
    }
}

/// A second call with the same paths, on the same files, changes nothing, unless it is
/// forced: once the first has succeeded, the index, its generation and the store stay as
/// they are, and no index file is made.
pub proof fn adding_twice_is_adding_once(
    before: HelixIndexData,
    m: Objects,
    after: HelixIndexData,
    m2: Objects,
    last: HelixIndexData,
    m3: Objects,
    q: AddRequest,
    r: Result<Option<Vec<u8>>, AddError>,
    said: Seq<Seq<char>>,
    r2: Result<Option<Vec<u8>>, AddError>,
    said2: Seq<Seq<char>>,
)
    requires
        is_added(before, m, after, m2, q, r, said),
        r is Ok,
        !q.options.force,
        is_added(after, m2, last, m3, q, r2, said2),
    ensures
        r2 == Ok::<Option<Vec<u8>>, AddError>(None),
        last == after,
        m3 == m2,
{
    let fs = q.files_to_stage(before.es(), m);
    let again = q.paths_to_stage(after.es(), m2);
    if fs.len() > 0 && !q.options.dry_run {
        lemma_timed_most(fs);
        lemma_nothing_left(q, before.es(), m);
        assert(again.len() == 0);
        assert(q.files_to_stage(after.es(), m2).len() == 0);
    }
}

/// A dry run leaves the index, its generation and the store as they are, and so does a call
/// without paths, which fails.
pub proof fn dry_runs_change_nothing(
    before: HelixIndexData,
    m: Objects,
    after: HelixIndexData,
    m2: Objects,
    q: AddRequest,
    r: Result<Option<Vec<u8>>, AddError>,
    said: Seq<Seq<char>>,
)
    requires
        is_added(before, m, after, m2, q, r, said),
        q.options.dry_run || q.paths.len() == 0,
    ensures
        after == before,
        m2 == m,
        r is Err <==> q.paths.len() == 0,
        r matches Ok(file) ==> file is None,
{
}

/// After the files to be staged were staged, none is left.
proof fn lemma_nothing_left(q: AddRequest, es: Seq<EntryView>, m: Objects)
    requires
        !q.options.force,
        timed(q.files_to_stage(es, m)) == q.files_to_stage(es, m).len(),
    ensures
        ({
            let fs = q.files_to_stage(es, m);
            let n = fs.len() as int;
            q.paths_to_stage(staged_into(es, fs, n), put_contents(m, fs, n)).len() == 0
        }),
{
    let fs = q.files_to_stage(es, m);
    let n = fs.len() as int;
    let es2 = staged_into(es, fs, n);
    let m2 = put_contents(m, fs, n);
    let ps = q.paths_to_stage(es, m);
    let again = q.paths_to_stage(es2, m2);
    files_to_stage_are_selected(q, es, m);
    files_to_stage_are_selected(q, es2, m2);
    if again.len() > 0 {
        let f = again[0];
        assert(again.contains(f));
        let file = file_for(q.files(), f);
        crate::add_select::expanded_paths_are_selected(q.wt, q.paths);
        assert(q.candidates().contains(f));
        lemma_file_for_path(q.files(), f);
        assert forall|i: int, j: int| 0 <= i < j < fs.len() implies !same_path(
            (#[trigger] fs[i]).path,
            (#[trigger] fs[j]).path,
        ) by {
            assert(!same_path(ps[i], ps[j]));
            assert(fs[i].path == ps[i] && fs[j].path == ps[j]);
        }
        if ps.contains(f) {
            let k = choose|k: int| 0 <= k < ps.len() && ps[k] == f;
            assert(fs[k] == file);
            lemma_all_timed(fs, k);
            adding_is_idempotent(es, m, fs, k);
        } else {
            let cs = q.candidates();
            assert(cs.contains(f));
            let l = choose|l: int| 0 <= l < cs.len() && cs[l] == f;
            assert forall|i: int| 0 <= i < n implies !same_path((#[trigger] fs[i]).path, f) by {
                assert(ps.contains(ps[i]));
                assert(fs[i].path == ps[i]);
                assert(cs.contains(ps[i]));
                let k = choose|k: int| 0 <= k < cs.len() && cs[k] == ps[i];
                assert(k != l);
                if k < l {
                    assert(!same_path(cs[k], cs[l]));
                } else {
                    assert(!same_path(cs[l], cs[k]));
                }
            }
            assert(!q.stages(es, m, f));
            assert(!needs_add(es, m, file, false));
            lemma_others_kept(es, m, fs, n, f);
        }
    }
}

/// Adds files as `add` does, where the generation of the index can be counted up if it
/// has to be. Where it cannot, nothing is done.
pub fn try_add(
    index: &mut HelixIndexData,
    store: &mut ObjectStore,
    wt: &Vec<WorkFile>,
    rules: &IgnoreRules,
    paths: &Vec<String>,
    options: AddOptions,
    index_path: &str,
    lines: &mut Vec<String>,
) -> (r: Option<Result<Option<Vec<u8>>, AddError>>)
    requires
        old(store).wf(),
    ensures
        final(store).wf(),
        ({
            let q = request_of(wt@, *rules, paths@, options, index_path@);
            match r {
                Some(x) => {
                    &&& !(counts_up(old(index).es(), old(store)@, q)
                        && old(index).data.header.generation == u64::MAX)
                    &&& texts(old(lines)@).is_prefix_of(texts(final(lines)@))
                    &&& is_added(
                        *old(index),
                        old(store)@,
                        *final(index),
                        final(store)@,
                        q,
                        x,
                        texts(final(lines)@).subrange(
                            old(lines)@.len() as int,
                            final(lines)@.len() as int,
                        ),
                    )
                },
                None => {
                    &&& counts_up(old(index).es(), old(store)@, q)
                    &&& old(index).data.header.generation == u64::MAX
                    &&& *final(index) == *old(index)
                    &&& final(store)@ == old(store)@
                    &&& final(lines)@ == old(lines)@
                },
            }
        }),
{
    if index.generation() == u64::MAX && paths.len() > 0 && !options.dry_run {
        let ghost q = request_of(wt@, *rules, paths@, options, index_path@);
        let mut unsaid: Vec<String> = Vec::new();
        let files = resolve_files_to_add(index, store, wt, rules, paths, options, &mut unsaid);
        let ghost fs = named(wt@, files@);
        proof {
            lemma_place_of_index(q, Seq::empty(), index.es(), store@);
        }
        let mut i: usize = 0;
        while i < files.len() && wt[files[i].at].mtime.is_some()
            invariant
                i <= files.len(),
                fs == named(wt@, files@),
                are_placed(wt@, files@),
                forall|k: int| 0 <= k < i ==> (#[trigger] fs[k]).mtime is Some,
            decreases files.len() - i,
        {
            assert(fs[i as int].mtime == wt@[files@[i as int].at as int].mtime);
            i += 1;
        }
        proof {
            if i < files@.len() {
                assert(fs[i as int].mtime == wt@[files@[i as int].at as int].mtime);
            }
            lemma_timed(fs, i as int);
        }
        if files.len() > 0 && i == files.len() {
            return None;
        }
    }
    Some(self::add(index, store, wt, rules, paths, options, index_path, lines))
}

/// Where all leading files with a known time are all files, each has one.
pub proof fn lemma_all_timed(fs: Seq<FileSeen>, k: int)
    requires
        timed(fs) == fs.len(),
        0 <= k < fs.len(),
    ensures
        fs[k].mtime is Some,
    decreases fs.len(),
{
    if k > 0 {
        let t = fs.subrange(1, fs.len() as int);
        lemma_timed_most(t);
        lemma_all_timed(t, k - 1);
        assert(t[k - 1] == fs[k]);
    }
}

pub proof fn lemma_timed_most(fs: Seq<FileSeen>)
    ensures
        0 <= timed(fs) <= fs.len(),
    decreases fs.len(),
{
    if fs.len() > 0 && fs[0].mtime is Some {
        lemma_timed_most(fs.subrange(1, fs.len() as int));
    }
}

/// Files with the same contents share one object.
pub proof fn same_contents_share_a_blob(f: FileSeen, g: FileSeen)
    requires
        f.content == g.content,
    ensures
        staged_entry(f).oid == staged_entry(g).oid,
        forall|m: Objects| #[trigger]
            put_object(
                put_object(m, ObjectType::Blob, f.content),
                ObjectType::Blob,
                g.content,
            ) == put_object(m, ObjectType::Blob, f.content),
{
}

} // verus!
