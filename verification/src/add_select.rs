//! Which files of the working tree the paths of a command mean.
use vstd::prelude::*;
use vstd::string::*;

use globset::GlobSet;

use crate::add_command::{seen, FileSeen, WorkFile};
use crate::ignore::{any_matches, compile_pattern, pattern_of, set_covers, set_globs};
use crate::order::{in_order, sorted, ByPath};
use crate::path::{
    are_distinct, begins_with, has_path, is_name, lists_path, names_in, path_names, plain_path,
    same_path,
};
use crate::text::{split, split_spec, str_eq, texts, to_chars};

verus! {

/// Whether one of the files has this path.
pub open spec fn has_file(fs: Seq<FileSeen>, path: Seq<char>) -> bool {
    exists|i: int| 0 <= i < fs.len() && (#[trigger] fs[i]).path == path
}

/// The first of the files with this path.
pub open spec fn file_for(fs: Seq<FileSeen>, path: Seq<char>) -> FileSeen
    decreases fs.len(),
{
    if fs.len() <= 1 || fs[0].path == path {
        fs[0]
    } else {
        file_for(fs.subrange(1, fs.len() as int), path)
    }
}

pub proof fn lemma_file_for(fs: Seq<FileSeen>, path: Seq<char>, i: int)
    requires
        0 <= i < fs.len(),
        fs[i].path == path,
        forall|j: int| 0 <= j < i ==> (#[trigger] fs[j]).path != path,
    ensures
        file_for(fs, path) == fs[i],
    decreases fs.len(),
{
    if i > 0 {
        let t = fs.subrange(1, fs.len() as int);
        assert(fs[0].path != path);
        assert forall|j: int| 0 <= j < i - 1 implies (#[trigger] t[j]).path != path by {
            assert(t[j] == fs[j + 1]);
        }
        lemma_file_for(t, path, i - 1);
    }
}

/// Whether some of the names are those of an internal directory.
pub open spec fn is_internal(names: Seq<Seq<char>>) -> bool {
    names.contains(".git"@) || names.contains(".helix"@)
}

/// Whether a path can be that of a file: it ends in a name.
pub open spec fn ends_in_name(p: Seq<char>) -> bool {
    is_name(split_spec(p, '/').last())
}

/// Whether a path starts from the root of the file system.
pub open spec fn is_absolute(p: Seq<char>) -> bool {
    p.len() > 0 && p[0] == '/'
}

/// Whether the directory `p` holds the file `f`, at any depth, by their names. The
/// working tree holds every file.
pub open spec fn dir_holds(p: Seq<char>, f: Seq<char>) -> bool {
    path_names(p).is_prefix_of(path_names(f))
}

/// Whether `p` is a directory that holds files.
pub open spec fn has_dir(fs: Seq<FileSeen>, p: Seq<char>) -> bool {
    exists|i: int| 0 <= i < fs.len() && dir_holds(p, (#[trigger] fs[i]).path)
}

/// The names in the path of a file, from the directory `p` on.
pub open spec fn names_from(p: Seq<char>, f: Seq<char>) -> Seq<Seq<char>> {
    let n = path_names(p).len() as int;
    let names = path_names(f);
    if n == 0 {
        names
    } else {
        names.subrange(n - 1, names.len() as int)
    }
}

/// Whether a path means the file `f`: the file itself; for a directory the files below
/// it, without those in internal directories at or below it; and where it is neither,
/// the files that it matches as a pattern. A path from the root means no file of the
/// working tree.
pub open spec fn selects(fs: Seq<FileSeen>, p: Seq<char>, f: Seq<char>) -> bool {
    if is_absolute(p) {
        false
    } else if has_file(fs, plain_path(p)) {
        ends_in_name(p) && f == plain_path(p)
    } else if has_dir(fs, p) {
        dir_holds(p, f) && !is_internal(names_from(p, f))
    } else {
        any_matches(pattern_of(plain_path(p)), f) && !is_internal(path_names(f))
    }
}

/// Whether one of the paths means the file `f`.
pub open spec fn selected(fs: Seq<FileSeen>, ps: Seq<Seq<char>>, f: Seq<char>) -> bool {
    has_file(fs, f) && exists|j: int| 0 <= j < ps.len() && selects(fs, #[trigger] ps[j], f)
}

/// The names of a path after each `..` has taken away the name before it. One with no
/// name before it stays.
pub open spec fn resolved(names: Seq<Seq<char>>) -> Seq<Seq<char>>
    decreases names.len(),
{
    if names.len() == 0 {
        names
    } else {
        let r = resolved(names.drop_last());
        let x = names.last();
        if x == ".."@ && r.len() > 0 && r.last() != ".."@ {
            r.drop_last()
        } else {
            r.push(x)
        }
    }
}

/// Whether the names are those of a directory that holds files.
pub open spec fn is_dir_at(fs: Seq<FileSeen>, names: Seq<Seq<char>>) -> bool {
    exists|i: int|
        0 <= i < fs.len() && names.is_prefix_of(path_names((#[trigger] fs[i]).path)) && names.len()
            < path_names(fs[i].path).len()
}

/// Whether each `..` leads back out of a directory.
#[verifier::opaque]
pub open spec fn can_pass(fs: Seq<FileSeen>, names: Seq<Seq<char>>) -> bool {
    forall|k: int|
        0 <= k < names.len() && (#[trigger] names[k]) == ".."@ ==> is_dir_at(
            fs,
            resolved(names.subrange(0, k)),
        )
}

/// Whether a path leads through `..`, and all directories on the way are there.
pub open spec fn leads_up(fs: Seq<FileSeen>, p: Seq<char>) -> bool {
    path_names(p).contains(".."@) && can_pass(fs, path_names(p))
}

/// The file `f` by the path `p` that leads to it, or to a directory that holds it,
/// through `..`. It goes by the names of that path.
pub open spec fn by_way_of(p: Seq<char>, f: FileSeen) -> FileSeen {
    let names = path_names(f.path);
    let r = resolved(path_names(p));
    FileSeen {
        path: crate::text::join_spec(
            path_names(p) + names.subrange(r.len() as int, names.len() as int),
            "/"@,
        ),
        ..f
    }
}

/// The first `n` files by a path that leads to them through `..`.
pub open spec fn ways(fs: Seq<FileSeen>, p: Seq<char>, n: int) -> Seq<FileSeen>
    decreases n,
{
    if n <= 0 {
        Seq::empty()
    } else {
        let before = ways(fs, p, n - 1);
        let f = fs[n - 1];
        if leads_up(fs, p) && resolved(path_names(p)).is_prefix_of(path_names(f.path)) {
            before.push(by_way_of(p, f))
        } else {
            before
        }
    }
}

/// The files by those of the paths that lead to them through `..`.
pub open spec fn all_ways(fs: Seq<FileSeen>, ps: Seq<Seq<char>>) -> Seq<FileSeen>
    decreases ps.len(),
{
    if ps.len() == 0 {
        Seq::empty()
    } else {
        all_ways(fs, ps.drop_last()) + ways(fs, ps.last(), fs.len() as int)
    }
}

/// The files as the paths name them: those of the working tree, and behind them those
/// that paths lead to through `..`.
pub open spec fn followed(fs: Seq<FileSeen>, ps: Seq<Seq<char>>) -> Seq<FileSeen> {
    fs + all_ways(fs, ps)
}

/// The paths of the first `n` files that the paths mean, each once.
pub open spec fn found(fs: Seq<FileSeen>, ps: Seq<Seq<char>>, n: int) -> Seq<Seq<char>>
    decreases n,
{
    if n <= 0 {
        Seq::empty()
    } else {
        let before = found(fs, ps, n - 1);
        let f = fs[n - 1].path;
        if selected(fs, ps, f) && !has_path(before, f) {
            before.push(f)
        } else {
            before
        }
    }
}

/// The paths of the files that the paths mean, each once, in order.
pub open spec fn expanded(fs: Seq<FileSeen>, ps: Seq<Seq<char>>) -> Seq<Seq<char>> {
    let all = followed(fs, ps);
    sorted::<ByPath, Seq<char>>(found(all, ps, all.len() as int))
}

/// A file by a path that leads to it.
#[derive(Debug)]
pub struct Named {
    pub path: String,
    /// Its place in the working tree.
    pub at: usize,
}

/// Whether the places are those of files.
pub open spec fn are_placed(wt: Seq<WorkFile>, v: Seq<Named>) -> bool {
    forall|i: int| 0 <= i < v.len() ==> (#[trigger] v[i]).at < wt.len()
}

/// A named file as it is seen.
pub open spec fn seen_as(wt: Seq<WorkFile>, n: Named) -> FileSeen {
    FileSeen { path: n.path@, ..wt[n.at as int]@ }
}

/// Named files as they are seen.
pub open spec fn named(wt: Seq<WorkFile>, v: Seq<Named>) -> Seq<FileSeen> {
    Seq::new(v.len(), |i: int| seen_as(wt, v[i]))
}

/// The names of a path after each `..` has taken away the name before it.
fn resolve_names(names: &Vec<String>, n: usize) -> (r: Vec<String>)
    requires
        n <= names@.len(),
    ensures
        texts(r@) == resolved(texts(names@).subrange(0, n as int)),
{
    let ghost ns = texts(names@);
    let mut r: Vec<String> = Vec::new();
    let mut i: usize = 0;
    assert(texts(r@) =~= resolved(ns.subrange(0, 0)));
    while i < n
        invariant
            i <= n <= names@.len(),
            ns == texts(names@),
            texts(r@) == resolved(ns.subrange(0, i as int)),
        decreases n - i,
    {
        let ghost before = texts(r@);
        proof {
            let t = ns.subrange(0, i + 1);
            assert(t.drop_last() =~= ns.subrange(0, i as int));
            assert(t.last() == names@[i as int]@);
        }
        let up: bool = str_eq(names[i].as_str(), "..");
        let last: usize = r.len();
        if up && last > 0 && !str_eq(r[last - 1].as_str(), "..") {
            assert(before.last() == r@.last()@);
            r.pop();
            assert(texts(r@) =~= before.drop_last());
        } else {
            proof {
                if last > 0 {
                    assert(before.last() == r@.last()@);
                }
            }
            r.push(names[i].clone());
            assert(texts(r@) =~= before.push(names@[i as int]@));
        }
        i += 1;
    }
    r
}

/// Whether the names are those of a directory that holds files.
fn dir_at(wt: &Vec<WorkFile>, names: &Vec<String>) -> (r: bool)
    ensures
        r == is_dir_at(seen(wt@), texts(names@)),
{
    let ghost fs = seen(wt@);
    let mut i: usize = 0;
    while i < wt.len()
        invariant
            i <= wt.len(),
            fs == seen(wt@),
            forall|j: int|
                0 <= j < i ==> !(texts(names@).is_prefix_of(path_names((#[trigger] fs[j]).path))
                    && names@.len() < path_names(fs[j].path).len()),
        decreases wt.len() - i,
    {
        let inner = names_in(wt[i].path.as_str());
        assert(fs[i as int].path == wt@[i as int].path@);
        assert(texts(inner@).len() == inner@.len());
        if names.len() < inner.len() && begins_with(&inner, names) {
            assert(texts(names@).len() == names@.len());
            return true;
        }
        i += 1;
    }
    assert(texts(names@).len() == names@.len());
    false
}

/// Whether a path with these names leads through `..`, and all directories on the way
/// are there.
fn goes_up(wt: &Vec<WorkFile>, names: &Vec<String>) -> (r: bool)
    ensures
        r == (texts(names@).contains(".."@) && can_pass(seen(wt@), texts(names@))),
{
    reveal(can_pass);
    let ghost ns = texts(names@);
    let mut up: bool = false;
    let mut k: usize = 0;
    while k < names.len()
        invariant
            k <= names.len(),
            ns == texts(names@),
            up == exists|j: int| 0 <= j < k && (#[trigger] ns[j]) == ".."@,
            forall|j: int|
                0 <= j < k && (#[trigger] ns[j]) == ".."@ ==> is_dir_at(
                    seen(wt@),
                    resolved(ns.subrange(0, j)),
                ),
        decreases names.len() - k,
    {
        assert(ns[k as int] == names@[k as int]@);
        if str_eq(names[k].as_str(), "..") {
            up = true;
            let before = resolve_names(names, k);
            if !dir_at(wt, &before) {
                reveal(can_pass);
                assert(!can_pass(seen(wt@), ns));
                return false;
            }
        }
        k += 1;
    }
    proof {
        if up {
            let j = choose|j: int| 0 <= j < k && (#[trigger] ns[j]) == ".."@;
            assert(ns.contains(ns[j]));
        }
    }
    up
}

/// The path of all names of `a` and those of `b` from the one at `from` on.
fn joined(a: &Vec<String>, b: &Vec<String>, from: usize) -> (r: String)
    requires
        from <= b@.len(),
    ensures
        r@ == crate::text::join_spec(
            texts(a@) + texts(b@).subrange(from as int, b@.len() as int),
            "/"@,
        ),
{
    let mut parts: Vec<String> = Vec::new();
    push_texts(&mut parts, a, 0);
    push_texts(&mut parts, b, from);
    assert(texts(parts@) =~= texts(a@) + texts(b@).subrange(from as int, b@.len() as int));
    crate::text::join(parts.as_slice(), "/")
}

/// Adds the files that a path leads to through `..`.
fn push_ways(wt: &Vec<WorkFile>, p: &str, out: &mut Vec<Named>)
    requires
        are_placed(wt@, old(out)@),
    ensures
        are_placed(wt@, final(out)@),
        named(wt@, final(out)@) == named(wt@, old(out)@) + ways(
            seen(wt@),
            p@,
            wt@.len() as int,
        ),
{
    let ghost fs = seen(wt@);
    let ghost start = named(wt@, out@);
    let names = names_in(p);
    if !goes_up(wt, &names) {
        proof {
            lemma_no_ways(fs, p@, wt@.len() as int);
            assert(start + Seq::<FileSeen>::empty() =~= start);
        }
        return;
    }
    let n: usize = names.len();
    assert(texts(names@).subrange(0, n as int) =~= texts(names@));
    let r = resolve_names(&names, n);
    let mut i: usize = 0;
    assert(start + ways(fs, p@, 0) =~= start);
    while i < wt.len()
        invariant
            i <= wt.len(),
            fs == seen(wt@),
            leads_up(fs, p@),
            texts(names@) == path_names(p@),
            texts(r@) == resolved(path_names(p@)),
            are_placed(wt@, out@),
            named(wt@, out@) == start + ways(fs, p@, i as int),
        decreases wt.len() - i,
    {
        let ghost before = named(wt@, out@);
        let inner = names_in(wt[i].path.as_str());
        assert(fs[i as int] == wt@[i as int]@);
        if begins_with(&inner, &r) {
            proof {
                assert(texts(inner@).len() == inner@.len());
                assert(texts(r@).len() == r@.len());
            }
            let n = Named { path: joined(&names, &inner, r.len()), at: i };
            out.push(n);
            proof {
                assert(seen_as(wt@, n) == by_way_of(p@, fs[i as int]));
                assert(named(wt@, out@) =~= before.push(seen_as(wt@, n)));
                assert(named(wt@, out@) =~= start + ways(fs, p@, i + 1));
            }
        }
        i += 1;
    }
}

proof fn lemma_no_ways(fs: Seq<FileSeen>, p: Seq<char>, n: int)
    requires
        !leads_up(fs, p),
    ensures
        ways(fs, p, n) == Seq::<FileSeen>::empty(),
    decreases n,
{
    if n > 0 {
        lemma_no_ways(fs, p, n - 1);
    }
}

/// Appends the texts from `from` on.
fn push_texts(out: &mut Vec<String>, more: &Vec<String>, from: usize)
    requires
        from <= more@.len(),
    ensures
        texts(final(out)@) == texts(old(out)@) + texts(more@).subrange(
            from as int,
            more@.len() as int,
        ),
{
    let ghost start = texts(out@);
    let ghost t = texts(more@);
    let mut i: usize = from;
    assert(start + t.subrange(from as int, from as int) =~= start);
    while i < more.len()
        invariant
            from <= i <= more.len(),
            t == texts(more@),
            texts(out@) == start + t.subrange(from as int, i as int),
        decreases more.len() - i,
    {
        let ghost before = texts(out@);
        out.push(more[i].clone());
        proof {
            assert(texts(out@) =~= before.push(t[i as int]));
            assert(texts(out@) =~= start + t.subrange(from as int, i + 1));
        }
        i += 1;
    }
}

/// The files as the paths name them.
pub fn follow(wt: &Vec<WorkFile>, paths: &Vec<String>) -> (r: Vec<Named>)
    ensures
        are_placed(wt@, r@),
        named(wt@, r@) == followed(seen(wt@), texts(paths@)),
{
    let ghost fs = seen(wt@);
    let ghost ps = texts(paths@);
    let mut r: Vec<Named> = Vec::new();
    let mut i: usize = 0;
    assert(named(wt@, r@) =~= fs.subrange(0, 0));
    while i < wt.len()
        invariant
            i <= wt.len(),
            fs == seen(wt@),
            are_placed(wt@, r@),
            named(wt@, r@) == fs.subrange(0, i as int),
        decreases wt.len() - i,
    {
        let ghost before = named(wt@, r@);
        let n = Named { path: wt[i].path.clone(), at: i };
        r.push(n);
        proof {
            assert(seen_as(wt@, n) == fs[i as int]);
            assert(named(wt@, r@) =~= before.push(seen_as(wt@, n)));
            assert(named(wt@, r@) =~= fs.subrange(0, i + 1));
        }
        i += 1;
    }
    let mut k: usize = 0;
    assert(fs.subrange(0, i as int) =~= fs);
    assert(fs + all_ways(fs, ps.subrange(0, 0)) =~= fs);
    while k < paths.len()
        invariant
            k <= paths.len(),
            fs == seen(wt@),
            ps == texts(paths@),
            are_placed(wt@, r@),
            named(wt@, r@) == fs + all_ways(fs, ps.subrange(0, k as int)),
        decreases paths.len() - k,
    {
        push_ways(wt, paths[k].as_str(), &mut r);
        proof {
            let t = ps.subrange(0, k + 1);
            assert(t.drop_last() =~= ps.subrange(0, k as int));
            assert(t.last() == paths@[k as int]@);
            assert(named(wt@, r@) =~= fs + all_ways(fs, t));
        }
        k += 1;
    }
    assert(ps.subrange(0, k as int) =~= ps);
    r
}

/// The place of the file with this path.
pub(crate) fn find_named(Ghost(wt): Ghost<Seq<WorkFile>>, v: &Vec<Named>, path: &str) -> (r: Option<
    usize,
>)
    ensures
        match r {
            Some(i) => i < v@.len() && file_for(named(wt, v@), path@) == seen_as(wt, v@[i as int])
                && v@[i as int].path@ == path@,
            None => !has_file(named(wt, v@), path@),
        },
{
    let ghost fs = named(wt, v@);
    let mut i: usize = 0;
    while i < v.len()
        invariant
            i <= v.len(),
            fs == named(wt, v@),
            forall|j: int| 0 <= j < i ==> (#[trigger] fs[j]).path != path@,
        decreases v.len() - i,
    {
        assert(fs[i as int].path == v@[i as int].path@);
        if str_eq(v[i].path.as_str(), path) {
            proof {
                lemma_file_for(fs, path@, i as int);
            }
            return Some(i);
        }
        i += 1;
    }
    None
}

/// What a path stands for.
enum Target {
    /// The file with this path.
    Exactly(String),
    /// Nothing.
    Nothing,
    /// The directory with these names.
    Below(Vec<String>),
    /// The files that a pattern matches.
    Matching(GlobSet),
}

/// Whether a target is what the path `p` stands for.
spec fn is_target(t: Target, fs: Seq<FileSeen>, p: Seq<char>) -> bool {
    if is_absolute(p) {
        t is Nothing
    } else if has_file(fs, plain_path(p)) {
        if ends_in_name(p) {
            t matches Target::Exactly(q) && q@ == plain_path(p)
        } else {
            t is Nothing
        }
    } else if has_dir(fs, p) {
        t matches Target::Below(v) && texts(v@) == path_names(p)
    } else {
        t matches Target::Matching(s) && set_globs(s) == pattern_of(plain_path(p))
    }
}

/// What the path `p` stands for.
fn target_of(Ghost(wt): Ghost<Seq<WorkFile>>, v: &Vec<Named>, p: &str) -> (t: Target)
    ensures
        is_target(t, named(wt, v@), p@),
{
    let ghost fs = named(wt, v@);
    let chars = to_chars(p);
    if chars.len() > 0 && chars[0] == '/' {
        return Target::Nothing;
    }
    let names = names_in(p);
    let parts = split(p, '/');
    let plain = crate::text::join(names.as_slice(), "/");
    proof {
        assert(split_spec(p@, '/').len() > 0);
        assert(texts(parts@).last() == parts@.last()@);
    }
    match find_named(Ghost(wt), v, plain.as_str()) {
        Some(k) => {
            assert(fs[k as int].path == plain@);
            let last = parts[parts.len() - 1].as_str();
            if last.is_empty() || str_eq(last, ".") {
                Target::Nothing
            } else {
                Target::Exactly(plain)
            }
        },
        None => {
            let mut i: usize = 0;
            while i < v.len()
                invariant
                    i <= v.len(),
                    fs == named(wt, v@),
                    !is_absolute(p@),
                    !has_file(fs, plain_path(p@)),
                    texts(names@) == path_names(p@),
                    forall|j: int| 0 <= j < i ==> !dir_holds(p@, (#[trigger] fs[j]).path),
                decreases v.len() - i,
            {
                let below = names_in(v[i].path.as_str());
                assert(fs[i as int].path == v@[i as int].path@);
                if begins_with(&below, &names) {
                    assert(dir_holds(p@, fs[i as int].path));
                    return Target::Below(names);
                }
                i += 1;
            }
            Target::Matching(compile_pattern(plain.as_str()))
        },
    }
}

/// Whether some of the names, from the one at `from` on, are those of an internal
/// directory.
fn goes_inside(names: &Vec<String>, from: usize) -> (r: bool)
    requires
        from <= names@.len(),
    ensures
        r == is_internal(texts(names@).subrange(from as int, names@.len() as int)),
{
    let ghost t = texts(names@).subrange(from as int, names@.len() as int);
    let mut i: usize = from;
    while i < names.len()
        invariant
            from <= i <= names.len(),
            t == texts(names@).subrange(from as int, names@.len() as int),
            forall|j: int| 0 <= j < i - from ==> t[j] != ".git"@ && t[j] != ".helix"@,
        decreases names.len() - i,
    {
        assert(t[i - from] == names@[i as int]@);
        if str_eq(names[i].as_str(), ".git") || str_eq(names[i].as_str(), ".helix") {
            assert(t.contains(t[i - from]));
            return true;
        }
        i += 1;
    }
    false
}

/// Whether a target means the file `f`.
fn target_selects(
    t: &Target,
    f: &str,
    Ghost(fs): Ghost<Seq<FileSeen>>,
    Ghost(p): Ghost<Seq<char>>,
) -> (r: bool)
    requires
        is_target(*t, fs, p),
    ensures
        r == selects(fs, p, f@),
{
    match t {
        Target::Exactly(q) => str_eq(f, q.as_str()),
        Target::Nothing => false,
        Target::Below(v) => {
            let names = names_in(f);
            if !begins_with(&names, v) {
                return false;
            }
            let from: usize = if v.len() == 0 {
                0
            } else {
                v.len() - 1
            };
            proof {
                let all = texts(names@);
                assert(texts(v@).len() <= all.len());
                assert(all.subrange(0, all.len() as int) =~= all);
            }
            !goes_inside(&names, from)
        },
        Target::Matching(s) => {
            if !set_covers(s, f) {
                return false;
            }
            let names = names_in(f);
            assert(texts(names@).subrange(0, names@.len() as int) =~= texts(names@));
            !goes_inside(&names, 0)
        },
    }
}

/// The files that the paths mean, each once, in the order of their paths.
pub fn expand_paths(wt: &Vec<WorkFile>, paths: &Vec<String>) -> (r: Vec<String>)
    ensures
        texts(r@) == expanded(seen(wt@), texts(paths@)),
{
    let v = follow(wt, paths);
    expand_named(Ghost(wt@), &v, paths)
}

/// The files that the paths mean, each once, in the order of their paths.
pub(crate) fn expand_named(
    Ghost(wt): Ghost<Seq<WorkFile>>,
    v: &Vec<Named>,
    paths: &Vec<String>,
) -> (r: Vec<String>)
    ensures
        ({
            let fs = named(wt, v@);
            let ps = texts(paths@);
            texts(r@) == sorted::<ByPath, Seq<char>>(found(fs, ps, fs.len() as int))
        }),
{
    let ghost fs = named(wt, v@);
    let ghost ps = texts(paths@);
    let mut targets: Vec<Target> = Vec::new();
    let mut k: usize = 0;
    while k < paths.len()
        invariant
            k <= paths.len(),
            fs == named(wt, v@),
            ps == texts(paths@),
            targets@.len() == k,
            forall|j: int| 0 <= j < k ==> is_target(#[trigger] targets@[j], fs, ps[j]),
        decreases paths.len() - k,
    {
        assert(ps[k as int] == paths@[k as int]@);
        targets.push(target_of(Ghost(wt), v, paths[k].as_str()));
        k += 1;
    }
    let mut r: Vec<String> = Vec::new();
    let mut i: usize = 0;
    assert(texts(r@) =~= Seq::empty());
    while i < v.len()
        invariant
            i <= v.len(),
            fs == named(wt, v@),
            ps == texts(paths@),
            targets@.len() == paths@.len(),
            forall|j: int| 0 <= j < targets@.len() ==> is_target(#[trigger] targets@[j], fs, ps[j]),
            texts(r@) == found(fs, ps, i as int),
        decreases v.len() - i,
    {
        let f = v[i].path.as_str();
        let ghost fv = fs[i as int].path;
        let mut hit: bool = false;
        let mut j: usize = 0;
        while j < paths.len() && !hit
            invariant
                j <= paths.len(),
                ps == texts(paths@),
                targets@.len() == paths@.len(),
                forall|j: int|
                    0 <= j < targets@.len() ==> is_target(#[trigger] targets@[j], fs, ps[j]),
                f@ == fv,
                hit ==> exists|k: int| 0 <= k < ps.len() && selects(fs, #[trigger] ps[k], fv),
                !hit ==> forall|k: int| 0 <= k < j ==> !selects(fs, #[trigger] ps[k], fv),
            decreases paths.len() - j,
        {
            hit = target_selects(&targets[j], f, Ghost(fs), Ghost(ps[j as int]));
            assert(hit == selects(fs, ps[j as int], fv));
            j += 1;
        }
        let ghost before = texts(r@);
        assert(has_file(fs, fv));
        assert(hit == selected(fs, ps, fv));
        if hit && !lists_path(&r, f) {
            r.push(v[i].path.clone());
            assert(texts(r@) =~= before.push(fv));
        }
        i += 1;
    }
    let ghost start = r@;
    crate::order::sort::<ByPath, String>(&mut r);
    proof {
        lemma_sorted_texts(start, r@);
    }
    r
}

proof fn lemma_found(fs: Seq<FileSeen>, ps: Seq<Seq<char>>, n: int)
    requires
        0 <= n <= fs.len(),
    ensures
        are_distinct(found(fs, ps, n)),
        forall|k: int|
            0 <= k < found(fs, ps, n).len() ==> selected(fs, ps, #[trigger] found(fs, ps, n)[k]),
        forall|k: int|
            0 <= k < n && selected(fs, ps, (#[trigger] fs[k]).path) ==> has_path(
                found(fs, ps, n),
                fs[k].path,
            ),
    decreases n,
{
    if n > 0 {
        lemma_found(fs, ps, n - 1);
        let before = found(fs, ps, n - 1);
        let now = found(fs, ps, n);
        let x = fs[n - 1].path;
        assert forall|i: int, j: int| 0 <= i < j < now.len() implies !same_path(
            #[trigger] now[i],
            #[trigger] now[j],
        ) by {
            assert(before[i] == now[i]);
            if j < before.len() {
                assert(before[j] == now[j]);
            } else if same_path(before[i], x) {
                assert(has_path(before, x));
            }
        }
        assert forall|k: int| 0 <= k < now.len() implies selected(fs, ps, #[trigger] now[k]) by {
            if k < before.len() {
                assert(before[k] == now[k]);
            }
        }
        assert forall|k: int| 0 <= k < n && selected(fs, ps, (#[trigger] fs[k]).path) implies has_path(
            now,
            fs[k].path,
        ) by {
            let p = fs[k].path;
            if has_path(before, p) {
                let i = choose|i: int| 0 <= i < before.len() && same_path(#[trigger] before[i], p);
                assert(same_path(now[i], p));
            } else {
                assert(k == n - 1);
                assert(same_path(now[before.len() as int], p));
            }
        }
    }
}

/// The paths that are expanded to are those of files that the paths mean, no two of them
/// the same, in order; and every file that the paths mean is among them.
pub proof fn expanded_paths_are_selected(fs: Seq<FileSeen>, ps: Seq<Seq<char>>)
    ensures
        are_distinct(expanded(fs, ps)),
        in_order::<ByPath, Seq<char>>(expanded(fs, ps)),
        forall|f: Seq<char>| #[trigger]
            expanded(fs, ps).contains(f) ==> selected(followed(fs, ps), ps, f),
        forall|f: Seq<char>| #[trigger]
            selected(followed(fs, ps), ps, f) ==> has_path(expanded(fs, ps), f),
{
    broadcast use vstd::seq_lib::group_to_multiset_ensures;

    let all = followed(fs, ps);
    let n = all.len() as int;
    let a = found(all, ps, n);
    let b = expanded(fs, ps);
    lemma_found(all, ps, n);
    crate::order::lemma_sorted_in_order::<ByPath, Seq<char>>(a);
    crate::order::lemma_sorted_permutation::<ByPath, Seq<char>>(a);
    assert(a.no_duplicates()) by {
        assert forall|i: int, j: int| 0 <= i < a.len() && 0 <= j < a.len() && i != j implies a[i]
            != a[j] by {
            if i < j {
                assert(!same_path(a[i], a[j]));
            } else {
                assert(!same_path(a[j], a[i]));
            }
        }
    }
    a.lemma_multiset_has_no_duplicates();
    b.lemma_multiset_has_no_duplicates_conv();
    assert forall|f: Seq<char>| b.contains(f) <==> #[trigger] a.contains(f) by {
        assert(b.to_multiset().count(f) == a.to_multiset().count(f));
    }
    assert forall|i: int, j: int| 0 <= i < j < b.len() implies !same_path(
        #[trigger] b[i],
        #[trigger] b[j],
    ) by {
        assert(b.contains(b[i]) && b.contains(b[j]));
        assert(a.contains(b[i]) && a.contains(b[j]));
        let k = choose|k: int| 0 <= k < a.len() && a[k] == b[i];
        let l = choose|l: int| 0 <= l < a.len() && a[l] == b[j];
        assert(b[i] != b[j]);
        if k < l {
            assert(!same_path(a[k], a[l]));
        } else {
            assert(!same_path(a[l], a[k]));
        }
    }
    assert forall|f: Seq<char>| #[trigger] b.contains(f) implies selected(all, ps, f) by {
        assert(a.contains(f));
        let k = choose|k: int| 0 <= k < a.len() && a[k] == f;
        assert(selected(all, ps, a[k]));
    }
    assert forall|f: Seq<char>| #[trigger] selected(all, ps, f) implies has_path(b, f) by {
        let k = choose|k: int| 0 <= k < all.len() && (#[trigger] all[k]).path == f;
        assert(has_path(a, all[k].path));
        let i = choose|i: int| 0 <= i < a.len() && same_path(#[trigger] a[i], f);
        assert(a.contains(a[i]));
        assert(b.contains(a[i]));
        let j = choose|j: int| 0 <= j < b.len() && b[j] == a[i];
        assert(same_path(b[j], f));
    }
}

/// What sorting paths does to their texts.
proof fn lemma_sorted_texts(a: Seq<String>, b: Seq<String>)
    requires
        b == sorted::<ByPath, String>(a),
    ensures
        texts(b) == sorted::<ByPath, Seq<char>>(texts(a)),
{
    let f = |s: String| s@;
    crate::order::lemma_sorted_mapped::<ByPath, String, ByPath, Seq<char>>(a, f);
    assert(texts(a) =~= a.map_values(f));
    assert(texts(b) =~= b.map_values(f));
}

/// Where no path leads through `..`, the files are named as they are in the working
/// tree.
pub proof fn plain_paths_add_no_names(fs: Seq<FileSeen>, ps: Seq<Seq<char>>)
    requires
        forall|i: int| 0 <= i < ps.len() ==> !path_names(#[trigger] ps[i]).contains(".."@),
    ensures
        followed(fs, ps) == fs,
    decreases ps.len(),
{
    if ps.len() > 0 {
        let d = ps.drop_last();
        assert forall|i: int| 0 <= i < d.len() implies !path_names(#[trigger] d[i]).contains(
            ".."@,
        ) by {
            assert(d[i] == ps[i]);
        }
        plain_paths_add_no_names(fs, d);
        assert(ps.last() == ps[ps.len() - 1]);
        lemma_no_ways(fs, ps.last(), fs.len() as int);
        assert(all_ways(fs, d).len() == 0) by {
            assert((fs + all_ways(fs, d)).len() == fs.len());
        }
    }
    assert(followed(fs, ps) =~= fs);
}

} // verus!
