//! Paths as text: names joined by `/`.
use vstd::prelude::*;
use vstd::string::*;

use crate::text::{
    after, find_from, first_at, from_chars, has_prefix, lemma_first_at, split, split_spec, str_eq,
    texts, to_chars,
};

verus! {

/// The place of the last `c` in `s`, or -1.
pub open spec fn last_at(s: Seq<char>, c: char) -> int
    decreases s.len(),
{
    if s.len() == 0 {
        -1
    } else if s.last() == c {
        s.len() - 1
    } else {
        last_at(s.drop_last(), c)
    }
}

/// Whether `s` holds a separator.
pub open spec fn has_slash(s: Seq<char>) -> bool {
    s.contains('/')
}

/// The first component of a path.
pub open spec fn head(s: Seq<char>) -> Seq<char> {
    s.subrange(0, first_at(s, '/'))
}

/// What follows the first component and its separator.
pub open spec fn tail(s: Seq<char>) -> Seq<char>
    recommends
        has_slash(s),
{
    after(s, first_at(s, '/') + 1)
}

/// The path without its last component: none for the empty path.
pub open spec fn parent_spec(s: Seq<char>) -> Option<Seq<char>> {
    let i = last_at(s, '/');
    if s.len() == 0 || s == seq!['/'] {
        None
    } else if i < 0 {
        Some(Seq::empty())
    } else if i == 0 {
        Some(seq!['/'])
    } else {
        Some(s.subrange(0, i))
    }
}

/// The last component of a path, which may be empty.
pub open spec fn name_spec(s: Seq<char>) -> Seq<char> {
    after(s, last_at(s, '/') + 1)
}

/// Whether a part of a path is a name: it is neither empty nor `.`.
pub open spec fn is_name(part: Seq<char>) -> bool {
    part.len() > 0 && part != "."@
}

/// The names among the parts of a path.
pub open spec fn names_of(parts: Seq<Seq<char>>) -> Seq<Seq<char>>
    decreases parts.len(),
{
    if parts.len() == 0 {
        parts
    } else if is_name(parts.last()) {
        names_of(parts.drop_last()).push(parts.last())
    } else {
        names_of(parts.drop_last())
    }
}

/// The names in a path, from the first directory on.
pub open spec fn path_names(p: Seq<char>) -> Seq<Seq<char>> {
    names_of(split_spec(p, '/'))
}

/// The components of a path: the root directory or a leading `.`, where it starts
/// with one, and the names.
pub open spec fn components(p: Seq<char>) -> Seq<Seq<char>> {
    let parts = split_spec(p, '/');
    if p.len() > 0 && p[0] == '/' {
        seq!["/"@] + names_of(parts)
    } else if parts[0] == "."@ {
        seq!["."@] + names_of(parts)
    } else {
        names_of(parts)
    }
}

/// What tells paths apart: their components.
#[verifier::opaque]
pub open spec fn path_key(p: Seq<char>) -> Seq<Seq<char>> {
    components(p)
}

/// Whether two paths are the same, component by component: `a//b` and `a/./b/` are `a/b`.
pub open spec fn same_path(p: Seq<char>, q: Seq<char>) -> bool {
    path_key(p) == path_key(q)
}

/// Whether one of the paths is the same as `x`.
pub open spec fn has_path(paths: Seq<Seq<char>>, x: Seq<char>) -> bool {
    exists|k: int| 0 <= k < paths.len() && same_path(#[trigger] paths[k], x)
}

/// Whether no two of the paths are the same.
pub open spec fn are_distinct(paths: Seq<Seq<char>>) -> bool {
    forall|i: int, j: int|
        0 <= i < j < paths.len() ==> !same_path(#[trigger] paths[i], #[trigger] paths[j])
}

/// A path with its names alone: `./a//b` is `a/b`.
pub open spec fn plain_path(p: Seq<char>) -> Seq<char> {
    crate::text::join_spec(path_names(p), "/"@)
}

/// Whether every part of a path is a name.
pub open spec fn is_regular(p: Seq<char>) -> bool {
    forall|i: int| 0 <= i < split_spec(p, '/').len() ==> is_name(#[trigger] split_spec(p, '/')[i])
}

/// Whether the path `p` is `d` or lies below it, component by component: `src/` and
/// `src/.` are `src`. Every path lies below the empty one.
pub open spec fn is_under(p: Seq<char>, d: Seq<char>) -> bool {
    components(d).is_prefix_of(components(p))
}

/// `b` below `a`.
pub open spec fn join_spec(a: Seq<char>, b: Seq<char>) -> Seq<char> {
    if a.len() == 0 {
        b
    } else {
        a.push('/') + b
    }
}

pub proof fn lemma_last_at(s: Seq<char>, c: char)
    ensures
        -1 <= last_at(s, c) < s.len(),
        last_at(s, c) >= 0 ==> s[last_at(s, c)] == c,
        forall|j: int| last_at(s, c) < j < s.len() ==> s[j] != c,
    decreases s.len(),
{
    if s.len() > 0 && s.last() != c {
        lemma_last_at(s.drop_last(), c);
        assert forall|j: int| last_at(s, c) < j < s.len() implies s[j] != c by {
            if j < s.len() - 1 {
                assert(s.drop_last()[j] == s[j]);
            }
        }
    }
}

/// A path holds a separator just if its first component ends before its end.
pub proof fn lemma_has_slash(s: Seq<char>)
    ensures
        has_slash(s) <==> first_at(s, '/') < s.len(),
        0 <= first_at(s, '/') <= s.len(),
        has_slash(s) <==> last_at(s, '/') >= 0,
        has_slash(s) ==> s == head(s).push('/') + tail(s),
{
    lemma_first_at(s, '/');
    lemma_last_at(s, '/');
    if has_slash(s) {
        let i = choose|i: int| 0 <= i < s.len() && s[i] == '/';
        assert(first_at(s, '/') <= i);
        assert(s =~= head(s).push('/') + tail(s));
    }
}

/// The place of the last separator.
fn rfind_slash(v: &Vec<char>) -> (r: Option<usize>)
    ensures
        match r {
            Some(i) => i == last_at(v@, '/') && i < v@.len(),
            None => last_at(v@, '/') == -1,
        },
{
    let mut i: usize = v.len();
    assert(v@.subrange(0, i as int) =~= v@);
    while i > 0
        invariant
            i <= v.len(),
            last_at(v@, '/') == last_at(v@.subrange(0, i as int), '/'),
        decreases i,
    {
        let ghost t = v@.subrange(0, i as int);
        assert(t.last() == v@[i - 1]);
        assert(t.drop_last() =~= v@.subrange(0, i - 1));
        if v[i - 1] == '/' {
            return Some(i - 1);
        }
        i -= 1;
    }
    None
}

/// The path without its last component.
pub fn parent(p: &str) -> (r: Option<String>)
    ensures
        match r {
            Some(s) => parent_spec(p@) == Some(s@),
            None => parent_spec(p@) is None,
        },
{
    let v = to_chars(p);
    if v.len() == 0 {
        return None;
    }
    if v.len() == 1 && v[0] == '/' {
        assert(p@ =~= seq!['/']);
        return None;
    }
    assert(p@ != seq!['/']) by {
        if p@ == seq!['/'] {
            assert(p@.len() == 1 && p@[0] == '/');
        }
    }
    match rfind_slash(&v) {
        None => Some(String::new()),
        Some(i) => {
            if i == 0 {
                assert(v@.subrange(0, 1) =~= seq!['/']) by {
                    lemma_last_at(v@, '/');
                }
                Some(from_chars(&v, 0, 1))
            } else {
                Some(from_chars(&v, 0, i))
            }
        },
    }
}

/// The last component of a path.
pub fn name_of(p: &str) -> (r: String)
    ensures
        r@ == name_spec(p@),
{
    let v = to_chars(p);
    let n: usize = v.len();
    match rfind_slash(&v) {
        None => from_chars(&v, 0, n),
        Some(i) => from_chars(&v, i + 1, n),
    }
}

/// Splits a path after its first component, if it has more than one.
pub fn split_head(p: &str) -> (r: Option<(String, String)>)
    ensures
        match r {
            Some((h, t)) => has_slash(p@) && h@ == head(p@) && t@ == tail(p@),
            None => !has_slash(p@),
        },
{
    let v = to_chars(p);
    let i: usize = find_from(&v, 0, '/');
    proof {
        assert(after(v@, 0) =~= v@);
        lemma_has_slash(v@);
    }
    if i < v.len() {
        Some((from_chars(&v, 0, i), from_chars(&v, i + 1, v.len())))
    } else {
        None
    }
}

/// Whether the path `p` is `d` or lies below it.
pub fn starts_with_dir(p: &str, d: &str) -> (r: bool)
    ensures
        r == is_under(p@, d@),
{
    let v = components_of(p);
    let w = components_of(d);
    begins_with(&v, &w)
}

/// Whether texts begin with other texts.
pub fn begins_with(v: &Vec<String>, w: &Vec<String>) -> (r: bool)
    ensures
        r == texts(w@).is_prefix_of(texts(v@)),
{
    if w.len() > v.len() {
        return false;
    }
    let ghost tv = texts(v@);
    let ghost tw = texts(w@);
    let mut i: usize = 0;
    while i < w.len()
        invariant
            i <= w.len() <= v.len(),
            tv == texts(v@),
            tw == texts(w@),
            forall|j: int| 0 <= j < i ==> tw[j] == tv[j],
        decreases w.len() - i,
    {
        if !str_eq(v[i].as_str(), w[i].as_str()) {
            assert(tv[i as int] != tw[i as int]);
            assert(tv.subrange(0, tw.len() as int)[i as int] == tv[i as int]);
            return false;
        }
        assert(tv[i as int] == v@[i as int]@ && tw[i as int] == w@[i as int]@);
        i += 1;
    }
    assert(tw =~= tv.subrange(0, tw.len() as int));
    true
}

/// The names among the parts of a path, behind others.
fn push_names(out: &mut Vec<String>, parts: &Vec<String>)
    ensures
        texts(final(out)@) == texts(old(out)@) + names_of(texts(parts@)),
{
    let ghost start = texts(out@);
    let ghost ps = texts(parts@);
    let mut i: usize = 0;
    assert(start + names_of(ps.subrange(0, 0)) =~= start);
    while i < parts.len()
        invariant
            i <= parts.len(),
            ps == texts(parts@),
            texts(out@) == start + names_of(ps.subrange(0, i as int)),
        decreases parts.len() - i,
    {
        let part = parts[i].as_str();
        let ghost before = texts(out@);
        proof {
            let now = ps.subrange(0, i + 1);
            assert(now.drop_last() =~= ps.subrange(0, i as int));
            assert(now.last() == parts@[i as int]@);
        }
        if !part.is_empty() && !str_eq(part, ".") {
            out.push(parts[i].clone());
            proof {
                assert(texts(out@) =~= before.push(parts@[i as int]@));
                assert(texts(out@) =~= start + names_of(ps.subrange(0, i + 1)));
            }
        }
        i += 1;
    }
    assert(ps.subrange(0, i as int) =~= ps);
}

/// The names in a path, from the first directory on.
pub fn names_in(p: &str) -> (r: Vec<String>)
    ensures
        texts(r@) == path_names(p@),
{
    let mut r: Vec<String> = Vec::new();
    let parts = split(p, '/');
    push_names(&mut r, &parts);
    assert(Seq::<Seq<char>>::empty() + path_names(p@) =~= path_names(p@));
    assert(texts(Seq::<String>::empty()) =~= Seq::empty());
    r
}

/// The components of a path.
pub fn components_of(p: &str) -> (r: Vec<String>)
    ensures
        texts(r@) == components(p@),
{
    let mut r: Vec<String> = Vec::new();
    let parts = split(p, '/');
    let v = to_chars(p);
    assert(texts(r@) =~= Seq::empty());
    proof {
        assert(split_spec(p@, '/').len() > 0);
        assert(texts(parts@)[0] == parts@[0]@);
    }
    if v.len() > 0 && v[0] == '/' {
        r.push("/".to_owned());
        assert(texts(r@) =~= seq!["/"@]);
    } else if str_eq(parts[0].as_str(), ".") {
        r.push(".".to_owned());
        assert(texts(r@) =~= seq!["."@]);
    }
    let ghost start = texts(r@);
    push_names(&mut r, &parts);
    assert(Seq::<Seq<char>>::empty() + path_names(p@) =~= path_names(p@));
    r
}

/// Whether a part of a path starts at `i` of these characters and is no name.
spec fn is_bad_at(s: Seq<char>, i: int) -> bool {
    (i == 0 || s[i - 1] == '/') && (i == s.len() || s[i] == '/' || (s[i] == '.' && (i + 1
        == s.len() || s[i + 1] == '/')))
}

/// Where every part is a name, a path is regular.
proof fn lemma_regular(s: Seq<char>)
    requires
        forall|i: int| 0 <= i <= s.len() ==> !#[trigger] is_bad_at(s, i),
    ensures
        is_regular(s),
    decreases s.len(),
{
    let f = first_at(s, '/');
    let parts = split_spec(s, '/');
    lemma_first_at(s, '/');
    assert(!is_bad_at(s, 0));
    reveal_strlit(".");
    if f < s.len() {
        let t = after(s, f + 1);
        assert forall|i: int| 0 <= i <= t.len() implies !#[trigger] is_bad_at(t, i) by {
            assert(!is_bad_at(s, f + 1 + i));
            if i > 0 {
                assert(t[i - 1] == s[f + i]);
            }
            if i < t.len() {
                assert(t[i] == s[f + 1 + i]);
            }
            if i + 1 < t.len() {
                assert(t[i + 1] == s[f + 2 + i]);
            }
        }
        lemma_regular(t);
        let head = s.subrange(0, f);
        assert(parts =~= seq![head] + split_spec(t, '/'));
        if head == "."@ {
            assert(head[0] == '.' && head.len() == 1);
            assert(s[0] == '.' && s[1] == '/');
        }
        assert forall|i: int| 0 <= i < parts.len() implies is_name(#[trigger] parts[i]) by {
            if i > 0 {
                assert(parts[i] == split_spec(t, '/')[i - 1]);
            } else {
                assert(f > 0);
            }
        }
    } else {
        assert(parts =~= seq![s]);
        if s == "."@ {
            assert(s[0] == '.' && s.len() == 1);
        }
        assert forall|i: int| 0 <= i < parts.len() implies is_name(#[trigger] parts[i]) by {
            assert(parts[i] == s);
        }
    }
}

proof fn lemma_all_names(parts: Seq<Seq<char>>)
    requires
        forall|i: int| 0 <= i < parts.len() ==> is_name(#[trigger] parts[i]),
    ensures
        names_of(parts) == parts,
    decreases parts.len(),
{
    if parts.len() > 0 {
        let d = parts.drop_last();
        assert forall|i: int| 0 <= i < d.len() implies is_name(#[trigger] d[i]) by {
            assert(d[i] == parts[i]);
        }
        lemma_all_names(d);
        assert(is_name(parts[parts.len() - 1]));
        assert(d.push(parts.last()) =~= parts);
    }
}

/// Texts are told apart by their parts.
proof fn lemma_split_injective(a: Seq<char>, b: Seq<char>)
    requires
        split_spec(a, '/') == split_spec(b, '/'),
    ensures
        a == b,
    decreases a.len(),
{
    lemma_first_at(a, '/');
    lemma_first_at(b, '/');
    let f = first_at(a, '/');
    let g = first_at(b, '/');
    let s = split_spec(a, '/');
    if f < a.len() && g < b.len() {
        let x = after(a, f + 1);
        let y = after(b, g + 1);
        assert(s =~= seq![a.subrange(0, f)] + split_spec(x, '/'));
        assert(s =~= seq![b.subrange(0, g)] + split_spec(y, '/'));
        assert(s[0] == a.subrange(0, f) && s[0] == b.subrange(0, g));
        assert(split_spec(x, '/') =~= s.subrange(1, s.len() as int));
        assert(split_spec(y, '/') =~= s.subrange(1, s.len() as int));
        lemma_split_injective(x, y);
        assert(a =~= a.subrange(0, f) + seq!['/'] + x);
        assert(b =~= b.subrange(0, g) + seq!['/'] + y);
    } else if f < a.len() {
        assert(split_spec(after(a, f + 1), '/').len() > 0);
        assert(s.len() == 1);
    } else if g < b.len() {
        assert(split_spec(after(b, g + 1), '/').len() > 0);
        assert(s.len() == 1);
    } else {
        assert(s[0] == a && s[0] == b);
    }
}

/// Regular paths are the same just if their texts are.
pub proof fn regular_paths_are_texts(p: Seq<char>, q: Seq<char>)
    requires
        is_regular(p),
        is_regular(q),
    ensures
        same_path(p, q) <==> p == q,
{
    reveal(path_key);
    lemma_regular_components(p);
    lemma_regular_components(q);
    if same_path(p, q) {
        lemma_split_injective(p, q);
    }
}

pub proof fn lemma_regular_components(p: Seq<char>)
    requires
        is_regular(p),
    ensures
        components(p) == split_spec(p, '/'),
{
    let parts = split_spec(p, '/');
    lemma_all_names(parts);
    lemma_first_at(p, '/');
    assert(parts.len() > 0);
    assert(is_name(parts[0]));
    if p.len() > 0 && p[0] == '/' {
        assert(first_at(p, '/') == 0);
        assert(parts[0] =~= Seq::empty());
    }
}

proof fn lemma_join_front(h: Seq<char>, t: Seq<Seq<char>>, sep: Seq<char>)
    requires
        t.len() > 0,
    ensures
        crate::text::join_spec(seq![h] + t, sep) == h + sep + crate::text::join_spec(t, sep),
    decreases t.len(),
{
    let all = seq![h] + t;
    assert(all.drop_last() =~= seq![h] + t.drop_last());
    if t.len() == 1 {
        assert(all.drop_last() =~= seq![h]);
        assert(crate::text::join_spec(seq![h], sep) == h);
        assert(all.last() == t[0]);
    } else {
        lemma_join_front(h, t.drop_last(), sep);
        assert(all.last() == t.last());
        assert(crate::text::join_spec(all, sep) =~= h + sep + crate::text::join_spec(t, sep));
    }
}

proof fn lemma_join_parts(s: Seq<char>)
    ensures
        crate::text::join_spec(split_spec(s, '/'), "/"@) == s,
    decreases s.len(),
{
    reveal_strlit("/");
    lemma_first_at(s, '/');
    let f = first_at(s, '/');
    if f < s.len() {
        let t = after(s, f + 1);
        lemma_join_parts(t);
        assert(split_spec(t, '/').len() > 0);
        lemma_join_front(s.subrange(0, f), split_spec(t, '/'), "/"@);
        assert(s.subrange(0, f) + "/"@ + t =~= s);
    }
}

/// A regular path is its names with a separator between them, and nothing else.
pub proof fn regular_paths_are_plain(p: Seq<char>)
    requires
        is_regular(p),
    ensures
        plain_path(p) == p,
        path_names(p) == split_spec(p, '/'),
{
    lemma_all_names(split_spec(p, '/'));
    lemma_join_parts(p);
}

/// Whether a path has no part but names.
fn looks_regular(p: &str) -> (r: bool)
    ensures
        r ==> is_regular(p@),
{
    let v = to_chars(p);
    let n: usize = v.len();
    let mut i: usize = 0;
    let mut starts: bool = true;
    while i < n
        invariant
            i <= n,
            n == v@.len(),
            v@ == p@,
            starts == (i == 0 || v@[i - 1] == '/'),
            forall|j: int| 0 <= j < i ==> !#[trigger] is_bad_at(v@, j),
        decreases n - i,
    {
        let c = v[i];
        if starts && (c == '/' || (c == '.' && (i + 1 == n || v[i + 1] == '/'))) {
            return false;
        }
        starts = c == '/';
        i += 1;
    }
    if starts {
        return false;
    }
    proof {
        lemma_regular(v@);
    }
    true
}

/// Whether two paths are the same, component by component.
pub fn path_eq(a: &str, b: &str) -> (r: bool)
    ensures
        r == same_path(a@, b@),
{
    if str_eq(a, b) {
        return true;
    }
    if looks_regular(a) && looks_regular(b) {
        proof {
            regular_paths_are_texts(a@, b@);
        }
        return false;
    }
    let u = components_of(a);
    let v = components_of(b);
    proof {
        reveal(path_key);
        assert(texts(u@).len() == u@.len());
        assert(texts(v@).len() == v@.len());
        if texts(v@).is_prefix_of(texts(u@)) && u@.len() == v@.len() {
            assert(texts(u@) =~= texts(v@));
        }
    }
    u.len() == v.len() && begins_with(&u, &v)
}

/// Whether one of the paths is the same as `x`.
pub fn lists_path(v: &Vec<String>, x: &str) -> (r: bool)
    ensures
        r == has_path(texts(v@), x@),
{
    let ghost ps = texts(v@);
    let mut i: usize = 0;
    while i < v.len()
        invariant
            i <= v.len(),
            ps == texts(v@),
            forall|k: int| 0 <= k < i ==> !same_path(#[trigger] ps[k], x@),
        decreases v.len() - i,
    {
        assert(ps[i as int] == v@[i as int]@);
        if path_eq(v[i].as_str(), x) {
            return true;
        }
        i += 1;
    }
    false
}

/// `b` below `a`.
pub fn join(a: &str, b: &str) -> (r: String)
    ensures
        r@ == join_spec(a@, b@),
{
    if a.is_empty() {
        return b.to_owned();
    }
    let mut r: String = a.to_owned();
    r.push('/');
    r.append(b);
    r
}

/// The parts of two paths with a separator between them are those of the one and then
/// those of the other.
pub proof fn lemma_split_append(a: Seq<char>, b: Seq<char>)
    ensures
        split_spec(a.push('/') + b, '/') == split_spec(a, '/') + split_spec(b, '/'),
    decreases a.len(),
{
    let whole = a.push('/') + b;
    lemma_first_at(a, '/');
    lemma_first_at(whole, '/');
    let i = first_at(a, '/');
    let j = first_at(whole, '/');
    assert(whole[a.len() as int] == '/');
    if i < a.len() {
        assert(whole[i] == a[i]);
        if j < i {
            assert(a[j] == whole[j]);
        }
        assert(i == j);
        let rest = after(a, i + 1);
        lemma_split_append(rest, b);
        assert(after(whole, i + 1) =~= rest.push('/') + b);
        assert(whole.subrange(0, i) =~= a.subrange(0, i));
        assert(split_spec(whole, '/') =~= split_spec(a, '/') + split_spec(b, '/'));
    } else {
        if j < a.len() {
            assert(a[j] == whole[j]);
        }
        assert(j == a.len());
        assert(whole.subrange(0, j) =~= a);
        assert(after(whole, j + 1) =~= b);
        assert(split_spec(whole, '/') =~= seq![a] + split_spec(b, '/'));
    }
}

proof fn lemma_names_append(a: Seq<Seq<char>>, b: Seq<Seq<char>>)
    ensures
        names_of(a + b) == names_of(a) + names_of(b),
    decreases b.len(),
{
    if b.len() == 0 {
        assert(a + b =~= a);
        assert(names_of(a) + names_of(b) =~= names_of(a));
    } else {
        lemma_names_append(a, b.drop_last());
        assert((a + b).drop_last() =~= a + b.drop_last());
        assert((a + b).last() == b.last());
        assert(names_of(a + b) =~= names_of(a) + names_of(b));
    }
}

/// The components of a path below another are those of the other and then the names
/// below it.
pub proof fn components_below(d: Seq<char>, p: Seq<char>)
    requires
        d.len() > 0,
    ensures
        components(d.push('/') + p) == components(d) + path_names(p),
{
    let whole = d.push('/') + p;
    let a = split_spec(d, '/');
    let b = split_spec(p, '/');
    lemma_split_append(d, p);
    lemma_names_append(a, b);
    assert(whole[0] == d[0]);
    assert(a.len() > 0);
    assert((a + b)[0] == a[0]);
    assert(components(whole) =~= components(d) + path_names(p));
}

/// A path lies below every directory that it starts with, with a separator at the end
/// of the directory or without.
pub proof fn paths_lie_below_their_directories(d: Seq<char>, p: Seq<char>)
    requires
        d.len() > 0,
    ensures
        is_under(d.push('/') + p, d),
        is_under(d.push('/') + p, d.push('/')),
        is_under(d, d.push('/')),
{
    components_below(d, p);
    components_below(d, Seq::empty());
    let whole = d.push('/') + p;
    assert(d.push('/') + Seq::<char>::empty() =~= d.push('/'));
    lemma_no_names();
    assert(components(d.push('/')) =~= components(d));
    assert(components(d) =~= components(whole).subrange(0, components(d).len() as int));
    assert(components(d) =~= components(d).subrange(0, components(d).len() as int));
}

proof fn lemma_no_names()
    ensures
        path_names(Seq::empty()).len() == 0,
{
    let e = Seq::<char>::empty();
    lemma_first_at(e, '/');
    assert(split_spec(e, '/') =~= seq![e]);
    assert(names_of(seq![e].drop_last()) =~= Seq::empty()) by {
        assert(seq![e].drop_last() =~= Seq::empty());
    }
}

proof fn lemma_parts_prefix(p: Seq<char>, d: Seq<char>)
    requires
        split_spec(d, '/').is_prefix_of(split_spec(p, '/')),
    ensures
        p == d || has_prefix(p, d.push('/')),
    decreases d.len(),
{
    lemma_first_at(p, '/');
    lemma_first_at(d, '/');
    let f = first_at(d, '/');
    let g = first_at(p, '/');
    let a = split_spec(d, '/');
    let b = split_spec(p, '/');
    assert(a[0] == b[0]);
    if f < d.len() {
        let t = after(d, f + 1);
        assert(a =~= seq![d.subrange(0, f)] + split_spec(t, '/'));
        assert(split_spec(t, '/').len() > 0);
        if g >= p.len() {
            assert(b.len() == 1);
        }
        let u = after(p, g + 1);
        assert(b =~= seq![p.subrange(0, g)] + split_spec(u, '/'));
        assert(d.subrange(0, f) == p.subrange(0, g));
        assert(f == g) by {
            assert(d.subrange(0, f).len() == p.subrange(0, g).len());
        }
        assert(split_spec(t, '/').is_prefix_of(split_spec(u, '/'))) by {
            assert forall|i: int| 0 <= i < split_spec(t, '/').len() implies split_spec(t, '/')[i]
                == split_spec(u, '/')[i] by {
                assert(a[i + 1] == b[i + 1]);
            }
            assert(split_spec(u, '/').subrange(0, split_spec(t, '/').len() as int) =~= split_spec(
                t,
                '/',
            ));
        }
        lemma_parts_prefix(u, t);
        assert(d =~= d.subrange(0, f) + seq!['/'] + t);
        assert(p =~= p.subrange(0, g) + seq!['/'] + u);
        if u != t {
            assert(u.subrange(0, t.len() as int + 1) =~= t.push('/'));
            assert(p.subrange(0, d.len() as int + 1) =~= d.push('/'));
        }
    } else {
        assert(a[0] == d);
        if g < p.len() {
            assert(b[0] == p.subrange(0, g));
            assert(p.subrange(0, d.len() as int + 1) =~= d.push('/'));
        } else {
            assert(b[0] == p);
        }
    }
}

/// A regular path lies under another just if it is the same text, or starts with it and a
/// separator.
pub proof fn regular_paths_lie_under(p: Seq<char>, d: Seq<char>)
    requires
        is_regular(p),
        is_regular(d),
    ensures
        is_under(p, d) <==> p == d || has_prefix(p, d.push('/')),
{
    lemma_regular_components(p);
    lemma_regular_components(d);
    if is_under(p, d) {
        lemma_parts_prefix(p, d);
    }
    if has_prefix(p, d.push('/')) {
        let rest = after(p, d.len() as int + 1);
        assert(p =~= d.push('/') + rest);
        lemma_split_append(d, rest);
        assert((split_spec(d, '/') + split_spec(rest, '/')).subrange(
            0,
            split_spec(d, '/').len() as int,
        ) =~= split_spec(d, '/'));
    }
}

} // verus!
