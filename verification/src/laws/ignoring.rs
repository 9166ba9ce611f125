//! Which patterns say that a file is ignored.
use vstd::prelude::*;
use vstd::string::*;

use crate::ignore::{
    all_globs, built_in, effective_globs, gitignore_patterns, globs_compile, is_glob, normalized,
    only_globs, pattern_globs, patterns_globs, without_slashes,
};
use crate::text::{after, has_infix, has_prefix, has_suffix, trim_spec};

verus! {

/// `/**`
pub open spec fn all_below() -> Seq<char> {
    seq!['/', '*', '*']
}

/// `**/`
pub open spec fn anywhere() -> Seq<char> {
    seq!['*', '*', '/']
}

proof fn lemma_literals()
    ensures
        "./"@ == seq!['.', '/'],
        "/"@ == seq!['/'],
        "/*"@ == seq!['/', '*'],
        "/**"@ == all_below(),
        "*."@ == seq!['*', '.'],
        "**/"@ == anywhere(),
{
    reveal_strlit("./");
    reveal_strlit("/");
    reveal_strlit("/*");
    reveal_strlit("/**");
    reveal_strlit("*.");
    reveal_strlit("**/");
    assert("./"@ =~= seq!['.', '/']);
    assert("/"@ =~= seq!['/']);
    assert("/*"@ =~= seq!['/', '*']);
    assert("/**"@ =~= all_below());
    assert("*."@ =~= seq!['*', '.']);
    assert("**/"@ =~= anywhere());
}

proof fn lemma_no_slash(p: Seq<char>)
    requires
        !p.contains('/'),
    ensures
        !has_prefix(p, "./"@),
        !has_suffix(p, "/"@),
        !has_suffix(p, "/*"@),
        !has_suffix(p, "/**"@),
        !has_infix(p, "/"@),
{
    lemma_literals();
    if has_prefix(p, "./"@) {
        assert(p.subrange(0, 2)[1] == p[1]);
    }
    if has_suffix(p, "/"@) {
        assert(p.subrange(p.len() - 1, p.len() as int)[0] == p[p.len() - 1]);
    }
    if has_suffix(p, "/*"@) {
        assert(p.subrange(p.len() - 2, p.len() as int)[0] == p[p.len() - 2]);
    }
    if has_suffix(p, "/**"@) {
        assert(p.subrange(p.len() - 3, p.len() as int)[0] == p[p.len() - 3]);
    }
    if has_infix(p, "/"@) {
        let i = choose|i: int|
            0 <= i <= p.len() - "/"@.len() && #[trigger] p.subrange(i, i + "/"@.len()) == "/"@;
        assert(p.subrange(i, i + 1)[0] == p[i]);
    }
}

/// A name is ignored wherever it stands, as a file and as a directory with all that is below
/// it; an ending is ignored as it is.
pub proof fn names_are_ignored_anywhere(p: Seq<char>)
    requires
        !p.contains('/'),
    ensures
        !has_prefix(p, seq!['*', '.']) ==> normalized(p) == seq![
            p,
            p + all_below(),
            anywhere() + p,
            anywhere() + p + all_below(),
        ],
        has_prefix(p, seq!['*', '.']) ==> normalized(p) == seq![p],
{
    lemma_literals();
    lemma_no_slash(p);
    if !has_prefix(p, "*."@) {
        assert(normalized(p) =~= seq![
            p,
            p + all_below(),
            anywhere() + p,
            anywhere() + p + all_below(),
        ]);
    }
}

/// A path with a slash in it is ignored from the top, with all that is below it. Where it says
/// so itself, by a slash, a star or two stars behind a slash, that adds nothing. A dot and a
/// slash in front add nothing either.
pub proof fn directories_are_ignored_with_their_contents(p: Seq<char>)
    requires
        p.len() > 0,
        p.last() != '/',
        !has_prefix(p, seq!['.', '/']),
    ensures
        normalized(p.push('/')) == seq![p, p + all_below()] || p == seq!['.'],
        normalized(p + seq!['/', '*']) == seq![p, p + all_below()] || p == seq!['.'],
        normalized(p + all_below()) == seq![p, p + all_below()] || p == seq!['.'],
        normalized(seq!['.', '/'] + p) == normalized(p),
        p.contains('/') && !has_suffix(p, seq!['/', '*']) && !has_suffix(p, all_below())
            ==> normalized(p) == seq![p, p + all_below()],
{
    lemma_literals();
    let a = p.push('/');
    let b = p + seq!['/', '*'];
    let c = p + all_below();
    let n = p.len() as int;
    if p != seq!['.'] {
        assert forall|x: Seq<char>|
            x.len() > n && x.subrange(0, n) == p implies !#[trigger] has_prefix(x, "./"@) by {
            if has_prefix(x, "./"@) {
                assert(x.subrange(0, 2)[0] == x[0] && x.subrange(0, 2)[1] == x[1]);
                assert(x.subrange(0, n)[0] == x[0]);
                if n >= 2 {
                    assert(x.subrange(0, n)[1] == x[1]);
                    assert(p.subrange(0, 2) =~= "./"@);
                } else {
                    assert(p =~= seq!['.']);
                }
            }
        }
        assert(a.subrange(0, n) =~= p);
        assert(b.subrange(0, n) =~= p);
        assert(c.subrange(0, n) =~= p);
        assert(!has_prefix(a, "./"@) && !has_prefix(b, "./"@) && !has_prefix(c, "./"@));
        assert(a.subrange(n, n + 1) =~= "/"@);
        assert(a.drop_last() =~= p);
        assert(without_slashes(p) == p);
        assert(normalized(a) =~= seq![p, p + all_below()]);
        assert(b.last() == '*' && c.last() == '*');
        assert(!has_suffix(b, "/"@)) by {
            if has_suffix(b, "/"@) {
                assert(b.subrange(n + 1, n + 2)[0] == '*');
            }
        }
        assert(!has_suffix(c, "/"@)) by {
            if has_suffix(c, "/"@) {
                assert(c.subrange(n + 2, n + 3)[0] == '*');
            }
        }
        assert(b.subrange(n, n + 2) =~= "/*"@);
        assert(normalized(b) =~= seq![p, p + all_below()]);
        assert(!has_suffix(c, "/*"@)) by {
            if has_suffix(c, "/*"@) {
                assert(c.subrange(n + 1, n + 3)[0] == '*');
            }
        }
        assert(c.subrange(n, n + 3) =~= "/**"@);
        assert(normalized(c) =~= seq![p, p + all_below()]);
    }
    let d = seq!['.', '/'] + p;
    assert(d.subrange(0, 2) =~= "./"@);
    assert(after(d, 2) =~= p);
    assert(normalized(d) == normalized(p));
    if p.contains('/') && !has_suffix(p, seq!['/', '*']) && !has_suffix(p, all_below()) {
        let i = choose|i: int| 0 <= i < p.len() && p[i] == '/';
        assert(p.subrange(i, i + "/"@.len()) =~= "/"@);
        assert(!has_suffix(p, "/"@)) by {
            if has_suffix(p, "/"@) {
                assert(p.subrange(n - 1, n)[0] == p.last());
            }
        }
        assert(normalized(p) =~= seq![p, p + all_below()]);
    }
}

proof fn lemma_only(ps: Seq<Seq<char>>, g: Seq<char>)
    ensures
        only_globs(ps).contains(g) <==> ps.contains(g) && is_glob(g),
    decreases ps.len(),
{
    if ps.len() > 0 {
        let d = ps.drop_last();
        let o = only_globs(d);
        let r = only_globs(ps);
        lemma_only(d, g);
        assert(ps[ps.len() - 1] == ps.last());
        if ps.contains(g) {
            let k = choose|k: int| 0 <= k < ps.len() && ps[k] == g;
            if k < d.len() {
                assert(d[k] == g);
            }
        }
        if d.contains(g) {
            let k = choose|k: int| 0 <= k < d.len() && d[k] == g;
            assert(ps[k] == g);
        }
        if is_glob(ps.last()) {
            assert(r[o.len() as int] == ps.last());
            if o.contains(g) {
                let k = choose|k: int| 0 <= k < o.len() && o[k] == g;
                assert(r[k] == g);
            }
            if r.contains(g) {
                let k = choose|k: int| 0 <= k < r.len() && r[k] == g;
                if k < o.len() {
                    assert(o[k] == g);
                }
            }
        }
    }
}

/// Whether a pattern that is not blank stands for the glob `g`, and that is well formed.
pub open spec fn gives(pattern: Seq<char>, g: Seq<char>) -> bool {
    trim_spec(pattern).len() > 0 && normalized(trim_spec(pattern)).contains(g) && is_glob(g)
}

proof fn lemma_concat(a: Seq<Seq<char>>, b: Seq<Seq<char>>, g: Seq<char>)
    ensures
        (a + b).contains(g) <==> a.contains(g) || b.contains(g),
{
    let r = a + b;
    if r.contains(g) {
        let k = choose|k: int| 0 <= k < r.len() && r[k] == g;
        if k < a.len() {
            assert(a[k] == g);
        } else {
            assert(b[k - a.len()] == g);
        }
    }
    if a.contains(g) {
        let k = choose|k: int| 0 <= k < a.len() && a[k] == g;
        assert(r[k] == g);
    }
    if b.contains(g) {
        let k = choose|k: int| 0 <= k < b.len() && b[k] == g;
        assert(r[a.len() + k] == g);
    }
}

proof fn lemma_patterns(ps: Seq<Seq<char>>, g: Seq<char>)
    ensures
        patterns_globs(ps).contains(g) <==> exists|i: int|
            0 <= i < ps.len() && gives(#[trigger] ps[i], g),
    decreases ps.len(),
{
    if ps.len() > 0 {
        let d = ps.drop_last();
        lemma_patterns(d, g);
        lemma_concat(patterns_globs(d), pattern_globs(ps.last()), g);
        lemma_only(normalized(trim_spec(ps.last())), g);
        let n = ps.len() - 1;
        assert(ps[n] == ps.last());
        if patterns_globs(d).contains(g) {
            let i = choose|i: int| 0 <= i < d.len() && gives(#[trigger] d[i], g);
            assert(ps[i] == d[i]);
        }
        if exists|i: int| 0 <= i < ps.len() && gives(#[trigger] ps[i], g) {
            let i = choose|i: int| 0 <= i < ps.len() && gives(#[trigger] ps[i], g);
            if i < n {
                assert(d[i] == ps[i]);
            }
        }
    }
}

/// The patterns in the lines of a `.gitignore` are its lines, without white space around them,
/// that are not empty and do not start with a `#`.
pub proof fn lines_are_patterns(lines: Seq<Seq<char>>, t: Seq<char>)
    ensures
        gitignore_patterns(lines).contains(t) <==> t.len() > 0 && t[0] != '#' && exists|i: int|
            0 <= i < lines.len() && trim_spec(#[trigger] lines[i]) == t,
    decreases lines.len(),
{
    if lines.len() > 0 {
        let d = lines.drop_last();
        lines_are_patterns(d, t);
        let before = gitignore_patterns(d);
        let now = gitignore_patterns(lines);
        let l = trim_spec(lines.last());
        let n = lines.len() - 1;
        assert(lines[n] == lines.last());
        if before.contains(t) {
            let k = choose|k: int| 0 <= k < before.len() && before[k] == t;
            assert(now[k] == t);
            let i = choose|i: int| 0 <= i < d.len() && trim_spec(#[trigger] d[i]) == t;
            assert(lines[i] == d[i]);
        }
        if l.len() > 0 && l[0] != '#' {
            assert(now[before.len() as int] == l);
            if now.contains(t) {
                let k = choose|k: int| 0 <= k < now.len() && now[k] == t;
                if k < before.len() {
                    assert(before[k] == t);
                }
            }
        }
        if t.len() > 0 && t[0] != '#' && exists|i: int|
            0 <= i < lines.len() && trim_spec(#[trigger] lines[i]) == t {
            let i = choose|i: int| 0 <= i < lines.len() && trim_spec(#[trigger] lines[i]) == t;
            if i < n {
                assert(d[i] == lines[i]);
            }
        }
    }
}

/// Whether a pattern always applies: those of the directories of Git and of the tool, and of
/// an index file that is being written.
pub open spec fn always_applies(p: Seq<char>) -> bool {
    let git = seq!['.', 'g', 'i', 't'];
    let own = seq!['.', 'h', 'e', 'l', 'i', 'x'];
    let cache = own + seq!['/', 'c', 'a', 'c', 'h', 'e'];
    let fresh = own + seq!['.', 'i', 'd', 'x', '.', 'n', 'e', 'w'];
    ||| p == git
    ||| p == git + all_below()
    ||| p == own
    ||| p == own + all_below()
    ||| p == cache
    ||| p == cache + all_below()
    ||| p == fresh
    ||| p == anywhere() + fresh
}

proof fn lemma_built_in(p: Seq<char>)
    ensures
        built_in().contains(p) <==> always_applies(p),
{
    let git = seq!['.', 'g', 'i', 't'];
    let own = seq!['.', 'h', 'e', 'l', 'i', 'x'];
    let cache = own + seq!['/', 'c', 'a', 'c', 'h', 'e'];
    let fresh = own + seq!['.', 'i', 'd', 'x', '.', 'n', 'e', 'w'];
    reveal_strlit(".git");
    reveal_strlit(".git/**");
    reveal_strlit(".helix");
    reveal_strlit(".helix/**");
    reveal_strlit(".helix/cache");
    reveal_strlit(".helix/cache/**");
    reveal_strlit("**/.helix.idx.new");
    reveal_strlit(".helix.idx.new");
    let b = built_in();
    assert(b[0] =~= git);
    assert(b[1] =~= git + all_below());
    assert(b[2] =~= own);
    assert(b[3] =~= own + all_below());
    assert(b[4] =~= cache);
    assert(b[5] =~= cache + all_below());
    assert(b[6] =~= anywhere() + fresh);
    assert(b[7] =~= fresh);
    assert(b.len() == 8);
}

/// The globs of the rules are just those that some pattern stands for: one that always applies,
/// a line of the `.gitignore` that is no comment, one of the repository or one of the user. All
/// are in force where they can be compiled together.
pub proof fn every_source_counts(
    gitignore: Seq<Seq<char>>,
    repo: Seq<Seq<char>>,
    global: Seq<Seq<char>>,
    g: Seq<char>,
)
    requires
        globs_compile(all_globs(gitignore, repo, global)),
    ensures
        effective_globs(all_globs(gitignore, repo, global)).contains(g) <==> {
            ||| exists|p: Seq<char>| #[trigger] gives(p, g) && always_applies(p)
            ||| exists|i: int|
                0 <= i < gitignore.len() && gives(trim_spec(#[trigger] gitignore[i]), g)
                    && trim_spec(gitignore[i])[0] != '#'
            ||| exists|i: int| 0 <= i < repo.len() && gives(#[trigger] repo[i], g)
            ||| exists|i: int| 0 <= i < global.len() && gives(#[trigger] global[i], g)
        },
{
    let b = patterns_globs(built_in());
    let l = gitignore_patterns(gitignore);
    let c = patterns_globs(l);
    let r = patterns_globs(repo);
    let u = patterns_globs(global);
    lemma_concat(b + c + r, u, g);
    lemma_concat(b + c, r, g);
    lemma_concat(b, c, g);
    lemma_patterns(built_in(), g);
    lemma_patterns(l, g);
    lemma_patterns(repo, g);
    lemma_patterns(global, g);
    if b.contains(g) {
        let i = choose|i: int| 0 <= i < built_in().len() && gives(#[trigger] built_in()[i], g);
        assert(built_in().contains(built_in()[i]));
        lemma_built_in(built_in()[i]);
        assert(gives(built_in()[i], g) && always_applies(built_in()[i]));
    }
    if exists|p: Seq<char>| #[trigger] gives(p, g) && always_applies(p) {
        let p = choose|p: Seq<char>| #[trigger] gives(p, g) && always_applies(p);
        lemma_built_in(p);
        let i = choose|i: int| 0 <= i < built_in().len() && built_in()[i] == p;
        assert(gives(built_in()[i], g));
    }
    if c.contains(g) {
        let i = choose|i: int| 0 <= i < l.len() && gives(#[trigger] l[i], g);
        lines_are_patterns(gitignore, l[i]);
        assert(l.contains(l[i]));
        let k = choose|k: int|
            0 <= k < gitignore.len() && trim_spec(#[trigger] gitignore[k]) == l[i];
        assert(gives(trim_spec(gitignore[k]), g));
    }
    if exists|i: int|
        0 <= i < gitignore.len() && gives(trim_spec(#[trigger] gitignore[i]), g) && trim_spec(
            gitignore[i],
        )[0] != '#' {
        let i = choose|i: int|
            0 <= i < gitignore.len() && gives(trim_spec(#[trigger] gitignore[i]), g) && trim_spec(
                gitignore[i],
            )[0] != '#';
        let t = trim_spec(gitignore[i]);
        if t.len() == 0 {
            assert(trim_spec(t).len() == 0);
        }
        lines_are_patterns(gitignore, t);
        let k = choose|k: int| 0 <= k < l.len() && l[k] == t;
        assert(gives(l[k], g));
    }
}

} // verus!
