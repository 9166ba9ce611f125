//! Which files are ignored: built-in patterns, then those of `.gitignore`, of
//! the repository's `helix.toml` and of the user's `~/.helix.toml`.
use vstd::prelude::*;
use vstd::string::*;

use globset::{Glob, GlobSet, GlobSetBuilder};

use crate::text::{
    after, concat, contains, ends_with, from_chars, has_infix, has_prefix, has_suffix,
    starts_with, strip_prefix, texts, to_chars, trim, trim_spec,
};

verus! {

/// A set of compiled patterns.
#[verifier::external_type_specification]
#[verifier::external_body]
pub struct ExGlobSet(globset::GlobSet);

/// A set of patterns to be compiled.
#[verifier::external_type_specification]
#[verifier::external_body]
pub struct ExGlobSetBuilder(globset::GlobSetBuilder);

/// The patterns that a builder holds, in the order in which they were added.
pub uninterp spec fn builder_globs(b: GlobSetBuilder) -> Seq<Seq<char>>;

/// The patterns that a compiled set holds.
pub uninterp spec fn set_globs(s: GlobSet) -> Seq<Seq<char>>;

/// Whether a text is a well-formed pattern.
pub uninterp spec fn is_glob(pattern: Seq<char>) -> bool;

/// Whether patterns can be compiled into one set.
pub uninterp spec fn globs_compile(patterns: Seq<Seq<char>>) -> bool;

/// Whether a pattern matches a path.
pub uninterp spec fn glob_matches(pattern: Seq<char>, path: Seq<char>) -> bool;

/// Calls `GlobSetBuilder::new`, which gives a builder without patterns.
#[verifier::external_body]
fn new_builder() -> (b: GlobSetBuilder)
    ensures
        builder_globs(b) == Seq::<Seq<char>>::empty(),
{
    GlobSetBuilder::new()
}

/// Calls `Glob::new` on the pattern and, if it is well formed, hands it to
/// `GlobSetBuilder::add`, which puts it last. Whether a pattern is well formed
/// depends on its text alone.
#[verifier::external_body]
fn add_glob(b: &mut GlobSetBuilder, pattern: &str) -> (r: bool)
    ensures
        r == is_glob(pattern@),
        builder_globs(*final(b)) == (if is_glob(pattern@) {
            builder_globs(*old(b)).push(pattern@)
        } else {
            builder_globs(*old(b))
        }),
{
    match Glob::new(pattern) {
        Ok(g) => {
            b.add(g);
            true
        },
        Err(_) => false,
    }
}

/// Calls `GlobSetBuilder::build`, which compiles the patterns of the builder, or
/// refuses them where they are too large together. Which of the two happens
/// depends on the patterns alone.
#[verifier::external_body]
fn build_set(b: &GlobSetBuilder) -> (r: Option<GlobSet>)
    ensures
        match r {
            Some(s) => globs_compile(builder_globs(*b)) && set_globs(s) == builder_globs(*b),
            None => !globs_compile(builder_globs(*b)),
        },
{
    b.build().ok()
}

/// Calls `GlobSet::empty`, which gives a set without patterns.
#[verifier::external_body]
fn empty_set() -> (s: GlobSet)
    ensures
        set_globs(s) == Seq::<Seq<char>>::empty(),
{
    GlobSet::empty()
}

/// Calls `GlobSet::is_match`, which says whether some pattern of the set matches
/// the path. Whether one does depends on the pattern and the path alone.
#[verifier::external_body]
fn set_matches(s: &GlobSet, path: &str) -> (r: bool)
    ensures
        r == (exists|i: int|
            0 <= i < set_globs(*s).len() && glob_matches(#[trigger] set_globs(*s)[i], path@)),
{
    s.is_match(path)
}

/// The patterns that a text stands for: itself, where it is a pattern that can be
/// compiled.
pub open spec fn pattern_of(text: Seq<char>) -> Seq<Seq<char>> {
    if is_glob(text) && globs_compile(seq![text]) {
        seq![text]
    } else {
        Seq::empty()
    }
}

/// The pattern that a text stands for, compiled.
pub(crate) fn compile_pattern(text: &str) -> (s: GlobSet)
    ensures
        set_globs(s) == pattern_of(text@),
{
    let mut b = new_builder();
    if add_glob(&mut b, text) {
        assert(builder_globs(b) =~= seq![text@]);
        match build_set(&b) {
            Some(s) => s,
            None => empty_set(),
        }
    } else {
        empty_set()
    }
}

/// Whether some pattern of the set matches the path.
pub(crate) fn set_covers(s: &GlobSet, path: &str) -> (r: bool)
    ensures
        r == any_matches(set_globs(*s), path@),
{
    set_matches(s, path)
}

/// Rules on which files to ignore.
#[derive(Debug)]
pub struct IgnoreRules {
    pub globset: GlobSet,
}

/// A text without the separators that it ends with.
pub open spec fn without_slashes(s: Seq<char>) -> Seq<char>
    decreases s.len(),
{
    if s.len() > 0 && s.last() == '/' {
        without_slashes(s.drop_last())
    } else {
        s
    }
}

/// A directory and everything below it.
pub open spec fn dir_globs(base: Seq<char>) -> Seq<Seq<char>> {
    seq![base, base + "/**"@]
}

/// A pattern as globs that match both files and directories: a leading `./` is
/// dropped, and a name without a separator matches at any depth.
pub open spec fn normalized(pattern: Seq<char>) -> Seq<Seq<char>> {
    let p = if has_prefix(pattern, "./"@) {
        after(pattern, "./"@.len() as int)
    } else {
        pattern
    };
    if has_suffix(p, "/"@) {
        dir_globs(without_slashes(p))
    } else if has_suffix(p, "/*"@) {
        dir_globs(p.subrange(0, p.len() - "/*"@.len()))
    } else if has_suffix(p, "/**"@) {
        dir_globs(p.subrange(0, p.len() - "/**"@.len()))
    } else if has_infix(p, "/"@) {
        dir_globs(p)
    } else if has_prefix(p, "*."@) {
        seq![p]
    } else {
        dir_globs(p) + seq!["**/"@ + p, "**/"@ + p + "/**"@]
    }
}

/// The globs that are well formed, in order.
pub open spec fn only_globs(ps: Seq<Seq<char>>) -> Seq<Seq<char>>
    decreases ps.len(),
{
    if ps.len() == 0 {
        ps
    } else if is_glob(ps.last()) {
        only_globs(ps.drop_last()).push(ps.last())
    } else {
        only_globs(ps.drop_last())
    }
}

/// The globs that a pattern adds: none if it is blank.
pub open spec fn pattern_globs(pattern: Seq<char>) -> Seq<Seq<char>> {
    let p = trim_spec(pattern);
    if p.len() == 0 {
        Seq::empty()
    } else {
        only_globs(normalized(p))
    }
}

/// The globs that several patterns add, in order.
pub open spec fn patterns_globs(ps: Seq<Seq<char>>) -> Seq<Seq<char>>
    decreases ps.len(),
{
    if ps.len() == 0 {
        Seq::empty()
    } else {
        patterns_globs(ps.drop_last()) + pattern_globs(ps.last())
    }
}

/// The patterns in the lines of a `.gitignore`: blank lines and comments are
/// skipped.
pub open spec fn gitignore_patterns(lines: Seq<Seq<char>>) -> Seq<Seq<char>>
    decreases lines.len(),
{
    if lines.len() == 0 {
        Seq::empty()
    } else {
        let before = gitignore_patterns(lines.drop_last());
        let l = trim_spec(lines.last());
        if l.len() == 0 || l[0] == '#' {
            before
        } else {
            before.push(l)
        }
    }
}

/// The patterns that always apply.
pub open spec fn built_in() -> Seq<Seq<char>> {
    seq![
        ".git"@,
        ".git/**"@,
        ".helix"@,
        ".helix/**"@,
        ".helix/cache"@,
        ".helix/cache/**"@,
        "**/.helix.idx.new"@,
        ".helix.idx.new"@,
    ]
}

/// The globs of all rules: those of the built-in patterns, of `.gitignore`, of
/// the repository and of the user.
pub open spec fn all_globs(
    gitignore: Seq<Seq<char>>,
    repo: Seq<Seq<char>>,
    global: Seq<Seq<char>>,
) -> Seq<Seq<char>> {
    patterns_globs(built_in()) + patterns_globs(gitignore_patterns(gitignore)) + patterns_globs(
        repo,
    ) + patterns_globs(global)
}

/// The globs that apply: all, or the built-in ones alone where they cannot be
/// compiled together.
pub open spec fn effective_globs(all: Seq<Seq<char>>) -> Seq<Seq<char>> {
    if globs_compile(all) {
        all
    } else if globs_compile(patterns_globs(built_in())) {
        patterns_globs(built_in())
    } else {
        Seq::empty()
    }
}

/// Whether some glob matches the path.
pub open spec fn any_matches(globs: Seq<Seq<char>>, path: Seq<char>) -> bool {
    exists|i: int| 0 <= i < globs.len() && glob_matches(#[trigger] globs[i], path)
}

fn push_dir_globs(r: &mut Vec<String>, base: String)
    ensures
        texts(final(r)@) == texts(old(r)@) + dir_globs(base@),
{
    let below = concat(base.as_str(), "/**");
    r.push(base);
    r.push(below);
    assert(texts(r@) =~= texts(old(r)@) + dir_globs(base@));
}

impl IgnoreRules {
    /// A pattern as globs that match both files and directories.
    pub fn normalize_pattern(pattern: &str) -> (r: Vec<String>)
        ensures
            texts(r@) == normalized(pattern@),
    {
        let p: String = match strip_prefix(pattern, "./") {
            Some(rest) => rest,
            None => pattern.to_owned(),
        };
        let v = to_chars(p.as_str());
        let mut r: Vec<String> = Vec::new();
        proof {
            reveal_strlit("/");
            reveal_strlit("/*");
            reveal_strlit("/**");
            assert(texts(r@) + dir_globs(p@) =~= dir_globs(p@));
        }
        if ends_with(p.as_str(), "/") {
            let mut n: usize = v.len();
            assert(v@.subrange(0, n as int) =~= v@);
            while n > 0 && v[n - 1] == '/'
                invariant
                    n <= v.len(),
                    v@ == p@,
                    without_slashes(p@) == without_slashes(v@.subrange(0, n as int)),
                decreases n,
            {
                assert(v@.subrange(0, n as int).drop_last() =~= v@.subrange(0, n - 1));
                assert(v@.subrange(0, n as int).last() == '/');
                n -= 1;
            }
            proof {
                let t = v@.subrange(0, n as int);
                if n > 0 {
                    assert(t.last() == v@[n - 1]);
                }
                assert(without_slashes(t) == t);
            }
            push_dir_globs(&mut r, from_chars(&v, 0, n));
            assert(texts(r@) =~= dir_globs(without_slashes(p@)));
        } else if ends_with(p.as_str(), "/*") {
            push_dir_globs(&mut r, from_chars(&v, 0, v.len() - 2));
            assert(texts(r@) =~= dir_globs(p@.subrange(0, p@.len() - 2)));
        } else if ends_with(p.as_str(), "/**") {
            push_dir_globs(&mut r, from_chars(&v, 0, v.len() - 3));
            assert(texts(r@) =~= dir_globs(p@.subrange(0, p@.len() - 3)));
        } else if contains(p.as_str(), "/") {
            push_dir_globs(&mut r, p);
        } else if starts_with(p.as_str(), "*.") {
            r.push(p);
            assert(texts(r@) =~= seq![p@]);
        } else {
            let anywhere = concat("**/", p.as_str());
            let below = concat(anywhere.as_str(), "/**");
            push_dir_globs(&mut r, p);
            r.push(anywhere);
            r.push(below);
            assert(texts(r@) =~= dir_globs(p@) + seq!["**/"@ + p@, "**/"@ + p@ + "/**"@]);
        }
        r
    }

    /// Adds a pattern to the builder. What is not well formed is left out.
    pub fn add_pattern(builder: &mut GlobSetBuilder, pattern: &str)
        ensures
            builder_globs(*final(builder)) == builder_globs(*old(builder)) + pattern_globs(
                pattern@,
            ),
    {
        let p = trim(pattern);
        let ghost start = builder_globs(*builder);
        if p.as_str().is_empty() {
            assert(start + Seq::<Seq<char>>::empty() =~= start);
            return;
        }
        let ps = IgnoreRules::normalize_pattern(p.as_str());
        let ghost ns = texts(ps@);
        let mut i: usize = 0;
        assert(start + only_globs(ns.subrange(0, 0)) =~= start);
        while i < ps.len()
            invariant
                i <= ps.len(),
                ns == texts(ps@),
                builder_globs(*builder) == start + only_globs(ns.subrange(0, i as int)),
            decreases ps.len() - i,
        {
            let ghost before = builder_globs(*builder);
            add_glob(builder, ps[i].as_str());
            proof {
                let t = ns.subrange(0, i + 1);
                assert(t.drop_last() =~= ns.subrange(0, i as int));
                assert(t.last() == ps@[i as int]@);
                assert(builder_globs(*builder) =~= start + only_globs(t));
            }
            i += 1;
        }
        assert(ns.subrange(0, i as int) =~= ns);
    }

    /// Adds the patterns that always apply: the internal files of Git and Helix.
    pub fn add_built_in_patterns(builder: &mut GlobSetBuilder)
        ensures
            builder_globs(*final(builder)) == builder_globs(*old(builder)) + patterns_globs(
                built_in(),
            ),
    {
        let mut ps: Vec<String> = Vec::new();
        ps.push(".git".to_owned());
        ps.push(".git/**".to_owned());
        ps.push(".helix".to_owned());
        ps.push(".helix/**".to_owned());
        ps.push(".helix/cache".to_owned());
        ps.push(".helix/cache/**".to_owned());
        ps.push("**/.helix.idx.new".to_owned());
        ps.push(".helix.idx.new".to_owned());
        assert(texts(ps@) =~= built_in());
        IgnoreRules::add_patterns(builder, &ps);
    }

    /// Adds several patterns.
    pub fn add_patterns(builder: &mut GlobSetBuilder, patterns: &Vec<String>)
        ensures
            builder_globs(*final(builder)) == builder_globs(*old(builder)) + patterns_globs(
                texts(patterns@),
            ),
    {
        let ghost start = builder_globs(*builder);
        let ghost ps = texts(patterns@);
        let mut i: usize = 0;
        assert(start + patterns_globs(ps.subrange(0, 0)) =~= start);
        while i < patterns.len()
            invariant
                i <= patterns.len(),
                ps == texts(patterns@),
                builder_globs(*builder) == start + patterns_globs(ps.subrange(0, i as int)),
            decreases patterns.len() - i,
        {
            IgnoreRules::add_pattern(builder, patterns[i].as_str());
            proof {
                let t = ps.subrange(0, i + 1);
                assert(t.drop_last() =~= ps.subrange(0, i as int));
                assert(t.last() == patterns@[i as int]@);
                assert(builder_globs(*builder) =~= start + patterns_globs(t));
            }
            i += 1;
        }
        assert(ps.subrange(0, i as int) =~= ps);
    }

    /// The patterns in the lines of a `.gitignore`.
    pub fn parse_gitignore(lines: &Vec<String>) -> (r: Vec<String>)
        ensures
            texts(r@) == gitignore_patterns(texts(lines@)),
    {
        let mut r: Vec<String> = Vec::new();
        let ghost ls = texts(lines@);
        let mut i: usize = 0;
        assert(texts(r@) =~= gitignore_patterns(ls.subrange(0, 0)));
        while i < lines.len()
            invariant
                i <= lines.len(),
                ls == texts(lines@),
                texts(r@) == gitignore_patterns(ls.subrange(0, i as int)),
            decreases lines.len() - i,
        {
            let l = trim(lines[i].as_str());
            let v = to_chars(l.as_str());
            proof {
                let t = ls.subrange(0, i + 1);
                assert(t.drop_last() =~= ls.subrange(0, i as int));
                assert(t.last() == lines@[i as int]@);
            }
            let ghost before = texts(r@);
            if v.len() > 0 && v[0] != '#' {
                r.push(l);
                assert(texts(r@) =~= before.push(l@));
            }
            i += 1;
        }
        assert(ls.subrange(0, i as int) =~= ls);
        r
    }

    /// The rules of a repository, from the lines of its `.gitignore`, the
    /// patterns of its configuration and those of the user.
    pub fn load(
        gitignore: &Vec<String>,
        repo_patterns: &Vec<String>,
        global_patterns: &Vec<String>,
    ) -> (r: IgnoreRules)
        ensures
            set_globs(r.globset) == effective_globs(
                all_globs(texts(gitignore@), texts(repo_patterns@), texts(global_patterns@)),
            ),
    {
        let mut builder: GlobSetBuilder = new_builder();
        IgnoreRules::add_built_in_patterns(&mut builder);
        let git = IgnoreRules::parse_gitignore(gitignore);
        IgnoreRules::add_patterns(&mut builder, &git);
        IgnoreRules::add_patterns(&mut builder, repo_patterns);
        IgnoreRules::add_patterns(&mut builder, global_patterns);
        assert(builder_globs(builder) =~= all_globs(
            texts(gitignore@),
            texts(repo_patterns@),
            texts(global_patterns@),
        ));
        match build_set(&builder) {
            Some(globset) => IgnoreRules { globset },
            None => {
                let mut fallback: GlobSetBuilder = new_builder();
                IgnoreRules::add_built_in_patterns(&mut fallback);
                assert(builder_globs(fallback) =~= patterns_globs(built_in()));
                match build_set(&fallback) {
                    Some(globset) => IgnoreRules { globset },
                    None => IgnoreRules { globset: empty_set() },
                }
            },
        }
    }

    /// Whether a path is ignored.
    pub fn should_ignore(&self, path: &str) -> (r: bool)
        ensures
            r == any_matches(set_globs(self.globset), path@),
    {
        set_matches(&self.globset, path)
    }
}

/// The built-in globs apply whatever else is configured, as long as they can be
/// compiled.
pub proof fn built_in_always_applies(
    gitignore: Seq<Seq<char>>,
    repo: Seq<Seq<char>>,
    global: Seq<Seq<char>>,
    path: Seq<char>,
)
    requires
        globs_compile(patterns_globs(built_in())),
        any_matches(patterns_globs(built_in()), path),
    ensures
        any_matches(effective_globs(all_globs(gitignore, repo, global)), path),
{
    let b = patterns_globs(built_in());
    let all = all_globs(gitignore, repo, global);
    let i = choose|i: int| 0 <= i < b.len() && glob_matches(#[trigger] b[i], path);
    assert(all[i] == b[i]);
}

} // verus!
