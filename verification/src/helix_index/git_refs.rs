//! Taking over branches, tags, `HEAD`, remotes and the author of a Git
//! repository.
use vstd::prelude::*;
use vstd::string::*;
use vstd::utf8::*;

use crate::hash::{
    bytes_to_hex, decoded_hex, hash_to_hex, hex_text, hex_to_bytes, HexError, ObjectId,
};
use crate::refs::{RefStore, Refs};
use crate::text::{
    after, concat, first_at, has_prefix, has_text, lines, lines_spec, push_line, starts_with,
    str_eq, strip_prefix, text_of, texts, trim, trim_spec,
};
use crate::text_map::TextMap;
use crate::toml_text::{put_toml_text, toml_with};

verus! {

/// The default branch: `main`, or else `master`, or else the first.
pub open spec fn default_branch(names: Seq<Seq<char>>) -> Option<Seq<char>> {
    if names.contains("main"@) {
        Some("main"@)
    } else if names.contains("master"@) {
        Some("master"@)
    } else if names.len() > 0 {
        Some(names[0])
    } else {
        None
    }
}

/// The default branch: `main`, or else `master`, or else the first.
pub fn find_default_branch(branch_names: &Vec<String>) -> (r: Option<String>)
    ensures
        text_of(r) == default_branch(texts(branch_names@)),
{
    if has_text(branch_names, "main") {
        Some("main".to_owned())
    } else if has_text(branch_names, "master") {
        Some("master".to_owned())
    } else if branch_names.len() > 0 {
        Some(branch_names[0].clone())
    } else {
        None
    }
}

/// The branch behind `merge = refs/heads/` in a line, if it holds one.
pub open spec fn merged_branch(t: Seq<char>) -> Option<Seq<char>> {
    let m = "merge = "@;
    let h = "refs/heads/"@;
    if has_prefix(t, m) && has_prefix(after(t, m.len() as int), h) {
        Some(trim_spec(after(after(t, m.len() as int), h.len() as int)))
    } else {
        None
    }
}

/// The upstream that the lines from `at` on give for a branch: the first in its
/// section.
pub open spec fn upstream_from(
    ls: Seq<Seq<char>>,
    at: int,
    branch: Seq<char>,
    begun: bool,
) -> Option<Seq<char>>
    decreases ls.len() - at,
{
    if at < 0 || at >= ls.len() {
        None
    } else {
        let t = trim_spec(ls[at]);
        if t == "[branch \""@ + branch + "\"]"@ {
            upstream_from(ls, at + 1, branch, true)
        } else if !begun {
            upstream_from(ls, at + 1, branch, false)
        } else if has_prefix(t, "["@) {
            None
        } else {
            match merged_branch(t) {
                Some(b) => Some(b),
                None => upstream_from(ls, at + 1, branch, true),
            }
        }
    }
}

/// The upstream that the text of a Git configuration gives for a branch.
pub open spec fn git_upstream(config: Seq<char>, branch: Seq<char>) -> Option<Seq<char>> {
    upstream_from(lines_spec(config), 0, branch, false)
}

/// The upstream that the text of a Git configuration gives for a branch.
pub fn parse_git_branch_upstream(git_config: &str, branch_name: &str) -> (r: Option<String>)
    ensures
        text_of(r) == git_upstream(git_config@, branch_name@),
{
    let mut header: String = concat("[branch \"", branch_name);
    header.append("\"]");
    let ls = lines(git_config);
    let ghost lv = texts(ls@);
    let mut begun: bool = false;
    let mut i: usize = 0;
    while i < ls.len()
        invariant
            i <= ls.len(),
            lv == texts(ls@),
            lv == lines_spec(git_config@),
            header@ == "[branch \""@ + branch_name@ + "\"]"@,
            git_upstream(git_config@, branch_name@) == upstream_from(
                lv,
                i as int,
                branch_name@,
                begun,
            ),
        decreases ls.len() - i,
    {
        assert(lv[i as int] == ls@[i as int]@);
        let t = trim(ls[i].as_str());
        if str_eq(t.as_str(), header.as_str()) {
            begun = true;
        } else if begun {
            if starts_with(t.as_str(), "[") {
                return None;
            }
            match strip_prefix(t.as_str(), "merge = ") {
                Some(m) => match strip_prefix(m.as_str(), "refs/heads/") {
                    Some(b) => return Some(trim(b.as_str())),
                    None => {},
                },
                None => {},
            }
        }
        i += 1;
    }
    None
}

/// The upstream of a branch: the one that Git has, or else the default branch. The
/// default branch has none.
pub open spec fn imported_upstream(
    names: Seq<Seq<char>>,
    config: Option<Seq<char>>,
    branch: Seq<char>,
) -> Option<Seq<char>> {
    if default_branch(names) == Some(branch) {
        None
    } else {
        match config {
            Some(c) => match git_upstream(c, branch) {
                Some(u) => Some(u),
                None => default_branch(names),
            },
            None => default_branch(names),
        }
    }
}

/// The references after the upstreams of the first `n` branches have been set.
pub open spec fn with_upstreams(
    r: Refs,
    names: Seq<Seq<char>>,
    config: Option<Seq<char>>,
    n: int,
) -> Refs
    decreases n,
{
    if n <= 0 {
        r
    } else {
        let before = with_upstreams(r, names, config, n - 1);
        match imported_upstream(names, config, names[n - 1]) {
            Some(u) => Refs { upstreams: before.upstreams.insert(names[n - 1], u), ..before },
            None => before,
        }
    }
}

/// Sets the upstream of each branch: the one that Git has, or else the default
/// branch. The default branch has none.
pub fn import_branch_upstream_tracking(
    refs: &mut RefStore,
    branch_names: &Vec<String>,
    git_config: &Option<String>,
)
    requires
        old(refs).wf(),
    ensures
        final(refs).wf(),
        final(refs)@ == with_upstreams(
            old(refs)@,
            texts(branch_names@),
            text_of(*git_config),
            branch_names@.len() as int,
        ),
{
    let ghost start = refs@;
    let ghost names = texts(branch_names@);
    let ghost config = text_of(*git_config);
    let default = find_default_branch(branch_names);
    let mut i: usize = 0;
    while i < branch_names.len()
        invariant
            i <= branch_names.len(),
            refs.wf(),
            names == texts(branch_names@),
            config == text_of(*git_config),
            text_of(default) == default_branch(names),
            refs@ == with_upstreams(start, names, config, i as int),
        decreases branch_names.len() - i,
    {
        let name = branch_names[i].as_str();
        assert(names[i as int] == name@);
        let is_default: bool = match &default {
            Some(d) => str_eq(d.as_str(), name),
            None => false,
        };
        if !is_default {
            let found = match git_config {
                Some(c) => parse_git_branch_upstream(c.as_str(), name),
                None => None,
            };
            match found {
                Some(u) => refs.set_upstream(branch_names[i].clone(), u),
                None => match &default {
                    Some(d) => refs.set_upstream(branch_names[i].clone(), d.clone()),
                    None => {},
                },
            }
        }
        i += 1;
    }
}

/// A reference of a Git repository: its path below the directory of branches or
/// tags, and what it holds.
#[derive(Debug, Clone, PartialEq, Eq)]
pub struct GitRef {
    pub path: String,
    pub content: String,
}

/// The commits that were imported, by the hexadecimal digits of their Git hash.
pub type CommitMap = Map<Seq<char>, ObjectId>;

/// The commit that a Git hash in a text stands for, if it was imported.
pub open spec fn imported_commit(m: CommitMap, content: Seq<char>) -> Result<
    Option<ObjectId>,
    HexError,
> {
    match decoded_hex(encode_utf8(trim_spec(content))) {
        Err(e) => Err(e),
        Ok(id) => if m.contains_key(hex_text(id)) {
            Ok(Some(m[hex_text(id)]))
        } else {
            Ok(None)
        },
    }
}

/// The commit that a Git hash in a text stands for, if it was imported.
fn find_imported(mapping: &TextMap<ObjectId>, content: &str) -> (r: Result<
    Option<ObjectId>,
    HexError,
>)
    requires
        mapping.wf(),
    ensures
        r == imported_commit(mapping@, content@),
{
    let t = trim(content);
    match hex_to_bytes(t.as_str()) {
        Err(e) => Err(e),
        Ok(id) => {
            let key = bytes_to_hex(id.as_slice());
            match mapping.get(key.as_str()) {
                Some(h) => Ok(Some(*h)),
                None => Ok(None),
            }
        },
    }
}

/// What taking over references comes to: the references, the paths that were taken
/// over, and the fault that ended it.
pub struct Takeover {
    pub refs: Refs,
    pub taken: Seq<Seq<char>>,
    pub fault: Option<HexError>,
}

/// What taking over references comes to, below a directory. One whose commit was
/// not imported is left out; one that holds no hash ends it.
pub open spec fn taken_over(
    r: Refs,
    dir: Seq<char>,
    files: Seq<GitRef>,
    m: CommitMap,
) -> Takeover
    decreases files.len(),
{
    if files.len() == 0 {
        Takeover { refs: r, taken: Seq::empty(), fault: None }
    } else {
        let before = taken_over(r, dir, files.drop_last(), m);
        let f = files.last();
        if before.fault is Some {
            before
        } else {
            match imported_commit(m, f.content@) {
                Err(e) => Takeover { fault: Some(e), ..before },
                Ok(None) => before,
                Ok(Some(h)) => Takeover {
                    refs: before.refs.with(dir + f.path@, hex_text(h@)),
                    taken: before.taken.push(f.path@),
                    fault: None,
                },
            }
        }
    }
}

proof fn lemma_fault_stays(r: Refs, dir: Seq<char>, files: Seq<GitRef>, m: CommitMap, i: int)
    requires
        0 <= i <= files.len(),
        taken_over(r, dir, files.subrange(0, i), m).fault is Some,
    ensures
        taken_over(r, dir, files, m) == taken_over(r, dir, files.subrange(0, i), m),
    decreases files.len() - i,
{
    if i < files.len() {
        let t = files.subrange(0, i + 1);
        assert(t.drop_last() =~= files.subrange(0, i));
        lemma_fault_stays(r, dir, files, m, i + 1);
    } else {
        assert(files.subrange(0, i) =~= files);
    }
}

/// Takes over the references of a Git repository below a directory.
fn take_over(refs: &mut RefStore, dir: &str, files: &Vec<GitRef>, mapping: &TextMap<ObjectId>) -> (r:
    Result<Vec<String>, HexError>)
    requires
        old(refs).wf(),
        mapping.wf(),
    ensures
        final(refs).wf(),
        ({
            let t = taken_over(old(refs)@, dir@, files@, mapping@);
            &&& final(refs)@ == t.refs
            &&& match t.fault {
                Some(f) => r == Err::<Vec<String>, HexError>(f),
                None => r matches Ok(v) && texts(v@) == t.taken,
            }
        }),
{
    let ghost start = refs@;
    let ghost fs = files@;
    let ghost m = mapping@;
    let mut taken: Vec<String> = Vec::new();
    let mut i: usize = 0;
    proof {
        assert(fs.subrange(0, 0) =~= Seq::empty());
        assert(texts(taken@) =~= Seq::empty());
    }
    while i < files.len()
        invariant
            i <= files.len(),
            refs.wf(),
            mapping.wf(),
            fs == files@,
            m == mapping@,
            start == old(refs)@,
            taken_over(start, dir@, fs.subrange(0, i as int), m) == (Takeover {
                refs: refs@,
                taken: texts(taken@),
                fault: None,
            }),
        decreases files.len() - i,
    {
        let f = &files[i];
        proof {
            let t = fs.subrange(0, i + 1);
            assert(t.drop_last() =~= fs.subrange(0, i as int));
            assert(t.last() == *f);
        }
        match find_imported(mapping, f.content.as_str()) {
            Err(e) => {
                proof {
                    lemma_fault_stays(start, dir@, fs, m, i + 1);
                }
                return Err(e);
            },
            Ok(None) => {},
            Ok(Some(h)) => {
                refs.set_ref(concat(dir, f.path.as_str()), hash_to_hex(&h));
                push_line(&mut taken, f.path.clone());
            },
        }
        i += 1;
    }
    assert(fs.subrange(0, i as int) =~= fs);
    Ok(taken)
}

/// Takes over the branches of a Git repository, and sets their upstreams.
pub fn import_git_branches(
    refs: &mut RefStore,
    branches: &Vec<GitRef>,
    git_config: &Option<String>,
    mapping: &TextMap<ObjectId>,
) -> (r: Result<(), HexError>)
    requires
        old(refs).wf(),
        mapping.wf(),
    ensures
        final(refs).wf(),
        ({
            let t = taken_over(old(refs)@, "refs/heads/"@, branches@, mapping@);
            match t.fault {
                Some(f) => r == Err::<(), HexError>(f) && final(refs)@ == t.refs,
                None => r is Ok && final(refs)@ == with_upstreams(
                    t.refs,
                    t.taken,
                    text_of(*git_config),
                    t.taken.len() as int,
                ),
            }
        }),
{
    match take_over(refs, "refs/heads/", branches, mapping) {
        Ok(names) => {
            import_branch_upstream_tracking(refs, &names, git_config);
            Ok(())
        },
        Err(e) => Err(e),
    }
}

/// Takes over the tags of a Git repository.
pub fn import_git_tags(refs: &mut RefStore, tags: &Vec<GitRef>, mapping: &TextMap<ObjectId>) -> (r:
    Result<(), HexError>)
    requires
        old(refs).wf(),
        mapping.wf(),
    ensures
        final(refs).wf(),
        ({
            let t = taken_over(old(refs)@, "refs/tags/"@, tags@, mapping@);
            &&& final(refs)@ == t.refs
            &&& match t.fault {
                Some(f) => r == Err::<(), HexError>(f),
                None => r is Ok,
            }
        }),
{
    match take_over(refs, "refs/tags/", tags, mapping) {
        Ok(_) => Ok(()),
        Err(e) => Err(e),
    }
}

/// Why the `HEAD` of a Git repository cannot be taken over.
#[derive(Debug, Clone, Copy, PartialEq, Eq)]
pub enum GitHeadError {
    Invalid(HexError),
    /// Its commit was not imported.
    UnknownCommit,
}

/// What becomes of the `HEAD` of a Git repository: one that names a reference is
/// kept as it is, and one that holds a hash comes to hold that of the imported
/// commit.
pub open spec fn imported_head(content: Seq<char>, m: CommitMap) -> Result<Seq<char>, GitHeadError> {
    if has_prefix(content, "ref:"@) {
        Ok(content)
    } else {
        match imported_commit(m, content) {
            Err(e) => Err(GitHeadError::Invalid(e)),
            Ok(None) => Err(GitHeadError::UnknownCommit),
            Ok(Some(h)) => Ok(hex_text(h@)),
        }
    }
}

/// Takes over the `HEAD` of a Git repository.
pub fn import_git_head(refs: &mut RefStore, content: &str, mapping: &TextMap<ObjectId>) -> (r: Result<
    (),
    GitHeadError,
>)
    requires
        old(refs).wf(),
        mapping.wf(),
    ensures
        final(refs).wf(),
        match imported_head(content@, mapping@) {
            Ok(h) => r is Ok && final(refs)@ == (Refs { head: Some(h), ..old(refs)@ }),
            Err(f) => r == Err::<(), GitHeadError>(f) && final(refs)@ == old(refs)@,
        },
{
    if starts_with(content, "ref:") {
        refs.set_head(content.to_owned());
        return Ok(());
    }
    match find_imported(mapping, content) {
        Err(e) => Err(GitHeadError::Invalid(e)),
        Ok(None) => Err(GitHeadError::UnknownCommit),
        Ok(Some(h)) => {
            refs.set_head(hash_to_hex(&h));
            Ok(())
        },
    }
}

/// The pattern of an address for access by SSH.
pub const SSH_PATTERN: &'static str = r"^(?:ssh://)?git@(?P<host>[^:/]+)[:/](?P<path>.+)$";

/// The place of the first `:` or `/`, or the length.
pub open spec fn host_end(s: Seq<char>) -> int {
    let a = first_at(s, ':');
    let b = first_at(s, '/');
    if a < b {
        a
    } else {
        b
    }
}

/// The host and the path of an address for access by SSH: behind `git@`, which may
/// stand behind `ssh://`, up to the first `:` or `/`, and behind that on one line.
pub open spec fn ssh_parts(url: Seq<char>) -> Option<(Seq<char>, Seq<char>)> {
    let rest = if has_prefix(url, "ssh://"@) {
        after(url, 6)
    } else {
        url
    };
    let s = after(rest, 4);
    let i = host_end(s);
    let path = after(s, i + 1);
    if has_prefix(rest, "git@"@) && 0 < i < s.len() - 1 && !path.contains('\n') {
        Some((s.subrange(0, i), path))
    } else {
        None
    }
}

/// Calls `Regex::new` and `Regex::captures` with the pattern of an address for
/// access by SSH, and gives the groups `host` and `path`: the pattern matches just
/// the addresses that are taken apart so.
#[verifier::external_body]
fn ssh_captures(pattern: &str, url: &str) -> (r: Option<(String, String)>)
    requires
        pattern@ == SSH_PATTERN@,
    ensures
        match r {
            Some(p) => ssh_parts(url@) == Some((p.0@, p.1@)),
            None => r is None && ssh_parts(url@) is None,
        },
{
    let re = regex::Regex::new(pattern).unwrap();
    re.captures(url).map(|c| (c["host"].to_string(), c["path"].to_string()))
}

/// A text without the prefix `http://`, as often as it stands there.
pub open spec fn without_http(s: Seq<char>) -> Seq<char>
    decreases s.len(),
{
    if s.len() >= 7 && has_prefix(s, "http://"@) {
        without_http(after(s, 7))
    } else {
        s
    }
}

/// An address for access by HTTPS.
pub open spec fn https_url(url: Seq<char>) -> Seq<char> {
    let plain = match ssh_parts(url) {
        Some((host, path)) => "https://"@ + host + "/"@ + path,
        None => url,
    };
    if has_prefix(plain, "https://"@) {
        plain
    } else {
        "https://"@ + without_http(plain)
    }
}

/// A text without the prefix `http://`, as often as it stands there.
fn strip_http(s: &str) -> (r: String)
    ensures
        r@ == without_http(s@),
{
    proof {
        reveal_strlit("http://");
    }
    let mut t: String = s.to_owned();
    loop
        invariant
            "http://"@.len() == 7,
            without_http(s@) == without_http(t@),
        decreases t@.len(),
    {
        match strip_prefix(t.as_str(), "http://") {
            Some(u) => {
                t = u;
            },
            None => return t,
        }
    }
}

/// An address for access by HTTPS: one for access by SSH is rewritten, and any
/// other gets the prefix.
pub fn format_url(url: &str) -> (r: String)
    ensures
        r@ == https_url(url@),
{
    let plain = match ssh_captures(SSH_PATTERN, url) {
        Some((host, path)) => {
            let mut s: String = concat("https://", host.as_str());
            s.append("/");
            s.append(path.as_str());
            s
        },
        None => url.to_owned(),
    };
    if starts_with(plain.as_str(), "https://") {
        plain
    } else {
        concat("https://", strip_http(plain.as_str()).as_str())
    }
}

/// Every address comes out with the prefix of HTTPS, and one that has it is kept.
pub proof fn urls_are_https(url: Seq<char>)
    ensures
        has_prefix(https_url(url), "https://"@),
        has_prefix(url, "https://"@) ==> https_url(url) == url,
{
    reveal_strlit("https://");
    reveal_strlit("ssh://");
    reveal_strlit("git@");
    let plain = match ssh_parts(url) {
        Some((host, path)) => "https://"@ + host + "/"@ + path,
        None => url,
    };
    if !has_prefix(plain, "https://"@) {
        let out = "https://"@ + without_http(plain);
        assert(out.subrange(0, 8) =~= "https://"@);
    }
    if has_prefix(url, "https://"@) {
        assert(url.subrange(0, 8)[0] == 'h');
        assert(url[0] == 'h');
        if has_prefix(url, "ssh://"@) {
            assert(url.subrange(0, 6)[0] == 's');
        }
        if has_prefix(url, "git@"@) {
            assert(url.subrange(0, 4)[0] == 'g');
        }
    }
}

/// A remote of a Git repository.
#[derive(Debug, Clone, PartialEq, Eq)]
pub struct GitRemote {
    pub name: String,
    pub fetch_url: Option<String>,
    pub push_url: Option<String>,
}

/// The address to push to: that to pull from, if no other is given.
pub open spec fn push_address(r: GitRemote) -> Option<Seq<char>> {
    match r.push_url {
        Some(u) => Some(u@),
        None => text_of(r.fetch_url),
    }
}

/// How many remotes have an address to push to.
pub open spec fn remote_count(rs: Seq<GitRemote>) -> nat
    decreases rs.len(),
{
    if rs.len() == 0 {
        0
    } else {
        remote_count(rs.drop_last()) + if push_address(rs.last()) is Some {
            1nat
        } else {
            0
        }
    }
}

/// The text of a configuration file with an address put under a name in the section of
/// remotes, if there is a text and an address.
pub open spec fn with_address(
    content: Option<Seq<char>>,
    key: Seq<char>,
    url: Option<Seq<char>>,
) -> Option<Seq<char>> {
    match (content, url) {
        (Some(c), Some(u)) => toml_with(c, "remotes"@, key, https_url(u)),
        (Some(c), None) => Some(c),
        (None, _) => None,
    }
}

/// The text of a configuration file after remotes have been put into it: for each the
/// address to pull from, and that to push to.
pub open spec fn config_with_remotes(content: Seq<char>, rs: Seq<GitRemote>) -> Option<Seq<char>>
    decreases rs.len(),
{
    if rs.len() == 0 {
        Some(content)
    } else {
        let r = rs.last();
        let before = config_with_remotes(content, rs.drop_last());
        let pulled = with_address(before, r.name@ + "_pull"@, text_of(r.fetch_url));
        with_address(pulled, r.name@ + "_push"@, push_address(r))
    }
}

/// Why a configuration file cannot be written.
#[derive(Debug, Clone, Copy, PartialEq, Eq, Structural)]
pub enum ConfigError {
    /// It is no TOML, or a section that is written to is no table.
    Unfit,
}

/// The text of the configuration file after the remotes of a Git repository have been taken
/// over. Where none has an address, it stays as it is. Where there was no file, there is one
/// then.
pub open spec fn imported_remotes(config: Option<Seq<char>>, rs: Seq<GitRemote>) -> Result<
    Option<Seq<char>>,
    ConfigError,
> {
    let start = match config {
        Some(c) => c,
        None => Seq::empty(),
    };
    if remote_count(rs) == 0 {
        Ok(config)
    } else {
        match config_with_remotes(start, rs) {
            Some(t) => Ok(Some(t)),
            None => Err(ConfigError::Unfit),
        }
    }
}

/// Puts an address under a name in the section of remotes.
fn put_address(content: String, key: String, url: Option<&String>) -> (r: Option<String>)
    ensures
        text_of(r) == with_address(
            Some(content@),
            key@,
            match url {
                Some(u) => Some(u@),
                None => None,
            },
        ),
{
    match url {
        Some(u) => {
            let address = format_url(u.as_str());
            put_toml_text(content.as_str(), "remotes", key.as_str(), address.as_str())
        },
        None => Some(content),
    }
}

/// Takes over the remotes of a Git repository into the configuration file, and counts them.
pub fn import_git_remotes(config: &mut Option<String>, remotes: &Vec<GitRemote>) -> (r: Result<
    usize,
    ConfigError,
>)
    ensures
        match imported_remotes(text_of(*old(config)), remotes@) {
            Ok(t) => {
                &&& r matches Ok(n)
                &&& n == remote_count(remotes@)
                &&& text_of(*final(config)) == t
            },
            Err(e) => r == Err::<usize, ConfigError>(e) && *final(config) == *old(config),
        },
{
    let ghost rs = remotes@;
    let mut text: String = match &*config {
        Some(c) => c.clone(),
        None => String::new(),
    };
    let ghost start = text@;
    let mut count: usize = 0;
    let mut i: usize = 0;
    proof {
        assert(rs.subrange(0, 0) =~= Seq::empty());
        assert(text_of(*config) is None ==> start =~= Seq::empty());
    }
    while i < remotes.len()
        invariant
            i <= remotes.len(),
            rs == remotes@,
            *config == *old(config),
            start == (match text_of(*config) {
                Some(c) => c,
                None => Seq::empty(),
            }),
            count <= i,
            count == remote_count(rs.subrange(0, i as int)),
            count == 0 ==> text@ == start,
            config_with_remotes(start, rs.subrange(0, i as int)) == Some(text@),
        decreases remotes.len() - i,
    {
        let r = &remotes[i];
        proof {
            let t = rs.subrange(0, i + 1);
            assert(t.drop_last() =~= rs.subrange(0, i as int));
            assert(t.last() == *r);
        }
        let pull: Option<&String> = match &r.fetch_url {
            Some(u) => Some(u),
            None => None,
        };
        let push: Option<&String> = match &r.push_url {
            Some(u) => Some(u),
            None => pull,
        };
        let mut next: Option<String> = put_address(text, concat(r.name.as_str(), "_pull"), pull);
        if let Some(t) = next {
            next = put_address(t, concat(r.name.as_str(), "_push"), push);
        }
        text = match next {
            Some(t) => t,
            None => {
                proof {
                    lemma_unfit(start, rs, i + 1);
                    lemma_some_address(rs, i as int);
                }
                return Err(ConfigError::Unfit);
            },
        };
        if push.is_some() {
            count += 1;
        }
        i += 1;
    }
    assert(rs.subrange(0, i as int) =~= rs);
    if count > 0 {
        *config = Some(text);
    }
    Ok(count)
}

/// Where the first remotes cannot be put into a configuration file, all cannot.
proof fn lemma_unfit(content: Seq<char>, rs: Seq<GitRemote>, n: int)
    requires
        0 <= n <= rs.len(),
        config_with_remotes(content, rs.subrange(0, n)) is None,
    ensures
        config_with_remotes(content, rs) is None,
    decreases rs.len() - n,
{
    if n == rs.len() {
        assert(rs.subrange(0, n) =~= rs);
    } else {
        let t = rs.subrange(0, n + 1);
        assert(t.drop_last() =~= rs.subrange(0, n));
        lemma_unfit(content, rs, n + 1);
    }
}

/// Where one remote has an address, they are counted.
proof fn lemma_some_address(rs: Seq<GitRemote>, i: int)
    requires
        0 <= i < rs.len(),
        push_address(rs[i]) is Some,
    ensures
        remote_count(rs) > 0,
    decreases rs.len(),
{
    if i < rs.len() - 1 {
        lemma_some_address(rs.drop_last(), i);
    }
}

/// The text of a configuration file with a name and an address put into the section of the
/// user.
pub open spec fn config_with_user(content: Seq<char>, name: Seq<char>, email: Seq<char>) -> Option<
    Seq<char>,
> {
    match toml_with(content, "user"@, "name"@, name) {
        Some(t) => toml_with(t, "user"@, "email"@, email),
        None => None,
    }
}

/// Puts a name and an address into the section of the user.
pub fn with_user(content: &str, name: &str, email: &str) -> (r: Option<String>)
    ensures
        text_of(r) == config_with_user(content@, name@, email@),
{
    match put_toml_text(content, "user", "name", name) {
        Some(t) => put_toml_text(t.as_str(), "user", "email", email),
        None => None,
    }
}

/// An author that was taken over.
#[derive(Debug, Clone, PartialEq, Eq)]
pub struct ImportedAuthor {
    /// The author as it is shown.
    pub shown: String,
    /// The text of the configuration file with the author in it.
    pub config: String,
}

/// The author to take over, as it is shown, and the text of the configuration file with it:
/// the name and the address of the Git configuration, where both are given and there is a
/// file to write them to.
pub open spec fn imported_author(
    name: Option<Seq<char>>,
    email: Option<Seq<char>>,
    config: Option<Seq<char>>,
) -> Result<Option<(Seq<char>, Seq<char>)>, ConfigError> {
    match (name, email, config) {
        (Some(n), Some(e), Some(c)) => if trim_spec(n).len() > 0 && trim_spec(e).len() > 0 {
            match config_with_user(c, n, e) {
                Some(t) => Ok(Some((n + " <"@ + e + ">"@, t))),
                None => Err(ConfigError::Unfit),
            }
        } else {
            Ok(None)
        },
        _ => Ok(None),
    }
}

/// Takes over the author of a Git repository into the configuration file.
pub fn import_git_config(
    name: &Option<String>,
    email: &Option<String>,
    config: &Option<String>,
) -> (r: Result<Option<ImportedAuthor>, ConfigError>)
    ensures
        match imported_author(text_of(*name), text_of(*email), text_of(*config)) {
            Ok(Some((shown, text))) => r matches Ok(Some(a)) && a.shown@ == shown && a.config@
                == text,
            Ok(None) => r matches Ok(None),
            Err(e) => r == Err::<Option<ImportedAuthor>, ConfigError>(e),
        },
{
    match (name, email, config) {
        (Some(n), Some(e), Some(c)) => {
            if trim(n.as_str()).as_str().is_empty() || trim(e.as_str()).as_str().is_empty() {
                return Ok(None);
            }
            match with_user(c.as_str(), n.as_str(), e.as_str()) {
                Some(config) => {
                    let mut shown: String = concat(n.as_str(), " <");
                    shown.append(e.as_str());
                    shown.append(">");
                    Ok(Some(ImportedAuthor { shown, config }))
                },
                None => Err(ConfigError::Unfit),
            }
        },
        _ => Ok(None),
    }
}

} // verus!
