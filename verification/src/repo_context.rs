//! Where a command runs: in the main repository or in a sandbox.
use vstd::prelude::*;
use vstd::string::*;

use crate::path::{lemma_last_at, name_of, name_spec, parent, parent_spec};
use crate::text::{concat, has_text, str_eq, text_of, texts};

verus! {

/// Where a command runs. Paths are absolute.
#[derive(Debug, Clone, PartialEq, Eq)]
pub struct RepoContext {
    pub repo_root: String,
    /// The directory of the sandbox, if it is one.
    pub sandbox_root: Option<String>,
    pub workdir: String,
    pub index_path: String,
}

/// What there is in the file system, as far as it matters.
#[derive(Debug, Clone, PartialEq, Eq)]
pub struct FsFacts {
    /// The paths of files and directories that exist.
    pub present: Vec<String>,
    /// The paths of directories.
    pub dirs: Vec<String>,
}

/// What there is in the file system, with texts as characters.
pub struct Facts {
    pub present: Seq<Seq<char>>,
    pub dirs: Seq<Seq<char>>,
}

impl View for FsFacts {
    type V = Facts;

    open spec fn view(&self) -> Facts {
        Facts { present: texts(self.present@), dirs: texts(self.dirs@) }
    }
}

/// `name` in the directory `dir`.
pub open spec fn below(dir: Seq<char>, name: Seq<char>) -> Seq<char> {
    if dir.len() > 0 && dir.last() == '/' {
        dir + name
    } else {
        dir + "/"@ + name
    }
}

/// `name` in the directory `dir`.
pub fn path_below(dir: &str, name: &str) -> (r: String)
    ensures
        r@ == below(dir@, name@),
{
    if crate::text::ends_with(dir, "/") {
        proof {
            reveal_strlit("/");
            let t = dir@.subrange(dir@.len() - 1, dir@.len() as int);
            assert(t[0] == dir@.last());
        }
        concat(dir, name)
    } else {
        proof {
            reveal_strlit("/");
            if dir@.len() > 0 && dir@.last() == '/' {
                assert(dir@.subrange(dir@.len() - 1, dir@.len() as int) =~= "/"@);
            }
        }
        let mut r: String = dir.to_owned();
        r.append("/");
        r.append(name);
        r
    }
}

/// The directory that lies `n` levels above a path.
pub open spec fn above(p: Seq<char>, n: nat) -> Option<Seq<char>>
    decreases n,
{
    if n == 0 {
        Some(p)
    } else {
        match above(p, (n - 1) as nat) {
            Some(q) => parent_spec(q),
            None => None,
        }
    }
}

/// A parent is shorter.
pub proof fn lemma_parent_shorter(p: Seq<char>)
    ensures
        parent_spec(p) matches Some(q) ==> q.len() < p.len(),
{
    lemma_last_at(p, '/');
    if p.len() == 1 && p[0] == '/' {
        assert(p =~= seq!['/']);
    }
}

/// Whether a directory is that of a sandbox: it holds a manifest and a directory
/// of its own.
pub open spec fn is_sandbox_dir(f: Facts, dir: Seq<char>) -> bool {
    f.present.contains(below(dir, "manifest.toml"@)) && f.dirs.contains(below(dir, ".helix"@))
}

/// The sandbox that a path lies in, and the repository of it. The path, or one
/// above it, is the working directory of a sandbox, three levels below the
/// repository.
pub open spec fn sandbox_of(f: Facts, p: Seq<char>) -> Option<(Seq<char>, Seq<char>)>
    decreases p.len(),
    via sandbox_of_decreases
{
    match parent_spec(p) {
        None => None,
        Some(dir) => if name_spec(p) == "workdir"@ && is_sandbox_dir(f, dir) {
            match above(dir, 3) {
                Some(root) => Some((dir, root)),
                None => None,
            }
        } else {
            sandbox_of(f, dir)
        },
    }
}

#[via_fn]
proof fn sandbox_of_decreases(f: Facts, p: Seq<char>) {
    lemma_parent_shorter(p);
}

/// The repository that a path lies in: the nearest directory with a directory of
/// the tool in it.
pub open spec fn root_of(f: Facts, p: Seq<char>) -> Option<Seq<char>>
    decreases p.len(),
    via root_of_decreases
{
    if f.dirs.contains(below(p, ".helix"@)) {
        Some(p)
    } else {
        match parent_spec(p) {
            Some(dir) => root_of(f, dir),
            None => None,
        }
    }
}

#[via_fn]
proof fn root_of_decreases(f: Facts, p: Seq<char>) {
    lemma_parent_shorter(p);
}

/// The sandbox that a path lies in, and the repository of it.
fn detect_sandbox_from_path(facts: &FsFacts, path: &str) -> (r: Option<(String, String)>)
    ensures
        match r {
            Some(p) => sandbox_of(facts@, path@) == Some((p.0@, p.1@)),
            None => sandbox_of(facts@, path@) is None,
        },
{
    let mut p: String = path.to_owned();
    loop
        invariant
            sandbox_of(facts@, path@) == sandbox_of(facts@, p@),
        decreases p@.len(),
    {
        proof {
            lemma_parent_shorter(p@);
        }
        let dir = match parent(p.as_str()) {
            Some(d) => d,
            None => return None,
        };
        if str_eq(name_of(p.as_str()).as_str(), "workdir") && has_text(
            &facts.present,
            path_below(dir.as_str(), "manifest.toml").as_str(),
        ) && has_text(&facts.dirs, path_below(dir.as_str(), ".helix").as_str()) {
            proof {
                reveal_with_fuel(above, 4);
            }
            let sandboxes = match parent(dir.as_str()) {
                Some(d) => d,
                None => return None,
            };
            let helix = match parent(sandboxes.as_str()) {
                Some(d) => d,
                None => return None,
            };
            return match parent(helix.as_str()) {
                Some(root) => Some((dir, root)),
                None => None,
            };
        }
        p = dir;
    }
}

/// The repository that a path lies in.
fn find_repo_root(facts: &FsFacts, start: &str) -> (r: Option<String>)
    ensures
        text_of(r) == root_of(facts@, start@),
{
    let mut p: String = start.to_owned();
    loop
        invariant
            root_of(facts@, start@) == root_of(facts@, p@),
        decreases p@.len(),
    {
        if has_text(&facts.dirs, path_below(p.as_str(), ".helix").as_str()) {
            return Some(p);
        }
        proof {
            lemma_parent_shorter(p@);
        }
        p = match parent(p.as_str()) {
            Some(d) => d,
            None => return None,
        };
    }
}

impl RepoContext {
    /// Where a command runs that is started in `start_path`: in the sandbox that
    /// the path lies in, or else in the repository. There is none where the path
    /// lies in no repository.
    pub fn detect(facts: &FsFacts, start_path: &str) -> (r: Option<RepoContext>)
        ensures
            match sandbox_of(facts@, start_path@) {
                Some((sandbox, root)) => {
                    &&& r matches Some(c)
                    &&& c.repo_root@ == root
                    &&& text_of(c.sandbox_root) == Some(sandbox)
                    &&& c.workdir@ == below(sandbox, "workdir"@)
                    &&& c.index_path@ == below(sandbox, "helix.idx"@)
                },
                None => match root_of(facts@, start_path@) {
                    Some(root) => {
                        &&& r matches Some(c)
                        &&& c.repo_root@ == root
                        &&& c.sandbox_root is None
                        &&& c.workdir@ == root
                        &&& c.index_path@ == below(below(root, ".helix"@), "helix.idx"@)
                    },
                    None => r is None,
                },
            },
    {
        match detect_sandbox_from_path(facts, start_path) {
            Some((sandbox, root)) => {
                return Some(
                    RepoContext {
                        repo_root: root,
                        workdir: path_below(sandbox.as_str(), "workdir"),
                        index_path: path_below(sandbox.as_str(), "helix.idx"),
                        sandbox_root: Some(sandbox),
                    },
                );
            },
            None => {},
        }
        match find_repo_root(facts, start_path) {
            Some(root) => {
                let dir = path_below(root.as_str(), ".helix");
                Some(
                    RepoContext {
                        sandbox_root: None,
                        workdir: root.clone(),
                        index_path: path_below(dir.as_str(), "helix.idx"),
                        repo_root: root,
                    },
                )
            },
            None => None,
        }
    }

    /// Whether it is a sandbox.
    pub fn is_sandbox(&self) -> (r: bool)
        ensures
            r == (self.sandbox_root is Some),
    {
        self.sandbox_root.is_some()
    }

    /// The name of the sandbox: that of its directory.
    pub fn sandbox_name(&self) -> (r: Option<String>)
        ensures
            text_of(r) == (match self.sandbox_root {
                Some(p) => if name_spec(p@).len() > 0 {
                    Some(name_spec(p@))
                } else {
                    None
                },
                None => None,
            }),
    {
        match &self.sandbox_root {
            Some(p) => {
                let name = name_of(p.as_str());
                if name.as_str().is_empty() {
                    None
                } else {
                    Some(name)
                }
            },
            None => None,
        }
    }
}

/// The repository that a path lies in is the path itself or a directory above it,
/// and holds a directory of the tool.
pub proof fn root_is_above(f: Facts, p: Seq<char>)
    ensures
        root_of(f, p) matches Some(r) ==> {
            &&& f.dirs.contains(below(r, ".helix"@))
            &&& r.is_prefix_of(p)
        },
    decreases p.len(),
{
    lemma_parent_shorter(p);
    if !f.dirs.contains(below(p, ".helix"@)) {
        match parent_spec(p) {
            Some(dir) => {
                root_is_above(f, dir);
                lemma_last_at(p, '/');
                assert(dir =~= p.subrange(0, dir.len() as int));
                if let Some(r) = root_of(f, p) {
                    assert(r =~= p.subrange(0, r.len() as int));
                }
            },
            None => {},
        }
    }
}

} // verus!
