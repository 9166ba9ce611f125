//! Branches: creating, deleting, renaming, listing and switching to them.
use vstd::prelude::*;
use vstd::string::*;

use crate::hash::{hash_to_hex, hex_text, ObjectId};
use crate::helix_index::commit::short_hash;
use crate::refs::{
    head_commit, head_symbol, parse_head, read_head, ref_dir, ref_key, ref_present, HeadError,
    HeadFault, RefStore, Refs,
};
use crate::text::{concat3, 
    after, concat, contains, has_infix, has_prefix, str_eq, strip_prefix, texts, to_chars,
};
use crate::text_map::{lemma_pairs_at, lemma_pairs_from};

verus! {

/// What to do with a branch, and how.
#[derive(Debug, Clone, Copy, PartialEq, Eq)]
pub struct BranchOptions {
    pub delete: bool,
    pub rename: bool,
    /// Overwrite a branch, or delete the current one.
    pub force: bool,
    pub verbose: bool,
}

impl Default for BranchOptions {
    fn default() -> (o: BranchOptions)
        ensures
            !o.delete && !o.rename && !o.force && !o.verbose,
    {
        BranchOptions { delete: false, rename: false, force: false, verbose: false }
    }
}

/// Why a branch operation is refused.
#[derive(Debug, Clone, PartialEq, Eq)]
pub enum BranchError {
    EmptyName,
    SlashInName,
    BadFirstCharacter,
    DotsInName,
    ReservedName,
    AlreadyExists(String),
    DoesNotExist(String),
    /// The branch to delete is the current one.
    IsCurrent(String),
    /// There is no commit to start from.
    Head(HeadError),
    /// A directory of branches has this name.
    IsDirectory(String),
    NoSuchSandbox(String),
    NoSuchBranch(String),
}

/// Why a branch operation is refused, with texts as characters.
pub enum BranchFault {
    EmptyName,
    SlashInName,
    BadFirstCharacter,
    DotsInName,
    ReservedName,
    AlreadyExists(Seq<char>),
    DoesNotExist(Seq<char>),
    IsCurrent(Seq<char>),
    Head(HeadFault),
    IsDirectory(Seq<char>),
    NoSuchSandbox(Seq<char>),
    NoSuchBranch(Seq<char>),
}

impl View for BranchError {
    type V = BranchFault;

    open spec fn view(&self) -> BranchFault {
        match *self {
            BranchError::EmptyName => BranchFault::EmptyName,
            BranchError::SlashInName => BranchFault::SlashInName,
            BranchError::BadFirstCharacter => BranchFault::BadFirstCharacter,
            BranchError::DotsInName => BranchFault::DotsInName,
            BranchError::ReservedName => BranchFault::ReservedName,
            BranchError::AlreadyExists(s) => BranchFault::AlreadyExists(s@),
            BranchError::DoesNotExist(s) => BranchFault::DoesNotExist(s@),
            BranchError::IsCurrent(s) => BranchFault::IsCurrent(s@),
            BranchError::Head(e) => BranchFault::Head(e@),
            BranchError::IsDirectory(s) => BranchFault::IsDirectory(s@),
            BranchError::NoSuchSandbox(s) => BranchFault::NoSuchSandbox(s@),
            BranchError::NoSuchBranch(s) => BranchFault::NoSuchBranch(s@),
        }
    }
}

/// The words for a refusal.
pub open spec fn branch_fault_text(f: BranchFault) -> Seq<char> {
    match f {
        BranchFault::EmptyName => "Branch name cannot be empty"@,
        BranchFault::SlashInName =>
            "Branch name cannot contain '/'. Use simple names like 'main', 'dev', 'feature-x'"@,
        BranchFault::BadFirstCharacter => "Branch name cannot start with '.' or '-'"@,
        BranchFault::DotsInName => "Branch name cannot contain '..'"@,
        BranchFault::ReservedName => "'HEAD' is a reserved name"@,
        BranchFault::AlreadyExists(n) => "Branch '"@ + n
            + "' already exists. Use --force to overwrite."@,
        BranchFault::DoesNotExist(n) => "Branch '"@ + n + "' does not exist"@,
        BranchFault::IsCurrent(n) => "Cannot delete the current branch '"@ + n
            + "'. Switch to another branch first, or use --force."@,
        BranchFault::Head(HeadFault::Missing) => "No commits yet."@,
        BranchFault::Head(HeadFault::NoReference(_)) => "No commits yet'"@,
        BranchFault::Head(_) => "Invalid hash in HEAD"@,
        BranchFault::IsDirectory(n) => "'"@ + n + "' is a directory"@,
        BranchFault::NoSuchSandbox(n) => "Sandbox '"@ + n
            + "' does not exist. Create it with 'helix sandbox create "@ + n + "'"@,
        BranchFault::NoSuchBranch(n) => "Branch '"@ + n
            + "' does not exist. Create it with 'helix branch "@ + n + "'"@,
    }
}

impl BranchError {
    /// The refusal in words.
    pub fn message(&self) -> (r: String)
        ensures
            r@ == branch_fault_text(self@),
    {
        match self {
            BranchError::EmptyName => "Branch name cannot be empty".to_owned(),
            BranchError::SlashInName =>
                "Branch name cannot contain '/'. Use simple names like 'main', 'dev', 'feature-x'".to_owned(),
            BranchError::BadFirstCharacter =>
                "Branch name cannot start with '.' or '-'".to_owned(),
            BranchError::DotsInName => "Branch name cannot contain '..'".to_owned(),
            BranchError::ReservedName => "'HEAD' is a reserved name".to_owned(),
            BranchError::AlreadyExists(n) => concat3(
                "Branch '",
                n.as_str(),
                "' already exists. Use --force to overwrite.",
            ),
            BranchError::DoesNotExist(n) => concat3("Branch '", n.as_str(), "' does not exist"),
            BranchError::IsCurrent(n) => concat3(
                "Cannot delete the current branch '",
                n.as_str(),
                "'. Switch to another branch first, or use --force.",
            ),
            BranchError::Head(HeadError::Missing) => "No commits yet.".to_owned(),
            BranchError::Head(HeadError::NoReference(_)) => "No commits yet'".to_owned(),
            BranchError::Head(_) => "Invalid hash in HEAD".to_owned(),
            BranchError::IsDirectory(n) => concat3("'", n.as_str(), "' is a directory"),
            BranchError::NoSuchSandbox(n) => {
                let r = concat3(
                    "Sandbox '",
                    n.as_str(),
                    "' does not exist. Create it with 'helix sandbox create ",
                );
                concat3(r.as_str(), n.as_str(), "'")
            },
            BranchError::NoSuchBranch(n) => {
                let r = concat3(
                    "Branch '",
                    n.as_str(),
                    "' does not exist. Create it with 'helix branch ",
                );
                concat3(r.as_str(), n.as_str(), "'")
            },
        }
    }
}

/// What is wrong with the name of a branch.
pub open spec fn name_fault(name: Seq<char>) -> Option<BranchFault> {
    if name.len() == 0 {
        Some(BranchFault::EmptyName)
    } else if name.contains('/') {
        Some(BranchFault::SlashInName)
    } else if name[0] == '.' || name[0] == '-' {
        Some(BranchFault::BadFirstCharacter)
    } else if has_infix(name, ".."@) {
        Some(BranchFault::DotsInName)
    } else if name == "HEAD"@ {
        Some(BranchFault::ReservedName)
    } else {
        None
    }
}

/// Accepts the name of a branch, or says what is wrong with it.
pub fn validate_branch_name(name: &str) -> (r: Result<(), BranchError>)
    ensures
        match name_fault(name@) {
            Some(f) => r matches Err(e) && e@ == f,
            None => r is Ok,
        },
{
    let v = to_chars(name);
    if v.len() == 0 {
        return Err(BranchError::EmptyName);
    }
    match crate::path::split_head(name) {
        Some(_) => return Err(BranchError::SlashInName),
        None => {},
    }
    if v[0] == '.' || v[0] == '-' {
        return Err(BranchError::BadFirstCharacter);
    }
    if contains(name, "..") {
        return Err(BranchError::DotsInName);
    }
    if str_eq(name, "HEAD") {
        return Err(BranchError::ReservedName);
    }
    Ok(())
}

/// The name of the current branch, or what there is in its place.
pub open spec fn current_branch(r: Refs) -> Seq<char> {
    match r.head {
        None => "(no branch)"@,
        Some(content) => match head_symbol(content) {
            Some(path) => if has_prefix(path, "refs/heads/"@) {
                after(path, "refs/heads/"@.len() as int)
            } else {
                "(unknown)"@
            },
            None => "(detached HEAD)"@,
        },
    }
}

/// The name of the current branch, or what there is in its place.
pub fn get_current_branch(refs: &RefStore) -> (r: String)
    ensures
        r@ == current_branch(refs@),
{
    match &refs.head {
        None => "(no branch)".to_owned(),
        Some(content) => match parse_head(content.as_str()) {
            Some(path) => match strip_prefix(path.as_str(), "refs/heads/") {
                Some(name) => name,
                None => "(unknown)".to_owned(),
            },
            None => "(detached HEAD)".to_owned(),
        },
    }
}

/// The path of the reference of a branch.
pub open spec fn head_ref(name: Seq<char>) -> Seq<char> {
    "refs/heads/"@ + name
}

/// Why creating a branch is refused.
pub open spec fn create_fault(r: Refs, name: Seq<char>, force: bool) -> Option<BranchFault> {
    match name_fault(name) {
        Some(f) => Some(f),
        None => if ref_present(r, head_ref(name)) && !force {
            Some(BranchFault::AlreadyExists(name))
        } else {
            match head_commit(r) {
                Err(f) => Some(BranchFault::Head(f)),
                Ok(_) => if ref_dir(r, head_ref(name)) {
                    Some(BranchFault::IsDirectory(name))
                } else {
                    None
                },
            }
        },
    }
}

/// The references after a branch has been created: it points to the current
/// commit, and its upstream is the current branch, if there is one.
pub open spec fn with_branch(r: Refs, name: Seq<char>) -> Refs {
    let added = r.with(head_ref(name), hex_text(head_commit(r)->Ok_0) + "\n"@);
    let current = current_branch(added);
    if current != "(no branch)"@ && current != "(detached HEAD)"@ {
        Refs { upstreams: r.upstreams.insert(name, current), ..added }
    } else {
        added
    }
}

/// Creates a branch at the current commit, and gives what is to be said.
pub fn create_branch(refs: &mut RefStore, name: &str, options: BranchOptions) -> (r: Result<
    String,
    BranchError,
>)
    requires
        old(refs).wf(),
    ensures
        final(refs).wf(),
        match create_fault(old(refs)@, name@, options.force) {
            Some(f) => r matches Err(e) && e@ == f && final(refs)@ == old(refs)@,
            None => r matches Ok(m) && final(refs)@ == with_branch(old(refs)@, name@) && m@ == (
            if options.verbose {
                "Created branch '"@ + name@ + "' at commit "@ + hex_text(
                    head_commit(old(refs)@)->Ok_0,
                ).subrange(0, 8)
            } else {
                "Created branch '"@ + name@ + "'"@
            }),
        },
{
    match validate_branch_name(name) {
        Ok(_) => {},
        Err(e) => return Err(e),
    }
    let path = concat("refs/heads/", name);
    if refs.present(path.as_str()) && !options.force {
        return Err(BranchError::AlreadyExists(name.to_owned()));
    }
    let head: ObjectId = match read_head(refs) {
        Ok(h) => h,
        Err(e) => return Err(BranchError::Head(e)),
    };
    if refs.has_dir(path.as_str()) {
        return Err(BranchError::IsDirectory(name.to_owned()));
    }
    let hex = hash_to_hex(&head);
    refs.set_ref(path, concat(hex.as_str(), "\n"));
    let current = get_current_branch(refs);
    if !str_eq(current.as_str(), "(no branch)") && !str_eq(current.as_str(), "(detached HEAD)") {
        refs.set_upstream(name.to_owned(), current);
    }
    if options.verbose {
        let short = short_hash(&head);
        let m = concat3("Created branch '", name, "' at commit ");
        Ok(concat(m.as_str(), short.as_str()))
    } else {
        Ok(concat3("Created branch '", name, "'"))
    }
}

/// Why deleting a branch is refused.
pub open spec fn delete_fault(r: Refs, name: Seq<char>, force: bool) -> Option<BranchFault> {
    if !ref_present(r, head_ref(name)) {
        Some(BranchFault::DoesNotExist(name))
    } else if current_branch(r) == name && !force {
        Some(BranchFault::IsCurrent(name))
    } else if !r.has(head_ref(name)) {
        Some(BranchFault::IsDirectory(name))
    } else {
        None
    }
}

/// Deletes a branch, and gives what is to be said.
pub fn delete_branch(refs: &mut RefStore, name: &str, options: BranchOptions) -> (r: Result<
    Option<String>,
    BranchError,
>)
    requires
        old(refs).wf(),
    ensures
        final(refs).wf(),
        match delete_fault(old(refs)@, name@, options.force) {
            Some(f) => r matches Err(e) && e@ == f && final(refs)@ == old(refs)@,
            None => {
                &&& final(refs)@ == (Refs {
                    upstreams: old(refs)@.upstreams.remove(name@),
                    ..old(refs)@.without(head_ref(name@))
                })
                &&& r matches Ok(m)
                &&& if options.verbose {
                    m matches Some(t) && t@ == "Deleted branch '"@ + name@ + "'"@
                } else {
                    m is None
                }
            },
        },
{
    let path = concat("refs/heads/", name);
    if !refs.present(path.as_str()) {
        return Err(BranchError::DoesNotExist(name.to_owned()));
    }
    let current = get_current_branch(refs);
    if str_eq(current.as_str(), name) && !options.force {
        return Err(BranchError::IsCurrent(name.to_owned()));
    }
    if refs.get_ref(path.as_str()).is_none() {
        return Err(BranchError::IsDirectory(name.to_owned()));
    }
    refs.remove_ref(path.as_str());
    refs.remove_upstream(name);
    if options.verbose {
        Ok(Some(concat3("Deleted branch '", name, "'")))
    } else {
        Ok(None)
    }
}

/// Why renaming a branch is refused.
pub open spec fn rename_fault(
    r: Refs,
    old_name: Seq<char>,
    new_name: Seq<char>,
    force: bool,
) -> Option<BranchFault> {
    match name_fault(new_name) {
        Some(f) => Some(f),
        None => if !ref_present(r, head_ref(old_name)) {
            Some(BranchFault::DoesNotExist(old_name))
        } else if ref_present(r, head_ref(new_name)) && !force {
            Some(BranchFault::AlreadyExists(new_name))
        } else if !r.has(head_ref(old_name)) {
            Some(BranchFault::IsDirectory(old_name))
        } else if ref_dir(r, head_ref(new_name)) {
            Some(BranchFault::IsDirectory(new_name))
        } else {
            None
        },
    }
}

/// The references after a branch has been renamed: `HEAD` and the upstream
/// follow it.
pub open spec fn with_renamed(r: Refs, old_name: Seq<char>, new_name: Seq<char>) -> Refs {
    let moved = r.with(head_ref(new_name), r.at(head_ref(old_name))).without(head_ref(old_name));
    let headed = if current_branch(r) == old_name {
        Refs { head: Some("ref: refs/heads/"@ + new_name + "\n"@), ..moved }
    } else {
        moved
    };
    if r.upstreams.contains_key(old_name) {
        Refs {
            upstreams: r.upstreams.remove(old_name).insert(new_name, r.upstreams[old_name]),
            ..headed
        }
    } else {
        headed
    }
}

/// Renames a branch, and gives what is to be said.
pub fn rename_branch(
    refs: &mut RefStore,
    old_name: &str,
    new_name: &str,
    options: BranchOptions,
) -> (r: Result<Option<String>, BranchError>)
    requires
        old(refs).wf(),
    ensures
        final(refs).wf(),
        match rename_fault(old(refs)@, old_name@, new_name@, options.force) {
            Some(f) => r matches Err(e) && e@ == f && final(refs)@ == old(refs)@,
            None => {
                &&& final(refs)@ == with_renamed(old(refs)@, old_name@, new_name@)
                &&& r matches Ok(m)
                &&& if options.verbose {
                    m matches Some(t) && t@ == "Renamed branch '"@ + old_name@ + "' to '"@
                        + new_name@ + "'"@
                } else {
                    m is None
                }
            },
        },
{
    match validate_branch_name(new_name) {
        Ok(_) => {},
        Err(e) => return Err(e),
    }
    let old_path = concat("refs/heads/", old_name);
    let new_path = concat("refs/heads/", new_name);
    if !refs.present(old_path.as_str()) {
        return Err(BranchError::DoesNotExist(old_name.to_owned()));
    }
    if refs.present(new_path.as_str()) && !options.force {
        return Err(BranchError::AlreadyExists(new_name.to_owned()));
    }
    let content: String = match refs.get_ref(old_path.as_str()) {
        Some(c) => c.clone(),
        None => return Err(BranchError::IsDirectory(old_name.to_owned())),
    };
    if refs.has_dir(new_path.as_str()) {
        return Err(BranchError::IsDirectory(new_name.to_owned()));
    }
    refs.set_ref(new_path, content);
    refs.remove_ref(old_path.as_str());
    let current = get_current_branch(refs);
    if str_eq(current.as_str(), old_name) {
        refs.set_head(concat3("ref: refs/heads/", new_name, "\n"));
    }
    let upstream: Option<String> = match refs.get_upstream(old_name) {
        Some(u) => Some(u.clone()),
        None => None,
    };
    match upstream {
        Some(u) => {
            refs.remove_upstream(old_name);
            refs.set_upstream(new_name.to_owned(), u);
        },
        None => {},
    }
    if options.verbose {
        let m = concat3("Renamed branch '", old_name, "' to '");
        Ok(Some(concat3(m.as_str(), new_name, "'")))
    } else {
        Ok(None)
    }
}

/// Why switching to a branch is refused.
pub open spec fn switch_fault(r: Refs, name: Seq<char>) -> Option<BranchFault> {
    if has_prefix(name, "sandboxes/"@) {
        let sandbox = after(name, "sandboxes/"@.len() as int);
        if ref_present(r, "refs/sandboxes/"@ + sandbox) {
            None
        } else {
            Some(BranchFault::NoSuchSandbox(sandbox))
        }
    } else if ref_present(r, head_ref(name)) {
        None
    } else {
        Some(BranchFault::NoSuchBranch(name))
    }
}

/// The contents of `HEAD` on a branch or a sandbox.
pub open spec fn head_on(name: Seq<char>) -> Seq<char> {
    if has_prefix(name, "sandboxes/"@) {
        "ref: refs/sandboxes/"@ + after(name, "sandboxes/"@.len() as int) + "\n"@
    } else {
        "ref: refs/heads/"@ + name + "\n"@
    }
}

/// Makes a branch or a sandbox the current one, and gives what is to be said.
pub fn switch_branch(refs: &mut RefStore, name: &str) -> (r: Result<String, BranchError>)
    requires
        old(refs).wf(),
    ensures
        final(refs).wf(),
        match switch_fault(old(refs)@, name@) {
            Some(f) => r matches Err(e) && e@ == f && final(refs)@ == old(refs)@,
            None => {
                &&& final(refs)@ == (Refs { head: Some(head_on(name@)), ..old(refs)@ })
                &&& r matches Ok(m)
                &&& m@ == (if has_prefix(name@, "sandboxes/"@) {
                    "Switched to sandbox '"@ + after(name@, "sandboxes/"@.len() as int) + "'"@
                } else {
                    "Switched to branch '"@ + name@ + "'"@
                })
            },
        },
{
    match strip_prefix(name, "sandboxes/") {
        Some(sandbox) => {
            let path = concat("refs/sandboxes/", sandbox.as_str());
            if !refs.present(path.as_str()) {
                return Err(BranchError::NoSuchSandbox(sandbox));
            }
            refs.set_head(concat3("ref: refs/sandboxes/", sandbox.as_str(), "\n"));
            Ok(concat3("Switched to sandbox '", sandbox.as_str(), "'"))
        },
        None => {
            let path = concat("refs/heads/", name);
            if !refs.present(path.as_str()) {
                return Err(BranchError::NoSuchBranch(name.to_owned()));
            }
            refs.set_head(concat3("ref: refs/heads/", name, "\n"));
            Ok(concat3("Switched to branch '", name, "'"))
        },
    }
}

/// Whether `n` is the name of a branch, or of a sandbox after `sandboxes/`.
pub open spec fn is_branch(r: Refs, n: Seq<char>) -> bool {
    ||| n.len() > 0 && !n.contains('/') && r.refs.contains_key("refs/heads/"@ + n)
    ||| exists|m: Seq<char>|
        m.len() > 0 && !m.contains('/') && n == #[trigger] ("sandboxes/"@ + m)
            && r.refs.contains_key("refs/sandboxes/"@ + m)
}

/// The names `prefix + n` of the references `dir + n` that lie in the directory
/// itself.
fn names_in(refs: &RefStore, dir: &str, prefix: &str) -> (r: Vec<String>)
    requires
        refs.wf(),
    ensures
        texts(r@).no_duplicates(),
        forall|x: Seq<char>| #[trigger]
            texts(r@).contains(x) <==> exists|m: Seq<char>|
                m.len() > 0 && !m.contains('/') && x == #[trigger] (prefix@ + m)
                    && refs@.refs.contains_key(dir@ + m),
{
    let mut r: Vec<String> = Vec::new();
    let mut i: usize = 0;
    let ghost items = refs.refs.items@;
    while i < refs.refs.items.len()
        invariant
            i <= refs.refs.items.len(),
            refs.wf(),
            items == refs.refs.items@,
            texts(r@).no_duplicates(),
            forall|x: Seq<char>| #[trigger]
                texts(r@).contains(x) <==> exists|m: Seq<char>, j: int|
                    0 <= j < i && m.len() > 0 && !m.contains('/') && x == #[trigger] (prefix@ + m)
                        && (#[trigger] items[j]).0@ == dir@ + m,
        decreases refs.refs.items.len() - i,
    {
        let ghost before = texts(r@);
        let ghost k = items[i as int].0@;
        let mut name: Option<String> = None;
        match strip_prefix(refs.refs.items[i].0.as_str(), dir) {
            Some(m) => {
                if !m.as_str().is_empty() && crate::path::split_head(m.as_str()).is_none() {
                    name = Some(m);
                }
            },
            None => {},
        }
        match name {
            Some(m) => {
                let full = concat(prefix, m.as_str());
                assert(k =~= dir@ + m@);
                proof {
                    if before.contains(full@) {
                        let (q, j) = choose|q: Seq<char>, j: int|
                            0 <= j < i && q.len() > 0 && !q.contains('/') && full@
                                == #[trigger] (prefix@ + q) && (#[trigger] items[j]).0@ == dir@
                                + q;
                        lemma_concat_injective(prefix@, m@, q);
                        assert(items[j].0@ != items[i as int].0@);
                    }
                }
                r.push(full);
                assert(texts(r@) =~= before.push(full@));
                proof {
                    assert forall|x: Seq<char>| #[trigger]
                        texts(r@).contains(x) <==> exists|q: Seq<char>, j: int|
                        0 <= j < i + 1 && q.len() > 0 && !q.contains('/') && x == #[trigger] (
                        prefix@ + q) && (#[trigger] items[j]).0@ == dir@ + q by {
                        if texts(r@).contains(x) {
                            if before.contains(x) {
                                let (q, j) = choose|q: Seq<char>, j: int|
                                    0 <= j < i && q.len() > 0 && !q.contains('/') && x
                                        == #[trigger] (prefix@ + q) && (#[trigger] items[j]).0@
                                        == dir@ + q;
                                assert(x == prefix@ + q && items[j].0@ == dir@ + q);
                            } else {
                                assert(x == prefix@ + m@ && items[i as int].0@ == dir@ + m@);
                            }
                        }
                        if exists|q: Seq<char>, j: int|
                            0 <= j < i + 1 && q.len() > 0 && !q.contains('/') && x == #[trigger] (
                            prefix@ + q) && (#[trigger] items[j]).0@ == dir@ + q {
                            let (q, j) = choose|q: Seq<char>, j: int|
                                0 <= j < i + 1 && q.len() > 0 && !q.contains('/') && x
                                    == #[trigger] (prefix@ + q) && (#[trigger] items[j]).0@ == dir@
                                    + q;
                            if j < i {
                                assert(before.contains(x));
                                let n = choose|n: int| 0 <= n < before.len() && before[n] == x;
                                assert(texts(r@)[n] == x);
                            } else {
                                lemma_concat_injective(dir@, m@, q);
                                assert(texts(r@)[before.len() as int] == x);
                            }
                        }
                    }
                }
            },
            None => {
                proof {
                    assert forall|x: Seq<char>| #[trigger]
                        texts(r@).contains(x) <==> exists|q: Seq<char>, j: int|
                        0 <= j < i + 1 && q.len() > 0 && !q.contains('/') && x == #[trigger] (
                        prefix@ + q) && (#[trigger] items[j]).0@ == dir@ + q by {
                        if texts(r@).contains(x) {
                            let (q, j) = choose|q: Seq<char>, j: int|
                                0 <= j < i && q.len() > 0 && !q.contains('/') && x == #[trigger] (
                                prefix@ + q) && (#[trigger] items[j]).0@ == dir@ + q;
                            assert(x == prefix@ + q && items[j].0@ == dir@ + q);
                        }
                        if exists|q: Seq<char>, j: int|
                            0 <= j < i + 1 && q.len() > 0 && !q.contains('/') && x == #[trigger] (
                            prefix@ + q) && (#[trigger] items[j]).0@ == dir@ + q {
                            let (q, j) = choose|q: Seq<char>, j: int|
                                0 <= j < i + 1 && q.len() > 0 && !q.contains('/') && x
                                    == #[trigger] (prefix@ + q) && (#[trigger] items[j]).0@ == dir@
                                    + q;
                            if j == i {
                                assert(has_prefix(k, dir@)) by {
                                    assert(k.subrange(0, dir@.len() as int) =~= dir@);
                                }
                                assert(after(k, dir@.len() as int) =~= q);
                            }
                        }
                    }
                }
            },
        }
        i += 1;
    }
    proof {
        assert forall|x: Seq<char>| #[trigger]
            texts(r@).contains(x) <==> exists|m: Seq<char>|
            m.len() > 0 && !m.contains('/') && x == #[trigger] (prefix@ + m)
                && refs@.refs.contains_key(dir@ + m) by {
            if texts(r@).contains(x) {
                let (q, j) = choose|q: Seq<char>, j: int|
                    0 <= j < i && q.len() > 0 && !q.contains('/') && x == #[trigger] (prefix@ + q)
                        && (#[trigger] items[j]).0@ == dir@ + q;
                lemma_pairs_at(items, j);
                assert(x == prefix@ + q && refs@.refs.contains_key(dir@ + q));
            }
            if exists|m: Seq<char>|
                m.len() > 0 && !m.contains('/') && x == #[trigger] (prefix@ + m)
                    && refs@.refs.contains_key(dir@ + m) {
                let m = choose|m: Seq<char>|
                    m.len() > 0 && !m.contains('/') && x == #[trigger] (prefix@ + m)
                        && refs@.refs.contains_key(dir@ + m);
                assert(refs.refs@.contains_key(dir@ + m));
                lemma_pairs_from(items, dir@ + m);
                let j = choose|j: int|
                    0 <= j < items.len() && (#[trigger] items[j]).0@ == dir@ + m;
                assert(x == prefix@ + m && items[j].0@ == dir@ + m);
            }
        }
    }
    r
}

proof fn lemma_concat_injective(p: Seq<char>, a: Seq<char>, b: Seq<char>)
    ensures
        p + a == p + b ==> a == b,
{
    if p + a == p + b {
        assert(a =~= (p + a).subrange(p.len() as int, (p + a).len() as int));
        assert(b =~= (p + b).subrange(p.len() as int, (p + b).len() as int));
    }
}

/// The names of all branches, and of all sandboxes after `sandboxes/`.
pub fn get_all_branches(refs: &RefStore) -> (r: Vec<String>)
    requires
        refs.wf(),
    ensures
        texts(r@).no_duplicates(),
        forall|x: Seq<char>| #[trigger] texts(r@).contains(x) <==> is_branch(refs@, x),
{
    let mut r = names_in(refs, "refs/heads/", "");
    let mut s = names_in(refs, "refs/sandboxes/", "sandboxes/");
    let ghost a = texts(r@);
    let ghost b = texts(s@);
    r.append(&mut s);
    proof {
        reveal_strlit("");
        reveal_strlit("sandboxes/");
        assert(texts(r@) =~= a + b);
        assert forall|m: Seq<char>| #[trigger] (""@ + m) == m by {
            assert(""@ + m =~= m);
        }
        assert forall|i: int, j: int| 0 <= i < j < texts(r@).len() implies texts(r@)[i] != texts(
            r@,
        )[j] by {
            if i < a.len() && j >= a.len() {
                assert(a.contains(a[i]));
                assert(b.contains(b[j - a.len()]));
                let m = choose|m: Seq<char>|
                    m.len() > 0 && !m.contains('/') && a[i] == #[trigger] (""@ + m)
                        && refs@.refs.contains_key("refs/heads/"@ + m);
                assert(!a[i].contains('/'));
                let q = choose|q: Seq<char>|
                    q.len() > 0 && !q.contains('/') && b[j - a.len()] == #[trigger] (
                    "sandboxes/"@ + q) && refs@.refs.contains_key("refs/sandboxes/"@ + q);
                assert(b[j - a.len()][9] == '/');
                assert(b[j - a.len()].contains('/'));
            } else if i < a.len() {
                assert(a[i] != a[j]);
            } else {
                assert(b[i - a.len()] != b[j - a.len()]);
            }
        }
        assert forall|x: Seq<char>| #[trigger] texts(r@).contains(x) <==> is_branch(refs@, x) by {
            if texts(r@).contains(x) {
                let n = choose|n: int| 0 <= n < texts(r@).len() && texts(r@)[n] == x;
                if n < a.len() {
                    assert(a[n] == x);
                    assert(a.contains(x));
                    let m = choose|m: Seq<char>|
                        m.len() > 0 && !m.contains('/') && x == #[trigger] (""@ + m)
                            && refs@.refs.contains_key("refs/heads/"@ + m);
                    assert(x == m);
                } else {
                    assert(b[n - a.len()] == x);
                    assert(b.contains(x));
                }
            }
            if x.len() > 0 && !x.contains('/') && refs@.refs.contains_key("refs/heads/"@ + x) {
                assert(x == ""@ + x);
                assert(a.contains(x));
                let n = choose|n: int| 0 <= n < a.len() && a[n] == x;
                assert(texts(r@)[n] == x);
            }
            if exists|m: Seq<char>|
                m.len() > 0 && !m.contains('/') && x == #[trigger] ("sandboxes/"@ + m)
                    && refs@.refs.contains_key("refs/sandboxes/"@ + m) {
                assert(b.contains(x));
                let n = choose|n: int| 0 <= n < b.len() && b[n] == x;
                assert(texts(r@)[a.len() + n] == x);
            }
        }
    }
    r
}

/// Whether a name has characters, and no white space at its end.
pub open spec fn ends_solid(name: Seq<char>) -> bool {
    name.len() > 0 && !crate::text::is_space(name.last())
}

pub proof fn lemma_symbol(dir: Seq<char>, name: Seq<char>)
    requires
        dir.len() > 0,
        !crate::text::is_space(dir[0]),
        ends_solid(name),
    ensures
        head_symbol("ref: "@ + (dir + name) + "\n"@) == Some(dir + name),
{
    reveal_strlit("ref: ");
    reveal_strlit("ref:");
    reveal_strlit("\n");
    let path = dir + name;
    let line = "ref: "@ + path;
    crate::text::lemma_trim_around(line, Seq::empty(), "\n"@);
    assert(Seq::<char>::empty() + line + "\n"@ =~= "ref: "@ + (dir + name) + "\n"@);
    assert(line.subrange(0, 4) =~= "ref:"@);
    assert(path.last() == name.last());
    assert(path[0] == dir[0]);
    crate::text::lemma_trim_around(path, seq![' '], Seq::empty());
    assert(after(line, 4) =~= seq![' '] + path + Seq::<char>::empty());
}

/// After switching to a branch, `HEAD` names its reference.
pub proof fn lemma_head_on(name: Seq<char>)
    requires
        ends_solid(name),
        !has_prefix(name, "sandboxes/"@),
    ensures
        head_symbol(head_on(name)) == Some(head_ref(name)),
        has_prefix(head_ref(name), "refs/heads/"@),
        after(head_ref(name), "refs/heads/"@.len() as int) == name,
{
    reveal_strlit("refs/heads/");
    reveal_strlit("ref: refs/heads/");
    reveal_strlit("ref: ");
    lemma_symbol("refs/heads/"@, name);
    assert("ref: refs/heads/"@ + name + "\n"@ =~= "ref: "@ + ("refs/heads/"@ + name) + "\n"@);
    assert(head_ref(name).subrange(0, "refs/heads/"@.len() as int) =~= "refs/heads/"@);
    assert(after(head_ref(name), "refs/heads/"@.len() as int) =~= name);
}

/// The branch that one switches to is the current one, where its name does not
/// end with white space.
pub proof fn switching_makes_current(r: Refs, name: Seq<char>)
    requires
        ends_solid(name),
        !has_prefix(name, "sandboxes/"@),
    ensures
        current_branch(Refs { head: Some(head_on(name)), ..r }) == name,
{
    lemma_head_on(name);
}

/// A branch that has been created points to the commit that was current, and
/// the current commit stays.
pub proof fn created_branch_points_to_head(r: Refs, name: Seq<char>, force: bool)
    requires
        create_fault(r, name, force) is None,
        ends_solid(name),
    ensures
        ({
            let made = with_branch(r, name);
            &&& made.has(head_ref(name))
            &&& head_commit(Refs { head: Some(head_on(name)), ..made }) == head_commit(r)
            &&& current_branch(made) == current_branch(r)
            &&& forall|k: Seq<char>|
                k != ref_key(head_ref(name)) ==> (#[trigger] made.refs.contains_key(k)
                    <==> r.refs.contains_key(k)) && (r.refs.contains_key(k) ==> made.refs[k]
                    == r.refs[k])
        }),
{
    let made = with_branch(r, name);
    let id = head_commit(r)->Ok_0;
    reveal_strlit("sandboxes/");
    if has_prefix(name, "sandboxes/"@) {
        assert(name.subrange(0, 10)[9] == '/');
        assert(name[9] == '/');
        assert(name.contains('/'));
    }
    lemma_head_on(name);
    reveal_strlit("\n");
    let hex = hex_text(id);
    crate::text::lemma_trim_around(hex, Seq::empty(), "\n"@);
    assert(Seq::<char>::empty() + hex + "\n"@ =~= hex + "\n"@);
    crate::hash::hex_round_trip(id);
}

/// Renaming the current branch keeps it current under the new name, with its
/// commit.
pub proof fn renamed_branch_stays_current(
    r: Refs,
    old_name: Seq<char>,
    new_name: Seq<char>,
    force: bool,
)
    requires
        rename_fault(r, old_name, new_name, force) is None,
        current_branch(r) == old_name,
        ref_key(head_ref(old_name)) != ref_key(head_ref(new_name)),
        ends_solid(new_name),
    ensures
        current_branch(with_renamed(r, old_name, new_name)) == new_name,
        with_renamed(r, old_name, new_name).has(head_ref(new_name)),
        with_renamed(r, old_name, new_name).at(head_ref(new_name)) == r.at(head_ref(old_name)),
        !with_renamed(r, old_name, new_name).has(head_ref(old_name)),
{
    reveal_strlit("sandboxes/");
    if has_prefix(new_name, "sandboxes/"@) {
        assert(new_name.subrange(0, 10)[9] == '/');
        assert(new_name[9] == '/');
        assert(new_name.contains('/'));
    }
    lemma_head_on(new_name);
}

/// A branch that has been deleted is gone, and the other references stay.
pub proof fn deleted_branch_is_gone(r: Refs, name: Seq<char>, k: Seq<char>)
    ensures
        !r.without(head_ref(name)).has(head_ref(name)),
        k != ref_key(head_ref(name)) && r.refs.contains_key(k) ==> r.without(
            head_ref(name),
        ).refs.contains_key(k) && r.without(head_ref(name)).refs[k] == r.refs[k],
{
}

/// What to do for `branch` on the command line.
#[derive(Debug, Clone, PartialEq, Eq)]
pub enum BranchAction {
    /// Show the branches.
    Browse,
    DestroySandbox(String),
    SwitchSandbox(String),
    /// A sandbox cannot be renamed.
    RefuseRename,
    Delete(String),
    Rename(String, String),
    /// A rename needs two names.
    NeedsNewName,
    Switch(String),
    Create(String),
    /// The operation needs a name.
    NeedsName,
}

/// What to do for `branch` with these arguments.
pub fn branch_action(
    refs: &RefStore,
    name: Option<&str>,
    new_name: Option<&str>,
    list: bool,
    options: BranchOptions,
) -> (r: BranchAction)
    requires
        refs.wf(),
    ensures
        match name {
            None => if (!options.delete && !options.rename) || list {
                r == BranchAction::Browse
            } else {
                r == BranchAction::NeedsName
            },
            Some(n) => if list {
                r == BranchAction::Browse
            } else if has_prefix(n@, "sandboxes/"@) {
                let s = after(n@, "sandboxes/"@.len() as int);
                if options.delete {
                    r matches BranchAction::DestroySandbox(t) && t@ == s
                } else if options.rename {
                    r == BranchAction::RefuseRename
                } else {
                    r matches BranchAction::SwitchSandbox(t) && t@ == s
                }
            } else if options.delete {
                r matches BranchAction::Delete(t) && t@ == n@
            } else if options.rename {
                match new_name {
                    Some(m) => r matches BranchAction::Rename(a, b) && a@ == n@ && b@ == m@,
                    None => r == BranchAction::NeedsNewName,
                }
            } else if ref_present(refs@, head_ref(n@)) {
                r matches BranchAction::Switch(t) && t@ == n@
            } else {
                r matches BranchAction::Create(t) && t@ == n@
            },
        },
{
    if list {
        return BranchAction::Browse;
    }
    match name {
        None => {
            if !options.delete && !options.rename {
                BranchAction::Browse
            } else {
                BranchAction::NeedsName
            }
        },
        Some(n) => {
            match strip_prefix(n, "sandboxes/") {
                Some(s) => {
                    if options.delete {
                        return BranchAction::DestroySandbox(s);
                    }
                    if options.rename {
                        return BranchAction::RefuseRename;
                    }
                    return BranchAction::SwitchSandbox(s);
                },
                None => {},
            }
            if options.delete {
                return BranchAction::Delete(n.to_owned());
            }
            if options.rename {
                return match new_name {
                    Some(m) => BranchAction::Rename(n.to_owned(), m.to_owned()),
                    None => BranchAction::NeedsNewName,
                };
            }
            let path = concat("refs/heads/", n);
            if refs.present(path.as_str()) {
                BranchAction::Switch(n.to_owned())
            } else {
                BranchAction::Create(n.to_owned())
            }
        },
    }
}

} // verus!
