//! What is listed of branches.
use vstd::prelude::*;
use vstd::string::*;
use vstd::utf8::*;

use crate::branch_command::{current_branch, get_all_branches, get_current_branch, is_branch};
use crate::commit_graph::{ancestors, count_commits};
use crate::hash::{decoded_hash, hex_to_hash, ObjectId};
use crate::helix_index::commit::{Commit, CommitView};
use crate::helix_index::commit_store::{branch_ref, branch_ref_path, commit_at, read_commit};
use crate::object_store::{ObjectStore, Objects};
use crate::order::{codes, in_order, lex_less, sort, sorted, text_less, Compares, Ranking};
use crate::refs::{RefStore, Refs};
use crate::text::{
    after, concat3, has_prefix, lines, lines_spec, starts_with, str_eq, strip_prefix, text_of,
    texts, trim, trim_spec,
};

verus! {

/// What is listed of a branch.
#[derive(Debug)]
pub struct BranchInfo {
    pub name: String,
    pub is_current: bool,
    pub last_commit_hash: Option<ObjectId>,
    pub last_commit: Option<Commit>,
    pub commit_count: usize,
    /// The branch of a remote that it follows, by the configuration file.
    pub remote_tracking: Option<String>,
    pub upstream: Option<String>,
}

/// What is listed of a branch, with texts as characters.
pub struct BranchView {
    pub name: Seq<char>,
    pub is_current: bool,
    pub last_commit_hash: Option<Seq<u8>>,
    pub last_commit: Option<CommitView>,
    pub commit_count: nat,
    pub remote_tracking: Option<Seq<char>>,
    pub upstream: Option<Seq<char>>,
}

impl View for BranchInfo {
    type V = BranchView;

    open spec fn view(&self) -> BranchView {
        BranchView {
            name: self.name@,
            is_current: self.is_current,
            last_commit_hash: match self.last_commit_hash {
                Some(h) => Some(h@),
                None => None,
            },
            last_commit: match self.last_commit {
                Some(c) => Some(c@),
                None => None,
            },
            commit_count: self.commit_count as nat,
            remote_tracking: text_of(self.remote_tracking),
            upstream: text_of(self.upstream),
        }
    }
}

pub open spec fn branch_views(v: Seq<BranchInfo>) -> Seq<BranchView> {
    Seq::new(v.len(), |i: int| v[i]@)
}

/// What has been read of the section of a branch: whether it has begun, the name
/// of the remote, and the branch there.
pub struct Section {
    pub begun: bool,
    pub remote: Option<Seq<char>>,
    pub merge: Option<Seq<char>>,
}

/// The header of the section of a branch.
pub open spec fn branch_header(branch: Seq<char>) -> Seq<char> {
    "[branch \""@ + branch + "\"]"@
}

/// What the lines from `at` on say of a branch: its section, up to the header of
/// another. More text, such as a comment, may stand behind a header.
pub open spec fn section_from(ls: Seq<Seq<char>>, at: int, branch: Seq<char>, s: Section) -> Section
    decreases ls.len() - at,
{
    if at < 0 || at >= ls.len() {
        s
    } else {
        let t = trim_spec(ls[at]);
        if has_prefix(t, branch_header(branch)) {
            section_from(ls, at + 1, branch, Section { begun: true, ..s })
        } else if !s.begun {
            section_from(ls, at + 1, branch, s)
        } else if has_prefix(t, "["@) {
            s
        } else if has_prefix(t, "remote = "@) {
            let value = trim_spec(after(t, "remote = "@.len() as int));
            section_from(ls, at + 1, branch, Section { remote: Some(value), ..s })
        } else if has_prefix(t, "merge = "@) && has_prefix(
            after(t, "merge = "@.len() as int),
            "refs/heads/"@,
        ) {
            let value = trim_spec(
                after(after(t, "merge = "@.len() as int), "refs/heads/"@.len() as int),
            );
            section_from(ls, at + 1, branch, Section { merge: Some(value), ..s })
        } else {
            section_from(ls, at + 1, branch, s)
        }
    }
}

/// The branch of a remote that a branch follows, by the configuration file.
pub open spec fn remote_tracking(config: Option<Seq<char>>, branch: Seq<char>) -> Option<Seq<char>> {
    match config {
        None => None,
        Some(text) => {
            let s = section_from(
                lines_spec(text),
                0,
                branch,
                Section { begun: false, remote: None, merge: None },
            );
            match (s.remote, s.merge) {
                (Some(r), Some(b)) => Some(r + "/"@ + b),
                _ => None,
            }
        },
    }
}

/// The branch of a remote that a branch follows, by the text of the configuration
/// file: the values behind `remote = ` and behind `merge = refs/heads/` in the
/// section of the branch.
pub fn get_remote_tracking(config: &Option<String>, branch_name: &str) -> (r: Option<String>)
    ensures
        text_of(r) == remote_tracking(text_of(*config), branch_name@),
{
    let text = match config {
        None => return None,
        Some(t) => t,
    };
    let header = concat3("[branch \"", branch_name, "\"]");
    let ls = lines(text.as_str());
    let ghost lv = texts(ls@);
    let mut begun: bool = false;
    let mut remote: Option<String> = None;
    let mut merge: Option<String> = None;
    let mut i: usize = 0;
    let ghost all = section_from(
        lv,
        0,
        branch_name@,
        Section { begun: false, remote: None, merge: None },
    );
    let mut done: bool = false;
    while i < ls.len() && !done
        invariant
            i <= ls.len(),
            lv == texts(ls@),
            header@ == branch_header(branch_name@),
            !done ==> all == section_from(
                lv,
                i as int,
                branch_name@,
                Section { begun, remote: text_of(remote), merge: text_of(merge) },
            ),
            done ==> all == (Section { begun, remote: text_of(remote), merge: text_of(merge) }),
        decreases ls.len() - i,
    {
        assert(lv[i as int] == ls@[i as int]@);
        let t = trim(ls[i].as_str());
        if starts_with(t.as_str(), header.as_str()) {
            begun = true;
        } else if begun {
            if starts_with(t.as_str(), "[") {
                done = true;
            } else {
                match strip_prefix(t.as_str(), "remote = ") {
                    Some(v) => {
                        remote = Some(trim(v.as_str()));
                    },
                    None => match strip_prefix(t.as_str(), "merge = ") {
                        Some(v) => match strip_prefix(v.as_str(), "refs/heads/") {
                            Some(b) => {
                                merge = Some(trim(b.as_str()));
                            },
                            None => {},
                        },
                        None => {},
                    },
                }
            }
        }
        i += 1;
    }
    match (remote, merge) {
        (Some(r), Some(b)) => {
            let mut s: String = r;
            s.append("/");
            s.append(b.as_str());
            Some(s)
        },
        _ => None,
    }
}

/// What is listed of a branch.
pub open spec fn branch_info(
    m: Objects,
    r: Refs,
    config: Option<Seq<char>>,
    name: Seq<char>,
) -> BranchView {
    let path = branch_ref(name);
    let hash = if r.has(path) {
        match decoded_hash(encode_utf8(trim_spec(r.at(path)))) {
            Ok(h) => Some(h),
            Err(_) => None,
        }
    } else {
        None
    };
    let commit = match hash {
        Some(h) => match commit_at(m, h) {
            Ok(c) => Some(c),
            Err(_) => None,
        },
        None => None,
    };
    BranchView {
        name,
        is_current: name == current_branch(r),
        last_commit_hash: hash,
        last_commit: commit,
        commit_count: if commit is Some {
            ancestors(m, hash->0).len()
        } else {
            0
        },
        remote_tracking: remote_tracking(config, name),
        upstream: if r.upstreams.contains_key(name) {
            Some(r.upstreams[name])
        } else {
            None
        },
    }
}

/// What is listed of a branch.
fn describe_branch(
    store: &ObjectStore,
    refs: &RefStore,
    config: &Option<String>,
    current: &str,
    name: String,
) -> (r: BranchInfo)
    requires
        store.wf(),
        refs.wf(),
        current@ == current_branch(refs@),
    ensures
        r@ == branch_info(store@, refs@, text_of(*config), name@),
{
    let is_current: bool = str_eq(name.as_str(), current);
    let path = branch_ref_path(name.as_str());
    let mut last_commit_hash: Option<ObjectId> = None;
    let mut last_commit: Option<Commit> = None;
    let mut commit_count: usize = 0;
    match refs.get_ref(path.as_str()) {
        Some(text) => {
            let t = trim(text.as_str());
            match hex_to_hash(t.as_str()) {
                Ok(h) => {
                    last_commit_hash = Some(h);
                    match read_commit(store, &h) {
                        Ok(c) => {
                            commit_count = count_commits(store, &h);
                            last_commit = Some(c);
                        },
                        Err(_) => {},
                    }
                },
                Err(_) => {},
            }
        },
        None => {},
    }
    let tracking = get_remote_tracking(config, name.as_str());
    let upstream = match refs.get_upstream(name.as_str()) {
        Some(u) => Some(u.clone()),
        None => None,
    };
    BranchInfo {
        name,
        is_current,
        last_commit_hash,
        last_commit,
        commit_count,
        remote_tracking: tracking,
        upstream,
    }
}

/// The current branch first, and then by name.
pub struct CurrentFirst;

/// The rank of a branch.
pub open spec fn branch_rank(is_current: bool, name: Seq<char>) -> Seq<int> {
    seq![if is_current { 0int } else { 1int }] + codes(name)
}

impl Ranking<BranchView> for CurrentFirst {
    open spec fn key(t: BranchView) -> Seq<int> {
        branch_rank(t.is_current, t.name)
    }
}

impl Ranking<BranchInfo> for CurrentFirst {
    open spec fn key(t: BranchInfo) -> Seq<int> {
        branch_rank(t.is_current, t.name@)
    }
}

pub proof fn lemma_rank(a: bool, x: Seq<char>, b: bool, y: Seq<char>)
    ensures
        lex_less(branch_rank(a, x), branch_rank(b, y)) == (if a == b {
            lex_less(codes(x), codes(y))
        } else {
            a
        }),
{
    let p = branch_rank(a, x);
    let q = branch_rank(b, y);
    assert(p.subrange(1, p.len() as int) =~= codes(x));
    assert(q.subrange(1, q.len() as int) =~= codes(y));
}

impl Compares<BranchInfo> for CurrentFirst {
    fn before(a: &BranchInfo, b: &BranchInfo) -> (r: bool) {
        proof {
            lemma_rank(a.is_current, a.name@, b.is_current, b.name@);
        }
        if a.is_current == b.is_current {
            text_less(a.name.as_str(), b.name.as_str())
        } else {
            a.is_current
        }
    }
}

/// The names that are listed.
pub open spec fn listed_names(v: Seq<BranchView>) -> Seq<Seq<char>> {
    Seq::new(v.len(), |i: int| v[i].name)
}

/// Whether this is the list of the branches: each once, with what is listed of it,
/// the current one first and the others by name.
pub open spec fn is_branch_list(
    m: Objects,
    r: Refs,
    config: Option<Seq<char>>,
    v: Seq<BranchView>,
) -> bool {
    &&& listed_names(v).no_duplicates()
    &&& forall|n: Seq<char>| #[trigger] listed_names(v).contains(n) <==> is_branch(r, n)
    &&& forall|i: int|
        0 <= i < v.len() ==> #[trigger] v[i] == branch_info(m, r, config, v[i].name)
    &&& in_order::<CurrentFirst, BranchView>(v)
}

/// The list of the branches: each once, with what is listed of it, the current one
/// first and the others by name.
pub fn list_branches(store: &ObjectStore, refs: &RefStore, config: &Option<String>) -> (r: Vec<
    BranchInfo,
>)
    requires
        store.wf(),
        refs.wf(),
    ensures
        is_branch_list(store@, refs@, text_of(*config), branch_views(r@)),
{
    let ghost m = store@;
    let ghost rs = refs@;
    let ghost cfg = text_of(*config);
    let current = get_current_branch(refs);
    let names = get_all_branches(refs);
    let ghost ns = texts(names@);
    let mut r: Vec<BranchInfo> = Vec::new();
    let mut i: usize = 0;
    while i < names.len()
        invariant
            i <= names.len(),
            store.wf(),
            refs.wf(),
            m == store@,
            rs == refs@,
            cfg == text_of(*config),
            current@ == current_branch(rs),
            ns == texts(names@),
            r@.len() == i,
            forall|j: int|
                0 <= j < i ==> (#[trigger] r@[j])@ == branch_info(m, rs, cfg, ns[j]),
        decreases names.len() - i,
    {
        let name = names[i].clone();
        r.push(describe_branch(store, refs, config, current.as_str(), name));
        i += 1;
    }
    let ghost v0 = branch_views(r@);
    let ghost e0 = r@;
    sort::<CurrentFirst, BranchInfo>(&mut r);
    proof {
        let f = |b: BranchInfo| b@;
        crate::order::lemma_sorted_mapped::<CurrentFirst, BranchInfo, CurrentFirst, BranchView>(
            e0,
            f,
        );
        assert(v0 =~= e0.map_values(f));
        assert(branch_views(r@) =~= r@.map_values(f));
        let v = branch_views(r@);
        assert(v == sorted::<CurrentFirst, BranchView>(v0));
        crate::order::lemma_sorted_in_order::<CurrentFirst, BranchView>(v0);
        crate::order::lemma_sorted_permutation::<CurrentFirst, BranchView>(v0);
        assert(listed_names(v0) =~= ns);
        lemma_same_names(v0, v);
        assert forall|i: int| 0 <= i < v.len() implies #[trigger] v[i] == branch_info(
            m,
            rs,
            cfg,
            v[i].name,
        ) by {
            lemma_from_permutation(v0, v, i);
            let j = choose|j: int| 0 <= j < v0.len() && v0[j] == v[i];
            assert(v0[j] == e0[j]@);
        }
    }
    r
}

proof fn lemma_from_permutation(a: Seq<BranchView>, b: Seq<BranchView>, i: int)
    requires
        a.to_multiset() == b.to_multiset(),
        0 <= i < b.len(),
    ensures
        a.contains(b[i]),
{
    broadcast use vstd::seq_lib::group_to_multiset_ensures;

    assert(b.contains(b[i]));
    assert(b.to_multiset().count(b[i]) > 0);
}

/// Lists with the same elements have the same names, and where one has no name
/// twice, neither has the other.
proof fn lemma_same_names(a: Seq<BranchView>, b: Seq<BranchView>)
    requires
        a.to_multiset() == b.to_multiset(),
        listed_names(a).no_duplicates(),
    ensures
        listed_names(b).no_duplicates(),
        forall|n: Seq<char>| #[trigger]
            listed_names(b).contains(n) <==> listed_names(a).contains(n),
{
    broadcast use vstd::seq_lib::group_to_multiset_ensures;

    assert forall|i: int, j: int| 0 <= i < a.len() && 0 <= j < a.len() && i != j implies a[i]
        != a[j] by {
        assert(listed_names(a)[i] != listed_names(a)[j]);
    }
    assert(a.no_duplicates());
    a.lemma_multiset_has_no_duplicates();
    b.lemma_multiset_has_no_duplicates_conv();
    assert forall|i: int, j: int|
        0 <= i < b.len() && 0 <= j < b.len() && i != j implies listed_names(b)[i] != listed_names(
        b,
    )[j] by {
        lemma_from_permutation(a, b, i);
        lemma_from_permutation(a, b, j);
        let x = choose|x: int| 0 <= x < a.len() && a[x] == b[i];
        let y = choose|y: int| 0 <= y < a.len() && a[y] == b[j];
        if listed_names(b)[i] == listed_names(b)[j] {
            assert(listed_names(a)[x] == listed_names(a)[y]);
            assert(x == y);
        }
    }
    assert forall|n: Seq<char>| #[trigger]
        listed_names(b).contains(n) <==> listed_names(a).contains(n) by {
        if listed_names(b).contains(n) {
            let i = choose|i: int| 0 <= i < listed_names(b).len() && listed_names(b)[i] == n;
            lemma_from_permutation(a, b, i);
            let x = choose|x: int| 0 <= x < a.len() && a[x] == b[i];
            assert(listed_names(a)[x] == n);
        }
        if listed_names(a).contains(n) {
            let i = choose|i: int| 0 <= i < listed_names(a).len() && listed_names(a)[i] == n;
            lemma_from_permutation(b, a, i);
            let x = choose|x: int| 0 <= x < b.len() && b[x] == a[i];
            assert(listed_names(b)[x] == n);
        }
    }
}

/// The current branch, where it is listed, is the first of the list.
pub proof fn current_branch_is_first(
    m: Objects,
    r: Refs,
    config: Option<Seq<char>>,
    v: Seq<BranchView>,
)
    requires
        is_branch_list(m, r, config, v),
        is_branch(r, current_branch(r)),
    ensures
        v.len() > 0,
        v[0].is_current,
        v[0].name == current_branch(r),
{
    assert(listed_names(v).contains(current_branch(r)));
    let i = choose|i: int| 0 <= i < v.len() && listed_names(v)[i] == current_branch(r);
    assert(v[i] == branch_info(m, r, config, v[i].name));
    assert(v[0] == branch_info(m, r, config, v[0].name));
    if !v[0].is_current {
        assert(0 < i);
        lemma_rank(v[i].is_current, v[i].name, v[0].is_current, v[0].name);
        assert(lex_less(
            CurrentFirst::key(v[i]),
            CurrentFirst::key(v[0]),
        ));
    }
}

} // verus!
