//! What the views show of lines, paths and configured branches.
use vstd::prelude::*;
use vstd::string::*;
use vstd::utf8::encode_utf8;

use crate::branch_tui::listing::{section_from, Section};
use crate::config::{is_in_force, Config, GlobalConfig, RepoConfig};
use crate::helix_index::format::Entry;
use crate::helix_index::git_refs::upstream_from;
use crate::helix_index::reader::entries_below;
use crate::line_diff::bar_parts;
use crate::merge_tui::ui::{
    first_bytes, last_bytes, max_scroll, shortened, side_lines, truncated, DiffKind,
};
use crate::path::{is_regular, regular_paths_lie_under};
use crate::text::{after, has_prefix, trim_spec};

verus! {

/// A line of one side is shown as the same where the other side has it under the same number,
/// as modified where that has another there, and as alone where that has none there.
pub proof fn lines_are_compared_by_number(
    own: Seq<Seq<char>>,
    other: Seq<Seq<char>>,
    alone: DiffKind,
    i: int,
)
    requires
        0 <= i < own.len(),
        alone is Added || alone is Removed,
    ensures
        ({
            let r = side_lines(own, other, alone);
            &&& r.len() == own.len()
            &&& r[i].1 == own[i]
            &&& r[i].0 is Context <==> i < other.len() && own[i] == other[i]
            &&& r[i].0 is Modified <==> i < other.len() && own[i] != other[i]
            &&& r[i].0 == alone <==> i >= other.len()
        }),
{
}

/// The contents can be scrolled until the last line of the longer side is the last that is
/// shown, and no further.
pub proof fn scrolling_ends_at_the_last_line(target: nat, sandbox: nat, height: nat)
    ensures
        target <= height && sandbox <= height ==> max_scroll(target, sandbox, height) == 0,
        target >= sandbox && target >= height ==> max_scroll(target, sandbox, height) + height
            == target,
        sandbox >= target && sandbox >= height ==> max_scroll(target, sandbox, height) + height
            == sandbox,
{
}

proof fn lemma_first_bytes(s: Seq<char>, n: int)
    requires
        0 <= n,
    ensures
        ({
            let r = first_bytes(s, n);
            let k = r.len() as int;
            &&& k <= s.len()
            &&& r == s.subrange(0, k)
            &&& encode_utf8(r).len() <= n
            &&& k < s.len() ==> encode_utf8(s.subrange(0, k + 1)).len() > n
        }),
    decreases s.len(),
{
    if s.len() == 0 || encode_utf8(s).len() <= n {
        assert(s.subrange(0, s.len() as int) =~= s);
        if s.len() == 0 {
            assert(encode_utf8(s).len() == 0) by {
                assert(s =~= Seq::<char>::empty());
                reveal_with_fuel(encode_utf8, 2);
            }
        }
    } else {
        let d = s.drop_last();
        lemma_first_bytes(d, n);
        let k = first_bytes(d, n).len() as int;
        assert(d.subrange(0, k) =~= s.subrange(0, k));
        if k < d.len() {
            assert(d.subrange(0, k + 1) =~= s.subrange(0, k + 1));
        } else {
            assert(s.subrange(0, k + 1) =~= s);
        }
    }
}

proof fn lemma_last_bytes(s: Seq<char>, n: int)
    requires
        0 <= n,
    ensures
        ({
            let r = last_bytes(s, n);
            let k = s.len() - r.len();
            &&& 0 <= k
            &&& r == s.subrange(k, s.len() as int)
            &&& encode_utf8(r).len() <= n
            &&& k > 0 ==> encode_utf8(s.subrange(k - 1, s.len() as int)).len() > n
        }),
    decreases s.len(),
{
    if s.len() == 0 || encode_utf8(s).len() <= n {
        assert(s.subrange(0, s.len() as int) =~= s);
        if s.len() == 0 {
            assert(encode_utf8(s).len() == 0) by {
                assert(s =~= Seq::<char>::empty());
                reveal_with_fuel(encode_utf8, 2);
            }
        }
    } else {
        let d = after(s, 1);
        lemma_last_bytes(d, n);
        let r = last_bytes(d, n);
        let k = d.len() - r.len();
        assert(d.subrange(k, d.len() as int) =~= s.subrange(k + 1, s.len() as int));
        if k > 0 {
            assert(d.subrange(k - 1, d.len() as int) =~= s.subrange(k, s.len() as int));
        } else {
            assert(s.subrange(0, s.len() as int) =~= s);
        }
    }
}

/// A line that fits is shown as it is; of one that does not, as many whole characters from its
/// start as fit in front of three dots.
pub proof fn long_lines_are_cut(s: Seq<char>, width: int)
    requires
        width >= 3,
    ensures
        encode_utf8(s).len() <= width ==> truncated(s, width) == s,
        encode_utf8(s).len() > width ==> exists|k: int|
            0 <= k < s.len() && truncated(s, width) == #[trigger] s.subrange(0, k) + seq![
                '.',
                '.',
                '.',
            ] && encode_utf8(s.subrange(0, k)).len() <= width - 3 && encode_utf8(
                s.subrange(0, k + 1),
            ).len() > width - 3,
{
    reveal_strlit("...");
    assert("..."@ =~= seq!['.', '.', '.']);
    if encode_utf8(s).len() > width {
        lemma_first_bytes(s, width - 3);
        let k = first_bytes(s, width - 3).len() as int;
        assert(k < s.len()) by {
            if k == s.len() {
                assert(s.subrange(0, k) =~= s);
            }
        }
        assert(truncated(s, width) == s.subrange(0, k) + seq!['.', '.', '.']);
    }
}

/// A path of up to twenty bytes is shown as it is; of a longer one as many whole characters
/// from its end as seventeen bytes hold, behind three dots.
pub proof fn long_paths_show_their_end(s: Seq<char>)
    ensures
        encode_utf8(s).len() <= 20 ==> shortened(s) == s,
        encode_utf8(s).len() > 20 ==> exists|k: int|
            0 < k <= s.len() && shortened(s) == seq!['.', '.', '.'] + #[trigger] s.subrange(
                k,
                s.len() as int,
            ) && encode_utf8(s.subrange(k, s.len() as int)).len() <= 17 && encode_utf8(
                s.subrange(k - 1, s.len() as int),
            ).len() > 17,
{
    reveal_strlit("...");
    assert("..."@ =~= seq!['.', '.', '.']);
    if encode_utf8(s).len() > 20 {
        lemma_last_bytes(s, 17);
        let k = s.len() - last_bytes(s, 17).len();
        assert(k > 0) by {
            if k == 0 {
                assert(s.subrange(0, s.len() as int) =~= s);
            }
        }
        assert(shortened(s) == seq!['.', '.', '.'] + s.subrange(k, s.len() as int));
    }
}

/// The entries in a directory are those at its path and those whose path starts with it and a
/// slash.
pub proof fn directories_hold_what_is_below(es: Seq<Entry>, dir: Seq<char>, e: Entry)
    requires
        is_regular(dir),
        forall|i: int| 0 <= i < es.len() ==> is_regular((#[trigger] es[i]).path@),
    ensures
        entries_below(es, dir).contains(e) <==> es.contains(e) && (e.path@ == dir || has_prefix(
            e.path@,
            dir.push('/'),
        )),
    decreases es.len(),
{
    if es.len() > 0 {
        let d = es.drop_last();
        let x = es.last();
        let n = es.len() - 1;
        assert(es[n] == x);
        assert forall|i: int| 0 <= i < d.len() implies is_regular((#[trigger] d[i]).path@) by {
            assert(d[i] == es[i]);
        }
        directories_hold_what_is_below(d, dir, e);
        regular_paths_lie_under(x.path@, dir);
        let before = entries_below(d, dir);
        let now = entries_below(es, dir);
        if es.contains(e) {
            let k = choose|k: int| 0 <= k < es.len() && es[k] == e;
            if k < n {
                assert(d[k] == e);
            }
        }
        if d.contains(e) {
            let k = choose|k: int| 0 <= k < d.len() && d[k] == e;
            assert(es[k] == e);
        }
        if before.contains(e) {
            let k = choose|k: int| 0 <= k < before.len() && before[k] == e;
            assert(now[k] == e);
        }
        if x.path@ == dir || has_prefix(x.path@, dir.push('/')) {
            assert(now[before.len() as int] == x);
            if now.contains(e) {
                let k = choose|k: int| 0 <= k < now.len() && now[k] == e;
                if k < before.len() {
                    assert(before[k] == e);
                }
            }
        }
    }
}

/// The header of the section of a branch.
pub open spec fn heading(branch: Seq<char>) -> Seq<char> {
    seq!['[', 'b', 'r', 'a', 'n', 'c', 'h', ' ', '"'] + branch + seq!['"', ']']
}

/// `remote = ` and the name of a remote.
pub open spec fn remote_line(remote: Seq<char>) -> Seq<char> {
    seq!['r', 'e', 'm', 'o', 't', 'e', ' ', '=', ' '] + remote
}

/// `merge = refs/heads/` and the name of a branch.
pub open spec fn merge_line(branch: Seq<char>) -> Seq<char> {
    seq!['m', 'e', 'r', 'g', 'e', ' ', '=', ' '] + seq![
        'r', 'e', 'f', 's', '/', 'h', 'e', 'a', 'd', 's', '/',
    ] + branch
}

/// Whether the lines from `at` on are the section of a branch that follows a branch of a
/// remote, and what stands there before another section starts or the lines end.
pub open spec fn is_section(
    ls: Seq<Seq<char>>,
    at: int,
    branch: Seq<char>,
    remote: Seq<char>,
    upstream: Seq<char>,
) -> bool {
    &&& 0 <= at && at + 2 < ls.len()
    &&& trim_spec(ls[at]) == heading(branch)
    &&& trim_spec(ls[at + 1]) == remote_line(remote)
    &&& trim_spec(ls[at + 2]) == merge_line(upstream)
    &&& trim_spec(remote) == remote
    &&& trim_spec(upstream) == upstream
    &&& at + 3 == ls.len() || has_prefix(trim_spec(ls[at + 3]), seq!['[']) && !has_prefix(
        trim_spec(ls[at + 3]),
        heading(branch),
    )
}

/// In the lines of a configuration, the section of a branch says which branch of which remote
/// it follows, wherever the section stands.
pub proof fn sections_tell_the_upstream(
    ls: Seq<Seq<char>>,
    from: int,
    at: int,
    branch: Seq<char>,
    remote: Seq<char>,
    upstream: Seq<char>,
)
    requires
        0 <= from <= at,
        is_section(ls, at, branch, remote, upstream),
        forall|i: int| 0 <= i < at ==> !has_prefix(trim_spec(#[trigger] ls[i]), heading(branch)),
    ensures
        upstream_from(ls, from, branch, false) == Some(upstream),
        ({
            let s = section_from(
                ls,
                from,
                branch,
                Section { begun: false, remote: None, merge: None },
            );
            s.remote == Some(remote) && s.merge == Some(upstream)
        }),
    decreases at - from,
{
    reveal_strlit("[branch \"");
    reveal_strlit("\"]");
    reveal_strlit("[");
    reveal_strlit("remote = ");
    reveal_strlit("merge = ");
    reveal_strlit("refs/heads/");
    assert("[branch \""@ =~= seq!['[', 'b', 'r', 'a', 'n', 'c', 'h', ' ', '"']);
    assert("\"]"@ =~= seq!['"', ']']);
    assert("["@ =~= seq!['[']);
    assert("remote = "@ =~= seq!['r', 'e', 'm', 'o', 't', 'e', ' ', '=', ' ']);
    assert("merge = "@ =~= seq!['m', 'e', 'r', 'g', 'e', ' ', '=', ' ']);
    assert("refs/heads/"@ =~= seq!['r', 'e', 'f', 's', '/', 'h', 'e', 'a', 'd', 's', '/']);
    let h = heading(branch);
    if from < at {
        sections_tell_the_upstream(ls, from + 1, at, branch, remote, upstream);
        let t = trim_spec(ls[from]);
        assert(!has_prefix(t, h));
        if t == h {
            assert(t.subrange(0, h.len() as int) =~= h);
        }
    } else {
        let a = remote_line(remote);
        let b = merge_line(upstream);
        assert(h.subrange(0, h.len() as int) =~= h);
        assert(!has_prefix(a, h) && !has_prefix(a, "["@) && !has_prefix(a, "merge = "@)) by {
            assert(a[0] == 'r');
            if has_prefix(a, h) {
                assert(a.subrange(0, h.len() as int)[0] == '[');
            }
            if has_prefix(a, "["@) {
                assert(a.subrange(0, 1)[0] == '[');
            }
            if has_prefix(a, "merge = "@) {
                assert(a.subrange(0, 8)[0] == 'm');
            }
        }
        assert(!has_prefix(b, h) && !has_prefix(b, "["@) && !has_prefix(b, "remote = "@)) by {
            assert(b[0] == 'm');
            if has_prefix(b, h) {
                assert(b.subrange(0, h.len() as int)[0] == '[');
            }
            if has_prefix(b, "["@) {
                assert(b.subrange(0, 1)[0] == '[');
            }
            if has_prefix(b, "remote = "@) {
                assert(b.subrange(0, 9)[0] == 'r');
            }
        }
        assert(h[0] == '[' && a[0] == 'r' && b[0] == 'm');
        assert(a.subrange(0, 9) =~= "remote = "@);
        assert(after(a, 9) =~= remote);
        assert(b.subrange(0, 8) =~= "merge = "@);
        let c = after(b, 8);
        assert(c.subrange(0, 11) =~= "refs/heads/"@);
        assert(after(c, 11) =~= upstream);
        reveal_with_fuel(upstream_from, 5);
        reveal_with_fuel(section_from, 5);
    }
}

/// Each setting is that of the repository; where it gives none, that of the user; and where
/// neither does, the default.
pub proof fn settings_come_from_the_nearest(
    c: Config,
    repo: RepoConfig,
    user: GlobalConfig,
    model: Seq<char>,
)
    requires
        is_in_force(c, repo, Some(user), model),
    ensures
        (repo.model matches Some(m) ==> c.model@ == m@),
        repo.model is None ==> (user.model matches Some(m) ==> c.model@ == m@),
        repo.model is None && user.model is None ==> c.model@ == model,
        (repo.api_base matches Some(b) ==> c.api_base@ == b@),
        repo.api_base is None ==> (user.api_base matches Some(b) ==> c.api_base@ == b@),
        repo.api_key is Some ==> c.api_key == repo.api_key,
        repo.api_key is None ==> c.api_key == user.api_key,
        (repo.message_level matches Some(l) ==> c.message_level == l),
        repo.message_level is None ==> c.message_level == user.message_level,
{
}

/// A bar of up to fifty signs has one for each inserted and each deleted line; a longer one is
/// cut to fifty, with as many for the inserted lines as their share has whole ones.
pub proof fn bars_keep_the_share(additions: nat, deletions: nat)
    ensures
        ({
            let (a, d) = bar_parts(additions, deletions);
            let total = additions + deletions;
            &&& total <= 50 ==> a == additions && d == deletions
            &&& total > 50 ==> a + d == 50 && a * total <= additions * 50 < (a + 1) * total
        }),
{
    let total = additions + deletions;
    crate::line_diff::bar_is_filled(additions, deletions);
    if total == 50 {
        assert((additions * 50) / 50 == additions) by (nonlinear_arith);
    }
    if total > 50 {
        let x = additions * 50;
        let a = x / total;
        assert(a * total <= x < (a + 1) * total) by (nonlinear_arith)
            requires
                total > 0,
                a == x / total,
        ;
    }
}

} // verus!
