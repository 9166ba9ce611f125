//! How ages and changes are told.
use vstd::prelude::*;
use vstd::string::*;
use vstd::utf8::encode_utf8;

use crate::hash::hex_text;
use crate::helix_index::commit::{age_text as commit_age, shown_commit, CommitView};
use crate::sandbox_command::{in_name, sandbox_name_fault, SandboxChangeKind};
use crate::sandbox_tui::ui::{
    age_of, age_text, changes_summary, kind_count, short_age_text, short_base, status_summary, Age,
};
use crate::text::decimal;

verus! {

/// An age is told in whole minutes up to an hour, in whole hours up to a day, and then in whole
/// days; less than a minute, and what lies ahead, is just now.
pub proof fn ages_are_told_in_whole_units(then: u64, now: u64, n: nat)
    ensures
        age_of(then, now) is JustNow <==> now < then + 60,
        age_of(then, now) == Age::Minutes(n) <==> then + 60 <= now < then + 3600 && 60 * n <= now
            - then < 60 * n + 60,
        age_of(then, now) == Age::Hours(n) <==> then + 3600 <= now < then + 86400 && 3600 * n <= now
            - then < 3600 * n + 3600,
        age_of(then, now) == Age::Days(n) <==> then + 86400 <= now && 86400 * n <= now - then
            < 86400 * n + 86400,
        age_text(Age::Minutes(n)) == decimal(n) + seq![' ', 'm', 'i', 'n', ' ', 'a', 'g', 'o'],
        age_text(Age::Hours(n)) == decimal(n) + seq![
            ' ', 'h', 'o', 'u', 'r', 's', ' ', 'a', 'g', 'o',
        ],
        age_text(Age::Days(n)) == decimal(n) + seq![' ', 'd', 'a', 'y', 's', ' ', 'a', 'g', 'o'],
        short_age_text(Age::Minutes(n)) == decimal(n) + seq!['m', ' ', 'a', 'g', 'o'],
        short_age_text(Age::Hours(n)) == decimal(n) + seq!['h', ' ', 'a', 'g', 'o'],
        short_age_text(Age::Days(n)) == decimal(n) + seq!['d', ' ', 'a', 'g', 'o'],
{
    reveal_strlit(" min ago");
    reveal_strlit(" hours ago");
    reveal_strlit(" days ago");
    reveal_strlit("m ago");
    reveal_strlit("h ago");
    reveal_strlit("d ago");
    assert(" min ago"@ =~= seq![' ', 'm', 'i', 'n', ' ', 'a', 'g', 'o']);
    assert(" hours ago"@ =~= seq![' ', 'h', 'o', 'u', 'r', 's', ' ', 'a', 'g', 'o']);
    assert(" days ago"@ =~= seq![' ', 'd', 'a', 'y', 's', ' ', 'a', 'g', 'o']);
    assert("m ago"@ =~= seq!['m', ' ', 'a', 'g', 'o']);
    assert("h ago"@ =~= seq!['h', ' ', 'a', 'g', 'o']);
    assert("d ago"@ =~= seq!['d', ' ', 'a', 'g', 'o']);
    if now > then {
        let s = (now - then) as nat;
        assert(s == 60 * (s / 60) + s % 60 && s % 60 < 60);
        assert(s == 3600 * (s / 3600) + s % 3600 && s % 3600 < 3600);
        assert(s == 86400 * (s / 86400) + s % 86400 && s % 86400 < 86400);
    }
}

/// Adding a change to some counts it under its own kind and under no other.
pub proof fn changes_are_counted(
    v: Seq<(Seq<char>, SandboxChangeKind)>,
    c: (Seq<char>, SandboxChangeKind),
    kind: SandboxChangeKind,
)
    ensures
        kind_count(Seq::empty(), kind) == 0,
        kind_count(v.push(c), kind) == kind_count(v, kind) + (if c.1 == kind {
            1nat
        } else {
            0
        }),
{
    assert(v.push(c).drop_last() =~= v);
}

/// Changes are told as the added behind `+`, the modified behind `~` and the deleted behind
/// `-`, with a space between them, and left out where there are none; no change is clean.
pub proof fn changes_are_told_by_kind(v: Seq<(Seq<char>, SandboxChangeKind)>)
    ensures
        ({
            let a = kind_count(v, SandboxChangeKind::Added);
            let m = kind_count(v, SandboxChangeKind::Modified);
            let d = kind_count(v, SandboxChangeKind::Deleted);
            let r = changes_summary(v);
            &&& v.len() == 0 ==> r == seq!['c', 'l', 'e', 'a', 'n']
            &&& v.len() > 0 && a > 0 && m > 0 && d > 0 ==> r == seq!['+'] + decimal(a) + seq![
                ' ',
                '~',
            ] + decimal(m) + seq![' ', '-'] + decimal(d)
            &&& v.len() > 0 && a > 0 && m > 0 && d == 0 ==> r == seq!['+'] + decimal(a) + seq![
                ' ',
                '~',
            ] + decimal(m)
            &&& v.len() > 0 && a > 0 && m == 0 && d > 0 ==> r == seq!['+'] + decimal(a) + seq![
                ' ',
                '-',
            ] + decimal(d)
            &&& v.len() > 0 && a == 0 && m > 0 && d > 0 ==> r == seq!['~'] + decimal(m) + seq![
                ' ',
                '-',
            ] + decimal(d)
            &&& v.len() > 0 && a > 0 && m == 0 && d == 0 ==> r == seq!['+'] + decimal(a)
            &&& v.len() > 0 && a == 0 && m > 0 && d == 0 ==> r == seq!['~'] + decimal(m)
            &&& v.len() > 0 && a == 0 && m == 0 && d > 0 ==> r == seq!['-'] + decimal(d)
        }),
{
    reveal_strlit("clean");
    reveal_strlit("+");
    reveal_strlit("~");
    reveal_strlit("-");
    reveal_strlit(" ");
    assert("clean"@ =~= seq!['c', 'l', 'e', 'a', 'n']);
    assert("+"@ =~= seq!['+']);
    assert("~"@ =~= seq!['~']);
    assert("-"@ =~= seq!['-']);
    assert(" "@ =~= seq![' ']);
    let a = seq!['+'] + decimal(kind_count(v, SandboxChangeKind::Added));
    let m = seq!['~'] + decimal(kind_count(v, SandboxChangeKind::Modified));
    let d = seq!['-'] + decimal(kind_count(v, SandboxChangeKind::Deleted));
    lemma_join(a, m, d);
    lemma_join(a, d, m);
    lemma_join(m, d, a);
    lemma_join(d, a, m);
    let none = Seq::<Seq<char>>::empty();
    assert(none.push(a) =~= seq![a]);
    assert(none.push(m) =~= seq![m]);
    assert(none.push(d) =~= seq![d]);
    assert(none.push(a).push(m) =~= seq![a, m]);
    assert(none.push(a).push(d) =~= seq![a, d]);
    assert(none.push(m).push(d) =~= seq![m, d]);
    assert(none.push(a).push(m).push(d) =~= seq![a, m, d]);
    assert(a + seq![' '] + m + seq![' '] + d =~= a + seq![' ', '~'] + decimal(
        kind_count(v, SandboxChangeKind::Modified),
    ) + seq![' ', '-'] + decimal(kind_count(v, SandboxChangeKind::Deleted)));
    assert(a + seq![' '] + m =~= a + seq![' ', '~'] + decimal(
        kind_count(v, SandboxChangeKind::Modified),
    ));
    assert(a + seq![' '] + d =~= a + seq![' ', '-'] + decimal(
        kind_count(v, SandboxChangeKind::Deleted),
    ));
    assert(m + seq![' '] + d =~= m + seq![' ', '-'] + decimal(
        kind_count(v, SandboxChangeKind::Deleted),
    ));
}

proof fn lemma_join(x: Seq<char>, y: Seq<char>, z: Seq<char>)
    ensures
        crate::text::join_spec(seq![x], " "@) == x,
        crate::text::join_spec(seq![x, y], " "@) == x + " "@ + y,
        crate::text::join_spec(seq![x, y, z], " "@) == x + " "@ + y + " "@ + z,
{
    assert(seq![x, y].drop_last() =~= seq![x]);
    assert(seq![x, y, z].drop_last() =~= seq![x, y]);
    assert(crate::text::join_spec(seq![x], " "@) == x);
    assert(crate::text::join_spec(seq![x, y], " "@) == x + " "@ + y);
}

/// How many changes a sandbox has is told as clean, or by their number; of a hash the first
/// eight characters are shown.
pub proof fn sandboxes_are_told_shortly(n: nat, s: Seq<char>)
    ensures
        status_summary(Some(0)) == seq!['c', 'l', 'e', 'a', 'n'],
        n > 0 ==> status_summary(Some(n)) == decimal(n) + seq![
            ' ', 'c', 'h', 'a', 'n', 'g', 'e', 's',
        ],
        status_summary(None) == seq!['u', 'n', 'k', 'n', 'o', 'w', 'n'],
        s.len() >= 8 ==> short_base(s) == s.subrange(0, 8),
        s.len() < 8 ==> short_base(s) == s,
{
    reveal_strlit("clean");
    reveal_strlit(" changes");
    reveal_strlit("unknown");
    assert("clean"@ =~= seq!['c', 'l', 'e', 'a', 'n']);
    assert(" changes"@ =~= seq![' ', 'c', 'h', 'a', 'n', 'g', 'e', 's']);
    assert("unknown"@ =~= seq!['u', 'n', 'k', 'n', 'o', 'w', 'n']);
    if s.len() == 8 {
        assert(s.subrange(0, 8) =~= s);
    }
}

/// The age of a commit is told in the largest of minutes, hours, days, weeks, months of thirty
/// days and years of 365 that it reaches, in whole ones, in the plural unless it is one; and
/// in seconds where it reaches none.
pub proof fn commit_ages_are_told_in_whole_units(s: int, n: int)
    requires
        n >= 1,
    ensures
        0 <= s < 60 ==> commit_age(s) == decimal(s as nat) + seq![
            ' ', 's', 'e', 'c', 'o', 'n', 'd', 's', ' ', 'a', 'g', 'o',
        ],
        60 <= s < 3600 && 60 * n <= s < 60 * n + 60 ==> commit_age(s) == counted(
            n,
            seq!['m', 'i', 'n', 'u', 't', 'e'],
        ),
        3600 <= s < 86400 && 3600 * n <= s < 3600 * n + 3600 ==> commit_age(s) == counted(
            n,
            seq!['h', 'o', 'u', 'r'],
        ),
        86400 <= s < 604800 && 86400 * n <= s < 86400 * n + 86400 ==> commit_age(s) == counted(
            n,
            seq!['d', 'a', 'y'],
        ),
        604800 <= s < 2592000 && 604800 * n <= s < 604800 * n + 604800 ==> commit_age(s) == counted(
            n,
            seq!['w', 'e', 'e', 'k'],
        ),
        2592000 <= s < 31536000 && 2592000 * n <= s < 2592000 * n + 2592000 ==> commit_age(s)
            == counted(n, seq!['m', 'o', 'n', 't', 'h']),
        31536000 <= s && 31536000 * n <= s < 31536000 * n + 31536000 ==> commit_age(s) == counted(
            n,
            seq!['y', 'e', 'a', 'r'],
        ),
{
    reveal_strlit(" seconds ago");
    reveal_strlit("minute");
    reveal_strlit("hour");
    reveal_strlit("day");
    reveal_strlit("week");
    reveal_strlit("month");
    reveal_strlit("year");
    reveal_strlit("");
    reveal_strlit("s");
    reveal_strlit(" ");
    reveal_strlit(" ago");
    assert(" seconds ago"@ =~= seq![' ', 's', 'e', 'c', 'o', 'n', 'd', 's', ' ', 'a', 'g', 'o']);
    assert("minute"@ =~= seq!['m', 'i', 'n', 'u', 't', 'e']);
    assert("hour"@ =~= seq!['h', 'o', 'u', 'r']);
    assert("day"@ =~= seq!['d', 'a', 'y']);
    assert("week"@ =~= seq!['w', 'e', 'e', 'k']);
    assert("month"@ =~= seq!['m', 'o', 'n', 't', 'h']);
    assert("year"@ =~= seq!['y', 'e', 'a', 'r']);
    lemma_counted(n, "minute"@);
    lemma_counted(n, "hour"@);
    lemma_counted(n, "day"@);
    lemma_counted(n, "week"@);
    lemma_counted(n, "month"@);
    lemma_counted(n, "year"@);
    assert(60 * n <= s < 60 * n + 60 ==> s / 60 == n);
    assert(3600 * n <= s < 3600 * n + 3600 ==> s / 3600 == n);
    assert(86400 * n <= s < 86400 * n + 86400 ==> s / 86400 == n);
    assert(604800 * n <= s < 604800 * n + 604800 ==> s / 604800 == n);
    assert(2592000 * n <= s < 2592000 * n + 2592000 ==> s / 2592000 == n);
    assert(31536000 * n <= s < 31536000 * n + 31536000 ==> s / 31536000 == n);
}

/// A number of units, one in the singular and others in the plural.
pub open spec fn counted(n: int, unit: Seq<char>) -> Seq<char> {
    if n == 1 {
        decimal(1) + seq![' '] + unit + seq![' ', 'a', 'g', 'o']
    } else {
        decimal(n as nat) + seq![' '] + unit + seq!['s', ' ', 'a', 'g', 'o']
    }
}

proof fn lemma_counted(n: int, unit: Seq<char>)
    ensures
        crate::helix_index::commit::ago(n, unit) == counted(n, unit),
{
    reveal_strlit("");
    reveal_strlit("s");
    reveal_strlit(" ");
    reveal_strlit(" ago");
    assert(crate::helix_index::commit::ago(n, unit) =~= counted(n, unit));
}

/// A commit is shown by the first eight digits of its hash, its author, its date and its
/// message, indented by four spaces.
pub proof fn commits_are_shown(c: CommitView, hash: Seq<u8>, date: Seq<char>)
    requires
        crate::text::lines_spec(c.message) == seq![c.message],
    ensures
        shown_commit(c, hash, date) == seq!['c', 'o', 'm', 'm', 'i', 't', ' '] + hex_text(
            hash,
        ).subrange(0, 8) + seq!['\n', 'A', 'u', 't', 'h', 'o', 'r', ':', ' '] + c.author + seq![
            '\n', 'D', 'a', 't', 'e', ':', ' ', ' ', ' ',
        ] + date + seq!['\n', '\n', ' ', ' ', ' ', ' '] + c.message,
{
    reveal_strlit("commit ");
    reveal_strlit("\nAuthor: ");
    reveal_strlit("\nDate:   ");
    reveal_strlit("\n\n    ");
    assert("commit "@ =~= seq!['c', 'o', 'm', 'm', 'i', 't', ' ']);
    assert("\nAuthor: "@ =~= seq!['\n', 'A', 'u', 't', 'h', 'o', 'r', ':', ' ']);
    assert("\nDate:   "@ =~= seq!['\n', 'D', 'a', 't', 'e', ':', ' ', ' ', ' ']);
    assert("\n\n    "@ =~= seq!['\n', '\n', ' ', ' ', ' ', ' ']);
    assert(crate::text::join_spec(seq![c.message], "\n    "@) == c.message);
}

/// A hash is written with two digits for each byte, the high one first, of `0` to `9` and `a`
/// to `f`.
pub proof fn hashes_are_hexadecimal(data: Seq<u8>, i: int)
    requires
        0 <= i < data.len(),
    ensures
        ({
            let digits = seq![
                '0', '1', '2', '3', '4', '5', '6', '7', '8', '9', 'a', 'b', 'c', 'd', 'e', 'f',
            ];
            &&& hex_text(data).len() == 2 * data.len()
            &&& hex_text(data)[2 * i] == digits[data[i] as int / 16]
            &&& hex_text(data)[2 * i + 1] == digits[data[i] as int % 16]
        }),
{
}

/// A sandbox can have a name of one to 64 bytes that are letters, digits, hyphens and
/// underscores.
pub proof fn names_of_sandboxes(name: Seq<char>)
    requires
        forall|i: int| 0 <= i < name.len() ==> (#[trigger] name[i] as u32) < 128,
    ensures
        sandbox_name_fault(name) is None <==> 0 < name.len() && encode_utf8(name).len() <= 64
            && forall|i: int|
            0 <= i < name.len() ==> ('a' <= #[trigger] name[i] <= 'z' || 'A' <= name[i] <= 'Z' || '0'
                <= name[i] <= '9' || name[i] == '-' || name[i] == '_'),
{
    assert forall|i: int| 0 <= i < name.len() implies (in_name(#[trigger] name[i]) <==> ('a'
        <= name[i] <= 'z' || 'A' <= name[i] <= 'Z' || '0' <= name[i] <= '9' || name[i] == '-'
        || name[i] == '_')) by {}
}

} // verus!
