//! What is said of sandboxes.
use vstd::prelude::*;
use vstd::string::*;

use crate::sandbox_command::{change_views, SandboxChange, SandboxChangeKind};
use crate::text::{
    concat, decimal, decimal_of, from_chars, join, join_spec, push_line, texts,
    to_chars,
};

verus! {

/// How long ago something was, in whole units.
pub enum Age {
    JustNow,
    Minutes(nat),
    Hours(nat),
    Days(nat),
}

/// How long before `now` a time was, in whole units.
pub open spec fn age_of(timestamp: u64, now: u64) -> Age {
    let s = if now > timestamp {
        (now - timestamp) as nat
    } else {
        0
    };
    if s < 60 {
        Age::JustNow
    } else if s < 3600 {
        Age::Minutes(s / 60)
    } else if s < 86400 {
        Age::Hours(s / 3600)
    } else {
        Age::Days(s / 86400)
    }
}

/// An age in words.
pub open spec fn age_text(a: Age) -> Seq<char> {
    match a {
        Age::JustNow => "just now"@,
        Age::Minutes(n) => decimal(n) + " min ago"@,
        Age::Hours(n) => decimal(n) + " hours ago"@,
        Age::Days(n) => decimal(n) + " days ago"@,
    }
}

/// An age in few letters.
pub open spec fn short_age_text(a: Age) -> Seq<char> {
    match a {
        Age::JustNow => "just now"@,
        Age::Minutes(n) => decimal(n) + "m ago"@,
        Age::Hours(n) => decimal(n) + "h ago"@,
        Age::Days(n) => decimal(n) + "d ago"@,
    }
}

/// How long before `now` a time was.
pub fn format_age(timestamp: u64, now: u64) -> (r: String)
    ensures
        r@ == age_text(age_of(timestamp, now)),
{
    let s: u64 = if now > timestamp {
        now - timestamp
    } else {
        0
    };
    if s < 60 {
        "just now".to_owned()
    } else if s < 3600 {
        concat(decimal_of(s / 60).as_str(), " min ago")
    } else if s < 86400 {
        concat(decimal_of(s / 3600).as_str(), " hours ago")
    } else {
        concat(decimal_of(s / 86400).as_str(), " days ago")
    }
}

/// How long before `now` a time was, in few letters.
pub fn format_age_short(timestamp: u64, now: u64) -> (r: String)
    ensures
        r@ == short_age_text(age_of(timestamp, now)),
{
    let s: u64 = if now > timestamp {
        now - timestamp
    } else {
        0
    };
    if s < 60 {
        "just now".to_owned()
    } else if s < 3600 {
        concat(decimal_of(s / 60).as_str(), "m ago")
    } else if s < 86400 {
        concat(decimal_of(s / 3600).as_str(), "h ago")
    } else {
        concat(decimal_of(s / 86400).as_str(), "d ago")
    }
}

/// A time, and how long ago it was.
pub fn format_timestamp(timestamp: u64, now: u64) -> (r: String)
    ensures
        r@ == decimal(timestamp as nat) + " ("@ + short_age_text(age_of(timestamp, now)) + ")"@,
{
    let mut r: String = decimal_of(timestamp);
    r.append(" (");
    r.append(format_age_short(timestamp, now).as_str());
    r.append(")");
    r
}

/// How many changes are of one kind.
pub open spec fn kind_count(
    v: Seq<(Seq<char>, SandboxChangeKind)>,
    kind: SandboxChangeKind,
) -> nat
    decreases v.len(),
{
    if v.len() == 0 {
        0
    } else if v.last().1 == kind {
        kind_count(v.drop_last(), kind) + 1
    } else {
        kind_count(v.drop_last(), kind)
    }
}

/// How many changes are of one kind.
fn count_kind(v: &Vec<SandboxChange>, kind: SandboxChangeKind) -> (r: usize)
    ensures
        r == kind_count(change_views(v@), kind),
{
    let ghost c = change_views(v@);
    let mut n: usize = 0;
    let mut i: usize = 0;
    while i < v.len()
        invariant
            i <= v.len(),
            n <= i,
            c == change_views(v@),
            n == kind_count(c.subrange(0, i as int), kind),
        decreases v.len() - i,
    {
        proof {
            let t = c.subrange(0, i + 1);
            assert(t.drop_last() =~= c.subrange(0, i as int));
            assert(t.last() == v@[i as int]@);
        }
        if v[i].kind == kind {
            n += 1;
        }
        i += 1;
    }
    assert(c.subrange(0, i as int) =~= c);
    n
}

/// The part of a summary for one kind, if there are any.
pub open spec fn with_part(parts: Seq<Seq<char>>, sign: Seq<char>, n: nat) -> Seq<Seq<char>> {
    if n > 0 {
        parts.push(sign + decimal(n))
    } else {
        parts
    }
}

/// How many files were added, modified and deleted, in few letters.
pub open spec fn changes_summary(v: Seq<(Seq<char>, SandboxChangeKind)>) -> Seq<char> {
    if v.len() == 0 {
        "clean"@
    } else {
        join_spec(
            with_part(
                with_part(
                    with_part(
                        Seq::empty(),
                        "+"@,
                        kind_count(v, SandboxChangeKind::Added),
                    ),
                    "~"@,
                    kind_count(v, SandboxChangeKind::Modified),
                ),
                "-"@,
                kind_count(v, SandboxChangeKind::Deleted),
            ),
            " "@,
        )
    }
}

/// Adds the part of a summary for one kind, if there are any.
fn add_part(parts: &mut Vec<String>, sign: &str, n: usize)
    ensures
        texts(final(parts)@) == with_part(texts(old(parts)@), sign@, n as nat),
{
    if n > 0 {
        push_line(parts, concat(sign, decimal_of(n as u64).as_str()));
    }
}

/// How many files were added, modified and deleted, in few letters.
pub fn summarize(changes: &Vec<SandboxChange>) -> (r: String)
    ensures
        r@ == changes_summary(change_views(changes@)),
{
    if changes.len() == 0 {
        return "clean".to_owned();
    }
    let mut parts: Vec<String> = Vec::new();
    assert(texts(parts@) =~= Seq::empty());
    add_part(&mut parts, "+", count_kind(changes, SandboxChangeKind::Added));
    add_part(&mut parts, "~", count_kind(changes, SandboxChangeKind::Modified));
    add_part(&mut parts, "-", count_kind(changes, SandboxChangeKind::Deleted));
    join(parts.as_slice(), " ")
}

/// The first eight characters of a hash.
pub open spec fn short_base(s: Seq<char>) -> Seq<char> {
    if s.len() > 8 {
        s.subrange(0, 8)
    } else {
        s
    }
}

/// The first eight characters of a hash.
pub fn shorten_base(s: &str) -> (r: String)
    ensures
        r@ == short_base(s@),
{
    let v = to_chars(s);
    if v.len() > 8 {
        from_chars(&v, 0, 8)
    } else {
        s.to_owned()
    }
}

/// What is said of the changes of a sandbox, which may be unknown.
pub open spec fn status_summary(n: Option<nat>) -> Seq<char> {
    match n {
        Some(n) => if n == 0 {
            "clean"@
        } else {
            decimal(n) + " changes"@
        },
        None => "unknown"@,
    }
}

/// What is said of the changes of a sandbox, which may be unknown.
pub fn get_sandbox_status_summary(count: Option<usize>) -> (r: String)
    ensures
        r@ == status_summary(
            match count {
                Some(n) => Some(n as nat),
                None => None,
            },
        ),
{
    match count {
        Some(n) => {
            if n == 0 {
                "clean".to_owned()
            } else {
                concat(decimal_of(n as u64).as_str(), " changes")
            }
        },
        None => "unknown".to_owned(),
    }
}

} // verus!
