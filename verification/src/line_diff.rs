//! Differences of two texts, line by line.
use vstd::prelude::*;
use vstd::string::*;

use crate::text::{repeat, repeated};

verus! {

/// What became of a line.
#[derive(Debug, Clone, Copy, PartialEq, Eq, Structural)]
pub enum ChangeTag {
    Equal,
    Delete,
    Insert,
}

/// A line of the old or of the new text, with its line ending.
#[derive(Debug, Clone, PartialEq, Eq)]
pub struct LineChange {
    pub tag: ChangeTag,
    pub value: String,
    /// Whether the line has no line ending.
    pub missing_newline: bool,
}

/// A changed line: what became of it, its characters, and whether it has no line
/// ending.
pub type ChangedLine = (ChangeTag, Seq<char>, bool);

impl View for LineChange {
    type V = ChangedLine;

    open spec fn view(&self) -> ChangedLine {
        (self.tag, self.value@, self.missing_newline)
    }
}

pub open spec fn change_views(v: Seq<LineChange>) -> Seq<ChangedLine> {
    Seq::new(v.len(), |i: int| v[i]@)
}

pub open spec fn group_views(v: Seq<Vec<LineChange>>) -> Seq<Seq<ChangedLine>> {
    Seq::new(v.len(), |i: int| change_views(v[i]@))
}

/// The lines of `old` and `new` as `similar` lines them up.
pub uninterp spec fn line_changes(old: Seq<char>, new: Seq<char>) -> Seq<(
    ChangeTag,
    Seq<char>,
    bool,
)>;

/// The changed lines of `old` and `new`, with at most `radius` equal lines around
/// them, in the groups that `similar` makes.
pub uninterp spec fn change_groups(old: Seq<char>, new: Seq<char>, radius: nat) -> Seq<
    Seq<(ChangeTag, Seq<char>, bool)>,
>;

/// The lines without those of one tag, one after the other.
pub open spec fn text_without(cs: Seq<ChangedLine>, tag: ChangeTag) -> Seq<char>
    decreases cs.len(),
{
    if cs.len() == 0 {
        Seq::empty()
    } else if cs.last().0 == tag {
        text_without(cs.drop_last(), tag)
    } else {
        text_without(cs.drop_last(), tag) + cs.last().1
    }
}

/// How many lines have this tag.
pub open spec fn tag_count(cs: Seq<ChangedLine>, tag: ChangeTag) -> nat
    decreases cs.len(),
{
    if cs.len() == 0 {
        0
    } else if cs.last().0 == tag {
        tag_count(cs.drop_last(), tag) + 1
    } else {
        tag_count(cs.drop_last(), tag)
    }
}

/// Calls `TextDiff::from_lines` and `TextDiff::iter_all_changes`: which lines are
/// lined up is a function of the two texts. No line is empty; the lines that were
/// not inserted make up the old text, and those that were not deleted the new
/// one; of two equal texts every line is equal.
#[verifier::external_body]
fn all_changes(old: &str, new: &str) -> (r: Vec<LineChange>)
    ensures
        change_views(r@) == line_changes(old@, new@),
        forall|i: int| 0 <= i < r@.len() ==> (#[trigger] r@[i]).value@.len() > 0,
        text_without(change_views(r@), ChangeTag::Insert) == old@,
        text_without(change_views(r@), ChangeTag::Delete) == new@,
        old@ == new@ ==> forall|i: int|
            0 <= i < r@.len() ==> (#[trigger] r@[i]).tag == ChangeTag::Equal,
{
    let diff = similar::TextDiff::from_lines(old, new);
    diff.iter_all_changes().map(|c| LineChange {
        tag: match c.tag() {
            similar::ChangeTag::Equal => ChangeTag::Equal,
            similar::ChangeTag::Delete => ChangeTag::Delete,
            similar::ChangeTag::Insert => ChangeTag::Insert,
        },
        value: c.value().to_string(),
        missing_newline: c.missing_newline(),
    }).collect()
}

/// Calls `TextDiff::from_lines`, `TextDiff::grouped_ops` and
/// `TextDiff::iter_changes`: the groups are a function of the two texts and of
/// the number of equal lines around a change. Twice that number must fit, since the
/// grouping compares runs of equal lines with it.
#[verifier::external_body]
fn grouped_changes(old: &str, new: &str, radius: usize) -> (r: Vec<Vec<LineChange>>)
    requires
        radius <= usize::MAX / 2,
    ensures
        group_views(r@) == change_groups(old@, new@, radius as nat),
{
    let diff = similar::TextDiff::from_lines(old, new);
    diff.grouped_ops(radius).iter().map(|g| g.iter().flat_map(|op| diff.iter_changes(op)).map(
        |c| LineChange {
            tag: match c.tag() {
                similar::ChangeTag::Equal => ChangeTag::Equal,
                similar::ChangeTag::Delete => ChangeTag::Delete,
                similar::ChangeTag::Insert => ChangeTag::Insert,
            },
            value: c.value().to_string(),
            missing_newline: c.missing_newline(),
        },
    ).collect()).collect()
}

/// The sign before a line.
pub open spec fn sign_of(tag: ChangeTag) -> Seq<char> {
    match tag {
        ChangeTag::Delete => "-"@,
        ChangeTag::Insert => "+"@,
        ChangeTag::Equal => " "@,
    }
}

/// The escape sequence that gives a line its colour.
pub open spec fn color_of(tag: ChangeTag) -> Seq<char> {
    match tag {
        ChangeTag::Delete => "\x1b[31m"@,
        ChangeTag::Insert => "\x1b[32m"@,
        ChangeTag::Equal => ""@,
    }
}

/// A line as it is shown: its sign and the line, and a note where the line ending
/// is missing.
pub open spec fn change_text(c: ChangedLine, no_color: bool) -> Seq<char> {
    let line = if no_color {
        sign_of(c.0) + c.1
    } else {
        color_of(c.0) + sign_of(c.0) + c.1 + "\x1b[0m"@
    };
    if !c.2 {
        line
    } else if no_color {
        line + "\n\\ No newline at end of file\n"@
    } else {
        line + "\n\x1b[2m\\ No newline at end of file\x1b[0m\n"@
    }
}

/// The lines of a group as they are shown.
pub open spec fn changes_text(cs: Seq<ChangedLine>, no_color: bool) -> Seq<char>
    decreases cs.len(),
{
    if cs.len() == 0 {
        Seq::empty()
    } else {
        changes_text(cs.drop_last(), no_color) + change_text(cs.last(), no_color)
    }
}

/// The groups as they are shown, with an empty line between two of them.
pub open spec fn groups_text(gs: Seq<Seq<ChangedLine>>, no_color: bool) -> Seq<char>
    decreases gs.len(),
{
    if gs.len() == 0 {
        Seq::empty()
    } else if gs.len() == 1 {
        changes_text(gs[0], no_color)
    } else {
        groups_text(gs.drop_last(), no_color) + "\n"@ + changes_text(gs.last(), no_color)
    }
}

/// Appends a line as it is shown.
fn show_change(out: &mut String, c: &LineChange, no_color: bool)
    ensures
        final(out)@ == old(out)@ + change_text(c@, no_color),
{
    let ghost before = out@;
    let sign = match c.tag {
        ChangeTag::Delete => "-",
        ChangeTag::Insert => "+",
        ChangeTag::Equal => " ",
    };
    let color = match c.tag {
        ChangeTag::Delete => "\x1b[31m",
        ChangeTag::Insert => "\x1b[32m",
        ChangeTag::Equal => "",
    };
    if no_color {
        out.append(sign);
        out.append(c.value.as_str());
    } else {
        out.append(color);
        out.append(sign);
        out.append(c.value.as_str());
        out.append("\x1b[0m");
    }
    if c.missing_newline {
        if no_color {
            out.append("\n\\ No newline at end of file\n");
        } else {
            out.append("\n\x1b[2m\\ No newline at end of file\x1b[0m\n");
        }
    }
    assert(out@ =~= before + change_text(c@, no_color));
}

/// The lines of a group as they are shown.
fn show_changes(cs: &Vec<LineChange>, no_color: bool) -> (r: String)
    ensures
        r@ == changes_text(change_views(cs@), no_color),
{
    let ghost v = change_views(cs@);
    let mut out: String = String::new();
    let mut i: usize = 0;
    assert(out@ =~= changes_text(v.subrange(0, 0), no_color));
    while i < cs.len()
        invariant
            i <= cs.len(),
            v == change_views(cs@),
            out@ == changes_text(v.subrange(0, i as int), no_color),
        decreases cs.len() - i,
    {
        show_change(&mut out, &cs[i], no_color);
        proof {
            let t = v.subrange(0, i + 1);
            assert(t.drop_last() =~= v.subrange(0, i as int));
        }
        i += 1;
    }
    assert(v.subrange(0, i as int) =~= v);
    out
}

/// The groups as they are shown, with an empty line between two of them.
pub fn show_groups(groups: &Vec<Vec<LineChange>>, no_color: bool) -> (r: String)
    ensures
        r@ == groups_text(group_views(groups@), no_color),
{
    let ghost v = group_views(groups@);
    let mut out: String = String::new();
    let mut i: usize = 0;
    assert(out@ =~= groups_text(v.subrange(0, 0), no_color));
    while i < groups.len()
        invariant
            i <= groups.len(),
            v == group_views(groups@),
            out@ == groups_text(v.subrange(0, i as int), no_color),
        decreases groups.len() - i,
    {
        let ghost before = out@;
        if i > 0 {
            out.append("\n");
        }
        let shown = show_changes(&groups[i], no_color);
        out.append(shown.as_str());
        proof {
            let t = v.subrange(0, i + 1);
            assert(t.drop_last() =~= v.subrange(0, i as int));
            assert(t.last() == change_views(groups@[i as int]@));
            if i == 0 {
                assert(before =~= Seq::<char>::empty());
                assert(t[0] == t.last());
            }
            assert(out@ =~= groups_text(t, no_color));
        }
        i += 1;
    }
    assert(v.subrange(0, i as int) =~= v);
    out
}

/// The equal lines that are shown around a change.
pub const CONTEXT: usize = 3;

/// The changed lines between two texts as they are shown, with three equal lines
/// around them.
pub fn unified_diff(old: &str, new: &str, no_color: bool) -> (r: String)
    ensures
        r@ == groups_text(change_groups(old@, new@, 3), no_color),
{
    let groups = grouped_changes(old, new, CONTEXT);
    show_groups(&groups, no_color)
}

/// Where no line has the tag, none is counted.
proof fn lemma_no_tag(cs: Seq<ChangedLine>, tag: ChangeTag)
    requires
        forall|i: int| 0 <= i < cs.len() ==> (#[trigger] cs[i]).0 != tag,
    ensures
        tag_count(cs, tag) == 0,
    decreases cs.len(),
{
    if cs.len() > 0 {
        let d = cs.drop_last();
        assert forall|i: int| 0 <= i < d.len() implies (#[trigger] d[i]).0 != tag by {
            assert(d[i] == cs[i]);
        }
        lemma_no_tag(d, tag);
        assert(cs[cs.len() - 1].0 != tag);
    }
}

/// Lines that make up no text are all of the tag that is left out.
proof fn lemma_no_text(cs: Seq<ChangedLine>, left_out: ChangeTag, tag: ChangeTag)
    requires
        text_without(cs, left_out).len() == 0,
        forall|i: int| 0 <= i < cs.len() ==> (#[trigger] cs[i]).1.len() > 0,
        tag != left_out,
    ensures
        tag_count(cs, tag) == 0,
        tag_count(cs, left_out) == cs.len(),
    decreases cs.len(),
{
    if cs.len() > 0 {
        let d = cs.drop_last();
        assert(cs[cs.len() - 1].1.len() > 0);
        assert forall|i: int| 0 <= i < d.len() implies (#[trigger] d[i]).1.len() > 0 by {
            assert(d[i] == cs[i]);
        }
        lemma_no_text(d, left_out, tag);
    }
}

/// How many of the lines were inserted, and how many were deleted.
pub fn count_changes(changes: &Vec<LineChange>) -> (r: (usize, usize))
    ensures
        r.0 == tag_count(change_views(changes@), ChangeTag::Insert),
        r.1 == tag_count(change_views(changes@), ChangeTag::Delete),
        r.0 + r.1 <= usize::MAX,
{
    let ghost v = change_views(changes@);
    let mut additions: usize = 0;
    let mut deletions: usize = 0;
    let mut i: usize = 0;
    while i < changes.len()
        invariant
            i <= changes.len(),
            v == change_views(changes@),
            additions + deletions <= i,
            additions == tag_count(v.subrange(0, i as int), ChangeTag::Insert),
            deletions == tag_count(v.subrange(0, i as int), ChangeTag::Delete),
        decreases changes.len() - i,
    {
        proof {
            let t = v.subrange(0, i + 1);
            assert(t.drop_last() =~= v.subrange(0, i as int));
            assert(t.last() == changes@[i as int]@);
        }
        match changes[i].tag {
            ChangeTag::Insert => {
                additions += 1;
            },
            ChangeTag::Delete => {
                deletions += 1;
            },
            ChangeTag::Equal => {},
        }
        i += 1;
    }
    assert(v.subrange(0, i as int) =~= v);
    (additions, deletions)
}

/// The insertions and deletions that lead from one text to another.
pub open spec fn stat_of(old: Seq<char>, new: Seq<char>) -> (nat, nat) {
    (
        tag_count(line_changes(old, new), ChangeTag::Insert),
        tag_count(line_changes(old, new), ChangeTag::Delete),
    )
}

/// The insertions and deletions that lead from one text to another. There are
/// none between equal texts, no deletions from an empty text and no insertions
/// into an empty one.
pub fn compute_stat(old: &str, new: &str) -> (r: (usize, usize))
    ensures
        (r.0 as nat, r.1 as nat) == stat_of(old@, new@),
        r.0 + r.1 <= usize::MAX,
        old@ == new@ ==> r.0 == 0 && r.1 == 0,
        old@.len() == 0 ==> r.1 == 0,
        new@.len() == 0 ==> r.0 == 0,
{
    let changes = all_changes(old, new);
    proof {
        let v = change_views(changes@);
        if old@ == new@ {
            assert forall|i: int| 0 <= i < v.len() implies (#[trigger] v[i]).0
                == ChangeTag::Equal by {
                assert(changes@[i].tag == ChangeTag::Equal);
            }
            lemma_no_tag(v, ChangeTag::Insert);
            lemma_no_tag(v, ChangeTag::Delete);
        }
        assert forall|i: int| 0 <= i < v.len() implies (#[trigger] v[i]).1.len() > 0 by {
            assert(changes@[i].value@.len() > 0);
        }
        if old@.len() == 0 {
            lemma_no_text(v, ChangeTag::Insert, ChangeTag::Delete);
        }
        if new@.len() == 0 {
            lemma_no_text(v, ChangeTag::Delete, ChangeTag::Insert);
        }
    }
    count_changes(&changes)
}

/// The widest bar.
pub const BAR_WIDTH: usize = 50;

/// How many of the marks of a bar stand for insertions.
pub open spec fn bar_parts(additions: nat, deletions: nat) -> (nat, nat) {
    let total = additions + deletions;
    let width = if total < 50 {
        total
    } else {
        50nat
    };
    let add = if total == 0 {
        0nat
    } else {
        (additions * width) / total
    };
    (add, (width - add) as nat)
}

/// A bar of plus and minus signs, in the proportion of insertions to deletions.
pub open spec fn stat_bar(additions: nat, deletions: nat) -> Seq<char> {
    if additions + deletions == 0 {
        Seq::empty()
    } else {
        let (a, d) = bar_parts(additions, deletions);
        "\x1b[32m"@ + repeated('+', a) + "\x1b[31m"@ + repeated('-', d) + "\x1b[0m"@
    }
}

/// A bar has at most as many plus signs as it is wide, and all of them where
/// nothing was deleted.
pub proof fn bar_is_filled(additions: nat, deletions: nat)
    ensures
        ({
            let (a, d) = bar_parts(additions, deletions);
            let total = additions + deletions;
            &&& a + d == if total < 50 { total } else { 50nat }
            &&& deletions == 0 ==> d == 0
            &&& additions == 0 ==> a == 0
            &&& total < 50 ==> a == additions && d == deletions
        }),
{
    let total = additions + deletions;
    let width = if total < 50 {
        total
    } else {
        50nat
    };
    if total > 0 {
        assert((additions * width) / total <= width) by (nonlinear_arith)
            requires
                additions <= total,
                total > 0,
        ;
        if deletions == 0 {
            assert((additions * width) / total == width) by (nonlinear_arith)
                requires
                    additions == total,
                    total > 0,
            ;
        }
        if additions == 0 {
            assert((additions * width) / total == 0) by (nonlinear_arith)
                requires
                    additions == 0,
                    total > 0,
            ;
        }
        if total < 50 {
            assert((additions * width) / total == additions) by (nonlinear_arith)
                requires
                    width == total,
                    total > 0,
            ;
        }
    }
}

/// A bar of plus and minus signs, in the proportion of insertions to deletions.
pub fn create_stat_bar(additions: usize, deletions: usize) -> (r: String)
    requires
        additions + deletions <= usize::MAX,
    ensures
        r@ == stat_bar(additions as nat, deletions as nat),
{
    let total: usize = additions + deletions;
    if total == 0 {
        return String::new();
    }
    let width: usize = if total < BAR_WIDTH {
        total
    } else {
        BAR_WIDTH
    };
    proof {
        bar_is_filled(additions as nat, deletions as nat);
        assert(additions * width <= usize::MAX * 50) by (nonlinear_arith)
            requires
                additions <= usize::MAX,
                width <= 50,
        ;
        assert(additions * width >= 0) by (nonlinear_arith)
            requires
                additions >= 0,
                width >= 0,
        ;
    }
    let add_width: usize = (additions as u128 * width as u128 / total as u128) as usize;
    let del_width: usize = width - add_width;
    let mut r: String = "\x1b[32m".to_owned();
    r.append(repeat('+', add_width).as_str());
    r.append("\x1b[31m");
    r.append(repeat('-', del_width).as_str());
    r.append("\x1b[0m");
    r
}

} // verus!
