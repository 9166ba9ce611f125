//! What the view shows, before it is drawn.
use vstd::prelude::*;
use vstd::string::*;
use vstd::utf8::*;

use crate::diff_command::{from_utf8_lossy, shown_text};
use crate::merge_command::{ConflictResolution, ConflictType};
use crate::merge_tui::app::{
    decided_count, decision, is_decided, App, ConflictState, Decision,
};
use crate::text::{
    after, concat, decimal, decimal_of, from_chars, lines, lines_spec, pad_left, padded_left,
    str_eq, texts, to_chars,
};

verus! {

/// How a line of one side stands to the line of the other.
#[derive(Debug, Clone, Copy, PartialEq, Eq, Structural)]
pub enum DiffKind {
    /// The same on both sides.
    Context,
    /// Only in the sandbox.
    Added,
    /// Only in the target.
    Removed,
    /// Different on the two sides.
    Modified,
}

/// A line of one side.
#[derive(Debug, Clone, PartialEq, Eq)]
pub struct DiffLine {
    pub kind: DiffKind,
    pub text: String,
}

impl View for DiffLine {
    type V = (DiffKind, Seq<char>);

    open spec fn view(&self) -> (DiffKind, Seq<char>) {
        (self.kind, self.text@)
    }
}

pub open spec fn diff_line_views(v: Seq<DiffLine>) -> Seq<(DiffKind, Seq<char>)> {
    Seq::new(v.len(), |i: int| v[i]@)
}

/// The lines of one side next to those of the other; `alone` is the kind of those
/// that have none beside them.
pub open spec fn side_lines(
    own: Seq<Seq<char>>,
    other: Seq<Seq<char>>,
    alone: DiffKind,
) -> Seq<(DiffKind, Seq<char>)> {
    Seq::new(
        own.len(),
        |i: int|
            (
                if i >= other.len() {
                    alone
                } else if own[i] == other[i] {
                    DiffKind::Context
                } else {
                    DiffKind::Modified
                },
                own[i],
            ),
    )
}

/// The lines of one side next to those of the other.
fn compare_side(own: &Vec<String>, other: &Vec<String>, alone: DiffKind) -> (r: Vec<DiffLine>)
    ensures
        diff_line_views(r@) == side_lines(texts(own@), texts(other@), alone),
{
    let ghost a = texts(own@);
    let ghost b = texts(other@);
    let mut r: Vec<DiffLine> = Vec::new();
    let mut i: usize = 0;
    while i < own.len()
        invariant
            i <= own.len(),
            a == texts(own@),
            b == texts(other@),
            r@.len() == i,
            forall|j: int| 0 <= j < i ==> (#[trigger] r@[j])@ == side_lines(a, b, alone)[j],
        decreases own.len() - i,
    {
        let kind = if i >= other.len() {
            alone
        } else {
            assert(b[i as int] == other@[i as int]@);
            if str_eq(own[i].as_str(), other[i].as_str()) {
                DiffKind::Context
            } else {
                DiffKind::Modified
            }
        };
        r.push(DiffLine { kind, text: own[i].clone() });
        i += 1;
    }
    assert(diff_line_views(r@) =~= side_lines(a, b, alone));
    r
}

/// The lines of both sides, each next to the line with its number on the other.
pub fn compute_line_diff(target: &str, sandbox: &str) -> (r: (Vec<DiffLine>, Vec<DiffLine>))
    ensures
        diff_line_views(r.0@) == side_lines(
            lines_spec(target@),
            lines_spec(sandbox@),
            DiffKind::Removed,
        ),
        diff_line_views(r.1@) == side_lines(
            lines_spec(sandbox@),
            lines_spec(target@),
            DiffKind::Added,
        ),
{
    let t = lines(target);
    let s = lines(sandbox);
    (compare_side(&t, &s, DiffKind::Removed), compare_side(&s, &t, DiffKind::Added))
}

/// The lines of both sides of a conflict, with their contents as text.
pub fn conflict_diff(state: &ConflictState) -> (r: (Vec<DiffLine>, Vec<DiffLine>))
    ensures
        ({
            let target = lines_spec(shown_text(state.target_content@));
            let sandbox = lines_spec(shown_text(state.sandbox_content@));
            &&& diff_line_views(r.0@) == side_lines(target, sandbox, DiffKind::Removed)
            &&& diff_line_views(r.1@) == side_lines(sandbox, target, DiffKind::Added)
        }),
{
    let target = from_utf8_lossy(state.target_content.as_slice());
    let sandbox = from_utf8_lossy(state.sandbox_content.as_slice());
    compute_line_diff(target.as_str(), sandbox.as_str())
}

/// How far the contents can be scrolled.
pub open spec fn max_scroll(target_lines: nat, sandbox_lines: nat, height: nat) -> nat {
    let n = if target_lines > sandbox_lines {
        target_lines
    } else {
        sandbox_lines
    };
    if n > height {
        (n - height) as nat
    } else {
        0
    }
}

/// How far the contents can be scrolled.
pub fn diff_max_scroll(target_lines: usize, sandbox_lines: usize, height: usize) -> (r: usize)
    ensures
        r == max_scroll(target_lines as nat, sandbox_lines as nat, height as nat),
{
    let n: usize = if target_lines > sandbox_lines {
        target_lines
    } else {
        sandbox_lines
    };
    if n > height {
        n - height
    } else {
        0
    }
}

/// As many of the first characters of `s` as `n` bytes hold.
pub open spec fn first_bytes(s: Seq<char>, n: int) -> Seq<char>
    decreases s.len(),
{
    if s.len() == 0 || encode_utf8(s).len() <= n {
        s
    } else {
        first_bytes(s.drop_last(), n)
    }
}

/// As many of the last characters of `s` as `n` bytes hold.
pub open spec fn last_bytes(s: Seq<char>, n: int) -> Seq<char>
    decreases s.len(),
{
    if s.len() == 0 || encode_utf8(s).len() <= n {
        s
    } else {
        last_bytes(after(s, 1), n)
    }
}

/// How many bytes the characters `v[from..to]` take.
fn byte_len(v: &Vec<char>, from: usize, to: usize) -> (r: usize)
    requires
        from <= to <= v@.len(),
    ensures
        r == encode_utf8(v@.subrange(from as int, to as int)).len(),
{
    let part = from_chars(v, from, to);
    part.as_str().as_bytes().len()
}

/// As many of the first characters of `s` as `n` bytes hold.
fn take_first_bytes(s: &str, n: usize) -> (r: String)
    ensures
        r@ == first_bytes(s@, n as int),
{
    let v = to_chars(s);
    let mut to: usize = v.len();
    assert(v@.subrange(0, to as int) =~= s@);
    while to > 0 && byte_len(&v, 0, to) > n
        invariant
            v@ == s@,
            to <= v@.len(),
            first_bytes(s@, n as int) == first_bytes(v@.subrange(0, to as int), n as int),
        decreases to,
    {
        assert(v@.subrange(0, to as int).drop_last() =~= v@.subrange(0, to - 1));
        to -= 1;
    }
    from_chars(&v, 0, to)
}

/// As many of the last characters of `s` as `n` bytes hold.
fn take_last_bytes(s: &str, n: usize) -> (r: String)
    ensures
        r@ == last_bytes(s@, n as int),
{
    let v = to_chars(s);
    let len: usize = v.len();
    let mut from: usize = 0;
    assert(v@.subrange(0, len as int) =~= s@);
    while from < len && byte_len(&v, from, len) > n
        invariant
            v@ == s@,
            len == v@.len(),
            from <= len,
            last_bytes(s@, n as int) == last_bytes(v@.subrange(from as int, len as int), n as int),
        decreases len - from,
    {
        assert(after(v@.subrange(from as int, len as int), 1) =~= v@.subrange(
            from + 1,
            len as int,
        ));
        from += 1;
    }
    from_chars(&v, from, len)
}

/// A line that takes at most `width` bytes, with three dots in place of the rest. The
/// dots are there even where fewer fit.
pub open spec fn truncated(s: Seq<char>, width: int) -> Seq<char> {
    if encode_utf8(s).len() > width {
        first_bytes(
            s,
            if width > 3 {
                width - 3
            } else {
                0
            },
        ) + "..."@
    } else {
        s
    }
}

/// A line that takes at most `max_width` bytes, with three dots in place of the rest.
/// The dots are there even where fewer fit. No character is cut in two.
pub fn truncate_line(s: &str, max_width: usize) -> (r: String)
    ensures
        r@ == truncated(s@, max_width as int),
{
    if s.as_bytes().len() > max_width {
        let n: usize = if max_width > 3 {
            max_width - 3
        } else {
            0
        };
        concat(take_first_bytes(s, n).as_str(), "...")
    } else {
        s.to_owned()
    }
}

/// A path that takes at most twenty bytes: its end, behind dots.
pub open spec fn shortened(path: Seq<char>) -> Seq<char> {
    if encode_utf8(path).len() > 20 {
        "..."@ + last_bytes(path, 17)
    } else {
        path
    }
}

/// A path that takes at most twenty bytes: its end, behind dots.
pub fn shorten_path(path: &str) -> (r: String)
    ensures
        r@ == shortened(path@),
{
    if path.as_bytes().len() > 20 {
        concat("...", take_last_bytes(path, 17).as_str())
    } else {
        path.to_owned()
    }
}

/// What a conflict is called in the list.
pub open spec fn type_label(t: ConflictType) -> Seq<char> {
    match t {
        ConflictType::BothModified => "mod/mod"@,
        ConflictType::ModifyDelete => "mod/del"@,
        ConflictType::BothAdded => "add/add"@,
    }
}

/// What a conflict is called in the list.
pub fn conflict_type_label(t: ConflictType) -> (r: &'static str)
    ensures
        r@ == type_label(t),
{
    match t {
        ConflictType::BothModified => "mod/mod",
        ConflictType::ModifyDelete => "mod/del",
        ConflictType::BothAdded => "add/add",
    }
}

/// What is said of a decision.
pub open spec fn decision_label(d: Option<Decision>) -> Seq<char> {
    match d {
        Some(Decision::TakeTarget) => "Take TARGET version"@,
        Some(Decision::TakeSandbox) => "Take SANDBOX version"@,
        Some(Decision::TakeBase) => "Take BASE version"@,
        Some(Decision::Merged(_)) => "Take BOTH (concatenated)"@,
        Some(Decision::Delete) => "DELETE file"@,
        None => "Unresolved - choose an action below"@,
    }
}

/// What is said of a decision.
pub fn resolution_label(resolution: &Option<ConflictResolution>) -> (r: &'static str)
    ensures
        r@ == decision_label(
            match *resolution {
                Some(d) => Some(decision(d)),
                None => None,
            },
        ),
{
    match resolution {
        Some(ConflictResolution::TakeTarget) => "Take TARGET version",
        Some(ConflictResolution::TakeSandbox) => "Take SANDBOX version",
        Some(ConflictResolution::TakeBase) => "Take BASE version",
        Some(ConflictResolution::Merged(_)) => "Take BOTH (concatenated)",
        Some(ConflictResolution::Delete) => "DELETE file",
        None => "Unresolved - choose an action below",
    }
}

/// What the header says of the state of the merge.
pub fn header_status(app: &App) -> (r: String)
    ensures
        r@ == (if is_decided(app@.conflicts) {
            "All resolved"@
        } else {
            decimal(decided_count(app@.conflicts)) + " / "@ + decimal(app@.conflicts.len())
                + " resolved"@
        }),
{
    if app.all_resolved() {
        return "All resolved".to_owned();
    }
    let mut r: String = decimal_of(app.resolved_count() as u64);
    r.append(" / ");
    r.append(decimal_of(app.conflicts.len() as u64).as_str());
    r.append(" resolved");
    r
}

/// A row of one side of the contents.
#[derive(Debug, Clone, PartialEq, Eq)]
pub struct PanelRow {
    /// The number of the line.
    pub number: String,
    pub kind: DiffKind,
    pub text: String,
}

/// How wide the numbers of `n` lines are.
pub open spec fn number_width(n: nat) -> nat {
    let w = decimal(n).len();
    if w < 3 {
        3
    } else {
        w
    }
}

/// How wide the numbers of `n` lines are.
pub fn line_number_width(n: usize) -> (r: usize)
    ensures
        r == number_width(n as nat),
{
    let w: usize = to_chars(decimal_of(n as u64).as_str()).len();
    if w < 3 {
        3
    } else {
        w
    }
}

/// The row of a line.
pub open spec fn is_row(
    row: PanelRow,
    line: (DiffKind, Seq<char>),
    i: nat,
    n: nat,
    width: int,
) -> bool {
    &&& row.number@ == padded_left(decimal(i + 1), number_width(n)).push(' ')
    &&& row.kind == line.0
    &&& row.text@ == truncated(line.1, width - number_width(n) - 5)
}

/// The rows of one side that are shown: at most `visible_height`, from `scroll`
/// on, in an area of this width.
pub fn panel_rows(
    diff_lines: &Vec<DiffLine>,
    scroll: usize,
    visible_height: usize,
    area_width: usize,
) -> (r: Vec<PanelRow>)
    requires
        scroll < diff_lines@.len() && visible_height > 0 ==> area_width >= number_width(
            diff_lines@.len(),
        ) + 5,
    ensures
        r@.len() == (if scroll >= diff_lines@.len() {
            0
        } else if diff_lines@.len() - scroll > visible_height {
            visible_height as int
        } else {
            diff_lines@.len() - scroll
        }),
        forall|k: int|
            0 <= k < r@.len() ==> is_row(
                #[trigger] r@[k],
                diff_lines@[scroll + k]@,
                (scroll + k) as nat,
                diff_lines@.len(),
                area_width as int,
            ),
{
    let number_w: usize = line_number_width(diff_lines.len());
    let mut r: Vec<PanelRow> = Vec::new();
    if scroll >= diff_lines.len() || visible_height == 0 {
        return r;
    }
    let text_w: usize = area_width - number_w - 5;
    let mut i: usize = scroll;
    while i < diff_lines.len() && r.len() < visible_height
        invariant
            number_w == number_width(diff_lines@.len()),
            text_w == area_width - number_w - 5,
            r@.len() == i - scroll,
            r@.len() <= visible_height,
            scroll <= i,
            scroll < diff_lines@.len() ==> i <= diff_lines@.len(),
            scroll >= diff_lines@.len() ==> i == scroll,
            forall|k: int|
                0 <= k < r@.len() ==> is_row(
                    #[trigger] r@[k],
                    diff_lines@[scroll + k]@,
                    (scroll + k) as nat,
                    diff_lines@.len(),
                    area_width as int,
                ),
        decreases diff_lines@.len() - i,
    {
        let line = &diff_lines[i];
        let mut number: String = pad_left(decimal_of(i as u64 + 1).as_str(), number_w);
        number.push(' ');
        r.push(
            PanelRow {
                number,
                kind: line.kind,
                text: truncate_line(line.text.as_str(), text_w),
            },
        );
        i += 1;
    }
    r
}

/// Every line of a side is shown, and no other: text and number of lines are kept.
pub proof fn sides_keep_their_lines(target: Seq<char>, sandbox: Seq<char>)
    ensures
        ({
            let t = side_lines(lines_spec(target), lines_spec(sandbox), DiffKind::Removed);
            &&& t.len() == lines_spec(target).len()
            &&& forall|i: int| 0 <= i < t.len() ==> (#[trigger] t[i]).1 == lines_spec(target)[i]
        }),
        target == sandbox ==> forall|i: int|
            0 <= i < lines_spec(target).len() ==> (#[trigger] side_lines(
                lines_spec(target),
                lines_spec(sandbox),
                DiffKind::Removed,
            )[i]).0 == DiffKind::Context,
{
}

} // verus!
