//! What trimming, cutting into lines and parts, and counting make of a text.
use vstd::prelude::*;
use vstd::string::*;

use crate::hash::hex_text;
use crate::laws::branching::{lemma_place, place_of};
use crate::refs::{head_commit, head_symbol, lemma_hash_line_reads_back, HeadFault, Refs};
use crate::text::{
    after, decimal, first_at, is_space, join_spec, lemma_first_at, lines_spec, split_spec,
    trim_end_spec, trim_spec, trim_start_spec,
};

verus! {

/// Spaces, tabs, line feeds and carriage returns are white space; letters, digits and the marks
/// that can be typed are not.
pub proof fn white_space_is_blank(c: char)
    ensures
        is_space(' ') && is_space('\t') && is_space('\n') && is_space('\r'),
        '!' <= c <= '~' ==> !is_space(c),
{
}

proof fn lemma_trim_start(s: Seq<char>)
    ensures
        ({
            let r = trim_start_spec(s);
            let k = s.len() - r.len();
            &&& 0 <= k <= s.len()
            &&& r == s.subrange(k, s.len() as int)
            &&& r.len() > 0 ==> !is_space(r[0])
            &&& forall|i: int| 0 <= i < k ==> is_space(#[trigger] s[i])
        }),
    decreases s.len(),
{
    if s.len() > 0 && is_space(s[0]) {
        let t = after(s, 1);
        lemma_trim_start(t);
        let k = t.len() - trim_start_spec(t).len();
        assert(t.subrange(k, t.len() as int) =~= s.subrange(k + 1, s.len() as int));
        assert forall|i: int| 0 <= i < k + 1 implies is_space(#[trigger] s[i]) by {
            if i > 0 {
                assert(t[i - 1] == s[i]);
            }
        }
    } else {
        assert(s.subrange(0, s.len() as int) =~= s);
    }
}

proof fn lemma_trim_end(s: Seq<char>)
    ensures
        ({
            let r = trim_end_spec(s);
            let k = r.len() as int;
            &&& k <= s.len()
            &&& r == s.subrange(0, k)
            &&& k > 0 ==> !is_space(r[k - 1])
            &&& forall|i: int| k <= i < s.len() ==> is_space(#[trigger] s[i])
        }),
    decreases s.len(),
{
    if s.len() > 0 && is_space(s.last()) {
        let d = s.drop_last();
        lemma_trim_end(d);
        let k = trim_end_spec(d).len() as int;
        assert(d.subrange(0, k) =~= s.subrange(0, k));
        assert forall|i: int| k <= i < s.len() implies is_space(#[trigger] s[i]) by {
            if i < d.len() {
                assert(d[i] == s[i]);
            }
        }
    } else {
        assert(s.subrange(0, s.len() as int) =~= s);
    }
}

/// A trimmed text is a stretch of the text that starts and ends with no white space; around it
/// there is only white space.
pub proof fn trimming_takes_the_white_space(s: Seq<char>)
    ensures
        exists|a: int, b: int|
            #![trigger s.subrange(a, b)]
            0 <= a <= b <= s.len() && trim_spec(s) == s.subrange(a, b) && (forall|i: int|
                0 <= i < s.len() && (i < a || i >= b) ==> is_space(#[trigger] s[i])),
        trim_spec(s).len() > 0 ==> !is_space(trim_spec(s)[0]) && !is_space(
            trim_spec(s)[trim_spec(s).len() - 1],
        ),
{
    lemma_trim_start(s);
    let t = trim_start_spec(s);
    lemma_trim_end(t);
    let r = trim_end_spec(t);
    let a = s.len() - t.len();
    let b = a + r.len();
    assert(s.subrange(a, b) =~= r);
    assert forall|i: int| 0 <= i < s.len() && (i < a || i >= b) implies is_space(
        #[trigger] s[i],
    ) by {
        if i >= b {
            assert(t[i - a] == s[i]);
        }
    }
    if r.len() > 0 {
        assert(r[0] == t[0]);
    }
    assert(trim_spec(s) == s.subrange(a, b));
}

/// A text is cut after each line feed: a line holds none, a carriage return before the line
/// feed goes with it, and a text that ends in a line feed has no line behind it.
pub proof fn texts_are_cut_into_lines(l: Seq<char>, rest: Seq<char>)
    requires
        !l.contains('\n'),
    ensures
        lines_spec(Seq::empty()) == Seq::<Seq<char>>::empty(),
        l.len() > 0 ==> lines_spec(l) == seq![l],
        l.len() > 0 && l.last() == '\r' ==> lines_spec(l.push('\n') + rest) == seq![l.drop_last()]
            + lines_spec(rest),
        l.len() == 0 || l.last() != '\r' ==> lines_spec(l.push('\n') + rest) == seq![l]
            + lines_spec(rest),
{
    lemma_first_at(l, '\n');
    if first_at(l, '\n') < l.len() {
        assert(l[first_at(l, '\n')] == '\n');
    }
    let s = l.push('\n') + rest;
    let n = l.len() as int;
    lemma_first_at(s, '\n');
    let i = first_at(s, '\n');
    assert(s[n] == '\n');
    assert(i == n) by {
        if i < n {
            assert(s[i] == l[i]);
        }
    }
    assert(s.subrange(0, n) =~= l);
    assert(after(s, n + 1) =~= rest);
}

/// Between two separators stands one part, which holds none.
pub proof fn texts_are_cut_into_parts(p: Seq<char>, c: char, rest: Seq<char>)
    requires
        !p.contains(c),
    ensures
        split_spec(p, c) == seq![p],
        split_spec(p.push(c) + rest, c) == seq![p] + split_spec(rest, c),
{
    lemma_first_at(p, c);
    if first_at(p, c) < p.len() {
        assert(p[first_at(p, c)] == c);
    }
    let s = p.push(c) + rest;
    let n = p.len() as int;
    lemma_first_at(s, c);
    let i = first_at(s, c);
    assert(s[n] == c);
    assert(i == n) by {
        if i < n {
            assert(s[i] == p[i]);
        }
    }
    assert(s.subrange(0, n) =~= p);
    assert(after(s, n + 1) =~= rest);
}

/// Parts are put together with the separator between them, and none around them.
pub proof fn parts_are_put_together(parts: Seq<Seq<char>>, p: Seq<char>, sep: Seq<char>)
    ensures
        join_spec(Seq::empty(), sep) == Seq::<char>::empty(),
        join_spec(seq![p], sep) == p,
        parts.len() > 0 ==> join_spec(parts.push(p), sep) == join_spec(parts, sep) + sep + p,
{
    assert(parts.push(p).drop_last() =~= parts);
}

/// A number is written with the digits from `0` to `9`, the last one for the ones.
pub proof fn numbers_are_decimal(n: nat, d: nat)
    requires
        d < 10,
    ensures
        ({
            let digits = seq!['0', '1', '2', '3', '4', '5', '6', '7', '8', '9'];
            &&& decimal(d) == seq![digits[d as int]]
            &&& n > 0 ==> decimal(10 * n + d) == decimal(n).push(digits[d as int])
        }),
{
    if n > 0 {
        assert((10 * n + d) / 10 == n && (10 * n + d) % 10 == d);
    }
}

/// `HEAD` names the commit whose hash stands in the reference that it names, or in itself, with
/// or without a line feed behind; a reference that is not there names none.
pub proof fn head_names_a_commit(r: Refs, name: Seq<char>, id: Seq<u8>)
    requires
        id.len() == 32,
        name.len() > 0,
        !name.contains('/'),
        name != seq!['.'],
        r.head is Some,
    ensures
        head_symbol(r.head->Some_0) == Some(place_of(name)) && r.refs.contains_key(place_of(name))
            && r.refs[place_of(name)] == hex_text(id).push('\n') ==> head_commit(r) == Ok::<
            Seq<u8>,
            HeadFault,
        >(id),
        head_symbol(r.head->Some_0) == Some(place_of(name)) && !r.refs.contains_key(place_of(name))
            ==> head_commit(r) is Err,
        r.head->Some_0 == hex_text(id).push('\n') && head_symbol(r.head->Some_0) is None
            ==> head_commit(r) == Ok::<Seq<u8>, HeadFault>(id),
        head_commit(Refs { head: None, ..r }) is Err,
{
    lemma_place(name);
    lemma_hash_line_reads_back(id);
    reveal_strlit("\n");
    assert(hex_text(id) + "\n"@ =~= hex_text(id).push('\n'));
}

} // verus!
