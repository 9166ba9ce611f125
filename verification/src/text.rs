//! Text as sequences of characters: comparison, trimming, lines, prefixes and
//! decimal numbers.
use vstd::prelude::*;
use vstd::string::*;
use vstd::utf8::*;

verus! {

/// `String::push` appends the character at the end of the string.
pub assume_specification[ String::push ](s: &mut String, c: char)
    ensures
        final(s)@ == old(s)@.push(c),
;

/// The characters of `s`.
pub fn to_chars(s: &str) -> (r: Vec<char>)
    ensures
        r@ == s@,
{
    let mut r: Vec<char> = Vec::new();
    for c in it: s.chars()
        invariant
            it.seq() == s@,
            r@ == s@.subrange(0, it.index() as int),
    {
        r.push(c);
        assert(s@.subrange(0, it.index() + 1) =~= s@.subrange(0, it.index() as int).push(c));
    }
    assert(r@ =~= s@);
    r
}

/// The string of the characters `v[from..to]`.
pub fn from_chars(v: &[char], from: usize, to: usize) -> (r: String)
    requires
        from <= to <= v.len(),
    ensures
        r@ == v@.subrange(from as int, to as int),
{
    let mut r: String = String::new();
    let mut i: usize = from;
    while i < to
        invariant
            from <= i <= to <= v.len(),
            r@ == v@.subrange(from as int, i as int),
        decreases to - i,
    {
        r.push(v[i]);
        i += 1;
        assert(v@.subrange(from as int, i as int) =~= v@.subrange(from as int, i - 1).push(
            v@[i - 1],
        ));
    }
    r
}

/// Whether two strings hold the same characters.
pub fn str_eq(a: &str, b: &str) -> (r: bool)
    ensures
        r == (a@ == b@),
{
    let x = to_chars(a);
    let y = to_chars(b);
    chars_eq(&x, &y)
}

/// Whether two runs of characters are equal.
pub fn chars_eq(a: &[char], b: &[char]) -> (r: bool)
    ensures
        r == (a@ == b@),
{
    if a.len() != b.len() {
        return false;
    }
    let mut i: usize = 0;
    while i < a.len()
        invariant
            i <= a.len(),
            a.len() == b.len(),
            forall|j: int| 0 <= j < i ==> a@[j] == b@[j],
        decreases a.len() - i,
    {
        if a[i] != b[i] {
            return false;
        }
        i += 1;
    }
    assert(a@ =~= b@);
    true
}

/// Whether `s` starts with `p`.
pub open spec fn has_prefix(s: Seq<char>, p: Seq<char>) -> bool {
    p.len() <= s.len() && s.subrange(0, p.len() as int) == p
}

/// Whether `s` ends with `p`.
pub open spec fn has_suffix(s: Seq<char>, p: Seq<char>) -> bool {
    p.len() <= s.len() && s.subrange(s.len() - p.len(), s.len() as int) == p
}

/// Whether `p` occurs in `s`.
pub open spec fn has_infix(s: Seq<char>, p: Seq<char>) -> bool {
    exists|i: int| 0 <= i <= s.len() - p.len() && #[trigger] s.subrange(i, i + p.len()) == p
}

/// What follows the first `n` characters of `s`.
pub open spec fn after(s: Seq<char>, n: int) -> Seq<char> {
    s.subrange(n, s.len() as int)
}

/// The characters of Unicode's White_Space property.
pub open spec fn is_space(c: char) -> bool {
    let u = c as u32;
    ||| 0x9 <= u <= 0xd
    ||| u == 0x20
    ||| u == 0x85
    ||| u == 0xa0
    ||| u == 0x1680
    ||| 0x2000 <= u <= 0x200a
    ||| u == 0x2028
    ||| u == 0x2029
    ||| u == 0x202f
    ||| u == 0x205f
    ||| u == 0x3000
}

/// `s` without the white space that it starts with.
pub open spec fn trim_start_spec(s: Seq<char>) -> Seq<char>
    decreases s.len(),
{
    if s.len() > 0 && is_space(s[0]) {
        trim_start_spec(after(s, 1))
    } else {
        s
    }
}

/// `s` without the white space that it ends with.
pub open spec fn trim_end_spec(s: Seq<char>) -> Seq<char>
    decreases s.len(),
{
    if s.len() > 0 && is_space(s.last()) {
        trim_end_spec(s.drop_last())
    } else {
        s
    }
}

/// `s` without the white space at either end.
pub open spec fn trim_spec(s: Seq<char>) -> Seq<char> {
    trim_end_spec(trim_start_spec(s))
}

/// The place of the first `c` in `s`, or the length of `s`.
pub open spec fn first_at(s: Seq<char>, c: char) -> int
    decreases s.len(),
{
    if s.len() == 0 || s[0] == c {
        0
    } else {
        1 + first_at(after(s, 1), c)
    }
}

/// A line without the carriage return that its line ending may start with.
pub open spec fn without_cr(s: Seq<char>) -> Seq<char> {
    if s.len() > 0 && s.last() == '\r' {
        s.drop_last()
    } else {
        s
    }
}

pub proof fn lemma_first_at(s: Seq<char>, c: char)
    ensures
        0 <= first_at(s, c) <= s.len(),
        forall|j: int| 0 <= j < first_at(s, c) ==> s[j] != c,
        first_at(s, c) < s.len() ==> s[first_at(s, c)] == c,
    decreases s.len(),
{
    if s.len() > 0 && s[0] != c {
        let t = after(s, 1);
        lemma_first_at(t, c);
        assert forall|j: int| 0 <= j < first_at(s, c) implies s[j] != c by {
            if j > 0 {
                assert(t[j - 1] == s[j]);
            }
        }
    }
}

/// The lines of `s`: what stands between line endings, a line feed or a
/// carriage return and a line feed. The last line ending is optional.
pub open spec fn lines_spec(s: Seq<char>) -> Seq<Seq<char>>
    decreases s.len(),
{
    let i = first_at(s, '\n');
    if s.len() == 0 {
        Seq::empty()
    } else if i < 0 || i >= s.len() {
        seq![s]
    } else {
        seq![without_cr(s.subrange(0, i))] + lines_spec(after(s, i + 1))
    }
}

/// The parts of `s` between the occurrences of `c`.
pub open spec fn split_spec(s: Seq<char>, c: char) -> Seq<Seq<char>>
    decreases s.len(),
{
    let i = first_at(s, c);
    if i < 0 || i >= s.len() {
        seq![s]
    } else {
        seq![s.subrange(0, i)] + split_spec(after(s, i + 1), c)
    }
}

/// The parts, one after the other, with `sep` between them.
pub open spec fn join_spec(parts: Seq<Seq<char>>, sep: Seq<char>) -> Seq<char>
    decreases parts.len(),
{
    if parts.len() == 0 {
        Seq::empty()
    } else if parts.len() == 1 {
        parts[0]
    } else {
        join_spec(parts.drop_last(), sep) + sep + parts.last()
    }
}

/// The character of a digit below ten.
pub open spec fn digit(d: nat) -> char {
    (48 + d) as char
}

/// `n` in decimal.
pub open spec fn decimal(n: nat) -> Seq<char>
    decreases n,
{
    if n < 10 {
        seq![digit(n)]
    } else {
        decimal(n / 10).push(digit(n % 10))
    }
}

/// The contents of the strings.
pub open spec fn texts(v: Seq<String>) -> Seq<Seq<char>> {
    Seq::new(v.len(), |i: int| v[i]@)
}

/// The characters of a text, if there is one.
pub open spec fn text_of(s: Option<String>) -> Option<Seq<char>> {
    match s {
        Some(t) => Some(t@),
        None => None,
    }
}

/// Appends a line.
pub fn push_line(lines: &mut Vec<String>, line: String)
    ensures
        texts(final(lines)@) == texts(old(lines)@).push(line@),
{
    let ghost before = texts(lines@);
    lines.push(line);
    assert(texts(lines@) =~= before.push(line@));
}

/// Whether `c` is white space.
pub fn is_space_char(c: char) -> (r: bool)
    ensures
        r == is_space(c),
{
    let u: u32 = c as u32;
    (0x9 <= u && u <= 0xd) || u == 0x20 || u == 0x85 || u == 0xa0 || u == 0x1680 || (0x2000 <= u
        && u <= 0x200a) || u == 0x2028 || u == 0x2029 || u == 0x202f || u == 0x205f || u == 0x3000
}

/// Whether `v` starts with the characters of `p`.
pub fn chars_start_with(v: &[char], p: &[char]) -> (r: bool)
    ensures
        r == has_prefix(v@, p@),
{
    if p.len() > v.len() {
        return false;
    }
    chars_at(v, 0, p)
}

/// Whether `v` holds the characters of `p` from `at` on.
pub fn chars_at(v: &[char], at: usize, p: &[char]) -> (r: bool)
    requires
        at + p.len() <= v.len(),
    ensures
        r == (v@.subrange(at as int, at + p.len()) == p@),
{
    let mut i: usize = 0;
    while i < p.len()
        invariant
            i <= p.len(),
            at + p.len() <= v.len(),
            forall|j: int| 0 <= j < i ==> v@[at + j] == p@[j],
        decreases p.len() - i,
    {
        if v[at + i] != p[i] {
            assert(v@.subrange(at as int, at + p.len())[i as int] == v@[at + i]);
            return false;
        }
        i += 1;
    }
    assert(v@.subrange(at as int, at + p.len()) =~= p@);
    true
}

/// Whether `s` starts with `p`.
pub fn starts_with(s: &str, p: &str) -> (r: bool)
    ensures
        r == has_prefix(s@, p@),
{
    let v = to_chars(s);
    let q = to_chars(p);
    chars_start_with(&v, &q)
}

/// Whether `s` ends with `p`.
pub fn ends_with(s: &str, p: &str) -> (r: bool)
    ensures
        r == has_suffix(s@, p@),
{
    let v = to_chars(s);
    let q = to_chars(p);
    if q.len() > v.len() {
        return false;
    }
    chars_at(&v, v.len() - q.len(), &q)
}

/// Whether `p` occurs in `s`.
pub fn contains(s: &str, p: &str) -> (r: bool)
    ensures
        r == has_infix(s@, p@),
{
    let v = to_chars(s);
    let q = to_chars(p);
    if q.len() > v.len() {
        return false;
    }
    let last: usize = v.len() - q.len();
    let mut i: usize = 0;
    loop
        invariant
            v@ == s@,
            q@ == p@,
            i <= last,
            last == v.len() - q.len(),
            forall|j: int| 0 <= j < i ==> #[trigger] v@.subrange(j, j + q.len()) != q@,
        decreases last - i,
    {
        if chars_at(&v, i, &q) {
            return true;
        }
        if i == last {
            return false;
        }
        i += 1;
    }
}

/// What follows `p` in `s`, where `s` starts with `p`.
pub fn strip_prefix(s: &str, p: &str) -> (r: Option<String>)
    ensures
        r is Some <==> has_prefix(s@, p@),
        r matches Some(t) ==> t@ == after(s@, p@.len() as int),
{
    let v = to_chars(s);
    let q = to_chars(p);
    if chars_start_with(&v, &q) {
        Some(from_chars(&v, q.len(), v.len()))
    } else {
        None
    }
}

/// `s` without the white space at either end.
pub fn trim(s: &str) -> (r: String)
    ensures
        r@ == trim_spec(s@),
{
    let v = to_chars(s);
    let mut from: usize = 0;
    assert(after(s@, 0) =~= s@);
    while from < v.len() && is_space_char(v[from])
        invariant
            v@ == s@,
            from <= v.len(),
            trim_start_spec(after(s@, from as int)) == trim_start_spec(s@),
        decreases v.len() - from,
    {
        assert(after(after(s@, from as int), 1) =~= after(s@, from + 1));
        from += 1;
    }
    let ghost t = after(s@, from as int);
    assert(trim_start_spec(s@) == t);
    let mut to: usize = v.len();
    assert(v@.subrange(from as int, to as int) =~= t);
    while to > from && is_space_char(v[to - 1])
        invariant
            v@ == s@,
            from <= to <= v.len(),
            trim_end_spec(v@.subrange(from as int, to as int)) == trim_end_spec(t),
        decreases to,
    {
        let ghost u = v@.subrange(from as int, to as int);
        assert(u.last() == v@[to - 1]);
        assert(u.drop_last() =~= v@.subrange(from as int, to - 1));
        to -= 1;
    }
    proof {
        let u = v@.subrange(from as int, to as int);
        if to > from {
            assert(u.last() == v@[to - 1]);
        }
        assert(trim_end_spec(u) == u);
    }
    from_chars(&v, from, to)
}

/// The place of the first `c` in `v` from `at` on, or the length of `v`.
pub fn find_from(v: &[char], at: usize, c: char) -> (r: usize)
    requires
        at <= v.len(),
    ensures
        at <= r <= v.len(),
        r == at + first_at(after(v@, at as int), c),
{
    let mut i: usize = at;
    while i < v.len() && v[i] != c
        invariant
            at <= i <= v.len(),
            at + first_at(after(v@, at as int), c) == i + first_at(after(v@, i as int), c),
        decreases v.len() - i,
    {
        assert(after(after(v@, i as int), 1) =~= after(v@, i + 1));
        i += 1;
    }
    i
}

/// The parts of `s` between the occurrences of `c`.
pub fn split(s: &str, c: char) -> (r: Vec<String>)
    ensures
        texts(r@) == split_spec(s@, c),
{
    let v = to_chars(s);
    let mut r: Vec<String> = Vec::new();
    let mut at: usize = 0;
    assert(after(s@, 0) =~= s@);
    assert(texts(r@) + split_spec(after(s@, 0), c) =~= split_spec(s@, c));
    loop
        invariant
            v@ == s@,
            at <= v.len(),
            texts(r@) + split_spec(after(s@, at as int), c) == split_spec(s@, c),
        decreases v.len() - at,
    {
        let ghost rest = after(s@, at as int);
        let i: usize = find_from(&v, at, c);
        let part = from_chars(&v, at, i);
        let ghost before = r@;
        assert(part@ =~= rest.subrange(0, i - at));
        r.push(part);
        assert(texts(r@) =~= texts(before).push(part@));
        if i >= v.len() {
            proof {
                lemma_first_at(rest, c);
                assert(rest.subrange(0, i - at) =~= rest);
                assert(texts(r@) =~= texts(before) + seq![rest]);
            }
            return r;
        }
        proof {
            lemma_first_at(rest, c);
            assert(after(rest, i - at + 1) =~= after(s@, i + 1));
            assert(texts(r@) + split_spec(after(s@, i + 1), c) =~= texts(before) + (seq![part@]
                + split_spec(after(s@, i + 1), c)));
        }
        at = i + 1;
    }
}

/// The lines of `s`.
pub fn lines(s: &str) -> (r: Vec<String>)
    ensures
        texts(r@) == lines_spec(s@),
{
    let v = to_chars(s);
    let mut r: Vec<String> = Vec::new();
    let mut at: usize = 0;
    assert(after(s@, 0) =~= s@);
    assert(texts(r@) + lines_spec(after(s@, 0)) =~= lines_spec(s@));
    while at < v.len()
        invariant
            v@ == s@,
            at <= v.len(),
            texts(r@) + lines_spec(after(s@, at as int)) == lines_spec(s@),
        decreases v.len() - at,
    {
        let ghost rest = after(s@, at as int);
        let i: usize = find_from(&v, at, '\n');
        let ghost before = r@;
        proof {
            lemma_first_at(rest, '\n');
        }
        if i >= v.len() {
            let part = from_chars(&v, at, v.len());
            r.push(part);
            assert(part@ =~= rest);
            assert(after(s@, v.len() as int) =~= Seq::empty());
            assert(texts(r@) + lines_spec(after(s@, v.len() as int)) =~= texts(before) + seq![rest]);
            at = v.len();
        } else {
            let ghost line = rest.subrange(0, i - at);
            let cr: bool = i > at && v[i - 1] == '\r';
            let end: usize = if cr { i - 1 } else { i };
            let part = from_chars(&v, at, end);
            proof {
                if i > at {
                    assert(line.last() == v@[i - 1]);
                }
                assert(part@ =~= without_cr(line));
            }
            r.push(part);
            proof {
                assert(after(rest, i - at + 1) =~= after(s@, i + 1));
                assert(texts(r@) + lines_spec(after(s@, i + 1)) =~= texts(before) + (seq![part@]
                    + lines_spec(after(s@, i + 1))));
            }
            at = i + 1;
        }
    }
    assert(texts(r@) + lines_spec(after(s@, at as int)) =~= texts(r@));
    r
}

/// The parts, one after the other, with `sep` between them.
pub fn join(parts: &[String], sep: &str) -> (r: String)
    ensures
        r@ == join_spec(texts(parts@), sep@),
{
    let mut r: String = String::new();
    let mut i: usize = 0;
    while i < parts.len()
        invariant
            i <= parts.len(),
            r@ == join_spec(texts(parts@).subrange(0, i as int), sep@),
        decreases parts.len() - i,
    {
        if i > 0 {
            r.append(sep);
        }
        r.append(parts[i].as_str());
        i += 1;
        proof {
            let t = texts(parts@).subrange(0, i as int);
            assert(t.drop_last() =~= texts(parts@).subrange(0, i - 1));
            assert(t.last() == parts@[i - 1]@);
            if i == 1 {
                assert(Seq::<char>::empty() + parts@[0]@ =~= parts@[0]@);
            }
        }
    }
    assert(texts(parts@).subrange(0, i as int) =~= texts(parts@));
    r
}

/// Appends `n` in decimal.
fn push_decimal(s: &mut String, n: u128)
    ensures
        final(s)@ == old(s)@ + decimal(n as nat),
    decreases n,
{
    let ghost before = s@;
    if n >= 10 {
        push_decimal(s, n / 10);
        s.push((48 + (n % 10) as u8) as char);
        assert(s@ =~= before + decimal(n as nat / 10).push(digit(n as nat % 10)));
    } else {
        s.push((48 + n as u8) as char);
        assert(s@ =~= before + seq![digit(n as nat)]);
    }
}

/// `n` in decimal.
pub fn decimal_of(n: u64) -> (r: String)
    ensures
        r@ == decimal(n as nat),
{
    decimal_of_wide(n as u128)
}

/// `n`, which may be a sum of many counts, in decimal.
pub fn decimal_of_wide(n: u128) -> (r: String)
    ensures
        r@ == decimal(n as nat),
{
    let mut r: String = String::new();
    push_decimal(&mut r, n);
    assert(Seq::<char>::empty() + decimal(n as nat) =~= decimal(n as nat));
    r
}

/// `c`, `n` times.
pub open spec fn repeated(c: char, n: nat) -> Seq<char> {
    Seq::new(n, |i: int| c)
}

/// `c`, `n` times.
pub fn repeat(c: char, n: usize) -> (r: String)
    ensures
        r@ == repeated(c, n as nat),
{
    let mut r: String = String::new();
    let mut i: usize = 0;
    assert(r@ =~= repeated(c, 0));
    while i < n
        invariant
            i <= n,
            r@ == repeated(c, i as nat),
        decreases n - i,
    {
        r.push(c);
        i += 1;
        assert(r@ =~= repeated(c, i as nat));
    }
    r
}

/// `s`, filled with spaces behind it to `width` characters.
pub open spec fn padded_right(s: Seq<char>, width: nat) -> Seq<char> {
    if s.len() < width {
        s + repeated(' ', (width - s.len()) as nat)
    } else {
        s
    }
}

/// `s`, filled with spaces before it to `width` characters.
pub open spec fn padded_left(s: Seq<char>, width: nat) -> Seq<char> {
    if s.len() < width {
        repeated(' ', (width - s.len()) as nat) + s
    } else {
        s
    }
}

/// `s`, filled with spaces behind it to `width` characters.
pub fn pad_right(s: &str, width: usize) -> (r: String)
    ensures
        r@ == padded_right(s@, width as nat),
{
    let n: usize = to_chars(s).len();
    if n < width {
        concat(s, repeat(' ', width - n).as_str())
    } else {
        s.to_owned()
    }
}

/// `s`, filled with spaces before it to `width` characters.
pub fn pad_left(s: &str, width: usize) -> (r: String)
    ensures
        r@ == padded_left(s@, width as nat),
{
    let n: usize = to_chars(s).len();
    if n < width {
        concat(repeat(' ', width - n).as_str(), s)
    } else {
        s.to_owned()
    }
}

/// `a` and then `b`.
pub fn concat(a: &str, b: &str) -> (r: String)
    ensures
        r@ == a@ + b@,
{
    let mut r: String = a.to_owned();
    r.append(b);
    r
}

/// `a`, `b` and `c`, one after the other.
pub fn concat3(a: &str, b: &str, c: &str) -> (r: String)
    ensures
        r@ == a@ + b@ + c@,
{
    let mut r: String = a.to_owned();
    r.append(b);
    r.append(c);
    r
}

/// The bytes of two texts one after the other.
pub proof fn lemma_encode_concat(a: Seq<char>, b: Seq<char>)
    ensures
        encode_utf8(a + b) == encode_utf8(a) + encode_utf8(b),
    decreases a.len(),
{
    if a.len() == 0 {
        assert(a + b =~= b);
        assert(encode_utf8(a) + encode_utf8(b) =~= encode_utf8(b));
    } else {
        let t = a.drop_first();
        lemma_encode_concat(t, b);
        assert((a + b).drop_first() =~= t + b);
        assert((a + b)[0] == a[0]);
        assert(encode_utf8(a + b) =~= encode_utf8(a) + encode_utf8(b));
    }
}

/// Whether `x` is one of the texts.
pub fn has_text(v: &Vec<String>, x: &str) -> (r: bool)
    ensures
        r == texts(v@).contains(x@),
{
    let mut i: usize = 0;
    while i < v.len()
        invariant
            i <= v.len(),
            forall|j: int| 0 <= j < i ==> (#[trigger] v@[j])@ != x@,
        decreases v.len() - i,
    {
        if str_eq(v[i].as_str(), x) {
            assert(texts(v@)[i as int] == x@);
            return true;
        }
        i += 1;
    }
    proof {
        if texts(v@).contains(x@) {
            let j = choose|j: int| 0 <= j < texts(v@).len() && texts(v@)[j] == x@;
            assert(v@[j]@ == x@);
        }
    }
    false
}

/// A text that starts and ends with other characters than white space is not
/// changed by trimming, and white space around it is taken away.
pub proof fn lemma_trim_around(s: Seq<char>, lead: Seq<char>, trail: Seq<char>)
    requires
        s.len() > 0,
        !is_space(s[0]),
        !is_space(s.last()),
        forall|i: int| 0 <= i < lead.len() ==> is_space(#[trigger] lead[i]),
        forall|i: int| 0 <= i < trail.len() ==> is_space(#[trigger] trail[i]),
    ensures
        trim_spec(lead + s + trail) == s,
    decreases lead.len() + trail.len(),
{
    let w = lead + s + trail;
    if lead.len() > 0 {
        let l = after(lead, 1);
        assert forall|i: int| 0 <= i < l.len() implies is_space(#[trigger] l[i]) by {
            assert(l[i] == lead[i + 1]);
        }
        assert(is_space(lead[0]));
        assert(w[0] == lead[0]);
        assert(after(w, 1) =~= l + s + trail);
        lemma_trim_around(s, l, trail);
    } else if trail.len() > 0 {
        let t = trail.drop_last();
        assert forall|i: int| 0 <= i < t.len() implies is_space(#[trigger] t[i]) by {
            assert(t[i] == trail[i]);
        }
        assert(w[0] == s[0]);
        assert(w.last() == trail.last());
        assert(is_space(trail[trail.len() - 1]));
        assert(w.drop_last() =~= lead + s + t);
        lemma_trim_around(s, lead, t);
        assert((lead + s + t)[0] == s[0]);
    } else {
        assert(w =~= s);
    }
}

} // verus!
