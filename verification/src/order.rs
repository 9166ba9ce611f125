//! Lexicographic order and sorting.
use vstd::prelude::*;

use crate::text::to_chars;

verus! {

/// Whether `a` comes before `b` in lexicographic order.
pub open spec fn lex_less(a: Seq<int>, b: Seq<int>) -> bool
    decreases a.len(),
{
    if b.len() == 0 {
        false
    } else if a.len() == 0 {
        true
    } else if a[0] != b[0] {
        a[0] < b[0]
    } else {
        lex_less(a.subrange(1, a.len() as int), b.subrange(1, b.len() as int))
    }
}

/// The code points of `s`: strings are ordered by these.
pub open spec fn codes(s: Seq<char>) -> Seq<int> {
    Seq::new(s.len(), |i: int| s[i] as u32 as int)
}

/// The code points of a path, with the separator below every other character.
/// Paths are ordered component by component: `a/b` comes before `a-b`.
pub open spec fn path_codes(s: Seq<char>) -> Seq<int> {
    Seq::new(
        s.len(),
        |i: int|
            if s[i] == '/' {
                0int
            } else {
                s[i] as u32 as int + 1
            },
    )
}

pub proof fn lemma_lex_irreflexive(a: Seq<int>)
    ensures
        !lex_less(a, a),
    decreases a.len(),
{
    if a.len() > 0 {
        lemma_lex_irreflexive(a.subrange(1, a.len() as int));
    }
}

pub proof fn lemma_lex_transitive(a: Seq<int>, b: Seq<int>, c: Seq<int>)
    requires
        lex_less(a, b),
        lex_less(b, c),
    ensures
        lex_less(a, c),
    decreases a.len(),
{
    if a.len() > 0 && b.len() > 0 && c.len() > 0 && a[0] == b[0] && b[0] == c[0] {
        lemma_lex_transitive(
            a.subrange(1, a.len() as int),
            b.subrange(1, b.len() as int),
            c.subrange(1, c.len() as int),
        );
    }
}

pub proof fn lemma_lex_total(a: Seq<int>, b: Seq<int>)
    ensures
        lex_less(a, b) || a == b || lex_less(b, a),
    decreases a.len(),
{
    if a.len() == 0 || b.len() == 0 {
        if a.len() == 0 && b.len() == 0 {
            assert(a =~= b);
        }
    } else if a[0] == b[0] {
        let x = a.subrange(1, a.len() as int);
        let y = b.subrange(1, b.len() as int);
        lemma_lex_total(x, y);
        if x == y {
            assert(a =~= seq![a[0]] + x);
            assert(b =~= seq![b[0]] + y);
        }
    }
}

/// Two strings with the same code points are equal.
pub proof fn lemma_codes_injective(a: Seq<char>, b: Seq<char>)
    ensures
        codes(a) == codes(b) ==> a == b,
        path_codes(a) == path_codes(b) ==> a == b,
{
    if codes(a) == codes(b) {
        assert(codes(a).len() == codes(b).len());
        assert forall|i: int| 0 <= i < a.len() implies a[i] == b[i] by {
            assert(codes(a)[i] == codes(b)[i]);
            vstd::utf8::char_u32_cast(a[i], a[i] as u32);
            vstd::utf8::char_u32_cast(b[i], b[i] as u32);
        }
        assert(a =~= b);
    }
    if path_codes(a) == path_codes(b) {
        assert(path_codes(a).len() == path_codes(b).len());
        assert forall|i: int| 0 <= i < a.len() implies a[i] == b[i] by {
            assert(path_codes(a)[i] == path_codes(b)[i]);
            vstd::utf8::char_u32_cast(a[i], a[i] as u32);
            vstd::utf8::char_u32_cast(b[i], b[i] as u32);
        }
        assert(a =~= b);
    }
}

/// Whether `a` comes before `b` as strings.
pub fn text_less(a: &str, b: &str) -> (r: bool)
    ensures
        r == lex_less(codes(a@), codes(b@)),
{
    let x = to_chars(a);
    let y = to_chars(b);
    let mut i: usize = 0;
    proof {
        assert(codes(a@).subrange(0, codes(a@).len() as int) =~= codes(a@));
        assert(codes(b@).subrange(0, codes(b@).len() as int) =~= codes(b@));
    }
    loop
        invariant
            x@ == a@,
            y@ == b@,
            i <= x.len(),
            i <= y.len(),
            lex_less(codes(a@), codes(b@)) == lex_less(
                codes(a@).subrange(i as int, codes(a@).len() as int),
                codes(b@).subrange(i as int, codes(b@).len() as int),
            ),
        decreases x.len() - i,
    {
        if i >= y.len() {
            return false;
        }
        if i >= x.len() {
            return true;
        }
        let c: u32 = x[i] as u32;
        let d: u32 = y[i] as u32;
        let ghost p = codes(a@).subrange(i as int, codes(a@).len() as int);
        let ghost q = codes(b@).subrange(i as int, codes(b@).len() as int);
        assert(p[0] == c && q[0] == d);
        if c != d {
            return c < d;
        }
        proof {
            assert(p.subrange(1, p.len() as int) =~= codes(a@).subrange(
                i + 1,
                codes(a@).len() as int,
            ));
            assert(q.subrange(1, q.len() as int) =~= codes(b@).subrange(
                i + 1,
                codes(b@).len() as int,
            ));
        }
        i += 1;
    }
}

/// The place of a character in the order of paths.
fn path_rank(c: char) -> (r: u32)
    ensures
        r as int == if c == '/' {
            0int
        } else {
            c as u32 as int + 1
        },
{
    if c == '/' {
        0
    } else {
        assert(c as u32 <= 0x10ffff);
        c as u32 + 1
    }
}

/// Whether `a` comes before `b` as paths.
pub fn path_less(a: &str, b: &str) -> (r: bool)
    ensures
        r == lex_less(path_codes(a@), path_codes(b@)),
{
    let x = to_chars(a);
    let y = to_chars(b);
    let mut i: usize = 0;
    let ghost ka = path_codes(a@);
    let ghost kb = path_codes(b@);
    proof {
        assert(ka.subrange(0, ka.len() as int) =~= ka);
        assert(kb.subrange(0, kb.len() as int) =~= kb);
    }
    loop
        invariant
            x@ == a@,
            y@ == b@,
            ka == path_codes(a@),
            kb == path_codes(b@),
            i <= x.len(),
            i <= y.len(),
            lex_less(ka, kb) == lex_less(
                ka.subrange(i as int, ka.len() as int),
                kb.subrange(i as int, kb.len() as int),
            ),
        decreases x.len() - i,
    {
        if i >= y.len() {
            return false;
        }
        if i >= x.len() {
            return true;
        }
        let c: u32 = path_rank(x[i]);
        let d: u32 = path_rank(y[i]);
        let ghost p = ka.subrange(i as int, ka.len() as int);
        let ghost q = kb.subrange(i as int, kb.len() as int);
        assert(p[0] == c && q[0] == d);
        if c != d {
            return c < d;
        }
        proof {
            assert(p.subrange(1, p.len() as int) =~= ka.subrange(i + 1, ka.len() as int));
            assert(q.subrange(1, q.len() as int) =~= kb.subrange(i + 1, kb.len() as int));
        }
        i += 1;
    }
}

/// A way to rank values of type `T`: by a key, in lexicographic order.
pub trait Ranking<T> {
    spec fn key(t: T) -> Seq<int>;
}

/// A ranking whose order can be computed.
pub trait Compares<T>: Ranking<T> {
    fn before(a: &T, b: &T) -> (r: bool)
        ensures
            r == lex_less(Self::key(*a), Self::key(*b)),
    ;
}

/// How many leading elements of `s` do not come after the key `k`.
pub open spec fn place<R: Ranking<T>, T>(s: Seq<T>, k: Seq<int>) -> int
    decreases s.len(),
{
    if s.len() == 0 || lex_less(k, R::key(s[0])) {
        0
    } else {
        1 + place::<R, T>(s.subrange(1, s.len() as int), k)
    }
}

/// `s` in the order of its keys; equal keys keep the order that they have in
/// `s`.
pub open spec fn sorted<R: Ranking<T>, T>(s: Seq<T>) -> Seq<T>
    decreases s.len(),
{
    if s.len() == 0 {
        s
    } else {
        let t = sorted::<R, T>(s.drop_last());
        t.insert(place::<R, T>(t, R::key(s.last())), s.last())
    }
}

/// No element comes before one that stands to its left.
pub open spec fn in_order<R: Ranking<T>, T>(s: Seq<T>) -> bool {
    forall|i: int, j: int|
        0 <= i < j < s.len() ==> !lex_less(#[trigger] R::key(s[j]), #[trigger] R::key(s[i]))
}

/// No two elements have one key.
pub open spec fn distinct_keys<R: Ranking<T>, T>(s: Seq<T>) -> bool {
    forall|i: int, j: int|
        0 <= i < j < s.len() ==> #[trigger] R::key(s[j]) != #[trigger] R::key(s[i])
}

pub proof fn lemma_place<R: Ranking<T>, T>(s: Seq<T>, k: Seq<int>)
    requires
        in_order::<R, T>(s),
    ensures
        0 <= place::<R, T>(s, k) <= s.len(),
        forall|i: int| 0 <= i < place::<R, T>(s, k) ==> !lex_less(k, #[trigger] R::key(s[i])),
        forall|i: int|
            place::<R, T>(s, k) <= i < s.len() ==> lex_less(k, #[trigger] R::key(s[i])),
    decreases s.len(),
{
    if s.len() == 0 {
    } else if lex_less(k, R::key(s[0])) {
        assert forall|i: int| 0 <= i < s.len() implies lex_less(k, #[trigger] R::key(s[i])) by {
            if i > 0 {
                assert(!lex_less(R::key(s[i]), R::key(s[0])));
                lemma_lex_total(R::key(s[i]), R::key(s[0]));
                if R::key(s[i]) != R::key(s[0]) {
                    lemma_lex_transitive(k, R::key(s[0]), R::key(s[i]));
                }
            }
        }
    } else {
        let t = s.subrange(1, s.len() as int);
        assert forall|i: int, j: int| 0 <= i < j < t.len() implies !lex_less(
            #[trigger] R::key(t[j]),
            #[trigger] R::key(t[i]),
        ) by {
            assert(t[j] == s[j + 1] && t[i] == s[i + 1]);
        }
        lemma_place::<R, T>(t, k);
        assert forall|i: int| 0 <= i < place::<R, T>(s, k) implies !lex_less(
            k,
            #[trigger] R::key(s[i]),
        ) by {
            if i > 0 {
                assert(t[i - 1] == s[i]);
            }
        }
        assert forall|i: int| place::<R, T>(s, k) <= i < s.len() implies lex_less(
            k,
            #[trigger] R::key(s[i]),
        ) by {
            assert(t[i - 1] == s[i]);
        }
    }
}

/// What `sorted` gives stands in order.
pub proof fn lemma_sorted_in_order<R: Ranking<T>, T>(s: Seq<T>)
    ensures
        in_order::<R, T>(sorted::<R, T>(s)),
        sorted::<R, T>(s).len() == s.len(),
    decreases s.len(),
{
    if s.len() > 0 {
        let t = sorted::<R, T>(s.drop_last());
        lemma_sorted_in_order::<R, T>(s.drop_last());
        let k = R::key(s.last());
        lemma_place::<R, T>(t, k);
        let p = place::<R, T>(t, k);
        let u = t.insert(p, s.last());
        assert forall|i: int, j: int| 0 <= i < j < u.len() implies !lex_less(
            #[trigger] R::key(u[j]),
            #[trigger] R::key(u[i]),
        ) by {
            let ti = if i < p { i } else { i - 1 };
            let tj = if j < p { j } else { j - 1 };
            if i == p {
                assert(u[j] == t[tj]);
                if lex_less(R::key(u[j]), k) {
                    lemma_lex_transitive(k, R::key(t[tj]), k);
                    lemma_lex_irreflexive(k);
                }
            } else if j == p {
                assert(u[i] == t[ti]);
            } else {
                assert(u[i] == t[ti] && u[j] == t[tj]);
            }
        }
    }
}

/// `sorted` keeps the elements.
pub proof fn lemma_sorted_permutation<R: Ranking<T>, T>(s: Seq<T>)
    ensures
        sorted::<R, T>(s).to_multiset() == s.to_multiset(),
    decreases s.len(),
{
    broadcast use vstd::seq_lib::group_to_multiset_ensures;

    if s.len() > 0 {
        let t = sorted::<R, T>(s.drop_last());
        lemma_sorted_permutation::<R, T>(s.drop_last());
        lemma_sorted_in_order::<R, T>(s.drop_last());
        let p = place::<R, T>(t, R::key(s.last()));
        lemma_place::<R, T>(t, R::key(s.last()));
        vstd::seq_lib::to_multiset_insert(t, p, s.last());
        assert(s =~= s.drop_last().push(s.last()));
    }
}

/// Two sequences of the same elements that stand in order are equal, where no
/// two elements have one key.
pub proof fn lemma_order_unique<R: Ranking<T>, T>(a: Seq<T>, b: Seq<T>)
    requires
        in_order::<R, T>(a),
        in_order::<R, T>(b),
        distinct_keys::<R, T>(a),
        a.to_multiset() == b.to_multiset(),
    ensures
        a == b,
    decreases a.len(),
{
    broadcast use vstd::seq_lib::group_to_multiset_ensures;

    assert(a.len() == a.to_multiset().len());
    assert(b.len() == b.to_multiset().len());
    if a.len() == 0 {
        assert(a =~= b);
    } else {
        assert(a.contains(a[0]));
        assert(b.to_multiset().count(a[0]) > 0);
        assert(b.contains(a[0]));
        assert(b.contains(b[0]));
        assert(a.to_multiset().count(b[0]) > 0);
        assert(a.contains(b[0]));
        let i = choose|i: int| 0 <= i < b.len() && b[i] == a[0];
        let j = choose|j: int| 0 <= j < a.len() && a[j] == b[0];
        if a[0] != b[0] {
            assert(!lex_less(R::key(b[i]), R::key(b[0])));
            assert(!lex_less(R::key(a[j]), R::key(a[0])));
            lemma_lex_total(R::key(a[0]), R::key(b[0]));
            assert(R::key(a[j]) != R::key(a[0]));
        }
        let x = a.remove(0);
        let y = b.remove(0);
        assert forall|i: int, j: int| 0 <= i < j < x.len() implies !lex_less(
            #[trigger] R::key(x[j]),
            #[trigger] R::key(x[i]),
        ) && R::key(x[j]) != R::key(x[i]) by {
            assert(x[i] == a[i + 1] && x[j] == a[j + 1]);
        }
        assert forall|i: int, j: int| 0 <= i < j < y.len() implies !lex_less(
            #[trigger] R::key(y[j]),
            #[trigger] R::key(y[i]),
        ) by {
            assert(y[i] == b[i + 1] && y[j] == b[j + 1]);
        }
        lemma_order_unique::<R, T>(x, y);
        assert(a =~= seq![a[0]] + x);
        assert(b =~= seq![b[0]] + y);
    }
}

/// Distinct keys stay distinct in another arrangement of the same elements.
pub proof fn lemma_distinct_keys_permutation<R: Ranking<T>, T>(a: Seq<T>, b: Seq<T>)
    requires
        distinct_keys::<R, T>(a),
        a.to_multiset() == b.to_multiset(),
    ensures
        distinct_keys::<R, T>(b),
{
    broadcast use vstd::seq_lib::group_to_multiset_ensures;

    assert(a.no_duplicates()) by {
        assert forall|i: int, j: int| 0 <= i < j < a.len() implies a[i] != a[j] by {
            assert(R::key(a[j]) != R::key(a[i]));
        }
    }
    a.lemma_multiset_has_no_duplicates();
    b.lemma_multiset_has_no_duplicates_conv();
    assert forall|i: int, j: int| 0 <= i < j < b.len() implies #[trigger] R::key(b[j])
        != #[trigger] R::key(b[i]) by {
        assert(b.contains(b[i]) && b.contains(b[j]));
        assert(a.to_multiset().count(b[i]) > 0 && a.to_multiset().count(b[j]) > 0);
        assert(a.contains(b[i]) && a.contains(b[j]));
        let p = choose|p: int| 0 <= p < a.len() && a[p] == b[i];
        let q = choose|q: int| 0 <= q < a.len() && a[q] == b[j];
        assert(b[i] != b[j]);
        if p < q {
            assert(R::key(a[q]) != R::key(a[p]));
        } else {
            assert(R::key(a[p]) != R::key(a[q]));
        }
    }
}

/// Sorting two arrangements of the same elements gives one result, where no two
/// elements have one key.
pub proof fn lemma_sorted_same<R: Ranking<T>, T>(a: Seq<T>, b: Seq<T>)
    requires
        distinct_keys::<R, T>(a),
        a.to_multiset() == b.to_multiset(),
    ensures
        sorted::<R, T>(a) == sorted::<R, T>(b),
{
    lemma_sorted_in_order::<R, T>(a);
    lemma_sorted_in_order::<R, T>(b);
    lemma_sorted_permutation::<R, T>(a);
    lemma_sorted_permutation::<R, T>(b);
    lemma_distinct_keys_permutation::<R, T>(a, sorted::<R, T>(a));
    lemma_order_unique::<R, T>(sorted::<R, T>(a), sorted::<R, T>(b));
}

/// Two rankings that agree on what comes after `k` and `l` give one place.
proof fn lemma_same_place<R: Ranking<T>, Q: Ranking<T>, T>(s: Seq<T>, k: Seq<int>, l: Seq<int>)
    requires
        forall|i: int|
            0 <= i < s.len() ==> lex_less(k, R::key(#[trigger] s[i])) == lex_less(l, Q::key(s[i])),
    ensures
        place::<R, T>(s, k) == place::<Q, T>(s, l),
    decreases s.len(),
{
    if s.len() > 0 {
        let t = s.subrange(1, s.len() as int);
        assert forall|i: int| 0 <= i < t.len() implies lex_less(k, R::key(#[trigger] t[i]))
            == lex_less(l, Q::key(t[i])) by {
            assert(t[i] == s[i + 1]);
        }
        lemma_same_place::<R, Q, T>(t, k, l);
        assert(lex_less(k, R::key(s[0])) == lex_less(l, Q::key(s[0])));
    }
}

/// A ranking that only breaks ties, and breaks them as the elements stand in `s`,
/// sorts `s` as the ranking that it refines.
pub proof fn lemma_sorted_refined<R: Ranking<T>, Q: Ranking<T>, T>(s: Seq<T>)
    requires
        forall|x: T, y: T|
            lex_less(R::key(x), R::key(y)) ==> lex_less(#[trigger] Q::key(x), #[trigger] Q::key(y)),
        forall|i: int, j: int|
            0 <= i < j < s.len() && R::key(s[i]) == R::key(s[j]) ==> !lex_less(
                Q::key(#[trigger] s[j]),
                Q::key(#[trigger] s[i]),
            ),
    ensures
        sorted::<R, T>(s) == sorted::<Q, T>(s),
    decreases s.len(),
{
    broadcast use vstd::seq_lib::group_to_multiset_ensures;

    if s.len() > 0 {
        let t = s.drop_last();
        assert forall|i: int, j: int|
            0 <= i < j < t.len() && R::key(t[i]) == R::key(t[j]) implies !lex_less(
            Q::key(#[trigger] t[j]),
            Q::key(#[trigger] t[i]),
        ) by {
            assert(t[i] == s[i] && t[j] == s[j]);
        }
        lemma_sorted_refined::<R, Q, T>(t);
        let u = sorted::<R, T>(t);
        let x = s.last();
        lemma_sorted_permutation::<R, T>(t);
        assert forall|i: int| 0 <= i < u.len() implies lex_less(
            R::key(x),
            R::key(#[trigger] u[i]),
        ) == lex_less(Q::key(x), Q::key(u[i])) by {
            assert(u.to_multiset().count(u[i]) > 0);
            assert(t.contains(u[i]));
            let j = choose|j: int| 0 <= j < t.len() && t[j] == u[i];
            assert(s[j] == u[i] && s[s.len() - 1] == x);
            lemma_lex_total(R::key(x), R::key(u[i]));
            if lex_less(R::key(u[i]), R::key(x)) {
                if lex_less(Q::key(x), Q::key(u[i])) {
                    lemma_lex_transitive(Q::key(x), Q::key(u[i]), Q::key(x));
                    lemma_lex_irreflexive(Q::key(x));
                }
                if lex_less(R::key(x), R::key(u[i])) {
                    lemma_lex_transitive(R::key(x), R::key(u[i]), R::key(x));
                    lemma_lex_irreflexive(R::key(x));
                }
            }
            if R::key(x) == R::key(u[i]) {
                lemma_lex_irreflexive(R::key(x));
            }
        }
        lemma_same_place::<R, Q, T>(u, R::key(x), Q::key(x));
    }
}

proof fn lemma_place_mapped<R: Ranking<T>, T, Q: Ranking<U>, U>(
    s: Seq<T>,
    f: spec_fn(T) -> U,
    k: Seq<int>,
)
    requires
        forall|t: T| #[trigger] Q::key(f(t)) == R::key(t),
    ensures
        place::<Q, U>(s.map_values(f), k) == place::<R, T>(s, k),
    decreases s.len(),
{
    let m = s.map_values(f);
    if s.len() > 0 {
        assert(m[0] == f(s[0]));
        let t = s.subrange(1, s.len() as int);
        assert(m.subrange(1, m.len() as int) =~= t.map_values(f));
        lemma_place_mapped::<R, T, Q, U>(t, f, k);
    }
}

/// Sorting commutes with a map that keeps the keys.
pub proof fn lemma_sorted_mapped<R: Ranking<T>, T, Q: Ranking<U>, U>(
    s: Seq<T>,
    f: spec_fn(T) -> U,
)
    requires
        forall|t: T| #[trigger] Q::key(f(t)) == R::key(t),
    ensures
        sorted::<R, T>(s).map_values(f) == sorted::<Q, U>(s.map_values(f)),
    decreases s.len(),
{
    let m = s.map_values(f);
    if s.len() == 0 {
        assert(sorted::<R, T>(s).map_values(f) =~= sorted::<Q, U>(m));
    } else {
        let t = sorted::<R, T>(s.drop_last());
        lemma_sorted_mapped::<R, T, Q, U>(s.drop_last(), f);
        assert(m.drop_last() =~= s.drop_last().map_values(f));
        assert(m.last() == f(s.last()));
        let k = R::key(s.last());
        assert(Q::key(f(s.last())) == k);
        lemma_place_mapped::<R, T, Q, U>(t, f, k);
        lemma_sorted_in_order::<R, T>(s.drop_last());
        lemma_place::<R, T>(t, k);
        let p = place::<R, T>(t, k);
        assert(t.insert(p, s.last()).map_values(f) =~= t.map_values(f).insert(p, f(s.last())));
    }
}

/// Sorts `v`; equal keys keep their order.
pub fn sort<R: Compares<T>, T>(v: &mut Vec<T>)
    ensures
        final(v)@ == sorted::<R, T>(old(v)@),
{
    let ghost s = v@;
    let mut i: usize = 0;
    assert(sorted::<R, T>(s.subrange(0, 0)) + s.subrange(0, s.len() as int) =~= s);
    while i < v.len()
        invariant
            i <= v.len(),
            v.len() == s.len(),
            s == old(v)@,
            v@ == sorted::<R, T>(s.subrange(0, i as int)) + s.subrange(i as int, s.len() as int),
        decreases v.len() - i,
    {
        let ghost t = sorted::<R, T>(s.subrange(0, i as int));
        proof {
            lemma_sorted_in_order::<R, T>(s.subrange(0, i as int));
            assert(v@[i as int] == s[i as int]);
        }
        let ghost k = R::key(s[i as int]);
        let mut lo: usize = 0;
        let mut hi: usize = i;
        while lo < hi
            invariant
                lo <= hi <= i,
                i < v.len(),
                t.len() == i,
                in_order::<R, T>(t),
                v@ == t + s.subrange(i as int, s.len() as int),
                v@[i as int] == s[i as int],
                i < s.len(),
                k == R::key(s[i as int]),
                forall|j: int| 0 <= j < lo ==> !lex_less(k, #[trigger] R::key(t[j])),
                forall|j: int| hi <= j < i ==> lex_less(k, #[trigger] R::key(t[j])),
            decreases hi - lo,
        {
            let mid: usize = lo + (hi - lo) / 2;
            assert(v@[mid as int] == t[mid as int]);
            if R::before(&v[i], &v[mid]) {
                proof {
                    assert forall|j: int| mid <= j < i implies lex_less(
                        k,
                        #[trigger] R::key(t[j]),
                    ) by {
                        if j > mid {
                            assert(!lex_less(R::key(t[j]), R::key(t[mid as int])));
                            lemma_lex_total(R::key(t[j]), R::key(t[mid as int]));
                            if R::key(t[j]) != R::key(t[mid as int]) {
                                lemma_lex_transitive(k, R::key(t[mid as int]), R::key(t[j]));
                            }
                        }
                    }
                }
                hi = mid;
            } else {
                proof {
                    assert forall|j: int| 0 <= j <= mid implies !lex_less(
                        k,
                        #[trigger] R::key(t[j]),
                    ) by {
                        if j < mid {
                            assert(!lex_less(R::key(t[mid as int]), R::key(t[j])));
                            if lex_less(k, R::key(t[j])) {
                                lemma_lex_total(R::key(t[mid as int]), R::key(t[j]));
                                if R::key(t[mid as int]) != R::key(t[j]) {
                                    lemma_lex_transitive(
                                        k,
                                        R::key(t[j]),
                                        R::key(t[mid as int]),
                                    );
                                }
                            }
                        }
                    }
                }
                lo = mid + 1;
            }
        }
        proof {
            lemma_place::<R, T>(t, k);
            let p = place::<R, T>(t, k);
            if p < lo {
                assert(lex_less(k, R::key(t[p])));
            }
            if lo < p {
                assert(!lex_less(k, R::key(t[lo as int])));
            }
            assert(lo == p);
            let u = s.subrange(0, i + 1);
            assert(u.drop_last() =~= s.subrange(0, i as int));
            assert(u.last() == s[i as int]);
        }
        let x = v.remove(i);
        v.insert(lo, x);
        proof {
            assert(v@ =~= t.insert(lo as int, s[i as int]) + s.subrange(i + 1, s.len() as int));
        }
        i += 1;
    }
    assert(s.subrange(0, i as int) =~= s);
    assert(v@ =~= sorted::<R, T>(s));
}

/// Strings in the order of their code points.
pub struct ByText;

/// Paths in the order of their components.
pub struct ByPath;

impl Ranking<Seq<char>> for ByText {
    open spec fn key(t: Seq<char>) -> Seq<int> {
        codes(t)
    }
}

impl Ranking<String> for ByText {
    open spec fn key(t: String) -> Seq<int> {
        codes(t@)
    }
}

impl Compares<String> for ByText {
    fn before(a: &String, b: &String) -> (r: bool) {
        text_less(a.as_str(), b.as_str())
    }
}

impl Ranking<Seq<char>> for ByPath {
    open spec fn key(t: Seq<char>) -> Seq<int> {
        path_codes(t)
    }
}

impl Ranking<String> for ByPath {
    open spec fn key(t: String) -> Seq<int> {
        path_codes(t@)
    }
}

impl Compares<String> for ByPath {
    fn before(a: &String, b: &String) -> (r: bool) {
        path_less(a.as_str(), b.as_str())
    }
}

} // verus!
