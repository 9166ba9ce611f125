//! What can be reached from an object along its references.
use vstd::prelude::*;

use crate::hash::{hash_eq, ObjectId};
use crate::helix_index::commit::id_views;

verus! {

/// The objects that an object refers to.
pub type Next = spec_fn(Seq<u8>) -> Seq<Seq<u8>>;

/// Whether the object at `k` of a line is one that the object before it refers
/// to.
pub open spec fn follows(next: Next, line: Seq<Seq<u8>>, k: int) -> bool {
    next(line[k - 1]).contains(line[k])
}

/// Whether `line` leads from one object to another, each referring to the one
/// behind it, past `stop`.
pub open spec fn is_line(
    next: Next,
    line: Seq<Seq<u8>>,
    from: Seq<u8>,
    to: Seq<u8>,
    stop: Option<Seq<u8>>,
) -> bool {
    &&& line.len() > 0
    &&& line[0] == from
    &&& line.last() == to
    &&& forall|k: int| 0 <= k < line.len() ==> stop != Some(#[trigger] line[k])
    &&& forall|k: int| 1 <= k < line.len() ==> #[trigger] follows(next, line, k)
}

/// Whether references lead from one object to another without going through
/// `stop`.
pub open spec fn reaches(
    next: Next,
    from: Seq<u8>,
    to: Seq<u8>,
    stop: Option<Seq<u8>>,
) -> bool {
    exists|line: Seq<Seq<u8>>| #[trigger] is_line(next, line, from, to, stop)
}

/// An object reaches itself.
pub proof fn reaches_itself(next: Next, from: Seq<u8>, stop: Option<Seq<u8>>)
    requires
        stop != Some(from),
    ensures
        reaches(next, from, from, stop),
{
    assert(is_line(next, seq![from], from, from, stop));
}

/// What a reached object refers to is reached too.
pub proof fn reaches_further(
    next: Next,
    from: Seq<u8>,
    a: Seq<u8>,
    b: Seq<u8>,
    stop: Option<Seq<u8>>,
)
    requires
        reaches(next, from, a, stop),
        next(a).contains(b),
        stop != Some(b),
    ensures
        reaches(next, from, b, stop),
{
    let line = choose|line: Seq<Seq<u8>>| #[trigger] is_line(next, line, from, a, stop);
    let longer = line.push(b);
    assert forall|k: int| 1 <= k < longer.len() implies #[trigger] follows(next, longer, k) by {
        if k < line.len() {
            assert(follows(next, line, k));
        }
    }
    assert(is_line(next, longer, from, b, stop));
}

/// Whatever a reached object reaches is reached.
pub proof fn reaches_on(
    next: Next,
    from: Seq<u8>,
    a: Seq<u8>,
    b: Seq<u8>,
    stop: Option<Seq<u8>>,
)
    requires
        reaches(next, from, a, stop),
        reaches(next, a, b, stop),
    ensures
        reaches(next, from, b, stop),
{
    let s = Set::new(|h: Seq<u8>| reaches(next, from, h, stop));
    assert forall|x: Seq<u8>, y: Seq<u8>|
        s.contains(x) && #[trigger] next(x).contains(y) && stop != Some(y) implies s.contains(
        y,
    ) by {
        reaches_further(next, from, x, y, stop);
    }
    let line = choose|line: Seq<Seq<u8>>| #[trigger] is_line(next, line, a, b, stop);
    lemma_line_inside(next, line, a, b, stop, s);
}

proof fn lemma_line_inside(
    next: Next,
    line: Seq<Seq<u8>>,
    from: Seq<u8>,
    to: Seq<u8>,
    stop: Option<Seq<u8>>,
    s: Set<Seq<u8>>,
)
    requires
        is_line(next, line, from, to, stop),
        s.contains(from),
        forall|x: Seq<u8>, y: Seq<u8>|
            s.contains(x) && #[trigger] next(x).contains(y) && stop != Some(y) ==> s.contains(y),
    ensures
        s.contains(to),
    decreases line.len(),
{
    if line.len() > 1 {
        let d = line.drop_last();
        assert forall|k: int| 1 <= k < d.len() implies #[trigger] follows(next, d, k) by {
            assert(follows(next, line, k));
        }
        lemma_line_inside(next, d, from, d.last(), stop, s);
        assert(follows(next, line, line.len() - 1));
        assert(next(d.last()).contains(to));
        assert(stop != Some(line[line.len() - 1]));
    }
}

/// A set that holds an object and whatever the objects in it refer to holds all
/// that is reached.
pub proof fn reached_inside(next: Next, from: Seq<u8>, stop: Option<Seq<u8>>, s: Set<Seq<u8>>)
    requires
        stop == Some(from) || s.contains(from),
        forall|x: Seq<u8>, y: Seq<u8>|
            s.contains(x) && #[trigger] next(x).contains(y) && stop != Some(y) ==> s.contains(y),
    ensures
        forall|h: Seq<u8>| #[trigger] reaches(next, from, h, stop) ==> s.contains(h),
{
    assert forall|h: Seq<u8>| #[trigger] reaches(next, from, h, stop) implies s.contains(h) by {
        let line = choose|line: Seq<Seq<u8>>| #[trigger] is_line(next, line, from, h, stop);
        assert(stop != Some(line[0]));
        lemma_line_inside(next, line, from, h, stop, s);
    }
}

/// Whether a hash is among others.
pub fn has_id(v: &Vec<ObjectId>, h: &ObjectId) -> (r: bool)
    ensures
        r == id_views(v@).contains(h@),
{
    let mut i: usize = 0;
    while i < v.len()
        invariant
            i <= v.len(),
            forall|j: int| 0 <= j < i ==> (#[trigger] v@[j])@ != h@,
        decreases v.len() - i,
    {
        let same: bool = hash_eq(&v[i], h);
        if same {
            assert(id_views(v@)[i as int] == h@);
            return true;
        }
        proof {
            if v@[i as int]@ == h@ {
                assert(v@[i as int] =~= *h);
            }
        }
        i += 1;
    }
    proof {
        if id_views(v@).contains(h@) {
            let j = choose|j: int| 0 <= j < id_views(v@).len() && id_views(v@)[j] == h@;
            assert(v@[j]@ == h@);
        }
    }
    false
}

} // verus!
