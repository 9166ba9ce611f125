//! A map whose keys are texts, kept in the order in which the keys came in.
use vstd::prelude::*;

use crate::text::str_eq;

verus! {

/// A map from texts to values.
#[derive(Debug)]
pub struct TextMap<V> {
    pub items: Vec<(String, V)>,
}

/// The pairs as a map.
pub open spec fn pairs_map<V>(s: Seq<(String, V)>) -> Map<Seq<char>, V>
    decreases s.len(),
{
    if s.len() == 0 {
        Map::empty()
    } else {
        pairs_map(s.drop_last()).insert(s.last().0@, s.last().1)
    }
}

/// No two pairs have one key.
pub open spec fn distinct_pairs<V>(s: Seq<(String, V)>) -> bool {
    forall|i: int, j: int|
        0 <= i < j < s.len() ==> (#[trigger] s[i]).0@ != (#[trigger] s[j]).0@
}

impl<V> View for TextMap<V> {
    type V = Map<Seq<char>, V>;

    open spec fn view(&self) -> Map<Seq<char>, V> {
        pairs_map(self.items@)
    }
}

pub proof fn lemma_pairs_without<V>(s: Seq<(String, V)>, key: Seq<char>)
    requires
        forall|i: int| 0 <= i < s.len() ==> (#[trigger] s[i]).0@ != key,
    ensures
        !pairs_map(s).contains_key(key),
    decreases s.len(),
{
    if s.len() > 0 {
        let d = s.drop_last();
        assert forall|i: int| 0 <= i < d.len() implies (#[trigger] d[i]).0@ != key by {
            assert(d[i] == s[i]);
        }
        lemma_pairs_without(d, key);
        assert(s[s.len() - 1].0@ != key);
    }
}

pub proof fn lemma_pairs_from<V>(s: Seq<(String, V)>, key: Seq<char>)
    requires
        pairs_map(s).contains_key(key),
    ensures
        exists|i: int| 0 <= i < s.len() && (#[trigger] s[i]).0@ == key,
{
    if forall|i: int| 0 <= i < s.len() ==> (#[trigger] s[i]).0@ != key {
        lemma_pairs_without(s, key);
    }
}

pub proof fn lemma_pairs_at<V>(s: Seq<(String, V)>, i: int)
    requires
        0 <= i < s.len(),
        distinct_pairs(s),
    ensures
        pairs_map(s).contains_key(s[i].0@),
        pairs_map(s)[s[i].0@] == s[i].1,
    decreases s.len(),
{
    if i < s.len() - 1 {
        let d = s.drop_last();
        assert forall|i: int, j: int| 0 <= i < j < d.len() implies (#[trigger] d[i]).0@ != (
        #[trigger] d[j]).0@ by {
            assert(d[i] == s[i] && d[j] == s[j]);
        }
        lemma_pairs_at(d, i);
        assert(d[i] == s[i]);
        assert(s[i].0@ != s[s.len() - 1].0@);
    }
}

/// Replacing the value of one pair.
proof fn lemma_pairs_update<V>(s: Seq<(String, V)>, i: int, p: (String, V))
    requires
        0 <= i < s.len(),
        distinct_pairs(s),
        p.0@ == s[i].0@,
    ensures
        distinct_pairs(s.update(i, p)),
        pairs_map(s.update(i, p)) == pairs_map(s).insert(p.0@, p.1),
    decreases s.len(),
{
    let d = s.drop_last();
    assert(distinct_pairs(s.update(i, p)));
    if i == s.len() - 1 {
        assert(s.update(i, p).drop_last() =~= d);
        assert(pairs_map(s.update(i, p)) =~= pairs_map(s).insert(p.0@, p.1));
    } else {
        assert(distinct_pairs(d)) by {
            assert forall|i: int, j: int| 0 <= i < j < d.len() implies (#[trigger] d[i]).0@ != (
            #[trigger] d[j]).0@ by {
                assert(d[i] == s[i] && d[j] == s[j]);
            }
        }
        assert(d[i] == s[i]);
        lemma_pairs_update(d, i, p);
        assert(s.update(i, p).drop_last() =~= d.update(i, p));
        assert(s.update(i, p).last() == s.last());
        assert(s[i].0@ != s[s.len() - 1].0@);
        assert(pairs_map(s.update(i, p)) =~= pairs_map(s).insert(p.0@, p.1));
    }
}

proof fn lemma_pairs_removed<V>(s: Seq<(String, V)>, i: int)
    requires
        0 <= i < s.len(),
        distinct_pairs(s),
    ensures
        distinct_pairs(s.remove(i)),
        pairs_map(s.remove(i)) == pairs_map(s).remove(s[i].0@),
    decreases s.len(),
{
    let d = s.drop_last();
    let r = s.remove(i);
    assert forall|a: int, b: int| 0 <= a < b < r.len() implies (#[trigger] r[a]).0@ != (
    #[trigger] r[b]).0@ by {
        let x = if a < i { a } else { a + 1 };
        let y = if b < i { b } else { b + 1 };
        assert(r[a] == s[x] && r[b] == s[y]);
    }
    if i == s.len() - 1 {
        assert(r =~= d);
        assert forall|j: int| 0 <= j < d.len() implies (#[trigger] d[j]).0@ != s[i].0@ by {
            assert(d[j] == s[j]);
        }
        lemma_pairs_without(d, s[i].0@);
        assert(pairs_map(d) =~= pairs_map(s).remove(s[i].0@));
    } else {
        assert forall|i: int, j: int| 0 <= i < j < d.len() implies (#[trigger] d[i]).0@ != (
        #[trigger] d[j]).0@ by {
            assert(d[i] == s[i] && d[j] == s[j]);
        }
        lemma_pairs_removed(d, i);
        assert(r.drop_last() =~= d.remove(i));
        assert(r.last() == s.last());
        assert(s[i].0@ != s[s.len() - 1].0@);
        assert(d[i] == s[i]);
        assert(pairs_map(r) =~= pairs_map(s).remove(s[i].0@));
    }
}

impl<V> TextMap<V> {
    /// No two pairs have one key.
    pub open spec fn wf(&self) -> bool {
        distinct_pairs(self.items@)
    }

    /// An empty map.
    pub fn new() -> (m: TextMap<V>)
        ensures
            m.wf(),
            m@ == Map::<Seq<char>, V>::empty(),
            m.items@.len() == 0,
    {
        TextMap { items: Vec::new() }
    }

    /// The place of a key.
    pub fn position(&self, key: &str) -> (r: Option<usize>)
        ensures
            match r {
                Some(i) => i < self.items@.len() && self.items@[i as int].0@ == key@ && forall|
                    j: int,
                |
                    0 <= j < i ==> (#[trigger] self.items@[j]).0@ != key@,
                None => forall|j: int|
                    0 <= j < self.items@.len() ==> (#[trigger] self.items@[j]).0@ != key@,
            },
    {
        let mut i: usize = 0;
        while i < self.items.len()
            invariant
                i <= self.items.len(),
                forall|j: int| 0 <= j < i ==> (#[trigger] self.items@[j]).0@ != key@,
            decreases self.items.len() - i,
        {
            if str_eq(self.items[i].0.as_str(), key) {
                return Some(i);
            }
            i += 1;
        }
        None
    }

    /// The value of a key.
    pub fn get(&self, key: &str) -> (r: Option<&V>)
        requires
            self.wf(),
        ensures
            match r {
                Some(v) => self@.contains_key(key@) && *v == self@[key@],
                None => !self@.contains_key(key@),
            },
    {
        match self.position(key) {
            Some(i) => {
                proof {
                    lemma_pairs_at(self.items@, i as int);
                }
                Some(&self.items[i].1)
            },
            None => {
                proof {
                    lemma_pairs_without(self.items@, key@);
                }
                None
            },
        }
    }

    /// Whether the key is there.
    pub fn has(&self, key: &str) -> (r: bool)
        requires
            self.wf(),
        ensures
            r == self@.contains_key(key@),
    {
        match self.get(key) {
            Some(_) => true,
            None => false,
        }
    }

    /// Gives a key a value. A new key comes last.
    pub fn insert(&mut self, key: String, value: V)
        requires
            old(self).wf(),
        ensures
            final(self).wf(),
            final(self)@ == old(self)@.insert(key@, value),
    {
        match self.position(key.as_str()) {
            Some(i) => {
                let ghost before = self.items@;
                let ghost p = (key, value);
                self.items[i] = (key, value);
                proof {
                    lemma_pairs_update(before, i as int, p);
                }
            },
            None => {
                let ghost before = self.items@;
                self.items.push((key, value));
                assert(self.items@.drop_last() =~= before);
            },
        }
    }

    /// Removes a key, if it is there.
    pub fn remove(&mut self, key: &str)
        requires
            old(self).wf(),
        ensures
            final(self).wf(),
            final(self)@ == old(self)@.remove(key@),
    {
        match self.position(key) {
            Some(i) => {
                let ghost before = self.items@;
                self.items.remove(i);
                proof {
                    lemma_pairs_removed(before, i as int);
                }
            },
            None => {
                proof {
                    lemma_pairs_without(self.items@, key@);
                    assert(self@.remove(key@) =~= self@);
                }
            },
        }
    }
}

} // verus!
