//! The content-addressed store of blobs, trees and commits.
use vstd::prelude::*;

use crate::hash::{blake3_digest, hash_bytes, hash_eq, ObjectId};

verus! {

/// What an object is.
#[derive(Debug, Clone, Copy, PartialEq, Eq, Structural)]
pub enum ObjectType {
    Blob,
    Tree,
    Commit,
}

/// An object with its name.
#[derive(Debug)]
pub struct StoredObject {
    pub kind: ObjectType,
    pub hash: ObjectId,
    pub data: Vec<u8>,
}

/// The objects of a repository.
#[derive(Debug)]
pub struct ObjectStore {
    pub objects: Vec<StoredObject>,
}

/// What a store holds: the bytes of an object, by what it is and by its hash.
pub type Objects = Map<(ObjectType, Seq<u8>), Seq<u8>>;

/// The key of the object at a place in the store.
pub open spec fn object_key(o: StoredObject) -> (ObjectType, Seq<u8>) {
    (o.kind, o.hash@)
}

/// The objects as a map.
pub open spec fn object_map(s: Seq<StoredObject>) -> Objects
    decreases s.len(),
{
    if s.len() == 0 {
        Map::empty()
    } else {
        object_map(s.drop_last()).insert(object_key(s.last()), s.last().data@)
    }
}

/// What a store holds after an object has been written to it: a hash that is
/// already there keeps its object.
pub open spec fn put_object(m: Objects, kind: ObjectType, data: Seq<u8>) -> Objects {
    let key = (kind, blake3_digest(data)@);
    if m.contains_key(key) {
        m
    } else {
        m.insert(key, data)
    }
}

/// A store without objects.
pub open spec fn no_objects() -> Objects {
    Map::empty()
}

/// A store holds finitely many objects.
pub proof fn lemma_finitely_many(s: Seq<StoredObject>)
    ensures
        object_map(s).dom().finite(),
    decreases s.len(),
{
    if s.len() > 0 {
        lemma_finitely_many(s.drop_last());
        assert(object_map(s).dom() =~= object_map(s.drop_last()).dom().insert(
            object_key(s.last()),
        ));
    }
}

impl View for ObjectStore {
    type V = Objects;

    open spec fn view(&self) -> Objects {
        object_map(self.objects@)
    }
}

impl ObjectStore {
    /// No two objects have one key.
    pub open spec fn wf(&self) -> bool {
        forall|i: int, j: int|
            0 <= i < j < self.objects@.len() ==> object_key(#[trigger] self.objects@[i])
                != object_key(#[trigger] self.objects@[j])
    }

    /// An empty store.
    pub fn new() -> (s: ObjectStore)
        ensures
            s.wf(),
            s@ == no_objects(),
    {
        ObjectStore { objects: Vec::new() }
    }

    /// The place of an object.
    fn find(&self, kind: ObjectType, hash: &ObjectId) -> (r: Option<usize>)
        ensures
            match r {
                Some(i) => i < self.objects@.len() && object_key(self.objects@[i as int]) == (
                    kind,
                    hash@,
                ),
                None => forall|i: int|
                    0 <= i < self.objects@.len() ==> object_key(#[trigger] self.objects@[i]) != (
                        kind,
                        hash@,
                    ),
            },
    {
        let mut i: usize = 0;
        while i < self.objects.len()
            invariant
                i <= self.objects.len(),
                forall|j: int|
                    0 <= j < i ==> object_key(#[trigger] self.objects@[j]) != (kind, hash@),
            decreases self.objects.len() - i,
        {
            if self.objects[i].kind == kind && hash_eq(&self.objects[i].hash, hash) {
                return Some(i);
            }
            proof {
                if self.objects@[i as int].hash@ == hash@ {
                    assert(self.objects@[i as int].hash =~= *hash);
                }
            }
            i += 1;
        }
        None
    }

    /// Whether the object is there.
    pub fn has_object(&self, kind: ObjectType, hash: &ObjectId) -> (r: bool)
        requires
            self.wf(),
        ensures
            r == self@.contains_key((kind, hash@)),
    {
        match self.find(kind, hash) {
            Some(i) => {
                proof {
                    lemma_map_at(self.objects@, i as int);
                }
                true
            },
            None => {
                proof {
                    lemma_map_without(self.objects@, (kind, hash@));
                }
                false
            },
        }
    }

    /// The bytes of an object.
    pub fn read_object(&self, kind: ObjectType, hash: &ObjectId) -> (r: Option<&Vec<u8>>)
        requires
            self.wf(),
        ensures
            match r {
                Some(d) => self@.contains_key((kind, hash@)) && d@ == self@[(kind, hash@)],
                None => !self@.contains_key((kind, hash@)),
            },
    {
        match self.find(kind, hash) {
            Some(i) => {
                proof {
                    lemma_map_at(self.objects@, i as int);
                }
                Some(&self.objects[i].data)
            },
            None => {
                proof {
                    lemma_map_without(self.objects@, (kind, hash@));
                }
                None
            },
        }
    }

    /// Writes an object and gives its hash. An object that is there already is
    /// kept.
    pub fn write_object(&mut self, kind: ObjectType, data: Vec<u8>) -> (h: ObjectId)
        requires
            old(self).wf(),
        ensures
            final(self).wf(),
            h == blake3_digest(data@),
            final(self)@ == put_object(old(self)@, kind, data@),
    {
        let h: ObjectId = hash_bytes(data.as_slice());
        self.write_object_with_hash(kind, &h, data);
        h
    }

    /// Writes an object under a given hash. An object that is there already is
    /// kept.
    pub fn write_object_with_hash(&mut self, kind: ObjectType, hash: &ObjectId, data: Vec<u8>)
        requires
            old(self).wf(),
        ensures
            final(self).wf(),
            final(self)@ == (if old(self)@.contains_key((kind, hash@)) {
                old(self)@
            } else {
                old(self)@.insert((kind, hash@), data@)
            }),
    {
        match self.find(kind, hash) {
            Some(i) => {
                proof {
                    lemma_map_at(self.objects@, i as int);
                }
            },
            None => {
                proof {
                    lemma_map_without(self.objects@, (kind, hash@));
                }
                let ghost before = self.objects@;
                self.objects.push(StoredObject { kind, hash: *hash, data });
                assert(self.objects@.drop_last() =~= before);
            },
        }
    }

    /// Removes an object, if it is there.
    pub fn delete_object(&mut self, kind: ObjectType, hash: &ObjectId)
        requires
            old(self).wf(),
        ensures
            final(self).wf(),
            final(self)@ == old(self)@.remove((kind, hash@)),
    {
        match self.find(kind, hash) {
            Some(i) => {
                let ghost before = self.objects@;
                self.objects.remove(i);
                proof {
                    lemma_map_removed(before, i as int);
                }
            },
            None => {
                proof {
                    lemma_map_without(self.objects@, (kind, hash@));
                    assert(self@.remove((kind, hash@)) =~= self@);
                }
            },
        }
    }

    /// The hashes of all objects of one type, in the order in which they were
    /// written.
    pub fn list_object_hashes(&self, kind: ObjectType) -> (r: Vec<ObjectId>)
        requires
            self.wf(),
        ensures
            forall|i: int| 0 <= i < r@.len() ==> self@.contains_key((kind, (#[trigger] r@[i])@)),
            forall|k: Seq<u8>|
                self@.contains_key((kind, k)) ==> exists|i: int|
                    0 <= i < r@.len() && (#[trigger] r@[i])@ == k,
            forall|i: int, j: int|
                0 <= i < j < r@.len() ==> (#[trigger] r@[i])@ != (#[trigger] r@[j])@,
    {
        let mut r: Vec<ObjectId> = Vec::new();
        let ghost mut from: Seq<int> = Seq::empty();
        let mut i: usize = 0;
        while i < self.objects.len()
            invariant
                i <= self.objects.len(),
                from.len() == r@.len(),
                forall|j: int|
                    0 <= j < r@.len() ==> {
                        &&& 0 <= #[trigger] from[j] < i
                        &&& self.objects@[from[j]].kind == kind
                        &&& self.objects@[from[j]].hash == r@[j]
                    },
                forall|j: int, k: int| 0 <= j < k < from.len() ==> from[j] < from[k],
                forall|j: int|
                    0 <= j < i && (#[trigger] self.objects@[j]).kind == kind ==> exists|k: int|
                        0 <= k < from.len() && from[k] == j,
            decreases self.objects.len() - i,
        {
            let ghost before = from;
            if self.objects[i].kind == kind {
                r.push(self.objects[i].hash);
                proof {
                    from = from.push(i as int);
                }
            }
            proof {
                assert forall|j: int|
                    0 <= j < i + 1 && (
                    #[trigger] self.objects@[j]).kind == kind implies exists|k: int|
                    0 <= k < from.len() && from[k] == j by {
                    if j < i {
                        let k = choose|k: int| 0 <= k < before.len() && before[k] == j;
                        assert(from[k] == j);
                    } else {
                        assert(from[from.len() - 1] == j);
                    }
                }
            }
            i += 1;
        }
        proof {
            assert forall|j: int| 0 <= j < r@.len() implies self@.contains_key(
                (kind, (#[trigger] r@[j])@),
            ) by {
                assert(0 <= from[j] < i);
                lemma_map_at_any(self.objects@, from[j]);
            }
            assert forall|k: Seq<u8>| self@.contains_key((kind, k)) implies exists|i: int|
                0 <= i < r@.len() && (#[trigger] r@[i])@ == k by {
                lemma_map_from(self.objects@, (kind, k));
                let j = choose|j: int|
                    0 <= j < self.objects@.len() && object_key(#[trigger] self.objects@[j]) == (
                        kind,
                        k,
                    );
                assert(self.objects@[j].kind == kind);
                let q = choose|q: int| 0 <= q < from.len() && from[q] == j;
                assert(0 <= from[q] < i);
                assert(r@[q]@ == k);
            }
            assert forall|a: int, b: int| 0 <= a < b < r@.len() implies (#[trigger] r@[a])@ != (
            #[trigger] r@[b])@ by {
                assert(from[a] < from[b]);
                assert(object_key(self.objects@[from[a]]) != object_key(self.objects@[from[b]]));
            }
        }
        r
    }
}

proof fn lemma_map_without(s: Seq<StoredObject>, key: (ObjectType, Seq<u8>))
    requires
        forall|i: int| 0 <= i < s.len() ==> object_key(#[trigger] s[i]) != key,
    ensures
        !object_map(s).contains_key(key),
    decreases s.len(),
{
    if s.len() > 0 {
        let d = s.drop_last();
        assert forall|i: int| 0 <= i < d.len() implies object_key(#[trigger] d[i]) != key by {
            assert(d[i] == s[i]);
        }
        lemma_map_without(d, key);
        assert(object_key(s[s.len() - 1]) != key);
    }
}

proof fn lemma_map_from(s: Seq<StoredObject>, key: (ObjectType, Seq<u8>))
    requires
        object_map(s).contains_key(key),
    ensures
        exists|i: int| 0 <= i < s.len() && object_key(#[trigger] s[i]) == key,
{
    if forall|i: int| 0 <= i < s.len() ==> object_key(#[trigger] s[i]) != key {
        lemma_map_without(s, key);
    }
}

proof fn lemma_map_at_any(s: Seq<StoredObject>, i: int)
    requires
        0 <= i < s.len(),
    ensures
        object_map(s).contains_key(object_key(s[i])),
    decreases s.len(),
{
    if i < s.len() - 1 {
        lemma_map_at_any(s.drop_last(), i);
        assert(s.drop_last()[i] == s[i]);
    }
}

proof fn lemma_map_at(s: Seq<StoredObject>, i: int)
    requires
        0 <= i < s.len(),
        forall|i: int, j: int|
            0 <= i < j < s.len() ==> object_key(#[trigger] s[i]) != object_key(#[trigger] s[j]),
    ensures
        object_map(s).contains_key(object_key(s[i])),
        object_map(s)[object_key(s[i])] == s[i].data@,
    decreases s.len(),
{
    if i < s.len() - 1 {
        let d = s.drop_last();
        assert forall|i: int, j: int| 0 <= i < j < d.len() implies object_key(#[trigger] d[i])
            != object_key(#[trigger] d[j]) by {
            assert(d[i] == s[i] && d[j] == s[j]);
        }
        lemma_map_at(d, i);
        assert(d[i] == s[i]);
        assert(object_key(s[i]) != object_key(s[s.len() - 1]));
    }
}

proof fn lemma_map_removed(s: Seq<StoredObject>, i: int)
    requires
        0 <= i < s.len(),
        forall|i: int, j: int|
            0 <= i < j < s.len() ==> object_key(#[trigger] s[i]) != object_key(#[trigger] s[j]),
    ensures
        object_map(s.remove(i)) == object_map(s).remove(object_key(s[i])),
    decreases s.len(),
{
    let d = s.drop_last();
    if i == s.len() - 1 {
        assert(s.remove(i) =~= d);
        assert forall|j: int| 0 <= j < d.len() implies object_key(#[trigger] d[j]) != object_key(
            s[i],
        ) by {
            assert(d[j] == s[j]);
        }
        lemma_map_without(d, object_key(s[i]));
        assert(object_map(d) =~= object_map(s).remove(object_key(s[i])));
    } else {
        assert forall|i: int, j: int| 0 <= i < j < d.len() implies object_key(#[trigger] d[i])
            != object_key(#[trigger] d[j]) by {
            assert(d[i] == s[i] && d[j] == s[j]);
        }
        lemma_map_removed(d, i);
        assert(s.remove(i).drop_last() =~= d.remove(i));
        assert(s.remove(i).last() == s.last());
        assert(object_key(s[i]) != object_key(s[s.len() - 1]));
        assert(d[i] == s[i]);
        assert(object_map(s.remove(i)) =~= object_map(s).remove(object_key(s[i])));
    }
}

/// Reading an object by the hash that writing it gave returns its bytes, where
/// the store held no other object under that hash.
pub proof fn write_then_read(m: Objects, kind: ObjectType, data: Seq<u8>)
    requires
        m.contains_key((kind, blake3_digest(data)@)) ==> m[(kind, blake3_digest(data)@)] == data,
    ensures
        put_object(m, kind, data).contains_key((kind, blake3_digest(data)@)),
        put_object(m, kind, data)[(kind, blake3_digest(data)@)] == data,
{
}

/// Writing an object twice is writing it once.
pub proof fn write_twice(m: Objects, kind: ObjectType, data: Seq<u8>)
    ensures
        put_object(put_object(m, kind, data), kind, data) == put_object(m, kind, data),
{
}

/// Writing an object changes no object that is there.
pub proof fn write_keeps(m: Objects, kind: ObjectType, data: Seq<u8>, key: (ObjectType, Seq<u8>))
    requires
        m.contains_key(key),
    ensures
        put_object(m, kind, data).contains_key(key),
        put_object(m, kind, data)[key] == m[key],
{
}

} // verus!
