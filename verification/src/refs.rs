//! The references of a repository: `HEAD`, the files below `refs`, and the
//! upstream of each branch.
use vstd::prelude::*;
use vstd::string::*;
use vstd::utf8::*;

use crate::hash::{decoded_hash, hex_to_hash, HexError, ObjectId};
use crate::path::{names_in, plain_path};
use crate::text::{after, has_prefix, starts_with, strip_prefix, trim, trim_spec};
use crate::text_map::{lemma_pairs_at, lemma_pairs_from, TextMap};

verus! {

/// The references of a repository, as texts.
#[derive(Debug)]
pub struct RefStore {
    /// The contents of `HEAD`, if there is one.
    pub head: Option<String>,
    /// The contents of the reference files, by their path: `refs/heads/main`.
    pub refs: TextMap<String>,
    /// The upstream of each branch that has one.
    pub upstreams: TextMap<String>,
}

/// The references, with texts as characters.
pub struct Refs {
    pub head: Option<Seq<char>>,
    pub refs: Map<Seq<char>, Seq<char>>,
    pub upstreams: Map<Seq<char>, Seq<char>>,
}

/// The values of a map, as characters.
pub open spec fn text_values(m: Map<Seq<char>, String>) -> Map<Seq<char>, Seq<char>> {
    m.map_values(|s: String| s@)
}

impl View for RefStore {
    type V = Refs;

    open spec fn view(&self) -> Refs {
        Refs {
            head: match self.head {
                Some(s) => Some(s@),
                None => None,
            },
            refs: text_values(self.refs@),
            upstreams: text_values(self.upstreams@),
        }
    }
}

/// The path of the file of a reference: the names in the path that is given.
#[verifier::opaque]
pub open spec fn ref_key(path: Seq<char>) -> Seq<char> {
    plain_path(path)
}

impl Refs {
    /// Whether there is a reference at this path.
    pub open spec fn has(self, path: Seq<char>) -> bool {
        self.refs.contains_key(ref_key(path))
    }

    /// The contents of the reference at this path.
    pub open spec fn at(self, path: Seq<char>) -> Seq<char> {
        self.refs[ref_key(path)]
    }

    /// The references after one has got its contents.
    pub open spec fn with(self, path: Seq<char>, content: Seq<char>) -> Refs {
        Refs { refs: self.refs.insert(ref_key(path), content), ..self }
    }

    /// The references without one.
    pub open spec fn without(self, path: Seq<char>) -> Refs {
        Refs { refs: self.refs.remove(ref_key(path)), ..self }
    }
}

/// Whether there is a directory of references at this path.
pub open spec fn ref_dir(r: Refs, path: Seq<char>) -> bool {
    exists|k: Seq<char>| #[trigger]
        r.refs.contains_key(k) && has_prefix(k, ref_key(path).push('/'))
}

/// Whether there is a reference or a directory of references at this path.
pub open spec fn ref_present(r: Refs, path: Seq<char>) -> bool {
    r.has(path) || ref_dir(r, path)
}

/// The path of the file of a reference.
fn key_of(path: &str) -> (r: String)
    ensures
        r@ == ref_key(path@),
{
    reveal(ref_key);
    crate::text::join(names_in(path).as_slice(), "/")
}

/// The reference that the contents of `HEAD` name, if they name one.
pub open spec fn head_symbol(content: Seq<char>) -> Option<Seq<char>> {
    let t = trim_spec(content);
    if has_prefix(t, "ref:"@) {
        Some(trim_spec(after(t, "ref:"@.len() as int)))
    } else {
        None
    }
}

/// Why `HEAD` names no commit.
#[derive(Debug, Clone, PartialEq, Eq)]
pub enum HeadError {
    /// There is no `HEAD`.
    Missing,
    /// The reference that `HEAD` names does not exist.
    NoReference(String),
    /// The reference that `HEAD` names is a directory.
    Unreadable(String),
    /// The reference does not hold a hash.
    InvalidReference(HexError),
    /// `HEAD` does not hold a hash.
    InvalidHead(HexError),
}

/// Why `HEAD` names no commit, with texts as characters.
pub enum HeadFault {
    Missing,
    NoReference(Seq<char>),
    Unreadable(Seq<char>),
    InvalidReference(HexError),
    InvalidHead(HexError),
}

impl View for HeadError {
    type V = HeadFault;

    open spec fn view(&self) -> HeadFault {
        match *self {
            HeadError::Missing => HeadFault::Missing,
            HeadError::NoReference(s) => HeadFault::NoReference(s@),
            HeadError::Unreadable(s) => HeadFault::Unreadable(s@),
            HeadError::InvalidReference(e) => HeadFault::InvalidReference(e),
            HeadError::InvalidHead(e) => HeadFault::InvalidHead(e),
        }
    }
}

/// The commit that `HEAD` names, directly or through a reference.
pub open spec fn head_commit(r: Refs) -> Result<Seq<u8>, HeadFault> {
    match r.head {
        None => Err(HeadFault::Missing),
        Some(content) => match head_symbol(content) {
            Some(path) => if r.has(path) {
                match decoded_hash(encode_utf8(trim_spec(r.at(path)))) {
                    Ok(h) => Ok(h),
                    Err(e) => Err(HeadFault::InvalidReference(e)),
                }
            } else if ref_dir(r, path) {
                Err(HeadFault::Unreadable(path))
            } else {
                Err(HeadFault::NoReference(path))
            },
            None => match decoded_hash(encode_utf8(trim_spec(content))) {
                Ok(h) => Ok(h),
                Err(e) => Err(HeadFault::InvalidHead(e)),
            },
        },
    }
}

/// The references after the commit that `HEAD` names has become `hex`: the
/// reference that `HEAD` names changes, or `HEAD` itself.
pub open spec fn with_head_commit(r: Refs, hex: Seq<char>) -> Refs {
    match r.head {
        Some(content) => match head_symbol(content) {
            Some(path) => r.with(path, hex),
            None => Refs { head: Some(hex), ..r },
        },
        None => Refs { head: Some(hex), ..r },
    }
}

impl RefStore {
    /// No reference and no branch occurs twice.
    pub open spec fn wf(&self) -> bool {
        self.refs.wf() && self.upstreams.wf()
    }

    /// No references at all.
    pub fn new() -> (r: RefStore)
        ensures
            r.wf(),
            r@.head is None,
            r@.refs == Map::<Seq<char>, Seq<char>>::empty(),
            r@.upstreams == Map::<Seq<char>, Seq<char>>::empty(),
    {
        let r = RefStore { head: None, refs: TextMap::new(), upstreams: TextMap::new() };
        assert(r@.refs =~= Map::<Seq<char>, Seq<char>>::empty());
        assert(r@.upstreams =~= Map::<Seq<char>, Seq<char>>::empty());
        r
    }

    /// The contents of a reference.
    pub fn get_ref(&self, path: &str) -> (r: Option<&String>)
        requires
            self.wf(),
        ensures
            match r {
                Some(s) => self@.has(path@) && self@.at(path@) == s@,
                None => !self@.has(path@),
            },
    {
        self.refs.get(key_of(path).as_str())
    }

    /// Gives a reference its contents.
    pub fn set_ref(&mut self, path: String, content: String)
        requires
            old(self).wf(),
        ensures
            final(self).wf(),
            final(self)@ == old(self)@.with(path@, content@),
    {
        self.refs.insert(key_of(path.as_str()), content);
        assert(self@.refs =~= old(self)@.refs.insert(ref_key(path@), content@));
    }

    /// Removes a reference.
    pub fn remove_ref(&mut self, path: &str)
        requires
            old(self).wf(),
        ensures
            final(self).wf(),
            final(self)@ == old(self)@.without(path@),
    {
        self.refs.remove(key_of(path).as_str());
        assert(self@.refs =~= old(self)@.refs.remove(ref_key(path@)));
    }

    /// Gives `HEAD` its contents.
    pub fn set_head(&mut self, content: String)
        requires
            old(self).wf(),
        ensures
            final(self).wf(),
            final(self)@ == (Refs { head: Some(content@), ..old(self)@ }),
    {
        self.head = Some(content);
    }

    /// Gives a branch its upstream.
    pub fn set_upstream(&mut self, branch: String, upstream: String)
        requires
            old(self).wf(),
        ensures
            final(self).wf(),
            final(self)@ == (Refs {
                upstreams: old(self)@.upstreams.insert(branch@, upstream@),
                ..old(self)@
            }),
    {
        self.upstreams.insert(branch, upstream);
        assert(self@.upstreams =~= old(self)@.upstreams.insert(branch@, upstream@));
    }

    /// Takes the upstream of a branch away.
    pub fn remove_upstream(&mut self, branch: &str)
        requires
            old(self).wf(),
        ensures
            final(self).wf(),
            final(self)@ == (Refs {
                upstreams: old(self)@.upstreams.remove(branch@),
                ..old(self)@
            }),
    {
        self.upstreams.remove(branch);
        assert(self@.upstreams =~= old(self)@.upstreams.remove(branch@));
    }

    /// The upstream of a branch.
    pub fn get_upstream(&self, branch: &str) -> (r: Option<&String>)
        requires
            self.wf(),
        ensures
            match r {
                Some(s) => self@.upstreams.contains_key(branch@) && self@.upstreams[branch@] == s@,
                None => !self@.upstreams.contains_key(branch@),
            },
    {
        self.upstreams.get(branch)
    }

    /// Whether there is a directory of references at this path.
    pub fn has_dir(&self, path: &str) -> (r: bool)
        requires
            self.wf(),
        ensures
            r == ref_dir(self@, path@),
    {
        let mut prefix: String = key_of(path);
        prefix.push('/');
        let mut i: usize = 0;
        while i < self.refs.items.len()
            invariant
                i <= self.refs.items.len(),
                self.wf(),
                prefix@ == ref_key(path@).push('/'),
                forall|j: int|
                    0 <= j < i ==> !has_prefix((#[trigger] self.refs.items@[j]).0@, prefix@),
            decreases self.refs.items.len() - i,
        {
            if starts_with(self.refs.items[i].0.as_str(), prefix.as_str()) {
                proof {
                    lemma_pairs_at(self.refs.items@, i as int);
                    assert(self@.refs.contains_key(self.refs.items@[i as int].0@));
                }
                return true;
            }
            i += 1;
        }
        proof {
            if ref_dir(self@, path@) {
                let k = choose|k: Seq<char>| #[trigger]
                    self@.refs.contains_key(k) && has_prefix(k, ref_key(path@).push('/'));
                assert(self.refs@.contains_key(k));
                lemma_pairs_from(self.refs.items@, k);
                let j = choose|j: int|
                    0 <= j < self.refs.items@.len() && (#[trigger] self.refs.items@[j]).0@ == k;
                assert(!has_prefix(self.refs.items@[j].0@, prefix@));
            }
        }
        false
    }

    /// Whether there is a reference or a directory of references at this path.
    pub fn present(&self, path: &str) -> (r: bool)
        requires
            self.wf(),
        ensures
            r == ref_present(self@, path@),
    {
        self.get_ref(path).is_some() || self.has_dir(path)
    }
}

/// The reference that the contents of `HEAD` name, if they name one.
pub fn parse_head(content: &str) -> (r: Option<String>)
    ensures
        match r {
            Some(p) => head_symbol(content@) == Some(p@),
            None => head_symbol(content@) is None,
        },
{
    let t = trim(content);
    match strip_prefix(t.as_str(), "ref:") {
        Some(rest) => Some(trim(rest.as_str())),
        None => None,
    }
}

/// The commit that `HEAD` names.
pub fn read_head(refs: &RefStore) -> (r: Result<ObjectId, HeadError>)
    requires
        refs.wf(),
    ensures
        match head_commit(refs@) {
            Ok(h) => r matches Ok(id) && id@ == h,
            Err(f) => r matches Err(e) && e@ == f,
        },
{
    let content = match &refs.head {
        None => return Err(HeadError::Missing),
        Some(c) => c,
    };
    match parse_head(content.as_str()) {
        Some(path) => match refs.get_ref(path.as_str()) {
            Some(text) => {
                let t = trim(text.as_str());
                match hex_to_hash(t.as_str()) {
                    Ok(h) => Ok(h),
                    Err(e) => Err(HeadError::InvalidReference(e)),
                }
            },
            None => {
                if refs.has_dir(path.as_str()) {
                    Err(HeadError::Unreadable(path))
                } else {
                    Err(HeadError::NoReference(path))
                }
            },
        },
        None => {
            let t = trim(content.as_str());
            match hex_to_hash(t.as_str()) {
                Ok(h) => Ok(h),
                Err(e) => Err(HeadError::InvalidHead(e)),
            }
        },
    }
}

/// Makes `hash` the commit that `HEAD` names: the reference that `HEAD` names
/// changes, or `HEAD` itself.
pub fn write_head(refs: &mut RefStore, hash: &ObjectId)
    requires
        old(refs).wf(),
    ensures
        final(refs).wf(),
        final(refs)@ == with_head_commit(old(refs)@, crate::hash::hex_text(hash@)),
{
    let hex = crate::hash::hash_to_hex(hash);
    let symbol: Option<String> = match &refs.head {
        Some(c) => parse_head(c.as_str()),
        None => None,
    };
    match symbol {
        Some(path) => refs.set_ref(path, hex),
        None => refs.set_head(hex),
    }
}

/// After a commit has become the one that `HEAD` names, it is the one that is
/// read.
pub proof fn head_round_trip(r: Refs, id: Seq<u8>)
    requires
        id.len() == 32,
    ensures
        head_commit(with_head_commit(r, crate::hash::hex_text(id))) == Ok::<Seq<u8>, HeadFault>(id),
{
    let hex = crate::hash::hex_text(id);
    crate::hash::hex_round_trip(id);
    lemma_hex_untrimmed(id);
    lemma_hex_no_symbol(id);
}

proof fn lemma_hex_untrimmed(id: Seq<u8>)
    requires
        id.len() > 0,
    ensures
        trim_spec(crate::hash::hex_text(id)) == crate::hash::hex_text(id),
{
    let hex = crate::hash::hex_text(id);
    assert(!crate::text::is_space(hex[0]));
    assert(!crate::text::is_space(hex.last()));
}

proof fn lemma_hex_no_symbol(id: Seq<u8>)
    requires
        id.len() > 0,
    ensures
        head_symbol(crate::hash::hex_text(id)) is None,
{
    let hex = crate::hash::hex_text(id);
    lemma_hex_untrimmed(id);
    reveal_strlit("ref:");
    if has_prefix(hex, "ref:"@) {
        assert(hex.subrange(0, 4)[0] == 'r');
        assert(hex[0] == 'r');
    }
}

/// A hash in a line of its own is read back.
pub proof fn lemma_hash_line_reads_back(id: Seq<u8>)
    requires
        id.len() == 32,
    ensures
        decoded_hash(encode_utf8(trim_spec(crate::hash::hex_text(id) + "\n"@))) == Ok::<
            Seq<u8>,
            HexError,
        >(id),
{
    let hex = crate::hash::hex_text(id);
    crate::hash::hex_round_trip(id);
    reveal_strlit("\n");
    assert(!crate::text::is_space(hex[0]));
    assert(!crate::text::is_space(hex.last()));
    crate::text::lemma_trim_around(hex, Seq::empty(), "\n"@);
    assert(Seq::<char>::empty() + hex + "\n"@ =~= hex + "\n"@);
}

/// A hash is read back.
pub proof fn lemma_hash_reads_back(id: Seq<u8>)
    requires
        id.len() == 32,
    ensures
        decoded_hash(encode_utf8(trim_spec(crate::hash::hex_text(id)))) == Ok::<
            Seq<u8>,
            HexError,
        >(id),
{
    crate::hash::hex_round_trip(id);
    lemma_hex_untrimmed(id);
}

} // verus!
