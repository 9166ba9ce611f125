//! Reading and writing whole index files.
use vstd::prelude::*;
use vstd::string::*;
use vstd::utf8::*;

use crate::codec::{bytes_eq, le_value, push_bytes};
use crate::hash::{checksum_bytes, sha256_digest};
use crate::helix_index::format::{
    entry_bytes, entry_reads, entry_refused, entry_round_trip, entry_views, header_bytes,
    header_reads, header_refused, header_round_trip, holds_entry, holds_header, lemma_entry_len,
    lemma_header_len, Entry, EntryFlags, EntryView, Footer, FormatError, Header, FOOTER_SIZE,
    MAGIC, VERSION,
};
use crate::path::{is_under, join, join_spec, path_eq, same_path, starts_with_dir};
use crate::text::texts;

verus! {

/// The contents of an index file.
#[derive(Debug, Clone)]
pub struct HelixIndex {
    pub header: Header,
    pub entries: Vec<Entry>,
}

/// Why a file is not an index file.
#[derive(Debug)]
pub enum IndexError {
    /// There is no file at this path.
    Missing(String),
    /// The file is shorter than a header and a footer.
    TooSmall,
    Header(FormatError),
    /// The entries end before the entry with this number.
    UnexpectedEnd(u32),
    /// The entry with this number cannot be read.
    Entry(u32, FormatError),
    Footer(FormatError),
    ChecksumMismatch,
}

/// The checksum that the footer holds for the bytes before it: their digest.
pub open spec fn index_checksum(body: Seq<u8>) -> [u8; 32] {
    sha256_digest(body)
}

/// The bytes of a file from the entry `i` on.
pub open spec fn entry_tail(data: Seq<u8>, i: int) -> Seq<u8> {
    data.subrange(128 + 296 * i, data.len() as int)
}

/// Whether the entry `i` of a file can be read: it starts before the footer,
/// and its bytes are those of an entry.
pub open spec fn entry_readable(data: Seq<u8>, i: int) -> bool {
    128 + 296 * i < data.len() - 32 && holds_entry(entry_tail(data, i))
}

/// The number of entries that the header of a file claims.
pub open spec fn claimed_entries(data: Seq<u8>) -> nat {
    crate::codec::le_value(data.subrange(48, 52))
}

/// Whether `data` is an index file.
pub open spec fn is_index_file(data: Seq<u8>) -> bool {
    &&& data.len() >= 160
    &&& holds_header(data.subrange(0, 128))
    &&& forall|i: int| 0 <= i < claimed_entries(data) ==> #[trigger] entry_readable(data, i)
    &&& data.subrange(data.len() - 32, data.len() as int) == index_checksum(
        data.subrange(0, data.len() - 32),
    )@
}

/// Whether `ix` is what the index file `data` holds.
pub open spec fn index_reads(ix: HelixIndex, data: Seq<u8>) -> bool {
    &&& header_reads(ix.header, data.subrange(0, 128))
    &&& ix.entries@.len() == claimed_entries(data)
    &&& forall|i: int|
        0 <= i < ix.entries@.len() ==> entry_reads(#[trigger] ix.entries@[i]@, entry_tail(data, i))
}

/// Whether `e` is the error for a file that is not an index file: the first
/// thing that is wrong from the start of the file on, and the checksum last.
pub open spec fn index_refused(data: Seq<u8>, e: IndexError) -> bool {
    if data.len() < 160 {
        e is TooSmall
    } else if !holds_header(data.subrange(0, 128)) {
        e matches IndexError::Header(h) && header_refused(data.subrange(0, 128), h)
    } else if exists|i: int| 0 <= i < claimed_entries(data) && !#[trigger] entry_readable(data, i) {
        match e {
            IndexError::UnexpectedEnd(k) => {
                &&& k < claimed_entries(data)
                &&& 128 + 296 * k >= data.len() - 32
                &&& forall|i: int| 0 <= i < k ==> #[trigger] entry_readable(data, i)
            },
            IndexError::Entry(k, f) => {
                &&& k < claimed_entries(data)
                &&& 128 + 296 * k < data.len() - 32
                &&& !holds_entry(entry_tail(data, k as int))
                &&& entry_refused(entry_tail(data, k as int), f)
                &&& forall|i: int| 0 <= i < k ==> #[trigger] entry_readable(data, i)
            },
            _ => false,
        }
    } else {
        e is ChecksumMismatch
    }
}

impl HelixIndex {
    /// Reads an index file.
    pub fn parse(data: &[u8]) -> (r: Result<HelixIndex, IndexError>)
        ensures
            match r {
                Ok(ix) => is_index_file(data@) && index_reads(ix, data@),
                Err(e) => !is_index_file(data@) && index_refused(data@, e),
            },
    {
        if data.len() < Header::HEADER_SIZE + FOOTER_SIZE {
            return Err(IndexError::TooSmall);
        }
        let header: Header = match Header::from_bytes(
            vstd::slice::slice_subrange(data, 0, Header::HEADER_SIZE),
        ) {
            Ok(h) => h,
            Err(e) => return Err(IndexError::Header(e)),
        };
        assert(data@.subrange(0, 128).subrange(48, 52) =~= data@.subrange(48, 52));
        let count: u32 = header.entry_count;
        let mut entries: Vec<Entry> = Vec::new();
        let entries_end: usize = data.len() - FOOTER_SIZE;
        let mut offset: usize = Header::HEADER_SIZE;
        let mut i: u32 = 0;
        while i < count
            invariant
                i <= count,
                count == claimed_entries(data@),
                data.len() >= 160,
                holds_header(data@.subrange(0, 128)),
                entries_end == data.len() - 32,
                offset == 128 + 296 * i,
                i > 0 ==> offset <= data.len(),
                entries@.len() == i,
                forall|j: int| 0 <= j < i ==> #[trigger] entry_readable(data@, j),
                forall|j: int|
                    0 <= j < i ==> entry_reads(#[trigger] entries@[j]@, entry_tail(data@, j)),
            decreases count - i,
        {
            if offset >= entries_end {
                assert(!entry_readable(data@, i as int));
                return Err(IndexError::UnexpectedEnd(i));
            }
            let tail = vstd::slice::slice_subrange(data, offset, data.len());
            assert(tail@ == entry_tail(data@, i as int));
            match Entry::from_bytes(tail) {
                Ok(e) => {
                    assert(entry_readable(data@, i as int));
                    entries.push(e);
                },
                Err(e) => {
                    assert(!entry_readable(data@, i as int));
                    return Err(IndexError::Entry(i, e));
                },
            }
            offset = offset + Entry::ENTRY_MAX_SIZE;
            i = i + 1;
        }
        let footer: Footer = match Footer::from_bytes(
            vstd::slice::slice_subrange(data, entries_end, data.len()),
        ) {
            Ok(f) => f,
            Err(e) => return Err(IndexError::Footer(e)),
        };
        let body = vstd::slice::slice_subrange(data, 0, entries_end);
        let computed: [u8; 32] = checksum_bytes(body);
        proof {
            let f = data@.subrange(entries_end as int, data@.len() as int);
            assert(f.subrange(0, 32) =~= f);
        }
        if !bytes_eq(&computed, &footer.checksum) {
            return Err(IndexError::ChecksumMismatch);
        }
        Ok(HelixIndex { header, entries })
    }
}

/// The bytes of the entries, one after the other.
pub open spec fn entries_bytes(es: Seq<EntryView>) -> Seq<u8>
    decreases es.len(),
{
    if es.len() == 0 {
        Seq::empty()
    } else {
        entries_bytes(es.drop_last()) + entry_bytes(es.last())
    }
}

/// The index file of a header and entries.
pub open spec fn index_bytes(h: Header, es: Seq<EntryView>) -> Seq<u8> {
    let body = header_bytes(h) + entries_bytes(es);
    body + index_checksum(body)@
}

/// Whether the path of an entry fits in the file.
pub open spec fn path_fits(e: EntryView) -> bool {
    encode_utf8(e.path).len() <= 200
}

/// Whether the path of every entry fits in the file.
pub open spec fn all_fit(es: Seq<EntryView>) -> bool {
    forall|i: int| 0 <= i < es.len() ==> path_fits(#[trigger] es[i])
}

/// Whether `e` is the error for entries that do not all fit: it gives the length of
/// the first path that does not.
pub open spec fn is_misfit(es: Seq<EntryView>, e: FormatError) -> bool {
    exists|k: int|
        {
            &&& 0 <= k < es.len()
            &&& !path_fits(#[trigger] es[k])
            &&& forall|i: int| 0 <= i < k ==> path_fits(#[trigger] es[i])
            &&& e == FormatError::PathLengthLongerThanMaxSize(
                encode_utf8(es[k].path).len() as usize,
            )
        }
}

impl HelixIndex {
    /// The index file of the header and the entries. It is refused if the path
    /// of an entry does not fit; the error speaks of the first such entry.
    pub fn to_bytes(&self) -> (r: Result<Vec<u8>, FormatError>)
        ensures
            match r {
                Ok(b) => {
                    &&& all_fit(entry_views(self.entries@))
                    &&& b@ == index_bytes(self.header, entry_views(self.entries@))
                },
                Err(e) => is_misfit(entry_views(self.entries@), e),
            },
    {
        let head: [u8; 128] = self.header.to_bytes();
        let mut buf: Vec<u8> = Vec::new();
        push_bytes(&mut buf, &head);
        let mut i: usize = 0;
        assert(entry_views(self.entries@).subrange(0, 0) =~= Seq::empty());
        assert(buf@ =~= header_bytes(self.header) + entries_bytes(Seq::empty()));
        while i < self.entries.len()
            invariant
                i <= self.entries.len(),
                forall|j: int| 0 <= j < i ==> path_fits(#[trigger] self.entries@[j]@),
                buf@ == header_bytes(self.header) + entries_bytes(
                    entry_views(self.entries@).subrange(0, i as int),
                ),
            decreases self.entries.len() - i,
        {
            let ghost before = buf@;
            match self.entries[i].to_bytes() {
                Ok(b) => {
                    push_bytes(&mut buf, b.as_slice());
                    proof {
                        let es = entry_views(self.entries@).subrange(0, i + 1);
                        assert(es.drop_last() =~= entry_views(self.entries@).subrange(0, i as int));
                        assert(es.last() == self.entries@[i as int]@);
                        assert(buf@ =~= header_bytes(self.header) + entries_bytes(es));
                    }
                },
                Err(e) => {
                    proof {
                        let es = entry_views(self.entries@);
                        assert(!path_fits(es[i as int]));
                        assert forall|j: int| 0 <= j < i implies path_fits(#[trigger] es[j]) by {
                            assert(path_fits(self.entries@[j]@));
                        }
                    }
                    return Err(e);
                },
            }
            i = i + 1;
        }
        proof {
            let es = entry_views(self.entries@);
            assert(es.subrange(0, i as int) =~= es);
            assert forall|j: int| 0 <= j < es.len() implies path_fits(#[trigger] es[j]) by {
                assert(path_fits(self.entries@[j]@));
            }
        }
        let footer: [u8; 32] = Footer::new(checksum_bytes(buf.as_slice())).to_bytes();
        push_bytes(&mut buf, &footer);
        Ok(buf)
    }
}

pub proof fn lemma_entries_bytes_at(es: Seq<EntryView>, i: int)
    requires
        0 <= i < es.len(),
        forall|j: int| 0 <= j < es.len() ==> path_fits(#[trigger] es[j]),
    ensures
        entries_bytes(es).len() == 296 * es.len(),
        entries_bytes(es).subrange(296 * i, 296 * i + 296) == entry_bytes(es[i]),
    decreases es.len(),
{
    let d = es.drop_last();
    lemma_entry_len(es.last());
    if i < d.len() {
        assert forall|j: int| 0 <= j < d.len() implies path_fits(#[trigger] d[j]) by {
            assert(d[j] == es[j]);
        }
        lemma_entries_bytes_at(d, i);
        assert(entries_bytes(es).subrange(296 * i, 296 * i + 296) =~= entries_bytes(d).subrange(
            296 * i,
            296 * i + 296,
        ));
    } else {
        lemma_entries_bytes_len(d);
        assert(entries_bytes(es).subrange(296 * i, 296 * i + 296) =~= entry_bytes(es[i]));
    }
}

pub proof fn lemma_entries_bytes_len(es: Seq<EntryView>)
    requires
        forall|j: int| 0 <= j < es.len() ==> path_fits(#[trigger] es[j]),
    ensures
        entries_bytes(es).len() == 296 * es.len(),
    decreases es.len(),
{
    if es.len() > 0 {
        let d = es.drop_last();
        assert forall|j: int| 0 <= j < d.len() implies path_fits(#[trigger] d[j]) by {
            assert(d[j] == es[j]);
        }
        lemma_entries_bytes_len(d);
        lemma_entry_len(es.last());
    }
}

proof fn lemma_entry_in_file(h: Header, es: Seq<EntryView>, i: int)
    requires
        0 <= i < es.len(),
        forall|j: int| 0 <= j < es.len() ==> path_fits(#[trigger] es[j]),
        es[i].flags.bits & !EntryFlags::ALL == 0,
    ensures
        entry_readable(index_bytes(h, es), i),
        forall|f: EntryView|
            #[trigger] entry_reads(f, entry_tail(index_bytes(h, es), i)) ==> f == es[i],
{
    let data = index_bytes(h, es);
    lemma_header_len(h);
    lemma_entries_bytes_len(es);
    lemma_entries_bytes_at(es, i);
    lemma_entry_len(es[i]);
    let tail = entry_tail(data, i);
    let rest = data.subrange(128 + 296 * i + 296, data.len() as int);
    assert(tail =~= entry_bytes(es[i]) + rest) by {
        assert(entry_bytes(es[i]) =~= data.subrange(128 + 296 * i, 128 + 296 * i + 296));
    }
    entry_round_trip(es[i], rest);
}

/// Reading the file of a header and entries gives them back, where the header
/// counts the entries, every path fits and every flag is a known one.
#[verifier::rlimit(40)]
pub proof fn index_round_trip(h: Header, es: Seq<EntryView>)
    requires
        h.magic == MAGIC,
        h.version == VERSION,
        h.entry_count == es.len(),
        forall|i: int|
            0 <= i < es.len() ==> path_fits(#[trigger] es[i]) && es[i].flags.bits & !EntryFlags::ALL
                == 0,
    ensures
        is_index_file(index_bytes(h, es)),
        forall|ix: HelixIndex| #[trigger]
            index_reads(ix, index_bytes(h, es)) ==> ix.header == h && entry_views(ix.entries@)
                == es,
{
    let data = index_bytes(h, es);
    let body = header_bytes(h) + entries_bytes(es);
    lemma_header_len(h);
    lemma_entries_bytes_len(es);
    header_round_trip(h, Seq::empty());
    assert(header_bytes(h) + Seq::<u8>::empty() =~= header_bytes(h));
    assert(data.subrange(0, 128) =~= header_bytes(h));
    assert(data.subrange(48, 52) =~= header_bytes(h).subrange(48, 52));
    assert(claimed_entries(data) == es.len());
    assert(data.subrange(0, data.len() - 32) =~= body);
    assert(data.subrange(data.len() - 32, data.len() as int) =~= index_checksum(body)@);
    assert forall|i: int| 0 <= i < es.len() implies #[trigger] entry_readable(data, i) by {
        lemma_entry_in_file(h, es, i);
    }
    assert forall|ix: HelixIndex| #[trigger] index_reads(ix, data) implies ix.header == h
        && entry_views(ix.entries@) == es by {
        assert forall|i: int| 0 <= i < es.len() implies entry_views(ix.entries@)[i] == es[i] by {
            assert(entry_reads(ix.entries@[i]@, entry_tail(data, i)));
            lemma_entry_in_file(h, es, i);
        }
        assert(entry_views(ix.entries@) =~= es);
    }
}

/// An index file is refused with another footer, for its checksum.
pub proof fn other_footer_is_refused(data: Seq<u8>, other: Seq<u8>)
    requires
        is_index_file(data),
        other.len() == data.len(),
        other.subrange(0, data.len() - 32) == data.subrange(0, data.len() - 32),
        other != data,
    ensures
        !is_index_file(other),
        forall|e: IndexError| #[trigger] index_refused(other, e) ==> e is ChecksumMismatch,
{
    let n = data.len() as int;
    let body = data.subrange(0, n - 32);
    let foot = data.subrange(n - 32, n);
    let last = other.subrange(n - 32, n);
    assert(data =~= body + foot);
    assert(other =~= body + last);
    assert(other.subrange(0, 128) =~= body.subrange(0, 128));
    assert(data.subrange(0, 128) =~= body.subrange(0, 128));
    assert(other.subrange(48, 52) =~= body.subrange(48, 52));
    assert(data.subrange(48, 52) =~= body.subrange(48, 52));
    assert forall|i: int| 0 <= i < claimed_entries(other) implies #[trigger] entry_readable(
        other,
        i,
    ) by {
        assert(entry_readable(data, i));
        let a = entry_tail(data, i);
        let b = entry_tail(other, i);
        let at = 128 + 296 * i;
        assert(a.len() >= 296);
        let c = body.subrange(at, at + 264);
        assert(a.subrange(0, 264) =~= c);
        assert(b.subrange(0, 264) =~= c);
        assert(a.subrange(0, 2) =~= c.subrange(0, 2));
        assert(b.subrange(0, 2) =~= c.subrange(0, 2));
        assert(a.subrange(222, 226) =~= c.subrange(222, 226));
        assert(b.subrange(222, 226) =~= c.subrange(222, 226));
        let k = le_value(a.subrange(0, 2)) as int;
        assert(a.subrange(2, 2 + k) =~= c.subrange(2, 2 + k));
        assert(b.subrange(2, 2 + k) =~= c.subrange(2, 2 + k));
    }
}

/// The place of the first entry with this path, or the number of entries.
pub open spec fn first_entry(es: Seq<EntryView>, path: Seq<char>) -> int
    decreases es.len(),
{
    if es.len() == 0 || same_path(es[0].path, path) {
        0
    } else {
        1 + first_entry(es.subrange(1, es.len() as int), path)
    }
}

pub proof fn lemma_first_entry(es: Seq<EntryView>, path: Seq<char>)
    ensures
        0 <= first_entry(es, path) <= es.len(),
        forall|j: int|
            0 <= j < first_entry(es, path) ==> !same_path((#[trigger] es[j]).path, path),
        first_entry(es, path) < es.len() ==> same_path(es[first_entry(es, path)].path, path),
    decreases es.len(),
{
    if es.len() > 0 && !same_path(es[0].path, path) {
        let t = es.subrange(1, es.len() as int);
        lemma_first_entry(t, path);
        assert forall|j: int| 0 <= j < first_entry(es, path) implies !same_path(
            (#[trigger] es[j]).path,
            path,
        ) by {
            if j > 0 {
                assert(t[j - 1] == es[j]);
            }
        }
        if first_entry(es, path) < es.len() {
            assert(t[first_entry(t, path)] == es[first_entry(es, path)]);
        }
    }
}

/// The place of the first of `entries` with this path, if there is one.
pub fn find_entry_at(entries: &Vec<Entry>, path: &str) -> (r: Option<usize>)
    ensures
        match r {
            Some(i) => i < entries@.len() && i == first_entry(entry_views(entries@), path@),
            None => first_entry(entry_views(entries@), path@) == entries@.len(),
        },
{
    let mut i: usize = 0;
    let ghost es = entry_views(entries@);
    assert(es.subrange(0, es.len() as int) =~= es);
    while i < entries.len()
        invariant
            i <= entries.len(),
            es == entry_views(entries@),
            first_entry(es, path@) == i + first_entry(
                es.subrange(i as int, es.len() as int),
                path@,
            ),
        decreases entries.len() - i,
    {
        let ghost rest = es.subrange(i as int, es.len() as int);
        assert(rest[0] == entries@[i as int]@);
        if path_eq(entries[i].path.as_str(), path) {
            return Some(i);
        }
        assert(rest.subrange(1, rest.len() as int) =~= es.subrange(i + 1, es.len() as int));
        i += 1;
    }
    None
}

impl HelixIndex {
    /// The first entry with this path.
    pub fn get(&self, path: &str) -> (r: Option<&Entry>)
        ensures
            ({
                let k = first_entry(entry_views(self.entries@), path@);
                if k < self.entries@.len() {
                    r == Some(&self.entries@[k])
                } else {
                    r is None
                }
            }),
    {
        match find_entry_at(&self.entries, path) {
            Some(i) => Some(&self.entries[i]),
            None => None,
        }
    }

    /// The first entry with this path, to be changed in place.
    pub fn get_mut(&mut self, path: &str) -> (r: Option<&mut Entry>)
        ensures
            ({
                let k = first_entry(entry_views(old(self).entries@), path@);
                &&& final(self).header == old(self).header
                &&& match r {
                    Some(e) => {
                        &&& k < old(self).entries@.len()
                        &&& *e == old(self).entries@[k]
                        &&& final(self).entries@ == old(self).entries@.update(k, *final(e))
                    },
                    None => k == old(self).entries@.len() && final(self).entries@ == old(
                        self,
                    ).entries@,
                }
            }),
    {
        match find_entry_at(&self.entries, path) {
            Some(i) => Some(&mut self.entries[i]),
            None => None,
        }
    }

    /// An index with fast look-up by path.
    pub fn into_cached(self) -> (c: CachedHelixIndex)
        ensures
            c.data == self,
    {
        CachedHelixIndex { data: self }
    }
}

/// An index for look-up and queries. Where two entries have one path, look-up
/// finds the last.
pub struct CachedHelixIndex {
    pub data: HelixIndex,
}

/// The entries behind the references.
pub open spec fn referents(v: Seq<&Entry>) -> Seq<Entry> {
    Seq::new(v.len(), |i: int| *v[i])
}

/// The entries that have every flag of `mask`, in order.
pub open spec fn with_flags(es: Seq<Entry>, mask: u32) -> Seq<Entry> {
    es.filter(|e: Entry| e.flags.has(mask))
}

/// How often `true` occurs.
pub open spec fn count_true(s: Seq<bool>) -> nat
    decreases s.len(),
{
    if s.len() == 0 {
        0
    } else {
        count_true(s.drop_last()) + if s.last() {
            1nat
        } else {
            0
        }
    }
}

impl CachedHelixIndex {
    /// Whether some entry has this path.
    pub open spec fn has_path(&self, path: Seq<char>) -> bool {
        exists|i: int| 0 <= i < self.data.entries@.len() && #[trigger] self.data.entries@[i].path@
            == path
    }

    /// The last entry with this path.
    pub fn get(&self, path: &str) -> (r: Option<&Entry>)
        ensures
            match r {
                Some(e) => exists|k: int|
                    {
                        &&& 0 <= k < self.data.entries@.len()
                        &&& *e == #[trigger] self.data.entries@[k]
                        &&& e.path@ == path@
                        &&& forall|j: int|
                            k < j < self.data.entries@.len() ==> (
                            #[trigger] self.data.entries@[j]).path@ != path@
                    },
                None => !self.has_path(path@),
            },
    {
        let mut i: usize = self.data.entries.len();
        while i > 0
            invariant
                i <= self.data.entries.len(),
                forall|j: int|
                    i <= j < self.data.entries@.len() ==> (#[trigger] self.data.entries@[j]).path@
                        != path@,
            decreases i,
        {
            i -= 1;
            if crate::text::str_eq(self.data.entries[i].path.as_str(), path) {
                return Some(&self.data.entries[i]);
            }
        }
        None
    }

    /// Whether some entry has this path.
    pub fn contains(&self, path: &str) -> (r: bool)
        ensures
            r == self.has_path(path@),
    {
        match self.get(path) {
            Some(_) => true,
            None => false,
        }
    }

    pub fn entries(&self) -> (r: &Vec<Entry>)
        ensures
            r == &self.data.entries,
    {
        &self.data.entries
    }

    pub fn header(&self) -> (r: &Header)
        ensures
            r == &self.data.header,
    {
        &self.data.header
    }

    /// The entries with every flag of `mask`, in order.
    fn flagged(&self, mask: u32) -> (r: Vec<&Entry>)
        ensures
            referents(r@) == with_flags(self.data.entries@, mask),
    {
        let mut r: Vec<&Entry> = Vec::new();
        let mut i: usize = 0;
        let ghost p = |e: Entry| e.flags.has(mask);
        let ghost es = self.data.entries@;
        proof {
            reveal(Seq::filter);
            assert(referents(r@) =~= es.subrange(0, 0).filter(p));
        }
        while i < self.data.entries.len()
            invariant
                i <= self.data.entries.len(),
                es == self.data.entries@,
                p == (|e: Entry| e.flags.has(mask)),
                referents(r@) == es.subrange(0, i as int).filter(p),
            decreases self.data.entries.len() - i,
        {
            proof {
                reveal(Seq::filter);
                let t = es.subrange(0, i + 1);
                assert(t.drop_last() =~= es.subrange(0, i as int));
                assert(t.last() == es[i as int]);
            }
            let ghost before = r@;
            if self.data.entries[i].flags.contains(mask) {
                r.push(&self.data.entries[i]);
                assert(referents(r@) =~= referents(before).push(es[i as int]));
            }
            i += 1;
        }
        assert(es.subrange(0, i as int) =~= es);
        r
    }

    pub fn staged_files(&self) -> (r: Vec<&Entry>)
        ensures
            referents(r@) == with_flags(self.data.entries@, EntryFlags::STAGED),
    {
        self.flagged(EntryFlags::STAGED)
    }

    pub fn modified_files(&self) -> (r: Vec<&Entry>)
        ensures
            referents(r@) == with_flags(self.data.entries@, EntryFlags::MODIFIED),
    {
        self.flagged(EntryFlags::MODIFIED)
    }

    pub fn untracked_files(&self) -> (r: Vec<&Entry>)
        ensures
            referents(r@) == with_flags(self.data.entries@, EntryFlags::UNTRACKED),
    {
        self.flagged(EntryFlags::UNTRACKED)
    }

    pub fn tracked_files(&self) -> (r: Vec<&Entry>)
        ensures
            referents(r@) == with_flags(self.data.entries@, EntryFlags::TRACKED),
    {
        self.flagged(EntryFlags::TRACKED)
    }

    pub fn conflict_files(&self) -> (r: Vec<&Entry>)
        ensures
            referents(r@) == with_flags(self.data.entries@, EntryFlags::CONFLICT),
    {
        self.flagged(EntryFlags::CONFLICT)
    }

    /// How many entries match the predicate.
    pub fn count_matching<F: Fn(&Entry) -> bool>(&self, predicate: F) -> (r: usize)
        requires
            forall|i: int|
                0 <= i < self.data.entries@.len() ==> predicate.requires(
                    (&#[trigger] self.data.entries@[i],),
                ),
        ensures
            exists|m: Seq<bool>|
                {
                    &&& m.len() == self.data.entries@.len()
                    &&& forall|i: int|
                        0 <= i < m.len() ==> predicate.ensures(
                            (&self.data.entries@[i],),
                            #[trigger] m[i],
                        )
                    &&& r == #[trigger] count_true(m)
                },
    {
        let mut n: usize = 0;
        let mut i: usize = 0;
        let ghost mut m: Seq<bool> = Seq::empty();
        while i < self.data.entries.len()
            invariant
                i <= self.data.entries.len(),
                n <= i,
                m.len() == i,
                n == count_true(m),
                forall|j: int|
                    0 <= j < self.data.entries@.len() ==> predicate.requires(
                        (&#[trigger] self.data.entries@[j],),
                    ),
                forall|j: int|
                    0 <= j < m.len() ==> predicate.ensures(
                        (&self.data.entries@[j],),
                        #[trigger] m[j],
                    ),
            decreases self.data.entries.len() - i,
        {
            let hit: bool = predicate(&self.data.entries[i]);
            proof {
                assert(m.push(hit).drop_last() =~= m);
                m = m.push(hit);
            }
            if hit {
                n += 1;
            }
            i += 1;
        }
        n
    }

    /// The first entry that matches the predicate, if there is one.
    pub fn find_entry<F: Fn(&Entry) -> bool>(&self, predicate: F) -> (r: Option<&Entry>)
        requires
            forall|i: int|
                0 <= i < self.data.entries@.len() ==> predicate.requires(
                    (&#[trigger] self.data.entries@[i],),
                ),
        ensures
            match r {
                Some(e) => exists|i: int|
                    {
                        &&& 0 <= i < self.data.entries@.len()
                        &&& *e == #[trigger] self.data.entries@[i]
                        &&& predicate.ensures((e,), true)
                        &&& forall|j: int|
                            0 <= j < i ==> predicate.ensures(
                                (&#[trigger] self.data.entries@[j],),
                                false,
                            )
                    },
                None => forall|i: int|
                    0 <= i < self.data.entries@.len() ==> predicate.ensures(
                        (&#[trigger] self.data.entries@[i],),
                        false,
                    ),
            },
    {
        let mut i: usize = 0;
        while i < self.data.entries.len()
            invariant
                i <= self.data.entries.len(),
                forall|j: int|
                    0 <= j < self.data.entries@.len() ==> predicate.requires(
                        (&#[trigger] self.data.entries@[j],),
                    ),
                forall|j: int|
                    0 <= j < i ==> predicate.ensures((&#[trigger] self.data.entries@[j],), false),
            decreases self.data.entries.len() - i,
        {
            if predicate(&self.data.entries[i]) {
                assert(self.data.entries@[i as int] == self.data.entries[i as int]);
                return Some(&self.data.entries[i]);
            }
            i += 1;
        }
        None
    }

    /// Whether some entry matches the predicate.
    pub fn any_matching<F: Fn(&Entry) -> bool>(&self, predicate: F) -> (r: bool)
        requires
            forall|i: int|
                0 <= i < self.data.entries@.len() ==> predicate.requires(
                    (&#[trigger] self.data.entries@[i],),
                ),
        ensures
            r ==> exists|i: int|
                0 <= i < self.data.entries@.len() && predicate.ensures(
                    (&#[trigger] self.data.entries@[i],),
                    true,
                ),
            !r ==> forall|i: int|
                0 <= i < self.data.entries@.len() ==> predicate.ensures(
                    (&#[trigger] self.data.entries@[i],),
                    false,
                ),
    {
        match self.find_entry(predicate) {
            Some(_) => true,
            None => false,
        }
    }

    /// The index itself.
    pub fn into_data(self) -> (r: HelixIndex)
        ensures
            r == self.data,
    {
        self.data
    }
}

/// The paths of entries, in order.
pub open spec fn paths_of(v: Seq<Entry>) -> Seq<Seq<char>> {
    Seq::new(v.len(), |i: int| v[i].path@)
}

/// The entries at or below a directory, in order.
pub open spec fn entries_below(es: Seq<Entry>, dir: Seq<char>) -> Seq<Entry>
    decreases es.len(),
{
    if es.len() == 0 {
        es
    } else if is_under(es.last().path@, dir) {
        entries_below(es.drop_last(), dir).push(es.last())
    } else {
        entries_below(es.drop_last(), dir)
    }
}

/// The paths behind references to entries.
fn collect_paths(v: &Vec<&Entry>) -> (r: Vec<String>)
    ensures
        texts(r@) == paths_of(referents(v@)),
{
    let mut r: Vec<String> = Vec::new();
    let mut i: usize = 0;
    while i < v.len()
        invariant
            i <= v.len(),
            r@.len() == i,
            forall|j: int| 0 <= j < i ==> (#[trigger] r@[j])@ == v@[j].path@,
        decreases v.len() - i,
    {
        r.push(v[i].path.clone());
        i += 1;
    }
    assert(texts(r@) =~= paths_of(referents(v@)));
    r
}

impl CachedHelixIndex {
    /// The entries at or below a directory, in order.
    pub fn entries_in_dir(&self, dir: &str) -> (r: Vec<&Entry>)
        ensures
            referents(r@) == entries_below(self.data.entries@, dir@),
    {
        let mut r: Vec<&Entry> = Vec::new();
        let ghost es = self.data.entries@;
        let mut i: usize = 0;
        assert(referents(r@) =~= entries_below(es.subrange(0, 0), dir@));
        while i < self.data.entries.len()
            invariant
                i <= self.data.entries.len(),
                es == self.data.entries@,
                referents(r@) == entries_below(es.subrange(0, i as int), dir@),
            decreases self.data.entries.len() - i,
        {
            proof {
                let t = es.subrange(0, i + 1);
                assert(t.drop_last() =~= es.subrange(0, i as int));
                assert(t.last() == es[i as int]);
            }
            let ghost before = r@;
            if starts_with_dir(self.data.entries[i].path.as_str(), dir) {
                r.push(&self.data.entries[i]);
                assert(referents(r@) =~= referents(before).push(es[i as int]));
            }
            i += 1;
        }
        assert(es.subrange(0, i as int) =~= es);
        r
    }

    /// The paths of the staged entries, in order.
    pub fn collect_staged_paths(&self) -> (r: Vec<String>)
        ensures
            texts(r@) == paths_of(with_flags(self.data.entries@, EntryFlags::STAGED)),
    {
        let v = self.staged_files();
        collect_paths(&v)
    }

    /// The paths of the modified entries, in order.
    pub fn collect_modified_paths(&self) -> (r: Vec<String>)
        ensures
            texts(r@) == paths_of(with_flags(self.data.entries@, EntryFlags::MODIFIED)),
    {
        let v = self.modified_files();
        collect_paths(&v)
    }
}

/// The path of the index file below the directory of a repository.
pub const INDEX_FILE: &'static str = ".helix/helix.idx";

/// Reads the index file of a repository, whose bytes the caller hands over. There
/// are none where there is no file.
#[derive(Debug, Clone, PartialEq, Eq)]
pub struct Reader {
    pub repo_path: String,
}

impl Reader {
    pub fn new(repo_path: &str) -> (r: Reader)
        ensures
            r.repo_path@ == repo_path@,
    {
        Reader { repo_path: repo_path.to_owned() }
    }

    /// The path of the index file.
    pub fn index_path(&self) -> (r: String)
        ensures
            r@ == join_spec(self.repo_path@, INDEX_FILE@),
    {
        join(self.repo_path.as_str(), INDEX_FILE)
    }

    /// Reads the index file.
    pub fn read(&self, file: Option<&Vec<u8>>) -> (r: Result<HelixIndex, IndexError>)
        ensures
            match file {
                None => r matches Err(IndexError::Missing(p)) && p@ == join_spec(
                    self.repo_path@,
                    INDEX_FILE@,
                ),
                Some(b) => match r {
                    Ok(ix) => is_index_file(b@) && index_reads(ix, b@),
                    Err(e) => !is_index_file(b@) && index_refused(b@, e),
                },
            },
    {
        match file {
            None => Err(IndexError::Missing(self.index_path())),
            Some(b) => HelixIndex::parse(b.as_slice()),
        }
    }

    /// Reads the index file for look-up and queries.
    pub fn read_cached(&self, file: Option<&Vec<u8>>) -> (r: Result<CachedHelixIndex, IndexError>)
        ensures
            match file {
                None => r matches Err(IndexError::Missing(p)) && p@ == join_spec(
                    self.repo_path@,
                    INDEX_FILE@,
                ),
                Some(b) => match r {
                    Ok(c) => is_index_file(b@) && index_reads(c.data, b@),
                    Err(e) => !is_index_file(b@) && index_refused(b@, e),
                },
            },
    {
        match self.read(file) {
            Ok(ix) => Ok(ix.into_cached()),
            Err(e) => Err(e),
        }
    }

    /// Reads the header of the index file alone.
    pub fn read_header(&self, file: &Vec<u8>) -> (r: Result<Header, FormatError>)
        ensures
            match r {
                Ok(h) => holds_header(file@) && header_reads(h, file@),
                Err(e) => !holds_header(file@) && header_refused(file@, e),
            },
    {
        Header::from_bytes(file.as_slice())
    }

    /// How many entries the header of the index file counts.
    pub fn entry_count(&self, file: &Vec<u8>) -> (r: Result<u32, FormatError>)
        ensures
            match r {
                Ok(n) => holds_header(file@) && exists|h: Header| #[trigger]
                    header_reads(h, file@) && n == h.entry_count,
                Err(e) => !holds_header(file@) && header_refused(file@, e),
            },
    {
        match self.read_header(file) {
            Ok(h) => Ok(h.entry_count),
            Err(e) => Err(e),
        }
    }

    /// The generation in the header of the index file.
    pub fn generation(&self, file: &Vec<u8>) -> (r: Result<u64, FormatError>)
        ensures
            match r {
                Ok(n) => holds_header(file@) && exists|h: Header| #[trigger]
                    header_reads(h, file@) && n == h.generation,
                Err(e) => !holds_header(file@) && header_refused(file@, e),
            },
    {
        match self.read_header(file) {
            Ok(h) => Ok(h.generation),
            Err(e) => Err(e),
        }
    }
}

/// The bytes of a file, if there is one.
pub open spec fn file_bytes(file: Option<Vec<u8>>) -> Option<Seq<u8>> {
    match file {
        Some(b) => Some(b@),
        None => None,
    }
}

/// Whether this is the generation of the index file: zero where there is none that
/// can be read.
pub open spec fn is_generation_of(file: Option<Seq<u8>>, generation: u64) -> bool {
    match file {
        Some(b) => if is_index_file(b) {
            generation as nat == le_value(b.subrange(8, 16))
        } else {
            generation == 0
        },
        None => generation == 0,
    }
}

/// Whether an index can be written after this file: its generation can grow.
pub open spec fn can_grow(file: Option<Seq<u8>>) -> bool {
    forall|g: u64| #[trigger] is_generation_of(file, g) ==> g < u64::MAX
}

/// The generation of the index file: zero where there is none that can be read.
pub fn generation_of(file: &Option<Vec<u8>>) -> (g: u64)
    ensures
        is_generation_of(file_bytes(*file), g),
{
    match file {
        Some(b) => match HelixIndex::parse(b.as_slice()) {
            Ok(x) => {
                assert(b@.subrange(0, 128).subrange(8, 16) =~= b@.subrange(8, 16));
                x.header.generation
            },
            Err(_) => 0,
        },
        None => 0,
    }
}

} // verus!
