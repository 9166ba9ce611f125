//! The binary format of the index file, `helix.idx`: a header, the entries one
//! after the other, and a footer. All numbers are little-endian.
use vstd::prelude::*;
use vstd::string::*;
use vstd::utf8::*;

use crate::codec::{
    bytes_eq, le_bytes, le_value, lemma_le_bytes_len, lemma_le_round_trip, lemma_pow256_values,
    push_bytes, push_u16, push_u32, push_u64, push_zeros, read_array, read_u16, read_u32, read_u64,
    zeros,
};
use crate::hash::ObjectId;
use crate::text::{concat, decimal, decimal_of, text_of};

verus! {

/// What an index file starts with: `HLIX`.
pub const MAGIC: [u8; 4] = [72, 76, 73, 88];

/// The version of the format.
pub const VERSION: u32 = 2;

/// The length of the footer in bytes.
pub const FOOTER_SIZE: usize = 32;

/// Bytes set aside for an entry's later fields.
pub const ENTRY_RESERVED_SIZE: usize = 64;

/// What is known of a file in the index, one bit for each fact.
///
/// - tracked, modified, not staged: unstaged
/// - tracked, staged, not modified: staged
/// - tracked, neither modified nor staged: clean
/// - tracked, staged and modified: partially staged
/// - untracked, not staged: untracked
/// - untracked, staged: staged (new file)
#[derive(Debug, Clone, Copy, PartialEq, Eq, Structural)]
pub struct EntryFlags {
    pub bits: u32,
}

impl EntryFlags {
    /// The file is in the index (committed or staged).
    pub const TRACKED: u32 = 1;

    /// The file has staged changes.
    pub const STAGED: u32 = 2;

    /// The working tree differs from the index.
    pub const MODIFIED: u32 = 4;

    /// The file is gone from the working tree.
    pub const DELETED: u32 = 8;

    /// The file exists and is not in the index.
    pub const UNTRACKED: u32 = 16;

    /// The file has a merge conflict.
    pub const CONFLICT: u32 = 32;

    pub const ASSUME_UNCHANGED: u32 = 64;

    pub const IGNORED: u32 = 128;

    pub const SYMLINK: u32 = 256;

    /// Every bit with a meaning, and the seven that are kept for later.
    pub const ALL: u32 = 0xffff;

    /// No flag.
    pub fn empty() -> (r: EntryFlags)
        ensures
            r.bits == 0,
    {
        EntryFlags { bits: 0 }
    }

    /// The flags of `bits`, whatever they are.
    pub fn from_bits_retain(bits: u32) -> (r: EntryFlags)
        ensures
            r.bits == bits,
    {
        EntryFlags { bits }
    }

    /// The flags of `bits`, if every bit is a known one.
    pub fn from_bits(bits: u32) -> (r: Option<EntryFlags>)
        ensures
            r == (if bits & !Self::ALL == 0 {
                Some(EntryFlags { bits })
            } else {
                None
            }),
    {
        if bits & !Self::ALL == 0 {
            Some(EntryFlags { bits })
        } else {
            None
        }
    }

    pub fn bits(&self) -> (r: u32)
        ensures
            r == self.bits,
    {
        self.bits
    }

    /// Whether every flag of `mask` is set.
    pub open spec fn has(self, mask: u32) -> bool {
        self.bits & mask == mask
    }

    /// Whether some flag of `mask` is set.
    pub open spec fn meets(self, mask: u32) -> bool {
        self.bits & mask != 0
    }

    /// Whether every flag of `mask` is set.
    pub fn contains(&self, mask: u32) -> (r: bool)
        ensures
            r == self.has(mask),
    {
        self.bits & mask == mask
    }

    /// Whether some flag of `mask` is set.
    pub fn intersects(&self, mask: u32) -> (r: bool)
        ensures
            r == self.meets(mask),
    {
        self.bits & mask != 0
    }

    /// Sets every flag of `mask`.
    pub fn insert(&mut self, mask: u32)
        ensures
            final(self).bits == old(self).bits | mask,
    {
        self.bits = self.bits | mask;
    }

    /// Clears every flag of `mask`.
    pub fn remove(&mut self, mask: u32)
        ensures
            final(self).bits == old(self).bits & !mask,
    {
        self.bits = self.bits & !mask;
    }

    /// Whether the file is tracked and neither modified, deleted nor in
    /// conflict.
    pub fn is_clean(&self) -> (r: bool)
        ensures
            r == (self.has(Self::TRACKED) && !self.has(Self::MODIFIED) && !self.has(Self::DELETED)
                && !self.has(Self::CONFLICT)),
    {
        let b: u32 = self.bits;
        assert(b & 44u32 != 0 <==> (b & 4u32 == 4u32 || b & 8u32 == 8u32 || b & 32u32 == 32u32))
            by (bit_vector);
        assert(4u32 | 8u32 | 32u32 == 44u32) by (bit_vector);
        self.contains(Self::TRACKED) && !self.intersects(
            Self::MODIFIED | Self::DELETED | Self::CONFLICT,
        )
    }

    /// Whether the file is modified, deleted or in conflict.
    pub fn needs_attention(&self) -> (r: bool)
        ensures
            r == (self.has(Self::MODIFIED) || self.has(Self::DELETED) || self.has(Self::CONFLICT)),
    {
        let b: u32 = self.bits;
        assert(b & 44u32 != 0 <==> (b & 4u32 == 4u32 || b & 8u32 == 8u32 || b & 32u32 == 32u32))
            by (bit_vector);
        assert(4u32 | 8u32 | 32u32 == 44u32) by (bit_vector);
        self.intersects(Self::MODIFIED | Self::DELETED | Self::CONFLICT)
    }
}

/// Why the bytes are not those of an index file.
#[derive(Debug)]
pub enum FormatError {
    /// The file starts with other bytes than `HLIX`.
    InvalidMagic([u8; 4]),
    /// The file has another version.
    UnsupportedVersion(u32),
    InvalidHeader(String),
    InvalidEntry(String),
    InvalidFooter(String),
    /// The footer holds another checksum than that of the file.
    ChecksumMismatch,
    /// The path of the entry does not fit.
    PathLengthLongerThanMaxSize(usize),
    /// The entry claims a path longer than the space for it.
    PathLengthTooLong(usize),
    /// The bytes of the path are not UTF-8.
    InvalidPathEncoding(Vec<u8>),
}

/// The numbers of some bytes, in brackets and separated by commas.
pub open spec fn listed_bytes(b: Seq<u8>) -> Seq<char>
    decreases b.len(),
{
    if b.len() == 0 {
        Seq::empty()
    } else if b.len() == 1 {
        decimal(b[0] as nat)
    } else {
        listed_bytes(b.drop_last()) + ", "@ + decimal(b.last() as nat)
    }
}

/// What is wrong with bytes that are not UTF-8, in words.
pub uninterp spec fn utf8_error_text(bytes: Seq<u8>) -> Option<Seq<char>>;

/// Calls `core::str::from_utf8`, and shows the error where it gives one: the words are a
/// function of the bytes, and there are some just if the bytes are not UTF-8.
#[verifier::external_body]
fn utf8_error_words(bytes: &[u8]) -> (r: Option<String>)
    ensures
        text_of(r) == utf8_error_text(bytes@),
        r is Some <==> !valid_utf8(bytes@),
{
    match core::str::from_utf8(bytes) {
        Ok(_) => None,
        Err(e) => Some(e.to_string()),
    }
}

impl FormatError {
    /// The error in words.
    pub fn message(&self) -> (r: String)
        ensures
            match *self {
                FormatError::InvalidMagic(m) => r@ == "Invalid magic bytes: ["@ + listed_bytes(m@)
                    + "]"@,
                FormatError::UnsupportedVersion(v) => r@ == "Unsupported version: "@ + decimal(
                    v as nat,
                ),
                FormatError::InvalidHeader(t) => r@ == "Invalid header: "@ + t@,
                FormatError::InvalidEntry(t) => r@ == "Invalid entry: "@ + t@,
                FormatError::InvalidFooter(t) => r@ == "Invalid footer: "@ + t@,
                FormatError::ChecksumMismatch => r@ == "Checksum mismatch"@,
                FormatError::PathLengthLongerThanMaxSize(n) => r@
                    == "Path length exceeds max size: "@ + decimal(n as nat),
                FormatError::PathLengthTooLong(n) => r@ == "Path length too long: "@ + decimal(
                    n as nat,
                ),
                FormatError::InvalidPathEncoding(b) => r@ == "Path is not encoded correctly: "@ + (
                match utf8_error_text(b@) {
                    Some(t) => t,
                    None => Seq::empty(),
                }),
            },
    {
        match self {
            FormatError::InvalidMagic(m) => {
                let mut r: String = "Invalid magic bytes: [".to_owned();
                let ghost start = r@;
                let mut i: usize = 0;
                assert(start + listed_bytes(m@.subrange(0, 0)) =~= start);
                while i < 4
                    invariant
                        i <= 4,
                        r@ == start + listed_bytes(m@.subrange(0, i as int)),
                    decreases 4 - i,
                {
                    let ghost before = m@.subrange(0, i as int);
                    let ghost now = m@.subrange(0, i + 1);
                    let n: String = decimal_of(m[i] as u64);
                    if i > 0 {
                        r.append(", ");
                    }
                    r.append(n.as_str());
                    proof {
                        assert(now.drop_last() =~= before);
                        assert(now.last() == m@[i as int]);
                        if i > 0 {
                            assert(r@ =~= start + (listed_bytes(before) + ", "@ + n@));
                        } else {
                            assert(now[0] == m@[0]);
                            assert(r@ =~= start + n@);
                        }
                    }
                    i += 1;
                }
                assert(m@.subrange(0, 4) =~= m@);
                r.append("]");
                r
            },
            FormatError::UnsupportedVersion(v) => concat(
                "Unsupported version: ",
                decimal_of(*v as u64).as_str(),
            ),
            FormatError::InvalidHeader(t) => concat("Invalid header: ", t.as_str()),
            FormatError::InvalidEntry(t) => concat("Invalid entry: ", t.as_str()),
            FormatError::InvalidFooter(t) => concat("Invalid footer: ", t.as_str()),
            FormatError::ChecksumMismatch => "Checksum mismatch".to_owned(),
            FormatError::PathLengthLongerThanMaxSize(n) => concat(
                "Path length exceeds max size: ",
                decimal_of(*n as u64).as_str(),
            ),
            FormatError::PathLengthTooLong(n) => concat(
                "Path length too long: ",
                decimal_of(*n as u64).as_str(),
            ),
            FormatError::InvalidPathEncoding(b) => match utf8_error_words(b.as_slice()) {
                Some(words) => concat("Path is not encoded correctly: ", words.as_str()),
                None => {
                    let r: String = "Path is not encoded correctly: ".to_owned();
                    assert(r@ + Seq::<char>::empty() =~= r@);
                    r
                },
            },
        }
    }
}

/// The header of an index file.
#[derive(Debug, Clone, PartialEq, Eq)]
pub struct Header {
    pub magic: [u8; 4],
    pub version: u32,
    /// Grows with every write.
    pub generation: u64,
    pub checksum: ObjectId,
    pub entry_count: u32,
    pub created_at: u64,
    pub last_modified: u64,
    pub reserved: [u8; 60],
}

/// The bytes of a header.
pub open spec fn header_bytes(h: Header) -> Seq<u8> {
    h.magic@ + le_bytes(h.version as nat, 4) + le_bytes(h.generation as nat, 8) + h.checksum@
        + le_bytes(h.entry_count as nat, 4) + le_bytes(h.created_at as nat, 8) + le_bytes(
        h.last_modified as nat,
        8,
    ) + h.reserved@
}

/// Whether `h` is the header at the start of `b`, field by field.
pub open spec fn header_reads(h: Header, b: Seq<u8>) -> bool {
    &&& h.magic@ == b.subrange(0, 4)
    &&& h.version as nat == le_value(b.subrange(4, 8))
    &&& h.generation as nat == le_value(b.subrange(8, 16))
    &&& h.checksum@ == b.subrange(16, 48)
    &&& h.entry_count as nat == le_value(b.subrange(48, 52))
    &&& h.created_at as nat == le_value(b.subrange(52, 60))
    &&& h.last_modified as nat == le_value(b.subrange(60, 68))
    &&& h.reserved@ == b.subrange(68, 128)
}

/// Whether a header of this version stands at the start of `b`.
pub open spec fn holds_header(b: Seq<u8>) -> bool {
    &&& b.len() >= 128
    &&& b.subrange(0, 4) == MAGIC@
    &&& le_value(b.subrange(4, 8)) == VERSION
}

/// Whether `e` is the error for bytes `b` that hold no header: the first of
/// the length, the magic bytes and the version that is wrong.
pub open spec fn header_refused(b: Seq<u8>, e: FormatError) -> bool {
    if b.len() < 128 {
        e matches FormatError::InvalidHeader(m) && m@ == "Too short"@
    } else if b.subrange(0, 4) != MAGIC@ {
        e matches FormatError::InvalidMagic(m) && m@ == b.subrange(0, 4)
    } else {
        e matches FormatError::UnsupportedVersion(v) && v as nat == le_value(b.subrange(4, 8))
    }
}

impl Header {
    /// The length of a header in bytes.
    pub const HEADER_SIZE: usize = 128;

    /// A header for the index as it is written at the time `now`, in seconds
    /// since the Unix epoch. The first generation marks its creation.
    pub fn new(generation: u64, entry_count: u32, now: u64) -> (h: Header)
        ensures
            h.magic == MAGIC,
            h.version == VERSION,
            h.generation == generation,
            h.checksum@ == zeros(32),
            h.entry_count == entry_count,
            h.created_at == (if generation == 1 {
                now
            } else {
                0
            }),
            h.last_modified == now,
            h.reserved@ == zeros(60),
    {
        let checksum: [u8; 32] = [0u8; 32];
        let reserved: [u8; 60] = [0u8; 60];
        assert(checksum@ =~= zeros(32));
        assert(reserved@ =~= zeros(60));
        Header {
            magic: MAGIC,
            version: VERSION,
            generation,
            checksum,
            entry_count,
            created_at: if generation == 1 {
                now
            } else {
                0
            },
            last_modified: now,
            reserved,
        }
    }

    /// The bytes of the header.
    pub fn to_bytes(&self) -> (b: [u8; 128])
        ensures
            b@ == header_bytes(*self),
    {
        let mut buf: Vec<u8> = Vec::with_capacity(128);
        push_bytes(&mut buf, &self.magic);
        push_u32(&mut buf, self.version);
        push_u64(&mut buf, self.generation);
        push_bytes(&mut buf, &self.checksum);
        push_u32(&mut buf, self.entry_count);
        push_u64(&mut buf, self.created_at);
        push_u64(&mut buf, self.last_modified);
        push_bytes(&mut buf, &self.reserved);
        proof {
            assert(buf@ =~= header_bytes(*self));
            lemma_header_len(*self);
        }
        let b: [u8; 128] = read_array::<128>(buf.as_slice(), 0);
        assert(b@ =~= buf@);
        b
    }

    /// The header at the start of `bytes`.
    pub fn from_bytes(bytes: &[u8]) -> (r: Result<Header, FormatError>)
        ensures
            match r {
                Ok(h) => holds_header(bytes@) && header_reads(h, bytes@),
                Err(e) => !holds_header(bytes@) && header_refused(bytes@, e),
            },
    {
        if bytes.len() < Header::HEADER_SIZE {
            return Err(FormatError::InvalidHeader("Too short".to_owned()));
        }
        let magic: [u8; 4] = read_array::<4>(bytes, 0);
        if !bytes_eq(&magic, &MAGIC) {
            return Err(FormatError::InvalidMagic(magic));
        }
        let version: u32 = read_u32(bytes, 4);
        if version != VERSION {
            return Err(FormatError::UnsupportedVersion(version));
        }
        Ok(
            Header {
                magic,
                version,
                generation: read_u64(bytes, 8),
                checksum: read_array::<32>(bytes, 16),
                entry_count: read_u32(bytes, 48),
                created_at: read_u64(bytes, 52),
                last_modified: read_u64(bytes, 60),
                reserved: read_array::<60>(bytes, 68),
            },
        )
    }
}

pub proof fn lemma_header_len(h: Header)
    ensures
        header_bytes(h).len() == 128,
{
    lemma_le_bytes_len(h.version as nat, 4);
    lemma_le_bytes_len(h.generation as nat, 8);
    lemma_le_bytes_len(h.entry_count as nat, 4);
    lemma_le_bytes_len(h.created_at as nat, 8);
    lemma_le_bytes_len(h.last_modified as nat, 8);
}

/// Reading the bytes of a header gives that header back, whatever follows
/// them.
pub proof fn header_round_trip(h: Header, rest: Seq<u8>)
    requires
        h.magic == MAGIC,
        h.version == VERSION,
    ensures
        ({
            let b = header_bytes(h) + rest;
            &&& holds_header(b)
            &&& header_reads(h, b)
            &&& forall|g: Header| header_reads(g, b) ==> g == h
        }),
{
    let b = header_bytes(h) + rest;
    lemma_header_len(h);
    lemma_le_bytes_len(h.version as nat, 4);
    lemma_le_bytes_len(h.generation as nat, 8);
    lemma_le_bytes_len(h.entry_count as nat, 4);
    lemma_le_bytes_len(h.created_at as nat, 8);
    lemma_le_bytes_len(h.last_modified as nat, 8);
    lemma_pow256_values();
    lemma_le_round_trip(h.version as nat, 4);
    lemma_le_round_trip(h.generation as nat, 8);
    lemma_le_round_trip(h.entry_count as nat, 4);
    lemma_le_round_trip(h.created_at as nat, 8);
    lemma_le_round_trip(h.last_modified as nat, 8);
    assert(b.subrange(0, 4) =~= h.magic@);
    assert(b.subrange(4, 8) =~= le_bytes(h.version as nat, 4));
    assert(b.subrange(8, 16) =~= le_bytes(h.generation as nat, 8));
    assert(b.subrange(16, 48) =~= h.checksum@);
    assert(b.subrange(48, 52) =~= le_bytes(h.entry_count as nat, 4));
    assert(b.subrange(52, 60) =~= le_bytes(h.created_at as nat, 8));
    assert(b.subrange(60, 68) =~= le_bytes(h.last_modified as nat, 8));
    assert(b.subrange(68, 128) =~= h.reserved@);
    assert forall|g: Header| header_reads(g, b) implies g == h by {
        assert(g.magic =~= h.magic);
        assert(g.checksum =~= h.checksum);
        assert(g.reserved =~= h.reserved);
    }
}

/// One file in the index.
#[derive(Debug, Clone, PartialEq, Eq)]
pub struct Entry {
    /// The path of the file, relative to the repository, with `/` between its
    /// components.
    pub path: String,
    pub size: u64,
    pub mtime_sec: u64,
    pub mtime_nsec: u32,
    pub flags: EntryFlags,
    pub oid: ObjectId,
    /// 0 is normal, 1 to 3 are the stages of a conflict.
    pub merge_conflict_stage: u8,
    /// 0o100644 is a regular file, 0o100755 an executable one, 0o120000 a
    /// symbolic link.
    pub file_mode: u32,
    pub reserved: [u8; 33],
}

/// An entry, with its path as characters.
pub struct EntryView {
    pub path: Seq<char>,
    pub size: u64,
    pub mtime_sec: u64,
    pub mtime_nsec: u32,
    pub flags: EntryFlags,
    pub oid: ObjectId,
    pub merge_conflict_stage: u8,
    pub file_mode: u32,
    pub reserved: [u8; 33],
}

impl View for Entry {
    type V = EntryView;

    open spec fn view(&self) -> EntryView {
        EntryView {
            path: self.path@,
            size: self.size,
            mtime_sec: self.mtime_sec,
            mtime_nsec: self.mtime_nsec,
            flags: self.flags,
            oid: self.oid,
            merge_conflict_stage: self.merge_conflict_stage,
            file_mode: self.file_mode,
            reserved: self.reserved,
        }
    }
}

/// The entries, with their paths as characters.
pub open spec fn entry_views(v: Seq<Entry>) -> Seq<EntryView> {
    Seq::new(v.len(), |i: int| v[i]@)
}

/// The reserved bytes of a new entry: zeros.
pub open spec fn blank_reserve() -> [u8; 33] {
    choose|r: [u8; 33]| r@ == zeros(33)
}

/// What the file system says of a file.
#[derive(Debug, Clone, Copy, PartialEq, Eq)]
pub struct FileStat {
    pub len: u64,
    /// When the file was modified, in seconds since the Unix epoch, if that is
    /// known.
    pub mtime: Option<u64>,
    /// The Unix permissions.
    pub permissions: u32,
}

/// The bytes of an entry whose path fits: the length of the path, the path and
/// zeros up to 200 bytes, and the other fields.
pub open spec fn entry_bytes(e: EntryView) -> Seq<u8> {
    let path = encode_utf8(e.path);
    le_bytes(path.len(), 2) + path + zeros((200 - path.len()) as nat) + le_bytes(e.size as nat, 8)
        + le_bytes(e.mtime_sec as nat, 8) + le_bytes(e.mtime_nsec as nat, 4) + le_bytes(
        e.flags.bits as nat,
        4,
    ) + e.oid@ + le_bytes(e.file_mode as nat, 4) + seq![e.merge_conflict_stage] + e.reserved@
}

/// The bytes of the path that the entry at the start of `b` holds.
pub open spec fn path_field(b: Seq<u8>) -> Seq<u8> {
    b.subrange(2, 2 + le_value(b.subrange(0, 2)) as int)
}

/// Whether `e` is the entry at the start of `b`, field by field.
pub open spec fn entry_reads(e: EntryView, b: Seq<u8>) -> bool {
    &&& encode_utf8(e.path) == path_field(b)
    &&& e.size as nat == le_value(b.subrange(202, 210))
    &&& e.mtime_sec as nat == le_value(b.subrange(210, 218))
    &&& e.mtime_nsec as nat == le_value(b.subrange(218, 222))
    &&& e.flags.bits as nat == le_value(b.subrange(222, 226))
    &&& e.oid@ == b.subrange(226, 258)
    &&& e.file_mode as nat == le_value(b.subrange(258, 262))
    &&& e.merge_conflict_stage == b[262]
    &&& e.reserved@ == b.subrange(263, 296)
}

/// Whether an entry stands at the start of `b`.
pub open spec fn holds_entry(b: Seq<u8>) -> bool {
    &&& b.len() >= 296
    &&& le_value(b.subrange(0, 2)) <= 200
    &&& valid_utf8(path_field(b))
    &&& (le_value(b.subrange(222, 226)) as u32) & !EntryFlags::ALL == 0
}

/// Whether `e` is the error for bytes `b` that hold no entry: the first of the
/// length, the path's length, the path and the flags that is wrong.
pub open spec fn entry_refused(b: Seq<u8>, e: FormatError) -> bool {
    if b.len() < 296 {
        e matches FormatError::PathLengthLongerThanMaxSize(n) && n == b.len()
    } else if le_value(b.subrange(0, 2)) > 200 {
        e matches FormatError::PathLengthTooLong(n) && n == b.len()
    } else if !valid_utf8(path_field(b)) {
        e matches FormatError::InvalidPathEncoding(p) && p@ == path_field(b)
    } else {
        e matches FormatError::InvalidEntry(m) && m@ == "Invalid flag bits"@
    }
}

/// A string that is not UTF-8.
#[verifier::external_type_specification]
#[verifier::external_body]
pub struct ExUtf8Error(core::str::Utf8Error);

/// `core::str::from_utf8` gives the string of the bytes if they are UTF-8, and
/// an error if they are not.
pub assume_specification[ core::str::from_utf8 ](v: &[u8]) -> (r: Result<
    &str,
    core::str::Utf8Error,
>)
    ensures
        r is Ok <==> valid_utf8(v@),
        r matches Ok(s) ==> s.spec_bytes() == v@,
;

impl Entry {
    /// The length of an entry in bytes.
    pub const ENTRY_MAX_SIZE: usize = 296;

    /// The longest path, in bytes.
    pub const ENTRY_MAX_PATH_LEN: usize = 200;

    /// A new entry, without flags.
    pub fn new(path: String, size: u64, mtime_sec: u64, oid: ObjectId, file_mode: u32) -> (e: Entry)
        ensures
            e.path == path,
            e.size == size,
            e.mtime_sec == mtime_sec,
            e.mtime_nsec == 0,
            e.flags.bits == 0,
            e.oid == oid,
            e.merge_conflict_stage == 0,
            e.file_mode == file_mode,
            e.reserved@ == zeros(33),
            e.reserved == blank_reserve(),
    {
        let reserved: [u8; 33] = [0u8; 33];
        assert(reserved@ =~= zeros(33));
        assert(reserved =~= blank_reserve());
        Entry {
            path,
            size,
            mtime_sec,
            mtime_nsec: 0,
            flags: EntryFlags::empty(),
            oid,
            merge_conflict_stage: 0,
            file_mode,
            reserved,
        }
    }

    /// The entry of a tracked file with the contents `oid`, by what the file
    /// system says of it, if it is there.
    pub fn from_blob(path: String, oid: ObjectId, stat: Option<FileStat>) -> (e: Entry)
        ensures
            e.path == path,
            e.oid == oid,
            e.flags.bits == EntryFlags::TRACKED,
            e.mtime_nsec == 0,
            e.merge_conflict_stage == 0,
            e.reserved@ == zeros(33),
            match stat {
                Some(s) => {
                    &&& e.size == s.len
                    &&& e.mtime_sec == (match s.mtime {
                        Some(t) => t,
                        None => 0,
                    })
                    &&& e.file_mode == crate::add_command::file_mode_of(s.permissions)
                },
                None => e.size == 0 && e.mtime_sec == 0 && e.file_mode == 0o100644,
            },
    {
        let (size, mtime_sec, file_mode): (u64, u64, u32) = match stat {
            Some(s) => (
                s.len,
                match s.mtime {
                    Some(t) => t,
                    None => 0,
                },
                crate::add_command::get_file_mode(s.permissions),
            ),
            None => (0, 0, 0o100644),
        };
        let mut e = Entry::new(path, size, mtime_sec, oid, file_mode);
        e.flags = EntryFlags::from_bits_retain(EntryFlags::TRACKED);
        e
    }

    /// A copy of the entry.
    pub fn duplicate(&self) -> (e: Entry)
        ensures
            e@ == self@,
    {
        Entry {
            path: self.path.clone(),
            size: self.size,
            mtime_sec: self.mtime_sec,
            mtime_nsec: self.mtime_nsec,
            flags: self.flags,
            oid: self.oid,
            merge_conflict_stage: self.merge_conflict_stage,
            file_mode: self.file_mode,
            reserved: self.reserved,
        }
    }

    /// The bytes of the entry. A path of more than 200 bytes does not fit.
    pub fn to_bytes(&self) -> (r: Result<Vec<u8>, FormatError>)
        ensures
            ({
                let n = encode_utf8(self.path@).len();
                if n > 200 {
                    r matches Err(FormatError::PathLengthLongerThanMaxSize(m)) && m == n
                } else {
                    r matches Ok(b) && b@ == entry_bytes(self@)
                }
            }),
    {
        let path = self.path.as_str().as_bytes();
        if path.len() > Entry::ENTRY_MAX_PATH_LEN {
            return Err(FormatError::PathLengthLongerThanMaxSize(path.len()));
        }
        let mut buf: Vec<u8> = Vec::with_capacity(Entry::ENTRY_MAX_SIZE);
        push_u16(&mut buf, path.len() as u16);
        push_bytes(&mut buf, path);
        push_zeros(&mut buf, Entry::ENTRY_MAX_PATH_LEN - path.len());
        push_u64(&mut buf, self.size);
        push_u64(&mut buf, self.mtime_sec);
        push_u32(&mut buf, self.mtime_nsec);
        push_u32(&mut buf, self.flags.bits());
        push_bytes(&mut buf, &self.oid);
        push_u32(&mut buf, self.file_mode);
        buf.push(self.merge_conflict_stage);
        push_bytes(&mut buf, &self.reserved);
        assert(buf@ =~= entry_bytes(self@));
        Ok(buf)
    }

    /// The entry at the start of `bytes`.
    pub fn from_bytes(bytes: &[u8]) -> (r: Result<Entry, FormatError>)
        ensures
            match r {
                Ok(e) => holds_entry(bytes@) && entry_reads(e@, bytes@),
                Err(e) => !holds_entry(bytes@) && entry_refused(bytes@, e),
            },
    {
        if bytes.len() < Entry::ENTRY_MAX_SIZE {
            return Err(FormatError::PathLengthLongerThanMaxSize(bytes.len()));
        }
        let path_len: usize = read_u16(bytes, 0) as usize;
        if path_len > Entry::ENTRY_MAX_PATH_LEN {
            return Err(FormatError::PathLengthTooLong(bytes.len()));
        }
        let path: String = match core::str::from_utf8(
            vstd::slice::slice_subrange(bytes, 2, 2 + path_len),
        ) {
            Ok(s) => s.to_owned(),
            Err(_) => {
                let mut path: Vec<u8> = Vec::new();
                crate::codec::push_bytes(
                    &mut path,
                    vstd::slice::slice_subrange(bytes, 2, 2 + path_len),
                );
                assert(path@ =~= path_field(bytes@));
                return Err(FormatError::InvalidPathEncoding(path));
            },
        };
        let flags: EntryFlags = match EntryFlags::from_bits(read_u32(bytes, 222)) {
            Some(f) => f,
            None => return Err(FormatError::InvalidEntry("Invalid flag bits".to_owned())),
        };
        Ok(
            Entry {
                path,
                size: read_u64(bytes, 202),
                mtime_sec: read_u64(bytes, 210),
                mtime_nsec: read_u32(bytes, 218),
                flags,
                oid: read_array::<32>(bytes, 226),
                file_mode: read_u32(bytes, 258),
                merge_conflict_stage: bytes[262],
                reserved: read_array::<33>(bytes, 263),
            },
        )
    }
}

pub proof fn lemma_entry_len(e: EntryView)
    requires
        encode_utf8(e.path).len() <= 200,
    ensures
        entry_bytes(e).len() == 296,
{
    lemma_le_bytes_len(encode_utf8(e.path).len(), 2);
    lemma_le_bytes_len(e.size as nat, 8);
    lemma_le_bytes_len(e.mtime_sec as nat, 8);
    lemma_le_bytes_len(e.mtime_nsec as nat, 4);
    lemma_le_bytes_len(e.flags.bits as nat, 4);
    lemma_le_bytes_len(e.file_mode as nat, 4);
}

/// Reading the bytes of an entry gives that entry back, whatever follows them.
pub proof fn entry_round_trip(e: EntryView, rest: Seq<u8>)
    requires
        encode_utf8(e.path).len() <= 200,
        e.flags.bits & !EntryFlags::ALL == 0,
    ensures
        ({
            let b = entry_bytes(e) + rest;
            &&& holds_entry(b)
            &&& entry_reads(e, b)
            &&& forall|f: EntryView| entry_reads(f, b) ==> f == e
        }),
{
    let b = entry_bytes(e) + rest;
    let path = encode_utf8(e.path);
    lemma_entry_len(e);
    lemma_le_bytes_len(path.len(), 2);
    lemma_le_bytes_len(e.size as nat, 8);
    lemma_le_bytes_len(e.mtime_sec as nat, 8);
    lemma_le_bytes_len(e.mtime_nsec as nat, 4);
    lemma_le_bytes_len(e.flags.bits as nat, 4);
    lemma_le_bytes_len(e.file_mode as nat, 4);
    lemma_pow256_values();
    lemma_le_round_trip(path.len(), 2);
    lemma_le_round_trip(e.size as nat, 8);
    lemma_le_round_trip(e.mtime_sec as nat, 8);
    lemma_le_round_trip(e.mtime_nsec as nat, 4);
    lemma_le_round_trip(e.flags.bits as nat, 4);
    lemma_le_round_trip(e.file_mode as nat, 4);
    assert(b.subrange(0, 2) =~= le_bytes(path.len(), 2));
    assert(path_field(b) =~= path);
    encode_utf8_valid_utf8(e.path);
    assert(b.subrange(202, 210) =~= le_bytes(e.size as nat, 8));
    assert(b.subrange(210, 218) =~= le_bytes(e.mtime_sec as nat, 8));
    assert(b.subrange(218, 222) =~= le_bytes(e.mtime_nsec as nat, 4));
    assert(b.subrange(222, 226) =~= le_bytes(e.flags.bits as nat, 4));
    assert(b.subrange(226, 258) =~= e.oid@);
    assert(b.subrange(258, 262) =~= le_bytes(e.file_mode as nat, 4));
    assert(b.subrange(263, 296) =~= e.reserved@);
    assert forall|f: EntryView| entry_reads(f, b) implies f == e by {
        encode_utf8_decode_utf8(e.path);
        encode_utf8_decode_utf8(f.path);
        assert(f.path == e.path);
        assert(f.oid =~= e.oid);
        assert(f.reserved =~= e.reserved);
        assert(f.flags == e.flags);
    }
}

/// The footer of an index file.
#[derive(Debug, Clone, PartialEq, Eq)]
pub struct Footer {
    /// The checksum of the header and all entries.
    pub checksum: [u8; 32],
}

impl Footer {
    pub fn new(checksum: [u8; 32]) -> (f: Footer)
        ensures
            f.checksum == checksum,
    {
        Footer { checksum }
    }

    /// The bytes of the footer.
    pub fn to_bytes(&self) -> (b: [u8; 32])
        ensures
            b == self.checksum,
    {
        self.checksum
    }

    /// The footer at the start of `bytes`.
    pub fn from_bytes(bytes: &[u8]) -> (r: Result<Footer, FormatError>)
        ensures
            if bytes@.len() < 32 {
                r matches Err(FormatError::InvalidFooter(m)) && m@ == "Too short"@
            } else {
                r matches Ok(f) && f.checksum@ == bytes@.subrange(0, 32)
            },
    {
        if bytes.len() < FOOTER_SIZE {
            return Err(FormatError::InvalidFooter("Too short".to_owned()));
        }
        Ok(Footer { checksum: read_array::<32>(bytes, 0) })
    }
}

} // verus!
