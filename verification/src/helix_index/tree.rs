//! Trees: snapshots of directories. A tree lists its files and subdirectories,
//! sorted by name, so that its hash depends on its contents alone.
use vstd::prelude::*;
use vstd::string::*;
use vstd::utf8::*;

use crate::codec::{
    le_bytes, le_value, lemma_le_bytes_len, lemma_le_round_trip, lemma_pow256_values, push_bytes,
    push_len16, push_len32, push_u32, push_u64, read_array, read_u16, read_u32, read_u64,
};
use crate::hash::{blake3_digest, hash_bytes, ObjectId};
use crate::object_store::{put_object, ObjectStore, ObjectType, Objects};
use crate::helix_index::format::{entry_views, Entry, EntryView};
use crate::path::{has_slash, head, lemma_has_slash, names_in, plain_path, split_head, tail};
use crate::text::{has_text, str_eq, texts};
use crate::order::{codes, lex_less, sorted, text_less, Compares, Ranking};

verus! {

/// What a tree entry stands for.
#[derive(Debug, Clone, Copy, PartialEq, Eq, Structural)]
pub enum EntryType {
    /// A regular file.
    File,
    /// An executable file.
    FileExecutable,
    /// A subdirectory.
    Tree,
    /// A symbolic link.
    Symlink,
}

/// The number of an entry type in the bytes of a tree.
pub open spec fn type_code(t: EntryType) -> u8 {
    match t {
        EntryType::File => 0,
        EntryType::FileExecutable => 1,
        EntryType::Tree => 2,
        EntryType::Symlink => 3,
    }
}

/// The entry type of a file with this mode.
pub open spec fn type_of_mode(mode: u32) -> EntryType {
    if mode & 0o120000 == 0o120000 {
        EntryType::Symlink
    } else if mode & 0o100000 == 0o100000 && mode & 0o111 != 0 {
        EntryType::FileExecutable
    } else {
        EntryType::File
    }
}

impl EntryType {
    /// The entry type of a file with this mode.
    pub fn from_mode(mode: u32) -> (t: EntryType)
        ensures
            t == type_of_mode(mode),
    {
        if mode & 0o120000 == 0o120000 {
            EntryType::Symlink
        } else if mode & 0o100000 == 0o100000 {
            if mode & 0o111 != 0 {
                EntryType::FileExecutable
            } else {
                EntryType::File
            }
        } else {
            EntryType::File
        }
    }

    /// The usual mode of an entry of this type.
    pub fn to_mode(&self) -> (m: u32)
        ensures
            m == match *self {
                EntryType::File => 0o100644u32,
                EntryType::FileExecutable => 0o100755,
                EntryType::Tree => 0o040000,
                EntryType::Symlink => 0o120000,
            },
    {
        match self {
            EntryType::File => 0o100644,
            EntryType::FileExecutable => 0o100755,
            EntryType::Tree => 0o040000,
            EntryType::Symlink => 0o120000,
        }
    }

    /// The number of the type in the bytes of a tree.
    fn code(&self) -> (c: u8)
        ensures
            c == type_code(*self),
    {
        match self {
            EntryType::File => 0,
            EntryType::FileExecutable => 1,
            EntryType::Tree => 2,
            EntryType::Symlink => 3,
        }
    }
}

/// A type survives the way through its usual mode, except that of a
/// subdirectory, which no file has.
pub proof fn mode_round_trip(t: EntryType)
    requires
        t != EntryType::Tree,
    ensures
        type_of_mode(
            match t {
                EntryType::File => 0o100644u32,
                EntryType::FileExecutable => 0o100755,
                EntryType::Tree => 0o040000,
                EntryType::Symlink => 0o120000,
            },
        ) == t,
{
    assert(0o100644u32 & 0o120000 != 0o120000 && 0o100644u32 & 0o100000 == 0o100000 && 0o100644u32
        & 0o111 == 0) by (bit_vector);
    assert(0o100755u32 & 0o120000 != 0o120000 && 0o100755u32 & 0o100000 == 0o100000 && 0o100755u32
        & 0o111 != 0) by (bit_vector);
    assert(0o120000u32 & 0o120000 == 0o120000) by (bit_vector);
}

/// A file or subdirectory in a tree.
#[derive(Debug, Clone, PartialEq, Eq)]
pub struct TreeEntry {
    /// The last component of the path.
    pub name: String,
    pub entry_type: EntryType,
    pub oid: ObjectId,
    pub mode: u32,
    /// 0 for a subdirectory.
    pub size: u64,
}

/// A tree entry, with its name as characters and its hash as bytes.
pub struct TreeEntryView {
    pub name: Seq<char>,
    pub entry_type: EntryType,
    pub oid: Seq<u8>,
    pub mode: u32,
    pub size: u64,
}

impl View for TreeEntry {
    type V = TreeEntryView;

    open spec fn view(&self) -> TreeEntryView {
        TreeEntryView {
            name: self.name@,
            entry_type: self.entry_type,
            oid: self.oid@,
            mode: self.mode,
            size: self.size,
        }
    }
}

/// The entry of a file.
pub open spec fn file_entry(name: Seq<char>, oid: Seq<u8>, mode: u32, size: u64) -> TreeEntryView {
    TreeEntryView { name, entry_type: type_of_mode(mode), oid, mode, size }
}

/// The entry of a subdirectory.
pub open spec fn dir_entry(name: Seq<char>, oid: Seq<u8>) -> TreeEntryView {
    TreeEntryView { name, entry_type: EntryType::Tree, oid, mode: 0o040000, size: 0 }
}

/// Why bytes are not those of a tree.
#[derive(Debug, Clone, Copy, PartialEq, Eq)]
pub enum TreeError {
    /// An entry of this many bytes.
    EntryTooShort(usize),
    InvalidEntryType(u8),
    /// The name of an entry ends after the entry.
    NamePastEnd,
    /// The name of an entry is not UTF-8.
    InvalidName,
    /// A tree of this many bytes.
    TreeTooShort(usize),
    /// The tree ends before its last entry.
    EndedUnexpectedly,
    /// The tree ends in the fixed part of an entry.
    EntryHeaderCut,
    /// The tree ends in the name or the hash of an entry.
    EntryPastEnd,
    /// There is no tree with this hash.
    NotFound(ObjectId),
}

/// The bytes of a tree entry: type, mode, size, the length of the name, the
/// name and the hash.
pub open spec fn tree_entry_bytes(e: TreeEntryView) -> Seq<u8> {
    let name = encode_utf8(e.name);
    seq![type_code(e.entry_type)] + le_bytes(e.mode as nat, 4) + le_bytes(e.size as nat, 8)
        + le_bytes(name.len(), 2) + name + e.oid
}

/// The bytes of the entries, one after the other.
pub open spec fn tree_entries_bytes(es: Seq<TreeEntryView>) -> Seq<u8>
    decreases es.len(),
{
    if es.len() == 0 {
        Seq::empty()
    } else {
        tree_entries_bytes(es.drop_last()) + tree_entry_bytes(es.last())
    }
}

/// The bytes of a tree: the number of entries, and the entries.
pub open spec fn tree_bytes(es: Seq<TreeEntryView>) -> Seq<u8> {
    le_bytes(es.len(), 4) + tree_entries_bytes(es)
}

/// The hash of a tree.
pub open spec fn tree_id(es: Seq<TreeEntryView>) -> Seq<u8> {
    blake3_digest(tree_bytes(es))@
}

/// The type with this number.
pub open spec fn type_of_code(c: u8) -> Option<EntryType> {
    if c == 0 {
        Some(EntryType::File)
    } else if c == 1 {
        Some(EntryType::FileExecutable)
    } else if c == 2 {
        Some(EntryType::Tree)
    } else if c == 3 {
        Some(EntryType::Symlink)
    } else {
        None
    }
}

/// The tree entry that the bytes `b` hold.
pub open spec fn parse_tree_entry(b: Seq<u8>) -> Result<TreeEntryView, TreeError> {
    let n = le_value(b.subrange(13, 15)) as int;
    let name = b.subrange(15, 15 + n);
    if b.len() < 47 {
        Err(TreeError::EntryTooShort(b.len() as usize))
    } else if type_of_code(b[0]) is None {
        Err(TreeError::InvalidEntryType(b[0]))
    } else if b.len() < 15 + n + 32 {
        Err(TreeError::NamePastEnd)
    } else if !valid_utf8(name) {
        Err(TreeError::InvalidName)
    } else {
        Ok(
            TreeEntryView {
                name: decode_utf8(name),
                entry_type: type_of_code(b[0])->0,
                oid: b.subrange(15 + n, 15 + n + 32),
                mode: le_value(b.subrange(1, 5)) as u32,
                size: le_value(b.subrange(5, 13)) as u64,
            },
        )
    }
}

/// The length of the entry at the start of `b`, by the length of its name.
pub open spec fn entry_extent(b: Seq<u8>) -> int {
    47 + le_value(b.subrange(13, 15)) as int
}

/// The `n` entries at the start of `b`.
pub open spec fn parse_tree_entries(b: Seq<u8>, n: nat) -> Result<Seq<TreeEntryView>, TreeError>
    decreases n,
{
    if n == 0 {
        Ok(Seq::empty())
    } else if b.len() == 0 {
        Err(TreeError::EndedUnexpectedly)
    } else if b.len() < 15 {
        Err(TreeError::EntryHeaderCut)
    } else if entry_extent(b) > b.len() {
        Err(TreeError::EntryPastEnd)
    } else {
        match parse_tree_entry(b.subrange(0, entry_extent(b))) {
            Err(e) => Err(e),
            Ok(v) => match parse_tree_entries(
                b.subrange(entry_extent(b), b.len() as int),
                (n - 1) as nat,
            ) {
                Err(e) => Err(e),
                Ok(vs) => Ok(seq![v] + vs),
            },
        }
    }
}

/// The entries of the tree that the bytes `b` hold.
pub open spec fn parse_tree(b: Seq<u8>) -> Result<Seq<TreeEntryView>, TreeError> {
    if b.len() < 4 {
        Err(TreeError::TreeTooShort(b.len() as usize))
    } else {
        parse_tree_entries(b.subrange(4, b.len() as int), le_value(b.subrange(0, 4)))
    }
}

/// The entries, with names as characters and hashes as bytes.
pub open spec fn tree_entry_views(v: Seq<TreeEntry>) -> Seq<TreeEntryView> {
    Seq::new(v.len(), |i: int| v[i]@)
}

impl TreeEntry {
    /// The entry of a file.
    pub fn new_file(name: String, oid: ObjectId, mode: u32, size: u64) -> (e: TreeEntry)
        ensures
            e@ == file_entry(name@, oid@, mode, size),
    {
        TreeEntry { name, entry_type: EntryType::from_mode(mode), oid, mode, size }
    }

    /// The entry of a subdirectory.
    pub fn new_tree(name: String, oid: ObjectId) -> (e: TreeEntry)
        ensures
            e@ == dir_entry(name@, oid@),
    {
        TreeEntry { name, entry_type: EntryType::Tree, oid, mode: 0o040000, size: 0 }
    }

    /// The bytes of the entry. Of the length of the name, the two low bytes are
    /// written.
    pub fn to_bytes(&self) -> (b: Vec<u8>)
        ensures
            b@ == tree_entry_bytes(self@),
    {
        let name = self.name.as_str().as_bytes();
        let mut b: Vec<u8> = Vec::new();
        b.push(self.entry_type.code());
        push_u32(&mut b, self.mode);
        push_u64(&mut b, self.size);
        push_len16(&mut b, name.len());
        push_bytes(&mut b, name);
        push_bytes(&mut b, &self.oid);
        assert(b@ =~= tree_entry_bytes(self@));
        b
    }

    /// The entry that the bytes hold.
    pub fn from_bytes(bytes: &[u8]) -> (r: Result<TreeEntry, TreeError>)
        ensures
            match parse_tree_entry(bytes@) {
                Ok(v) => r matches Ok(e) && e@ == v,
                Err(f) => r matches Err(e) && e == f,
            },
    {
        if bytes.len() < 47 {
            return Err(TreeError::EntryTooShort(bytes.len()));
        }
        let entry_type: EntryType = match bytes[0] {
            0 => EntryType::File,
            1 => EntryType::FileExecutable,
            2 => EntryType::Tree,
            3 => EntryType::Symlink,
            t => return Err(TreeError::InvalidEntryType(t)),
        };
        let mode: u32 = read_u32(bytes, 1);
        let size: u64 = read_u64(bytes, 5);
        let name_len: usize = read_u16(bytes, 13) as usize;
        if bytes.len() < 15 + name_len + 32 {
            return Err(TreeError::NamePastEnd);
        }
        let name: String = match core::str::from_utf8(
            vstd::slice::slice_subrange(bytes, 15, 15 + name_len),
        ) {
            Ok(s) => {
                proof {
                    encode_utf8_decode_utf8(s@);
                }
                s.to_owned()
            },
            Err(_) => return Err(TreeError::InvalidName),
        };
        let oid: ObjectId = read_array::<32>(bytes, 15 + name_len);
        Ok(TreeEntry { name, entry_type, oid, mode, size })
    }
}

/// A directory snapshot.
#[derive(Debug, Clone, PartialEq, Eq)]
pub struct Tree {
    /// The entries, sorted by name.
    pub entries: Vec<TreeEntry>,
}

impl View for Tree {
    type V = Seq<TreeEntryView>;

    open spec fn view(&self) -> Seq<TreeEntryView> {
        tree_entry_views(self.entries@)
    }
}

/// Tree entries are ordered by name.
impl PartialOrd for TreeEntry {
    fn partial_cmp(&self, other: &TreeEntry) -> (r: Option<core::cmp::Ordering>) {
        if text_less(self.name.as_str(), other.name.as_str()) {
            Some(core::cmp::Ordering::Less)
        } else if text_less(other.name.as_str(), self.name.as_str()) {
            Some(core::cmp::Ordering::Greater)
        } else {
            Some(core::cmp::Ordering::Equal)
        }
    }
}

impl vstd::std_specs::cmp::PartialOrdSpecImpl for TreeEntry {
    open spec fn obeys_partial_cmp_spec() -> bool {
        true
    }

    open spec fn partial_cmp_spec(&self, other: &TreeEntry) -> Option<core::cmp::Ordering> {
        if lex_less(codes(self.name@), codes(other.name@)) {
            Some(core::cmp::Ordering::Less)
        } else if lex_less(codes(other.name@), codes(self.name@)) {
            Some(core::cmp::Ordering::Greater)
        } else {
            Some(core::cmp::Ordering::Equal)
        }
    }
}

/// Tree entries in the order of their names.
pub struct ByName;

impl Ranking<TreeEntryView> for ByName {
    open spec fn key(t: TreeEntryView) -> Seq<int> {
        codes(t.name)
    }
}

impl Ranking<TreeEntry> for ByName {
    open spec fn key(t: TreeEntry) -> Seq<int> {
        codes(t.name@)
    }
}

impl Compares<TreeEntry> for ByName {
    fn before(a: &TreeEntry, b: &TreeEntry) -> (r: bool) {
        text_less(a.name.as_str(), b.name.as_str())
    }
}

/// The entries in the order of their names.
pub open spec fn by_name(es: Seq<TreeEntryView>) -> Seq<TreeEntryView> {
    sorted::<ByName, TreeEntryView>(es)
}

impl Tree {
    /// A tree without entries.
    pub fn new() -> (t: Tree)
        ensures
            t@ == Seq::<TreeEntryView>::empty(),
    {
        let t = Tree { entries: Vec::new() };
        assert(t@ =~= Seq::<TreeEntryView>::empty());
        t
    }

    /// Adds an entry at the end.
    pub fn add_entry(&mut self, entry: TreeEntry)
        ensures
            final(self)@ == old(self)@.push(entry@),
    {
        self.entries.push(entry);
        assert(self@ =~= old(self)@.push(entry@));
    }

    /// Sorts the entries by name.
    pub fn sort(&mut self)
        ensures
            final(self)@ == by_name(old(self)@),
    {
        let ghost s = self.entries@;
        let ghost f = |t: TreeEntry| t@;
        crate::order::sort::<ByName, TreeEntry>(&mut self.entries);
        proof {
            crate::order::lemma_sorted_mapped::<ByName, TreeEntry, ByName, TreeEntryView>(s, f);
            assert(tree_entry_views(s) =~= s.map_values(f));
            assert(tree_entry_views(self.entries@) =~= self.entries@.map_values(f));
        }
    }

    /// The hash of the tree.
    pub fn hash(&self) -> (h: ObjectId)
        ensures
            h@ == tree_id(self@),
    {
        let b = self.to_bytes();
        hash_bytes(b.as_slice())
    }

    /// The bytes of the tree. Of the number of entries, the four low bytes are
    /// written.
    pub fn to_bytes(&self) -> (b: Vec<u8>)
        ensures
            b@ == tree_bytes(self@),
    {
        let mut b: Vec<u8> = Vec::new();
        push_len32(&mut b, self.entries.len());
        let ghost es = self@;
        let ghost count = le_bytes(es.len(), 4);
        let mut i: usize = 0;
        assert(es.subrange(0, 0) =~= Seq::empty());
        assert(b@ =~= count + tree_entries_bytes(es.subrange(0, 0)));
        while i < self.entries.len()
            invariant
                i <= self.entries.len(),
                es == self@,
                b@ == count + tree_entries_bytes(es.subrange(0, i as int)),
            decreases self.entries.len() - i,
        {
            let e = self.entries[i].to_bytes();
            push_bytes(&mut b, e.as_slice());
            proof {
                let t = es.subrange(0, i + 1);
                assert(t.drop_last() =~= es.subrange(0, i as int));
                assert(t.last() == es[i as int]);
                assert(b@ =~= count + tree_entries_bytes(t));
            }
            i += 1;
        }
        assert(es.subrange(0, i as int) =~= es);
        b
    }

    /// The tree that the bytes hold.
    pub fn from_bytes(bytes: &[u8]) -> (r: Result<Tree, TreeError>)
        ensures
            match parse_tree(bytes@) {
                Ok(v) => r matches Ok(t) && t@ == v,
                Err(f) => r matches Err(e) && e == f,
            },
    {
        if bytes.len() < 4 {
            return Err(TreeError::TreeTooShort(bytes.len()));
        }
        let count: usize = read_u32(bytes, 0) as usize;
        let mut entries: Vec<TreeEntry> = Vec::new();
        let mut offset: usize = 4;
        let mut i: usize = 0;
        let ghost whole = parse_tree(bytes@);
        proof {
            assert(tree_entry_views(entries@) =~= Seq::empty());
            match whole {
                Ok(v) => {
                    assert(Seq::<TreeEntryView>::empty() + v =~= v);
                },
                Err(_) => {},
            }
        }
        while i < count
            invariant
                i <= count,
                4 <= offset <= bytes.len(),
                whole == parse_tree(bytes@),
                ({
                    let rest = parse_tree_entries(
                        bytes@.subrange(offset as int, bytes@.len() as int),
                        (count - i) as nat,
                    );
                    match whole {
                        Ok(v) => rest matches Ok(vs) && v == tree_entry_views(entries@) + vs,
                        Err(f) => rest matches Err(e) && e == f,
                    }
                }),
            decreases count - i,
        {
            let ghost rest = bytes@.subrange(offset as int, bytes@.len() as int);
            if offset >= bytes.len() {
                return Err(TreeError::EndedUnexpectedly);
            }
            if bytes.len() - offset < 15 {
                return Err(TreeError::EntryHeaderCut);
            }
            let name_len: usize = read_u16(bytes, offset + 13) as usize;
            let entry_size: usize = 15 + name_len + 32;
            assert(rest.subrange(13, 15) =~= bytes@.subrange(offset + 13, offset + 15));
            if bytes.len() - offset < entry_size {
                return Err(TreeError::EntryPastEnd);
            }
            let part = vstd::slice::slice_subrange(bytes, offset, offset + entry_size);
            assert(part@ =~= rest.subrange(0, entry_extent(rest)));
            match TreeEntry::from_bytes(part) {
                Err(e) => return Err(e),
                Ok(e) => {
                    let ghost before = tree_entry_views(entries@);
                    entries.push(e);
                    proof {
                        assert(tree_entry_views(entries@) =~= before.push(e@));
                        assert(rest.subrange(entry_extent(rest), rest.len() as int)
                            =~= bytes@.subrange(offset + entry_size, bytes@.len() as int));
                        let later = parse_tree_entries(
                            bytes@.subrange(offset + entry_size, bytes@.len() as int),
                            (count - i - 1) as nat,
                        );
                        if let Ok(vs) = later {
                            assert(before + (seq![e@] + vs) =~= before.push(e@) + vs);
                        }
                    }
                },
            }
            offset = offset + entry_size;
            i += 1;
        }
        let t = Tree { entries };
        proof {
            assert(t@ + Seq::<TreeEntryView>::empty() =~= t@);
        }
        Ok(t)
    }
}

impl Default for Tree {
    fn default() -> (t: Tree)
        ensures
            t@ == Seq::<TreeEntryView>::empty(),
    {
        Tree::new()
    }
}

/// Whether an entry can be written without loss: its name is shorter than
/// 65536 bytes, and its hash has 32 bytes.
pub open spec fn entry_storable(e: TreeEntryView) -> bool {
    encode_utf8(e.name).len() < 0x1_0000 && e.oid.len() == 32
}

/// Whether a tree can be written without loss.
pub open spec fn tree_storable(es: Seq<TreeEntryView>) -> bool {
    es.len() < 0x1_0000_0000 && forall|i: int|
        0 <= i < es.len() ==> entry_storable(#[trigger] es[i])
}

/// Reading the bytes of a tree entry gives that entry back, whatever follows
/// them.
pub proof fn tree_entry_round_trip(e: TreeEntryView, rest: Seq<u8>)
    requires
        entry_storable(e),
    ensures
        parse_tree_entry(tree_entry_bytes(e)) == Ok::<TreeEntryView, TreeError>(e),
        tree_entry_bytes(e).len() >= 47,
        entry_extent(tree_entry_bytes(e) + rest) == tree_entry_bytes(e).len(),
{
    let b = tree_entry_bytes(e);
    let name = encode_utf8(e.name);
    let n = name.len() as int;
    lemma_le_bytes_len(e.mode as nat, 4);
    lemma_le_bytes_len(e.size as nat, 8);
    lemma_le_bytes_len(name.len(), 2);
    lemma_pow256_values();
    lemma_le_round_trip(e.mode as nat, 4);
    lemma_le_round_trip(e.size as nat, 8);
    lemma_le_round_trip(name.len(), 2);
    assert(b.subrange(1, 5) =~= le_bytes(e.mode as nat, 4));
    assert(b.subrange(5, 13) =~= le_bytes(e.size as nat, 8));
    assert(b.subrange(13, 15) =~= le_bytes(name.len(), 2));
    assert((b + rest).subrange(13, 15) =~= le_bytes(name.len(), 2));
    assert(b.subrange(15, 15 + n) =~= name);
    assert(b.subrange(15 + n, 15 + n + 32) =~= e.oid);
    encode_utf8_valid_utf8(e.name);
    encode_utf8_decode_utf8(e.name);
    assert(type_of_code(b[0]) == Some(e.entry_type));
}

proof fn lemma_entries_front(es: Seq<TreeEntryView>)
    requires
        es.len() > 0,
    ensures
        tree_entries_bytes(es) == tree_entry_bytes(es[0]) + tree_entries_bytes(
            es.subrange(1, es.len() as int),
        ),
    decreases es.len(),
{
    let t = es.subrange(1, es.len() as int);
    if es.len() == 1 {
        assert(es.drop_last() =~= Seq::empty());
        assert(t =~= Seq::empty());
        assert(tree_entries_bytes(es) =~= tree_entry_bytes(es[0]) + tree_entries_bytes(t));
    } else {
        lemma_entries_front(es.drop_last());
        assert(es.drop_last().subrange(1, es.len() - 1) =~= t.drop_last());
        assert(es.drop_last()[0] == es[0]);
        assert(t.last() == es.last());
        assert(tree_entries_bytes(es) =~= tree_entry_bytes(es[0]) + tree_entries_bytes(t));
    }
}

proof fn lemma_entries_round_trip(es: Seq<TreeEntryView>)
    requires
        forall|i: int| 0 <= i < es.len() ==> entry_storable(#[trigger] es[i]),
    ensures
        parse_tree_entries(tree_entries_bytes(es), es.len()) == Ok::<
            Seq<TreeEntryView>,
            TreeError,
        >(es),
    decreases es.len(),
{
    if es.len() == 0 {
        assert(es =~= Seq::empty());
    } else {
        let t = es.subrange(1, es.len() as int);
        let rest = tree_entries_bytes(t);
        let b = tree_entries_bytes(es);
        lemma_entries_front(es);
        tree_entry_round_trip(es[0], rest);
        assert forall|i: int| 0 <= i < t.len() implies entry_storable(#[trigger] t[i]) by {
            assert(t[i] == es[i + 1]);
        }
        lemma_entries_round_trip(t);
        assert(b.subrange(0, entry_extent(b)) =~= tree_entry_bytes(es[0]));
        assert(b.subrange(entry_extent(b), b.len() as int) =~= rest);
        assert(seq![es[0]] + t =~= es);
    }
}

/// Reading the bytes of a tree gives its entries back.
pub proof fn tree_round_trip(es: Seq<TreeEntryView>)
    requires
        tree_storable(es),
    ensures
        parse_tree(tree_bytes(es)) == Ok::<Seq<TreeEntryView>, TreeError>(es),
{
    let b = tree_bytes(es);
    lemma_le_bytes_len(es.len(), 4);
    lemma_pow256_values();
    lemma_le_round_trip(es.len(), 4);
    assert(b.subrange(0, 4) =~= le_bytes(es.len(), 4));
    assert(b.subrange(4, b.len() as int) =~= tree_entries_bytes(es));
    lemma_entries_round_trip(es);
}

/// Whether the bytes are those of `n` entries and no more, by the lengths of the names.
pub open spec fn spans(b: Seq<u8>, n: nat) -> bool
    decreases n,
{
    if n == 0 {
        b.len() == 0
    } else {
        b.len() >= 47 && entry_extent(b) <= b.len() && spans(
            b.subrange(entry_extent(b), b.len() as int),
            (n - 1) as nat,
        )
    }
}

/// The bytes of entries span them.
pub proof fn lemma_entries_span(es: Seq<TreeEntryView>)
    requires
        forall|i: int| 0 <= i < es.len() ==> entry_storable(#[trigger] es[i]),
    ensures
        spans(tree_entries_bytes(es), es.len()),
    decreases es.len(),
{
    if es.len() > 0 {
        let t = es.subrange(1, es.len() as int);
        let rest = tree_entries_bytes(t);
        let b = tree_entries_bytes(es);
        lemma_entries_front(es);
        tree_entry_round_trip(es[0], rest);
        assert forall|i: int| 0 <= i < t.len() implies entry_storable(#[trigger] t[i]) by {
            assert(t[i] == es[i + 1]);
        }
        lemma_entries_span(t);
        assert(b.subrange(entry_extent(b), b.len() as int) =~= rest);
    }
}

proof fn lemma_cut_entries(b: Seq<u8>, n: nat, k: int)
    requires
        spans(b, n),
        0 <= k < b.len(),
    ensures
        parse_tree_entries(b.subrange(0, k), n) is Err,
    decreases n,
{
    let p = b.subrange(0, k);
    if p.len() >= 15 {
        assert(p.subrange(13, 15) =~= b.subrange(13, 15));
        let x = entry_extent(b);
        if x <= k {
            let rest = b.subrange(x, b.len() as int);
            lemma_cut_entries(rest, (n - 1) as nat, k - x);
            assert(p.subrange(x, k) =~= rest.subrange(0, k - x));
        }
    }
}

/// The bytes of a tree with some cut off at the end are refused.
pub proof fn cut_tree_is_refused(es: Seq<TreeEntryView>, k: int)
    requires
        tree_storable(es),
        0 <= k < tree_bytes(es).len(),
    ensures
        parse_tree(tree_bytes(es).subrange(0, k)) is Err,
{
    let b = tree_bytes(es);
    let p = b.subrange(0, k);
    lemma_le_bytes_len(es.len(), 4);
    lemma_pow256_values();
    lemma_le_round_trip(es.len(), 4);
    if k >= 4 {
        let rest = tree_entries_bytes(es);
        assert(p.subrange(0, 4) =~= le_bytes(es.len(), 4));
        assert(p.subrange(4, k) =~= rest.subrange(0, k - 4));
        lemma_entries_span(es);
        lemma_cut_entries(rest, es.len(), k - 4);
    }
}

/// The hash of a sorted tree does not depend on the order in which its entries
/// were added, where no two of them have one name.
pub proof fn tree_hash_order_free(a: Seq<TreeEntryView>, b: Seq<TreeEntryView>)
    requires
        a.to_multiset() == b.to_multiset(),
        forall|i: int, j: int| 0 <= i < j < a.len() ==> (#[trigger] a[i]).name != (#[trigger] a[j]).name,
    ensures
        by_name(a) == by_name(b),
        tree_id(by_name(a)) == tree_id(by_name(b)),
{
    assert forall|i: int, j: int| 0 <= i < j < a.len() implies #[trigger] <ByName as Ranking<
        TreeEntryView,
    >>::key(a[j]) != #[trigger] <ByName as Ranking<TreeEntryView>>::key(a[i]) by {
        crate::order::lemma_codes_injective(a[i].name, a[j].name);
    }
    crate::order::lemma_sorted_same::<ByName, TreeEntryView>(a, b);
}

/// A file to be put into trees, by its path below the directory of the tree.
pub struct FileView {
    pub path: Seq<char>,
    pub oid: Seq<u8>,
    pub mode: u32,
    pub size: u64,
}

/// The file of an index entry, by the text of its path.
pub open spec fn entry_file(e: EntryView) -> FileView {
    FileView { path: e.path, oid: e.oid@, mode: e.file_mode, size: e.size }
}

/// The files of index entries, by the texts of their paths.
pub open spec fn entry_files(es: Seq<EntryView>) -> Seq<FileView> {
    es.map_values(|e: EntryView| entry_file(e))
}

/// The file of an index entry, by the names in its path.
pub open spec fn file_of(e: EntryView) -> FileView {
    FileView { path: plain_path(e.path), oid: e.oid@, mode: e.file_mode, size: e.size }
}

/// The files of index entries, by the names in their paths.
pub open spec fn files_of(es: Seq<EntryView>) -> Seq<FileView> {
    es.map_values(|e: EntryView| file_of(e))
}

/// The lengths of all paths together.
pub open spec fn total_len(fs: Seq<FileView>) -> nat
    decreases fs.len(),
{
    if fs.len() == 0 {
        0
    } else {
        total_len(fs.drop_last()) + fs.last().path.len()
    }
}

/// The entries of the files that lie in the directory itself, in order.
pub open spec fn direct_entries(fs: Seq<FileView>) -> Seq<TreeEntryView>
    decreases fs.len(),
{
    if fs.len() == 0 {
        Seq::empty()
    } else {
        let d = direct_entries(fs.drop_last());
        let f = fs.last();
        if has_slash(f.path) {
            d
        } else {
            d.push(file_entry(f.path, f.oid, f.mode, f.size))
        }
    }
}

/// The names of the subdirectories, in the order in which they occur first.
pub open spec fn dir_names(fs: Seq<FileView>) -> Seq<Seq<char>>
    decreases fs.len(),
{
    if fs.len() == 0 {
        Seq::empty()
    } else {
        let d = dir_names(fs.drop_last());
        let f = fs.last();
        if has_slash(f.path) && !d.contains(head(f.path)) {
            d.push(head(f.path))
        } else {
            d
        }
    }
}

/// A file as seen from the subdirectory that it lies in.
pub open spec fn lowered(f: FileView) -> FileView {
    FileView { path: tail(f.path), ..f }
}

/// The files below one subdirectory, by their paths below it, in order.
pub open spec fn files_below(fs: Seq<FileView>, name: Seq<char>) -> Seq<FileView>
    decreases fs.len(),
{
    if fs.len() == 0 {
        Seq::empty()
    } else {
        let d = files_below(fs.drop_last(), name);
        let f = fs.last();
        if has_slash(f.path) && head(f.path) == name {
            d.push(lowered(f))
        } else {
            d
        }
    }
}

pub proof fn lemma_dir_names_len(fs: Seq<FileView>)
    ensures
        dir_names(fs).len() <= fs.len(),
    decreases fs.len(),
{
    if fs.len() > 0 {
        lemma_dir_names_len(fs.drop_last());
    }
}

/// Below a subdirectory the paths are shorter.
pub proof fn lemma_files_below_shorter(fs: Seq<FileView>, name: Seq<char>)
    ensures
        total_len(files_below(fs, name)) + files_below(fs, name).len() <= total_len(fs),
    decreases fs.len(),
{
    if fs.len() > 0 {
        lemma_files_below_shorter(fs.drop_last(), name);
        let f = fs.last();
        if has_slash(f.path) && head(f.path) == name {
            let d = files_below(fs.drop_last(), name);
            let g = lowered(f);
            assert(files_below(fs, name).drop_last() =~= d);
            lemma_has_slash(f.path);
        }
    }
}

/// A subdirectory that is named has files below it.
pub proof fn lemma_files_below_some(fs: Seq<FileView>, name: Seq<char>)
    requires
        dir_names(fs).contains(name),
    ensures
        files_below(fs, name).len() > 0,
    decreases fs.len(),
{
    if fs.len() > 0 {
        let f = fs.last();
        if !(has_slash(f.path) && head(f.path) == name) {
            let d = dir_names(fs.drop_last());
            if !d.contains(name) {
                let i = choose|i: int| 0 <= i < dir_names(fs).len() && dir_names(fs)[i] == name;
                assert(d.contains(name));
            }
            lemma_files_below_some(fs.drop_last(), name);
        }
    }
}

/// The entries of the tree of a directory with the files `fs`: its files and
/// subdirectories, sorted by name.
pub open spec fn snapshot(fs: Seq<FileView>) -> Seq<TreeEntryView>
    decreases total_len(fs), fs.len() + 1,
{
    proof {
        lemma_dir_names_len(fs);
    }
    by_name(direct_entries(fs) + snapshot_dirs(fs, dir_names(fs)))
}

/// The entries of the subdirectories `names` of a directory with the files
/// `fs`.
pub open spec fn snapshot_dirs(fs: Seq<FileView>, names: Seq<Seq<char>>) -> Seq<TreeEntryView>
    decreases total_len(fs), names.len(),
{
    if names.len() == 0 {
        Seq::empty()
    } else {
        let below = files_below(fs, names.last());
        let id = if total_len(below) < total_len(fs) {
            tree_id(snapshot(below))
        } else {
            Seq::empty()
        };
        snapshot_dirs(fs, names.drop_last()).push(dir_entry(names.last(), id))
    }
}

/// What a store holds after the trees of a directory with the files `fs` have
/// been written to it: those of its subdirectories first.
pub open spec fn put_trees(m: Objects, fs: Seq<FileView>) -> Objects
    decreases total_len(fs), fs.len() + 1,
{
    proof {
        lemma_dir_names_len(fs);
    }
    put_object(put_dir_trees(m, fs, dir_names(fs)), ObjectType::Tree, tree_bytes(snapshot(fs)))
}

/// What a store holds after the trees of the subdirectories `names` of a
/// directory with the files `fs` have been written to it.
pub open spec fn put_dir_trees(m: Objects, fs: Seq<FileView>, names: Seq<Seq<char>>) -> Objects
    decreases total_len(fs), names.len(),
{
    if names.len() == 0 {
        m
    } else {
        let below = files_below(fs, names.last());
        let before = put_dir_trees(m, fs, names.drop_last());
        if total_len(below) < total_len(fs) {
            put_trees(before, below)
        } else {
            before
        }
    }
}

/// A file to be put into trees.
struct FileItem {
    path: String,
    oid: ObjectId,
    mode: u32,
    size: u64,
}

impl View for FileItem {
    type V = FileView;

    closed spec fn view(&self) -> FileView {
        FileView { path: self.path@, oid: self.oid@, mode: self.mode, size: self.size }
    }
}

spec fn item_views(v: Seq<FileItem>) -> Seq<FileView> {
    Seq::new(v.len(), |i: int| v[i]@)
}

/// The files below one subdirectory.
fn items_below(items: &Vec<FileItem>, name: &str) -> (r: Vec<FileItem>)
    ensures
        item_views(r@) == files_below(item_views(items@), name@),
{
    let mut r: Vec<FileItem> = Vec::new();
    let mut i: usize = 0;
    let ghost fs = item_views(items@);
    assert(item_views(r@) =~= files_below(fs.subrange(0, 0), name@));
    while i < items.len()
        invariant
            i <= items.len(),
            fs == item_views(items@),
            item_views(r@) == files_below(fs.subrange(0, i as int), name@),
        decreases items.len() - i,
    {
        proof {
            let t = fs.subrange(0, i + 1);
            assert(t.drop_last() =~= fs.subrange(0, i as int));
            assert(t.last() == items@[i as int]@);
        }
        let ghost before = item_views(r@);
        match split_head(items[i].path.as_str()) {
            Some((h, rest)) => {
                if str_eq(h.as_str(), name) {
                    let item = FileItem {
                        path: rest,
                        oid: items[i].oid,
                        mode: items[i].mode,
                        size: items[i].size,
                    };
                    r.push(item);
                    assert(item_views(r@) =~= before.push(item@));
                }
            },
            None => {},
        }
        i += 1;
    }
    assert(fs.subrange(0, i as int) =~= fs);
    r
}

/// Writes the trees of a directory and its subdirectories and gives the hash of
/// the directory's tree.
fn build_tree(store: &mut ObjectStore, items: &Vec<FileItem>) -> (h: ObjectId)
    requires
        old(store).wf(),
    ensures
        final(store).wf(),
        h@ == tree_id(snapshot(item_views(items@))),
        final(store)@ == put_trees(old(store)@, item_views(items@)),
    decreases total_len(item_views(items@)),
{
    let ghost fs = item_views(items@);
    let mut tree: Tree = Tree::new();
    let mut names: Vec<String> = Vec::new();
    let mut i: usize = 0;
    proof {
        assert(tree@ =~= direct_entries(fs.subrange(0, 0)));
        assert(texts(names@) =~= dir_names(fs.subrange(0, 0)));
    }
    while i < items.len()
        invariant
            i <= items.len(),
            fs == item_views(items@),
            tree@ == direct_entries(fs.subrange(0, i as int)),
            texts(names@) == dir_names(fs.subrange(0, i as int)),
        decreases items.len() - i,
    {
        proof {
            let t = fs.subrange(0, i + 1);
            assert(t.drop_last() =~= fs.subrange(0, i as int));
            assert(t.last() == items@[i as int]@);
        }
        match split_head(items[i].path.as_str()) {
            None => {
                tree.add_entry(
                    TreeEntry::new_file(
                        items[i].path.clone(),
                        items[i].oid,
                        items[i].mode,
                        items[i].size,
                    ),
                );
            },
            Some((h, _)) => {
                if !has_text(&names, h.as_str()) {
                    let ghost before = texts(names@);
                    names.push(h);
                    assert(texts(names@) =~= before.push(h@));
                }
            },
        }
        i += 1;
    }
    assert(fs.subrange(0, i as int) =~= fs);
    let ghost all = dir_names(fs);
    let ghost direct = direct_entries(fs);
    let mut k: usize = 0;
    proof {
        assert(all.subrange(0, 0) =~= Seq::empty());
        assert(tree@ =~= direct + snapshot_dirs(fs, all.subrange(0, 0)));
    }
    while k < names.len()
        invariant
            k <= names.len(),
            store.wf(),
            fs == item_views(items@),
            all == dir_names(fs),
            texts(names@) == all,
            direct == direct_entries(fs),
            tree@ == direct + snapshot_dirs(fs, all.subrange(0, k as int)),
            store@ == put_dir_trees(old(store)@, fs, all.subrange(0, k as int)),
        decreases names.len() - k,
    {
        let name: String = names[k].clone();
        let below = items_below(items, name.as_str());
        proof {
            assert(all[k as int] == name@);
            assert(all.contains(name@));
            lemma_files_below_shorter(fs, name@);
            lemma_files_below_some(fs, name@);
            let t = all.subrange(0, k + 1);
            assert(t.drop_last() =~= all.subrange(0, k as int));
            assert(t.last() == name@);
        }
        let h: ObjectId = build_tree(store, &below);
        let ghost before = tree@;
        tree.add_entry(TreeEntry::new_tree(name, h));
        proof {
            assert(tree@ =~= direct + snapshot_dirs(fs, all.subrange(0, k + 1)));
        }
        k += 1;
    }
    assert(all.subrange(0, k as int) =~= all);
    tree.sort();
    store.write_object(ObjectType::Tree, tree.to_bytes())
}

/// Builds trees from the entries of an index.
pub struct TreeBuilder;

impl TreeBuilder {
    /// Writes the trees of a snapshot of the entries, whose paths are names with one `/`
    /// between them, and gives the hash of the root tree.
    pub fn build_from_files(store: &mut ObjectStore, entries: &Vec<Entry>) -> (h: ObjectId)
        requires
            old(store).wf(),
        ensures
            final(store).wf(),
            h@ == tree_id(snapshot(entry_files(entry_views(entries@)))),
            final(store)@ == put_trees(old(store)@, entry_files(entry_views(entries@))),
    {
        let mut items: Vec<FileItem> = Vec::new();
        let mut i: usize = 0;
        let ghost fs = entry_files(entry_views(entries@));
        while i < entries.len()
            invariant
                i <= entries.len(),
                fs == entry_files(entry_views(entries@)),
                item_views(items@) == fs.subrange(0, i as int),
            decreases entries.len() - i,
        {
            let e = &entries[i];
            let ghost before = item_views(items@);
            let item = FileItem {
                path: e.path.clone(),
                oid: e.oid,
                mode: e.file_mode,
                size: e.size,
            };
            items.push(item);
            i += 1;
            assert(item@ == fs[i - 1]);
            assert(item_views(items@) =~= before.push(item@));
            assert(fs.subrange(0, i as int) =~= fs.subrange(0, i - 1).push(fs[i - 1]));
        }
        assert(item_views(items@) =~= fs);
        build_tree(store, &items)
    }

    /// Writes the trees of a snapshot of the entries, one for each directory,
    /// and gives the hash of the root tree. Paths are taken by their names.
    pub fn build_from_entries(store: &mut ObjectStore, entries: &Vec<Entry>) -> (h: ObjectId)
        requires
            old(store).wf(),
        ensures
            final(store).wf(),
            h@ == tree_id(snapshot(files_of(entry_views(entries@)))),
            final(store)@ == put_trees(old(store)@, files_of(entry_views(entries@))),
    {
        let mut items: Vec<FileItem> = Vec::new();
        let mut i: usize = 0;
        let ghost fs = files_of(entry_views(entries@));
        while i < entries.len()
            invariant
                i <= entries.len(),
                fs == files_of(entry_views(entries@)),
                item_views(items@) == fs.subrange(0, i as int),
            decreases entries.len() - i,
        {
            let e = &entries[i];
            let ghost before = item_views(items@);
            let item = FileItem {
                path: crate::text::join(names_in(e.path.as_str()).as_slice(), "/"),
                oid: e.oid,
                mode: e.file_mode,
                size: e.size,
            };
            items.push(item);
            i += 1;
            assert(item@ == fs[i - 1]);
            assert(item_views(items@) =~= before.push(item@));
            assert(fs.subrange(0, i as int) =~= fs.subrange(0, i - 1).push(fs[i - 1]));
        }
        assert(item_views(items@) =~= fs);
        build_tree(store, &items)
    }
}

} // verus!
