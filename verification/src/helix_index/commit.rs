//! Commits: snapshots in history.
use vstd::prelude::*;
use vstd::string::*;
use vstd::utf8::*;

use crate::codec::{
    le_bytes, le_value, lemma_le_bytes_len, lemma_le_round_trip, lemma_pow256_values, push_bytes,
    push_len16, push_len32, push_u64, read_array, read_u16, read_u32, read_u64,
};
use crate::hash::{blake3_digest, hash_bytes, hash_to_hex, hex_text, ObjectId};
use crate::text::{
    decimal, decimal_of, from_chars, join, join_spec, lines, lines_spec, text_of, texts,
    to_chars,
};

verus! {

/// A snapshot in history.
#[derive(Debug, Clone, PartialEq, Eq)]
pub struct Commit {
    /// The hash of the commit's bytes.
    pub commit_hash: ObjectId,
    /// The hash of the root tree.
    pub tree_hash: ObjectId,
    /// None for the initial commit, two or more for a merge.
    pub parents: Vec<ObjectId>,
    /// Name and e-mail address.
    pub author: String,
    /// In seconds since the Unix epoch.
    pub author_time: u64,
    /// In seconds since the Unix epoch.
    pub commit_time: u64,
    pub message: String,
}

/// A commit, with hashes as bytes and texts as characters.
pub struct CommitView {
    pub commit_hash: Seq<u8>,
    pub tree_hash: Seq<u8>,
    pub parents: Seq<Seq<u8>>,
    pub author: Seq<char>,
    pub author_time: u64,
    pub commit_time: u64,
    pub message: Seq<char>,
}

/// Hashes as bytes.
pub open spec fn id_views(v: Seq<ObjectId>) -> Seq<Seq<u8>> {
    Seq::new(v.len(), |i: int| v[i]@)
}

impl View for Commit {
    type V = CommitView;

    open spec fn view(&self) -> CommitView {
        CommitView {
            commit_hash: self.commit_hash@,
            tree_hash: self.tree_hash@,
            parents: id_views(self.parents@),
            author: self.author@,
            author_time: self.author_time,
            commit_time: self.commit_time,
            message: self.message@,
        }
    }
}

/// Commits, with hashes as bytes and texts as characters.
pub open spec fn commit_views(v: Seq<Commit>) -> Seq<CommitView> {
    Seq::new(v.len(), |i: int| v[i]@)
}

/// The parents' hashes, one after the other.
pub open spec fn parents_bytes(ps: Seq<Seq<u8>>) -> Seq<u8>
    decreases ps.len(),
{
    if ps.len() == 0 {
        Seq::empty()
    } else {
        parents_bytes(ps.drop_last()) + ps.last()
    }
}

/// The bytes of a commit: the tree, the parents, the author, the two times and
/// the message. Of each length the low bytes are written.
pub open spec fn commit_bytes(c: CommitView) -> Seq<u8> {
    c.tree_hash + le_bytes(c.parents.len(), 4) + parents_bytes(c.parents) + le_bytes(
        encode_utf8(c.author).len(),
        2,
    ) + encode_utf8(c.author) + le_bytes(c.author_time as nat, 8) + le_bytes(
        c.commit_time as nat,
        8,
    ) + le_bytes(encode_utf8(c.message).len(), 4) + encode_utf8(c.message)
}

/// Why bytes are not those of a commit.
#[derive(Debug, Clone, Copy, PartialEq, Eq)]
pub enum CommitError {
    /// Only this many bytes.
    TooShort(usize),
    EndedInParents,
    EndedInAuthorLength,
    EndedInAuthor,
    /// The author is not UTF-8.
    InvalidAuthor,
    EndedInAuthorTime,
    EndedInCommitTime,
    EndedInMessageLength,
    EndedInMessage,
    /// The message is not UTF-8.
    InvalidMessage,
}

/// The `n` hashes at the start of `b`.
pub open spec fn parse_parents(b: Seq<u8>, n: nat) -> Seq<Seq<u8>> {
    Seq::new(n, |i: int| b.subrange(32 * i, 32 * i + 32))
}

/// The commit that the bytes `b` hold. What follows the message counts for the
/// hash only.
pub open spec fn parse_commit(b: Seq<u8>) -> Result<CommitView, CommitError> {
    let n = le_value(b.subrange(32, 36)) as int;
    let a0 = 36 + 32 * n;
    let al = le_value(b.subrange(a0, a0 + 2)) as int;
    let a1 = a0 + 2;
    let t0 = a1 + al;
    let ml = le_value(b.subrange(t0 + 16, t0 + 20)) as int;
    let m0 = t0 + 20;
    if b.len() < 36 {
        Err(CommitError::TooShort(b.len() as usize))
    } else if a0 > b.len() {
        Err(CommitError::EndedInParents)
    } else if a0 + 2 > b.len() {
        Err(CommitError::EndedInAuthorLength)
    } else if t0 > b.len() {
        Err(CommitError::EndedInAuthor)
    } else if !valid_utf8(b.subrange(a1, t0)) {
        Err(CommitError::InvalidAuthor)
    } else if t0 + 8 > b.len() {
        Err(CommitError::EndedInAuthorTime)
    } else if t0 + 16 > b.len() {
        Err(CommitError::EndedInCommitTime)
    } else if t0 + 20 > b.len() {
        Err(CommitError::EndedInMessageLength)
    } else if m0 + ml > b.len() {
        Err(CommitError::EndedInMessage)
    } else if !valid_utf8(b.subrange(m0, m0 + ml)) {
        Err(CommitError::InvalidMessage)
    } else {
        Ok(
            CommitView {
                commit_hash: blake3_digest(b)@,
                tree_hash: b.subrange(0, 32),
                parents: parse_parents(b.subrange(36, a0), n as nat),
                author: decode_utf8(b.subrange(a1, t0)),
                author_time: le_value(b.subrange(t0, t0 + 8)) as u64,
                commit_time: le_value(b.subrange(t0 + 8, t0 + 16)) as u64,
                message: decode_utf8(b.subrange(m0, m0 + ml)),
            },
        )
    }
}

/// The first line of a message, or nothing.
pub open spec fn first_line(message: Seq<char>) -> Seq<char> {
    let ls = lines_spec(message);
    if ls.len() > 0 {
        ls[0]
    } else {
        Seq::empty()
    }
}

impl Commit {
    /// A new commit at the time `now`, in seconds since the Unix epoch.
    pub fn new(
        tree_hash: ObjectId,
        parents: Vec<ObjectId>,
        author: String,
        message: String,
        now: u64,
    ) -> (c: Commit)
        ensures
            c.tree_hash == tree_hash,
            c.parents == parents,
            c.author == author,
            c.author_time == now,
            c.commit_time == now,
            c.message == message,
            c.commit_hash == blake3_digest(commit_bytes(c@)),
    {
        let mut c = Commit {
            commit_hash: crate::hash::zero_hash(),
            tree_hash,
            parents,
            author,
            author_time: now,
            commit_time: now,
            message,
        };
        let ghost b = commit_bytes(c@);
        let h: ObjectId = c.compute_hash();
        c.commit_hash = h;
        assert(commit_bytes(c@) == b);
        c
    }

    /// The hash of the commit's bytes.
    pub fn compute_hash(&self) -> (h: ObjectId)
        ensures
            h == blake3_digest(commit_bytes(self@)),
    {
        let b = self.to_bytes();
        hash_bytes(b.as_slice())
    }

    /// A commit without parents.
    pub fn initial(tree: ObjectId, author: String, message: String, now: u64) -> (c: Commit)
        ensures
            c.tree_hash == tree,
            c.parents@.len() == 0,
            c.author == author,
            c.author_time == now,
            c.commit_time == now,
            c.message == message,
            c.commit_hash == blake3_digest(commit_bytes(c@)),
    {
        Commit::new(tree, Vec::new(), author, message, now)
    }

    /// A commit with one parent.
    pub fn with_parent(
        tree: ObjectId,
        parent: ObjectId,
        author: String,
        message: String,
        now: u64,
    ) -> (c: Commit)
        ensures
            c.tree_hash == tree,
            c.parents@ == seq![parent],
            c.author == author,
            c.author_time == now,
            c.commit_time == now,
            c.message == message,
            c.commit_hash == blake3_digest(commit_bytes(c@)),
    {
        let mut parents: Vec<ObjectId> = Vec::new();
        parents.push(parent);
        assert(parents@ =~= seq![parent]);
        Commit::new(tree, parents, author, message, now)
    }

    /// A commit with two or more parents.
    pub fn merge(
        tree: ObjectId,
        parents: Vec<ObjectId>,
        author: String,
        message: String,
        now: u64,
    ) -> (c: Commit)
        requires
            parents@.len() >= 2,
        ensures
            c.tree_hash == tree,
            c.parents == parents,
            c.author == author,
            c.author_time == now,
            c.commit_time == now,
            c.message == message,
            c.commit_hash == blake3_digest(commit_bytes(c@)),
    {
        Commit::new(tree, parents, author, message, now)
    }

    /// Whether the commit has no parents.
    pub fn is_initial(&self) -> (r: bool)
        ensures
            r == (self.parents@.len() == 0),
    {
        self.parents.len() == 0
    }

    /// Whether the commit has two or more parents.
    pub fn is_merge(&self) -> (r: bool)
        ensures
            r == (self.parents@.len() >= 2),
    {
        self.parents.len() >= 2
    }

    pub fn get_hash(&self) -> (h: ObjectId)
        ensures
            h == self.commit_hash,
    {
        self.commit_hash
    }

    /// The first eight digits of the hash.
    pub fn get_short_hash(&self) -> (s: String)
        ensures
            s@ == hex_text(self.commit_hash@).subrange(0, 8),
    {
        short_hash(&self.commit_hash)
    }

    /// The bytes of the commit. The hash is not among them: it is computed from
    /// them.
    pub fn to_bytes(&self) -> (b: Vec<u8>)
        ensures
            b@ == commit_bytes(self@),
    {
        let author = self.author.as_str().as_bytes();
        let message = self.message.as_str().as_bytes();
        let mut b: Vec<u8> = Vec::new();
        push_bytes(&mut b, &self.tree_hash);
        push_len32(&mut b, self.parents.len());
        let ghost start = b@;
        let ghost ps = id_views(self.parents@);
        let mut i: usize = 0;
        assert(ps.subrange(0, 0) =~= Seq::empty());
        assert(b@ =~= start + parents_bytes(ps.subrange(0, 0)));
        while i < self.parents.len()
            invariant
                i <= self.parents.len(),
                ps == id_views(self.parents@),
                b@ == start + parents_bytes(ps.subrange(0, i as int)),
            decreases self.parents.len() - i,
        {
            push_bytes(&mut b, &self.parents[i]);
            proof {
                let t = ps.subrange(0, i + 1);
                assert(t.drop_last() =~= ps.subrange(0, i as int));
                assert(t.last() == self.parents@[i as int]@);
                assert(b@ =~= start + parents_bytes(t));
            }
            i += 1;
        }
        assert(ps.subrange(0, i as int) =~= ps);
        push_len16(&mut b, author.len());
        push_bytes(&mut b, author);
        push_u64(&mut b, self.author_time);
        push_u64(&mut b, self.commit_time);
        push_len32(&mut b, message.len());
        push_bytes(&mut b, message);
        assert(b@ =~= commit_bytes(self@));
        b
    }

    /// The commit that the bytes hold.
    pub fn from_bytes(bytes: &[u8]) -> (r: Result<Commit, CommitError>)
        ensures
            match parse_commit(bytes@) {
                Ok(v) => r matches Ok(c) && c@ == v,
                Err(f) => r matches Err(e) && e == f,
            },
    {
        if bytes.len() < 36 {
            return Err(CommitError::TooShort(bytes.len()));
        }
        let ghost b = bytes@;
        let tree_hash: ObjectId = read_array::<32>(bytes, 0);
        let count: usize = read_u32(bytes, 32) as usize;
        let mut offset: usize = 36;
        let mut parents: Vec<ObjectId> = Vec::new();
        let mut i: usize = 0;
        while i < count
            invariant
                i <= count,
                36 <= offset <= bytes.len(),
                offset == 36 + 32 * i,
                b == bytes@,
                count == le_value(b.subrange(32, 36)),
                parents@.len() == i,
                forall|j: int|
                    0 <= j < i ==> (#[trigger] parents@[j])@ == b.subrange(
                        36 + 32 * j,
                        36 + 32 * j + 32,
                    ),
            decreases count - i,
        {
            if bytes.len() - offset < 32 {
                return Err(CommitError::EndedInParents);
            }
            let p: ObjectId = read_array::<32>(bytes, offset);
            parents.push(p);
            offset = offset + 32;
            i += 1;
        }
        let ghost n = count as int;
        let ghost a0 = 36 + 32 * n;
        proof {
            let field = b.subrange(36, a0);
            assert forall|j: int| 0 <= j < n implies id_views(parents@)[j] == parse_parents(
                field,
                n as nat,
            )[j] by {
                assert(parents@[j]@ == b.subrange(36 + 32 * j, 36 + 32 * j + 32));
                assert(field.subrange(32 * j, 32 * j + 32) =~= b.subrange(
                    36 + 32 * j,
                    36 + 32 * j + 32,
                ));
            }
            assert(id_views(parents@) =~= parse_parents(field, n as nat));
        }
        if bytes.len() - offset < 2 {
            return Err(CommitError::EndedInAuthorLength);
        }
        let author_len: usize = read_u16(bytes, offset) as usize;
        offset = offset + 2;
        if bytes.len() - offset < author_len {
            return Err(CommitError::EndedInAuthor);
        }
        let author: String = match core::str::from_utf8(
            vstd::slice::slice_subrange(bytes, offset, offset + author_len),
        ) {
            Ok(s) => {
                proof {
                    encode_utf8_decode_utf8(s@);
                }
                s.to_owned()
            },
            Err(_) => return Err(CommitError::InvalidAuthor),
        };
        offset = offset + author_len;
        if bytes.len() - offset < 8 {
            return Err(CommitError::EndedInAuthorTime);
        }
        let author_time: u64 = read_u64(bytes, offset);
        offset = offset + 8;
        if bytes.len() - offset < 8 {
            return Err(CommitError::EndedInCommitTime);
        }
        let commit_time: u64 = read_u64(bytes, offset);
        offset = offset + 8;
        if bytes.len() - offset < 4 {
            return Err(CommitError::EndedInMessageLength);
        }
        let message_len: usize = read_u32(bytes, offset) as usize;
        offset = offset + 4;
        if bytes.len() - offset < message_len {
            return Err(CommitError::EndedInMessage);
        }
        let message: String = match core::str::from_utf8(
            vstd::slice::slice_subrange(bytes, offset, offset + message_len),
        ) {
            Ok(s) => {
                proof {
                    encode_utf8_decode_utf8(s@);
                }
                s.to_owned()
            },
            Err(_) => return Err(CommitError::InvalidMessage),
        };
        let commit_hash: ObjectId = hash_bytes(bytes);
        Ok(
            Commit {
                commit_hash,
                tree_hash,
                parents,
                author,
                author_time,
                commit_time,
                message,
            },
        )
    }

    /// The first line of the message.
    pub fn summary(&self) -> (s: String)
        ensures
            s@ == first_line(self.message@),
    {
        let ls = lines(self.message.as_str());
        if ls.len() > 0 {
            assert(texts(ls@)[0] == ls@[0]@);
            ls[0].clone()
        } else {
            String::new()
        }
    }
}

/// The first eight digits of a hash.
pub fn short_hash(h: &ObjectId) -> (s: String)
    ensures
        s@ == hex_text(h@).subrange(0, 8),
{
    let hex = hash_to_hex(h);
    let v = to_chars(hex.as_str());
    from_chars(&v, 0, 8)
}

pub proof fn lemma_parents_bytes(ps: Seq<Seq<u8>>)
    requires
        forall|i: int| 0 <= i < ps.len() ==> (#[trigger] ps[i]).len() == 32,
    ensures
        parents_bytes(ps).len() == 32 * ps.len(),
        parse_parents(parents_bytes(ps), ps.len()) == ps,
    decreases ps.len(),
{
    let b = parents_bytes(ps);
    if ps.len() > 0 {
        let d = ps.drop_last();
        assert forall|i: int| 0 <= i < d.len() implies (#[trigger] d[i]).len() == 32 by {
            assert(d[i] == ps[i]);
        }
        lemma_parents_bytes(d);
        assert(ps[ps.len() - 1].len() == 32);
        let bd = parents_bytes(d);
        assert forall|i: int| 0 <= i < ps.len() implies #[trigger] parse_parents(b, ps.len())[i]
            == ps[i] by {
            if i < d.len() {
                assert(b.subrange(32 * i, 32 * i + 32) =~= bd.subrange(32 * i, 32 * i + 32));
                assert(parse_parents(bd, d.len())[i] == d[i]);
            } else {
                assert(b.subrange(32 * i, 32 * i + 32) =~= ps.last());
            }
        }
    }
    assert(parse_parents(b, ps.len()) =~= ps);
}

/// Whether a commit can be written without loss: the hashes have 32 bytes, and
/// each length fits in its field.
pub open spec fn commit_storable(c: CommitView) -> bool {
    &&& c.tree_hash.len() == 32
    &&& c.parents.len() < 0x1_0000_0000
    &&& forall|i: int| 0 <= i < c.parents.len() ==> (#[trigger] c.parents[i]).len() == 32
    &&& encode_utf8(c.author).len() < 0x1_0000
    &&& encode_utf8(c.message).len() < 0x1_0000_0000
}

/// Reading the bytes of a commit gives the commit back, under the hash of those
/// bytes.
#[verifier::rlimit(30)]
pub proof fn commit_round_trip(c: CommitView)
    requires
        commit_storable(c),
    ensures
        parse_commit(commit_bytes(c)) == Ok::<CommitView, CommitError>(
            (CommitView { commit_hash: blake3_digest(commit_bytes(c))@, ..c }),
        ),
{
    let b = commit_bytes(c);
    let author = encode_utf8(c.author);
    let message = encode_utf8(c.message);
    let ps = parents_bytes(c.parents);
    lemma_parents_bytes(c.parents);
    lemma_pow256_values();
    lemma_le_bytes_len(c.parents.len(), 4);
    lemma_le_bytes_len(author.len(), 2);
    lemma_le_bytes_len(c.author_time as nat, 8);
    lemma_le_bytes_len(c.commit_time as nat, 8);
    lemma_le_bytes_len(message.len(), 4);
    lemma_le_round_trip(c.parents.len(), 4);
    lemma_le_round_trip(author.len(), 2);
    lemma_le_round_trip(c.author_time as nat, 8);
    lemma_le_round_trip(c.commit_time as nat, 8);
    lemma_le_round_trip(message.len(), 4);
    let n = c.parents.len() as int;
    let a0 = 36 + 32 * n;
    let a1 = a0 + 2;
    let t0 = a1 + author.len() as int;
    let m0 = t0 + 20;
    assert(b.subrange(0, 32) =~= c.tree_hash);
    assert(b.subrange(32, 36) =~= le_bytes(c.parents.len(), 4));
    assert(b.subrange(36, a0) =~= ps);
    assert(b.subrange(a0, a0 + 2) =~= le_bytes(author.len(), 2));
    assert(b.subrange(a1, t0) =~= author);
    assert(b.subrange(t0, t0 + 8) =~= le_bytes(c.author_time as nat, 8));
    assert(b.subrange(t0 + 8, t0 + 16) =~= le_bytes(c.commit_time as nat, 8));
    assert(b.subrange(t0 + 16, t0 + 20) =~= le_bytes(message.len(), 4));
    assert(b.subrange(m0, m0 + message.len() as int) =~= message);
    encode_utf8_valid_utf8(c.author);
    encode_utf8_decode_utf8(c.author);
    encode_utf8_valid_utf8(c.message);
    encode_utf8_decode_utf8(c.message);
}

/// The bytes of a commit with some cut off at the end are refused.
#[verifier::rlimit(40)]
pub proof fn cut_commit_is_refused(c: CommitView, k: int)
    requires
        commit_storable(c),
        0 <= k < commit_bytes(c).len(),
    ensures
        parse_commit(commit_bytes(c).subrange(0, k)) is Err,
{
    let b = commit_bytes(c);
    let p = b.subrange(0, k);
    let author = encode_utf8(c.author);
    let message = encode_utf8(c.message);
    lemma_parents_bytes(c.parents);
    lemma_pow256_values();
    lemma_le_bytes_len(c.parents.len(), 4);
    lemma_le_bytes_len(author.len(), 2);
    lemma_le_bytes_len(c.author_time as nat, 8);
    lemma_le_bytes_len(c.commit_time as nat, 8);
    lemma_le_bytes_len(message.len(), 4);
    lemma_le_round_trip(c.parents.len(), 4);
    lemma_le_round_trip(author.len(), 2);
    lemma_le_round_trip(message.len(), 4);
    let a0 = 36 + 32 * c.parents.len() as int;
    let t0 = a0 + 2 + author.len() as int;
    if parse_commit(p) is Ok {
        assert(p.subrange(32, 36) =~= le_bytes(c.parents.len(), 4));
        assert(p.subrange(a0, a0 + 2) =~= le_bytes(author.len(), 2));
        assert(p.subrange(t0 + 16, t0 + 20) =~= le_bytes(message.len(), 4));
    }
}

/// A signed number in decimal.
pub open spec fn signed_decimal(n: int) -> Seq<char> {
    if n < 0 {
        seq!['-'] + decimal((-n) as nat)
    } else {
        decimal(n as nat)
    }
}

/// The first and the last time that has a date: the years from -9999 to 9999.
pub open spec fn datable(t: int) -> bool {
    -377_705_116_800 <= t <= 253_402_300_799
}

/// Calls `time::OffsetDateTime::from_unix_timestamp`, which refuses times
/// outside the years from -9999 to 9999, and gives the time back.
#[verifier::external_body]
fn dated(t: i64) -> (r: Option<i64>)
    ensures
        r == (if datable(t as int) {
            Some(t)
        } else {
            None
        }),
{
    time::OffsetDateTime::from_unix_timestamp(t).ok().map(|d| d.unix_timestamp())
}

/// An unsigned time as a signed one, as two's complement has it.
pub open spec fn as_signed(t: u64) -> int {
    if t <= i64::MAX {
        t as int
    } else {
        t - 0x1_0000_0000_0000_0000
    }
}

fn to_signed(t: u64) -> (r: i64)
    ensures
        r == as_signed(t),
{
    if t <= 0x7fff_ffff_ffff_ffff {
        t as i64
    } else {
        -1 - (0xffff_ffff_ffff_ffff - t) as i64
    }
}

/// The whole seconds from a commit to `now_sec` seconds and `now_nanos`
/// nanoseconds after the Unix epoch. A commit time without a date counts as the
/// epoch.
pub open spec fn age_seconds(commit_time: u64, now_sec: int, now_nanos: int) -> int {
    let t = as_signed(commit_time);
    let d = now_sec - if datable(t) {
        t
    } else {
        0
    };
    if d < 0 && now_nanos > 0 {
        d + 1
    } else {
        d
    }
}

/// A number of units of time.
pub open spec fn ago(n: int, unit: Seq<char>) -> Seq<char> {
    decimal(n as nat) + " "@ + unit + (if n == 1 {
        ""@
    } else {
        "s"@
    }) + " ago"@
}

/// An age in words.
pub open spec fn age_text(s: int) -> Seq<char> {
    if s < 60 {
        signed_decimal(s) + " seconds ago"@
    } else if s < 3600 {
        ago(s / 60, "minute"@)
    } else if s < 86400 {
        ago(s / 3600, "hour"@)
    } else if s < 604800 {
        ago(s / 86400, "day"@)
    } else if s < 2592000 {
        ago(s / 604800, "week"@)
    } else if s < 31536000 {
        ago(s / 2592000, "month"@)
    } else {
        ago(s / 31536000, "year"@)
    }
}

fn ago_text(n: u64, unit: &str) -> (r: String)
    ensures
        r@ == ago(n as int, unit@),
{
    let mut r: String = decimal_of(n);
    r.append(" ");
    r.append(unit);
    r.append(
        if n == 1 {
            ""
        } else {
            "s"
        },
    );
    r.append(" ago");
    r
}

impl Commit {
    /// The age of the commit in words, at a time in seconds and nanoseconds
    /// since the Unix epoch.
    pub fn relative_time(&self, now_sec: i64, now_nanos: u32) -> (r: String)
        requires
            datable(now_sec as int),
        ensures
            r@ == age_text(age_seconds(self.commit_time, now_sec as int, now_nanos as int)),
    {
        let t: i64 = match dated(to_signed(self.commit_time)) {
            Some(t) => t,
            None => 0,
        };
        let d: i64 = now_sec - t;
        let seconds: i64 = if d < 0 && now_nanos > 0 {
            d + 1
        } else {
            d
        };
        if seconds < 60 {
            let mut r: String = String::new();
            if seconds < 0 {
                r.push('-');
                let n = decimal_of((-seconds) as u64);
                r.append(n.as_str());
                assert(Seq::<char>::empty().push('-') + n@ =~= seq!['-'] + n@);
            } else {
                let n = decimal_of(seconds as u64);
                r.append(n.as_str());
                assert(Seq::<char>::empty() + n@ =~= n@);
            }
            r.append(" seconds ago");
            r
        } else if seconds < 3600 {
            ago_text((seconds / 60) as u64, "minute")
        } else if seconds < 86400 {
            ago_text((seconds / 3600) as u64, "hour")
        } else if seconds < 604800 {
            ago_text((seconds / 86400) as u64, "day")
        } else if seconds < 2592000 {
            ago_text((seconds / 604800) as u64, "week")
        } else if seconds < 31536000 {
            ago_text((seconds / 2592000) as u64, "month")
        } else {
            ago_text((seconds / 31536000) as u64, "year")
        }
    }

    /// The commit for display, under the given hash and with the date in this form.
    pub fn format_with_date(&self, hash: &ObjectId, date: &str) -> (r: String)
        ensures
            r@ == shown_commit(self@, hash@, date@),
    {
        let mut r: String = "commit ".to_owned();
        let short = short_hash(hash);
        r.append(short.as_str());
        r.append("\nAuthor: ");
        r.append(self.author.as_str());
        r.append("\nDate:   ");
        r.append(date);
        r.append("\n\n    ");
        let ls = lines(self.message.as_str());
        let body = join(ls.as_slice(), "\n    ");
        r.append(body.as_str());
        r
    }

    /// The commit for display, under the given hash.
    pub fn format(&self, hash: &ObjectId) -> (r: String)
        ensures
            r@ == shown_commit(self@, hash@, shown_time(self.author_time)),
    {
        let date = format_timestamp(self.author_time);
        self.format_with_date(hash, date.as_str())
    }
}

/// A commit for display.
pub open spec fn shown_commit(c: CommitView, hash: Seq<u8>, date: Seq<char>) -> Seq<char> {
    "commit "@ + hex_text(hash).subrange(0, 8) + "\nAuthor: "@ + c.author + "\nDate:   "@ + date
        + "\n\n    "@ + join_spec(lines_spec(c.message), "\n    "@)
}

/// How times are written.
pub const DATE_PATTERN: &'static str = "%m/%d/%y %H:%M:%S";

/// A time in UTC, by a pattern of `strftime`, if the time has a date.
pub uninterp spec fn utc_text(secs: i64, pattern: Seq<char>) -> Option<Seq<char>>;

/// Calls `chrono::DateTime::from_timestamp`, and `format` on the date with the pattern:
/// whether there is a date, and its text, are a function of the time and the pattern. The
/// epoch has a date.
#[verifier::external_body]
fn format_utc(secs: i64, pattern: &str) -> (r: Option<String>)
    requires
        pattern@ == DATE_PATTERN@,
    ensures
        text_of(r) == utc_text(secs, pattern@),
        secs == 0 ==> r is Some,
{
    match chrono::DateTime::from_timestamp(secs, 0) {
        Some(t) => Some(t.format(pattern).to_string()),
        None => None,
    }
}

/// A time in seconds since the Unix epoch as it is shown, in UTC. A time that has no date
/// is shown as the epoch.
pub open spec fn shown_time(timestamp: u64) -> Seq<char> {
    match utc_text(as_signed(timestamp) as i64, DATE_PATTERN@) {
        Some(t) => t,
        None => utc_text(0, DATE_PATTERN@)->0,
    }
}

/// A time in seconds since the Unix epoch, in UTC.
pub fn format_timestamp(timestamp: u64) -> (r: String)
    ensures
        r@ == shown_time(timestamp),
{
    match format_utc(to_signed(timestamp), DATE_PATTERN) {
        Some(t) => t,
        None => match format_utc(0, DATE_PATTERN) {
            Some(t) => t,
            None => String::new(),
        },
    }
}

} // verus!
