//! Object hashes, checksums and their hexadecimal text.
use vstd::prelude::*;
use vstd::string::*;
use vstd::utf8::*;

use crate::codec::bytes_eq;

verus! {

/// The hash that names an object: 32 bytes.
pub type ObjectId = [u8; 32];

/// The hash of thirty-two zero bytes, which stands for "no object".
pub fn zero_hash() -> (h: ObjectId)
    ensures
        h@ == crate::codec::zeros(32),
{
    let h: ObjectId = [0u8; 32];
    assert(h@ =~= crate::codec::zeros(32));
    h
}

/// The BLAKE3 digest of `data`.
pub uninterp spec fn blake3_digest(data: Seq<u8>) -> [u8; 32];

/// The SHA-256 digest of `data`.
pub uninterp spec fn sha256_digest(data: Seq<u8>) -> [u8; 32];

/// Calls `blake3::hash`: the result is the BLAKE3 digest of the bytes, a
/// function of the bytes alone.
#[verifier::external_body]
fn blake3_hash(data: &[u8]) -> (h: ObjectId)
    ensures
        h == blake3_digest(data@),
{
    *blake3::hash(data).as_bytes()
}

/// Calls `sha2::Sha256` on the bytes at once: the result is their SHA-256
/// digest, a function of the bytes alone.
#[verifier::external_body]
fn sha256_hash(data: &[u8]) -> (h: [u8; 32])
    ensures
        h == sha256_digest(data@),
{
    <sha2::Sha256 as sha2::Digest>::digest(data).into()
}

/// The hash of an object's bytes.
pub fn hash_bytes(data: &[u8]) -> (h: ObjectId)
    ensures
        h == blake3_digest(data@),
{
    blake3_hash(data)
}

/// The checksum of a file's bytes.
pub fn checksum_bytes(data: &[u8]) -> (h: [u8; 32])
    ensures
        h == sha256_digest(data@),
{
    sha256_hash(data)
}

/// Whether two hashes are equal.
pub fn hash_eq(a: &ObjectId, b: &ObjectId) -> (r: bool)
    ensures
        r == (a == b),
{
    let r: bool = bytes_eq(a, b);
    proof {
        if a@ == b@ {
            assert(*a =~= *b);
        }
    }
    r
}

/// The character of a number below sixteen.
pub open spec fn hex_digit(n: int) -> char {
    if n < 10 {
        (48 + n) as char
    } else {
        (87 + n) as char
    }
}

/// The text of `data`: two lower-case hexadecimal digits for each byte.
pub open spec fn hex_text(data: Seq<u8>) -> Seq<char> {
    Seq::new(
        2 * data.len(),
        |i: int|
            if i % 2 == 0 {
                hex_digit(data[i / 2] as int / 16)
            } else {
                hex_digit(data[i / 2] as int % 16)
            },
    )
}

/// Whether `b` is the code of a hexadecimal digit, of either case.
pub open spec fn is_hex(b: u8) -> bool {
    48 <= b <= 57 || 65 <= b <= 70 || 97 <= b <= 102
}

/// The value of a hexadecimal digit.
pub open spec fn hex_value(b: u8) -> int {
    if b <= 57 {
        b - 48
    } else if b <= 70 {
        b - 55
    } else {
        b - 87
    }
}

/// The bytes that the digits `b` spell, two digits for each.
pub open spec fn hex_bytes(b: Seq<u8>) -> Seq<u8> {
    Seq::new(
        b.len() / 2,
        |i: int| (16 * hex_value(b[2 * i]) + hex_value(b[2 * i + 1])) as u8,
    )
}

/// The place of the first byte of `b` that is no digit, or the length of `b`.
pub open spec fn first_non_hex(b: Seq<u8>) -> int
    decreases b.len(),
{
    if b.len() == 0 || !is_hex(b[0]) {
        0
    } else {
        1 + first_non_hex(b.subrange(1, b.len() as int))
    }
}

/// Why a text is not the hexadecimal text of a hash.
#[derive(Debug, Clone, Copy, PartialEq, Eq)]
pub enum HexError {
    /// A character that is no hexadecimal digit, and its place.
    InvalidHexCharacter { c: char, index: usize },
    /// The number of digits is odd.
    OddLength,
    /// The number of digits does not fit the container.
    InvalidStringLength,
}

/// Calls `hex::encode`, which writes each byte as two lower-case digits.
#[verifier::external_body]
fn hex_encode(data: &[u8]) -> (s: String)
    ensures
        s@ == hex_text(data@),
{
    hex::encode(data)
}

/// Calls `hex::decode`, which reads digits of either case, two for each byte,
/// after it has looked at the parity of the length.
#[verifier::external_body]
fn hex_decode(text: &str) -> (r: Result<Vec<u8>, HexError>)
    ensures
        ({
            let b = text.spec_bytes();
            let bad = first_non_hex(b);
            if b.len() % 2 != 0 {
                r == Err::<Vec<u8>, HexError>(HexError::OddLength)
            } else if bad < b.len() {
                r == Err::<Vec<u8>, HexError>(
                    (HexError::InvalidHexCharacter { c: b[bad] as char, index: bad as usize }),
                )
            } else {
                r matches Ok(v) && v@ == hex_bytes(b)
            }
        }),
{
    hex::decode(text).map_err(|e| match e {
        hex::FromHexError::InvalidHexCharacter { c, index } =>
            HexError::InvalidHexCharacter { c, index },
        hex::FromHexError::OddLength => HexError::OddLength,
        hex::FromHexError::InvalidStringLength => HexError::InvalidStringLength,
    })
}

/// The hexadecimal text of a hash.
pub fn hash_to_hex(h: &ObjectId) -> (s: String)
    ensures
        s@ == hex_text(h@),
        s@.len() == 64,
{
    hex_encode(h)
}

/// The hexadecimal text of any bytes.
pub fn bytes_to_hex(data: &[u8]) -> (s: String)
    ensures
        s@ == hex_text(data@),
{
    hex_encode(data)
}

/// What the hexadecimal text `t` (in bytes) means as raw bytes.
pub open spec fn decoded_hex(b: Seq<u8>) -> Result<Seq<u8>, HexError> {
    let bad = first_non_hex(b);
    if b.len() % 2 != 0 {
        Err(HexError::OddLength)
    } else if bad < b.len() {
        Err(HexError::InvalidHexCharacter { c: b[bad] as char, index: bad as usize })
    } else {
        Ok(hex_bytes(b))
    }
}

/// What the hexadecimal text `b` (in bytes) means as a hash.
pub open spec fn decoded_hash(b: Seq<u8>) -> Result<Seq<u8>, HexError> {
    match decoded_hex(b) {
        Err(e) => Err(e),
        Ok(v) => if v.len() == 32 {
            Ok(v)
        } else {
            Err(HexError::InvalidStringLength)
        },
    }
}

/// The bytes that a hexadecimal text spells.
pub fn hex_to_bytes(text: &str) -> (r: Result<Vec<u8>, HexError>)
    ensures
        match decoded_hex(text.spec_bytes()) {
            Ok(v) => r matches Ok(w) && w@ == v,
            Err(e) => r == Err::<Vec<u8>, HexError>(e),
        },
{
    hex_decode(text)
}

/// The hash that a hexadecimal text spells: sixty-four digits.
pub fn hex_to_hash(text: &str) -> (r: Result<ObjectId, HexError>)
    ensures
        match decoded_hash(text.spec_bytes()) {
            Ok(v) => r matches Ok(h) && h@ == v,
            Err(e) => r == Err::<ObjectId, HexError>(e),
        },
{
    match hex_decode(text) {
        Err(e) => Err(e),
        Ok(v) => {
            if v.len() != 32 {
                return Err(HexError::InvalidStringLength);
            }
            let h: ObjectId = crate::codec::read_array::<32>(v.as_slice(), 0);
            assert(h@ =~= v@);
            Ok(h)
        },
    }
}

proof fn lemma_first_non_hex_all(b: Seq<u8>)
    requires
        forall|i: int| 0 <= i < b.len() ==> is_hex(#[trigger] b[i]),
    ensures
        first_non_hex(b) == b.len(),
    decreases b.len(),
{
    if b.len() > 0 {
        lemma_first_non_hex_all(b.subrange(1, b.len() as int));
    }
}

proof fn lemma_hex_digit(n: int)
    requires
        0 <= n < 16,
    ensures
        (hex_digit(n) as u32) < 128,
        is_hex(hex_digit(n) as u8),
        hex_value(hex_digit(n) as u8) == n,
{
}

/// Reading the hexadecimal text of `data` gives `data` back.
pub proof fn hex_round_trip(data: Seq<u8>)
    ensures
        decoded_hex(encode_utf8(hex_text(data))) == Ok::<Seq<u8>, HexError>(data),
{
    let t = hex_text(data);
    assert forall|i: int| 0 <= i < t.len() implies (t[i] as u32) < 128 && is_hex(t[i] as u8) by {
        lemma_hex_digit(data[i / 2] as int / 16);
        lemma_hex_digit(data[i / 2] as int % 16);
    }
    assert(is_ascii_chars(t));
    is_ascii_chars_encode_utf8(t);
    let b = encode_utf8(t);
    assert forall|i: int| 0 <= i < b.len() implies is_hex(#[trigger] b[i]) by {
        assert(b[i] == t[i] as u8);
    }
    lemma_first_non_hex_all(b);
    assert forall|i: int| 0 <= i < data.len() implies hex_bytes(b)[i] == data[i] by {
        lemma_hex_digit(data[i] as int / 16);
        lemma_hex_digit(data[i] as int % 16);
        assert(b[2 * i] == t[2 * i] as u8);
        assert(b[2 * i + 1] == t[2 * i + 1] as u8);
        assert((2 * i) / 2 == i && (2 * i + 1) / 2 == i);
    }
    assert(hex_bytes(b) =~= data);
}

} // verus!
