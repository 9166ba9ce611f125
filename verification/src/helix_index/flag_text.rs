//! The flags of an entry in words.
use vstd::prelude::*;
use vstd::string::*;

use crate::helix_index::format::EntryFlags;
use crate::text::{concat3, join, join_spec, texts};

verus! {

/// The name of the flag with this bit.
pub open spec fn flag_name(k: nat) -> Seq<char> {
    if k == 0 {
        "TRACKED"@
    } else if k == 1 {
        "STAGED"@
    } else if k == 2 {
        "MODIFIED"@
    } else if k == 3 {
        "DELETED"@
    } else if k == 4 {
        "UNTRACKED"@
    } else if k == 5 {
        "CONFLICT"@
    } else if k == 6 {
        "ASSUME_UNCHANGED"@
    } else if k == 7 {
        "IGNORED"@
    } else if k == 8 {
        "SYMLINK"@
    } else if k == 9 {
        "RESERVED1"@
    } else if k == 10 {
        "RESERVED2"@
    } else if k == 11 {
        "RESERVED3"@
    } else if k == 12 {
        "RESERVED4"@
    } else if k == 13 {
        "RESERVED5"@
    } else if k == 14 {
        "RESERVED6"@
    } else {
        "RESERVED7"@
    }
}

fn name_of_flag(k: u32) -> (r: &'static str)
    ensures
        r@ == flag_name(k as nat),
{
    if k == 0 {
        "TRACKED"
    } else if k == 1 {
        "STAGED"
    } else if k == 2 {
        "MODIFIED"
    } else if k == 3 {
        "DELETED"
    } else if k == 4 {
        "UNTRACKED"
    } else if k == 5 {
        "CONFLICT"
    } else if k == 6 {
        "ASSUME_UNCHANGED"
    } else if k == 7 {
        "IGNORED"
    } else if k == 8 {
        "SYMLINK"
    } else if k == 9 {
        "RESERVED1"
    } else if k == 10 {
        "RESERVED2"
    } else if k == 11 {
        "RESERVED3"
    } else if k == 12 {
        "RESERVED4"
    } else if k == 13 {
        "RESERVED5"
    } else if k == 14 {
        "RESERVED6"
    } else {
        "RESERVED7"
    }
}

/// The names of those of the first `n` flags that are set.
pub open spec fn flag_names(bits: u32, n: nat) -> Seq<Seq<char>>
    decreases n,
{
    if n == 0 {
        Seq::empty()
    } else {
        let k = (n - 1) as nat;
        if (bits >> (k as u32)) & 1 == 1 {
            flag_names(bits, k).push(flag_name(k))
        } else {
            flag_names(bits, k)
        }
    }
}

/// `n` in hexadecimal.
pub open spec fn hexadecimal(n: nat) -> Seq<char>
    decreases n,
{
    if n < 16 {
        seq![crate::hash::hex_digit(n as int)]
    } else {
        hexadecimal(n / 16).push(crate::hash::hex_digit(n as int % 16))
    }
}

/// What a set of flags consists of: the names of the flags, and the bits that have no
/// name as one number.
pub open spec fn flag_parts(bits: u32) -> Seq<Seq<char>> {
    let named = flag_names(bits, 16);
    let rest = bits & !EntryFlags::ALL;
    if rest != 0 || bits == 0 {
        named.push("0x"@ + hexadecimal(rest as nat))
    } else {
        named
    }
}

/// The flags in words, such as `EntryFlags(TRACKED | STAGED)`.
pub open spec fn flags_text(flags: EntryFlags) -> Seq<char> {
    "EntryFlags("@ + join_spec(flag_parts(flags.bits), " | "@) + ")"@
}

fn hex_char(n: u8) -> (r: char)
    requires
        n < 16,
    ensures
        r == crate::hash::hex_digit(n as int),
{
    if n < 10 {
        (48 + n) as char
    } else {
        (87 + n) as char
    }
}

fn push_hexadecimal(s: &mut String, n: u32)
    ensures
        final(s)@ == old(s)@ + hexadecimal(n as nat),
    decreases n,
{
    let ghost before = s@;
    if n >= 16 {
        push_hexadecimal(s, n / 16);
        s.push(hex_char((n % 16) as u8));
        assert(s@ =~= before + hexadecimal(n as nat / 16).push(
            crate::hash::hex_digit(n as int % 16),
        ));
    } else {
        s.push(hex_char(n as u8));
        assert(s@ =~= before + seq![crate::hash::hex_digit(n as int)]);
    }
}

/// The flags in words.
pub fn text_of_flags(flags: EntryFlags) -> (r: String)
    ensures
        r@ == flags_text(flags),
{
    let bits: u32 = flags.bits;
    let mut parts: Vec<String> = Vec::new();
    let mut k: u32 = 0;
    assert(texts(parts@) =~= flag_names(bits, 0));
    while k < 16
        invariant
            k <= 16,
            texts(parts@) == flag_names(bits, k as nat),
        decreases 16 - k,
    {
        let ghost before = texts(parts@);
        if (bits >> k) & 1 == 1 {
            parts.push(name_of_flag(k).to_owned());
            assert(texts(parts@) =~= before.push(flag_name(k as nat)));
        }
        k += 1;
    }
    let rest: u32 = bits & !EntryFlags::ALL;
    if rest != 0 || bits == 0 {
        let ghost before = texts(parts@);
        let mut number: String = "0x".to_owned();
        push_hexadecimal(&mut number, rest);
        let ghost n = number@;
        parts.push(number);
        assert(texts(parts@) =~= before.push(n));
    }
    let inner = join(parts.as_slice(), " | ");
    concat3("EntryFlags(", inner.as_str(), ")")
}

} // verus!
