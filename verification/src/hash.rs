//! FNV-1a hashing and hexadecimal text for the log format.

use vstd::prelude::*;

use crate::text;
use crate::text::{chars_of};

verus! {

/// The FNV-1a 64-bit offset basis.
pub const FNV_OFFSET: u64 = 0xcbf2_9ce4_8422_2325;

/// The FNV-1a 64-bit prime.
pub const FNV_PRIME: u64 = 0x0000_0100_0000_01b3;

/// FNV-1a over `bytes`, continuing from `state`.
pub open spec fn fnv(state: u64, bytes: Seq<u8>) -> u64
    decreases bytes.len(),
{
    if bytes.len() == 0 {
        state
    } else {
        (fnv(state, bytes.drop_last()) ^ (bytes.last() as u64)).wrapping_mul(FNV_PRIME)
    }
}

/// FNV-1a over `bytes`, continuing from `state`; [`FNV_OFFSET`] starts.
#[must_use]
pub fn fnv1a(state: u64, bytes: &[u8]) -> (r: u64)
    ensures
        r == fnv(state, bytes@),
{
    let mut h: u64 = state;
    let mut i: usize = 0;
    assert(bytes@.take(0) =~= Seq::<u8>::empty());
    while i < bytes.len()
        invariant
            i <= bytes@.len(),
            h == fnv(state, bytes@.take(i as int)),
        decreases bytes@.len() - i,
    {
        let b: u8 = bytes[i];
        proof {
            assert(bytes@.take(i as int + 1).drop_last() =~= bytes@.take(i as int));
            assert(bytes@.take(i as int + 1).last() == b);
        }
        h = (h ^ (b as u64)).wrapping_mul(FNV_PRIME);
        i = i + 1;
    }
    assert(bytes@.take(i as int) =~= bytes@);
    h
}

/// FNV-1a of a whole buffer from the offset basis.
#[must_use]
pub fn fnv1a_once(bytes: &[u8]) -> (r: u64)
    ensures
        r == fnv(FNV_OFFSET, bytes@),
{
    fnv1a(FNV_OFFSET, bytes)
}

/// Hashing in two steps is hashing the concatenation.
pub proof fn law_fnv_continues(state: u64, a: Seq<u8>, b: Seq<u8>)
    ensures
        fnv(fnv(state, a), b) == fnv(state, a + b),
    decreases b.len(),
{
    if b.len() == 0 {
        assert(a + b =~= a);
    } else {
        law_fnv_continues(state, a, b.drop_last());
        assert((a + b).drop_last() =~= a + b.drop_last());
    }
}

/// The lower-case hexadecimal digit for `d`.
pub open spec fn hex_char(d: int) -> char {
    if d < 10 {
        ('0' as int + d) as char
    } else {
        ('a' as int + d - 10) as char
    }
}

/// Two digits for each byte, the high half first.
pub open spec fn hex(b: Seq<u8>) -> Seq<char> {
    Seq::new(
        2 * b.len(),
        |i: int|
            if i % 2 == 0 {
                hex_char(b[i / 2] as int / 16)
            } else {
                hex_char(b[i / 2] as int % 16)
            },
    )
}

/// The bytes that hexadecimal text writes, in either letter case.
pub open spec fn unhex(s: Seq<char>) -> Option<Seq<u8>> {
    if s.len() % 2 == 0 && text::all_digits(s, 16) {
        Some(
            Seq::new(
                s.len() / 2,
                |i: int|
                    (text::digit(s[2 * i], 16).unwrap() * 16 + text::digit(s[2 * i + 1], 16).unwrap()) as u8,
            ),
        )
    } else {
        None
    }
}

fn nibble(d: u8) -> (c: char)
    requires
        d < 16,
    ensures
        c == hex_char(d as int),
{
    if d < 10 {
        (48u8 + d) as char
    } else {
        (87u8 + d) as char
    }
}

/// Lower-case hexadecimal text.
#[must_use]
pub fn to_hex(bytes: &[u8]) -> (s: String)
    ensures
        s@ == hex(bytes@),
{
    let mut s = String::new();
    push_hex(&mut s, bytes);
    assert(s@ =~= hex(bytes@));
    s
}

/// Append the lower-case hexadecimal text of `bytes` to `out`.
pub fn push_hex(out: &mut String, bytes: &[u8])
    ensures
        final(out)@ == old(out)@ + hex(bytes@),
{
    let ghost start = out@;
    let mut i: usize = 0;
    assert(out@ =~= start + hex(bytes@.take(0)));
    while i < bytes.len()
        invariant
            i <= bytes@.len(),
            out@ == start + hex(bytes@.take(i as int)),
        decreases bytes@.len() - i,
    {
        let b: u8 = bytes[i];
        out.push(nibble(b / 16));
        out.push(nibble(b % 16));
        proof {
            let t = bytes@.take(i as int + 1);
            assert(out@ =~= start + hex(t));
        }
        i = i + 1;
    }
    assert(bytes@.take(i as int) =~= bytes@);
}

fn hex_value(c: char) -> (r: Option<u8>)
    ensures
        match r {
            Some(d) => text::digit(c, 16) == Some(d as int) && d < 16,
            None => text::digit(c, 16) is None,
        },
{
    if '0' <= c && c <= '9' {
        Some(c as u8 - 48)
    } else if 'a' <= c && c <= 'f' {
        Some(c as u8 - 87)
    } else if 'A' <= c && c <= 'F' {
        Some(c as u8 - 55)
    } else {
        None
    }
}

/// Read hexadecimal text; `None` on an odd length or anything that is not a
/// hexadecimal digit.
#[must_use]
pub fn from_hex(s: &str) -> (r: Option<Vec<u8>>)
    ensures
        match r {
            Some(v) => unhex(s@) == Some(v@),
            None => unhex(s@) is None,
        },
{
    let v = chars_of(s);
    if v.len() % 2 != 0 {
        return None;
    }
    let mut out: Vec<u8> = Vec::new();
    let mut i: usize = 0;
    while i < v.len()
        invariant
            i <= v@.len(),
            v@ == s@,
            v@.len() % 2 == 0,
            i % 2 == 0,
            out@.len() == i / 2,
            forall|j: int| 0 <= j < i ==> (#[trigger] text::digit(v@[j], 16)) is Some,
            forall|j: int|
                0 <= j < i / 2 ==> #[trigger] out@[j] == (text::digit(v@[2 * j], 16).unwrap() * 16
                    + text::digit(v@[2 * j + 1], 16).unwrap()) as u8,
        decreases v@.len() - i,
    {
        let hi = hex_value(v[i]);
        let lo = hex_value(v[i + 1]);
        match (hi, lo) {
            (Some(h), Some(l)) => {
                out.push(h * 16 + l);
            },
            _ => {
                assert(text::digit(s@[i as int], 16) is None || text::digit(s@[i as int + 1], 16) is None);
                return None;
            },
        }
        i = i + 2;
    }
    proof {
        assert(unhex(s@).unwrap() =~= out@);
    }
    Some(out)
}

/// Hexadecimal text reads back as the bytes it was made from.
pub proof fn law_hex_round_trip(b: Seq<u8>)
    ensures
        unhex(hex(b)) == Some(b),
{
    let s = hex(b);
    assert forall|i: int| 0 <= i < s.len() implies (#[trigger] text::digit(s[i], 16)) is Some by {
        assert(0 <= b[i / 2] as int / 16 < 16);
    }
    assert(unhex(s).unwrap() =~= b) by {
        assert forall|i: int| 0 <= i < b.len() implies unhex(s).unwrap()[i] == b[i] by {
            assert((2 * i) / 2 == i);
            assert((2 * i + 1) / 2 == i);
            assert((2 * i + 1) % 2 == 1);
            assert(text::digit(s[2 * i], 16) == Some(b[i] as int / 16));
            assert(text::digit(s[2 * i + 1], 16) == Some(b[i] as int % 16));
        }
    }
}

} // verus!
