//! JSON text, as the log format writes it.

use vstd::prelude::*;

use crate::hash;
use crate::text;
use crate::text::{push_dec, push_text};

verus! {

/// What a character is written as inside a JSON string: quotes, backslashes
/// and control characters are escaped.
pub open spec fn escaped(c: char) -> Seq<char> {
    if c == '"' {
        seq!['\\', '"']
    } else if c == '\\' {
        seq!['\\', '\\']
    } else if c == '\u{8}' {
        seq!['\\', 'b']
    } else if c == '\u{9}' {
        seq!['\\', 't']
    } else if c == '\u{a}' {
        seq!['\\', 'n']
    } else if c == '\u{c}' {
        seq!['\\', 'f']
    } else if c == '\u{d}' {
        seq!['\\', 'r']
    } else if (c as int) <= 31 {
        seq![
            '\\',
            'u',
            '0',
            '0',
            hash::hex_char(c as int / 16),
            hash::hex_char(c as int % 16),
        ]
    } else {
        seq![c]
    }
}

/// The inside of a JSON string.
pub open spec fn escaped_all(s: Seq<char>) -> Seq<char>
    decreases s.len(),
{
    if s.len() == 0 {
        Seq::empty()
    } else {
        escaped_all(s.drop_last()) + escaped(s.last())
    }
}

/// A JSON string.
pub open spec fn string_json(s: Seq<char>) -> Seq<char> {
    seq!['"'] + escaped_all(s) + seq!['"']
}

/// `serde_json::to_string` on a string: its characters between quotes, each
/// written as [`escaped`] says. Serialising a string does not fail.
#[verifier::external_body]
fn quote_json(s: &str) -> (r: String)
    ensures
        r@ == string_json(s@),
{
    serde_json::to_string(s).unwrap_or_default()
}

/// Append a JSON string.
pub fn push_string(out: &mut String, s: &str)
    ensures
        final(out)@ == old(out)@ + string_json(s@),
{
    let q = quote_json(s);
    push_text(out, q.as_str());
}

pub open spec fn bool_json(b: bool) -> Seq<char> {
    if b {
        "true"@
    } else {
        "false"@
    }
}

/// Append a JSON truth value.
pub fn push_bool(out: &mut String, b: bool)
    ensures
        final(out)@ == old(out)@ + bool_json(b),
{
    if b {
        push_text(out, "true");
    } else {
        push_text(out, "false");
    }
}

/// Append a text and a number.
pub fn push_num(out: &mut String, before: &str, n: u64)
    ensures
        final(out)@ == old(out)@ + before@ + text::dec(n as nat),
{
    push_text(out, before);
    push_dec(out, n);
}

/// `n` in exactly `k` hexadecimal digits, the low ones.
pub open spec fn hex_digits(n: nat, k: nat) -> Seq<char>
    decreases k,
{
    if k == 0 {
        Seq::empty()
    } else {
        hex_digits(n / 16, (k - 1) as nat).push(hash::hex_char((n % 16) as int))
    }
}

/// `n` in sixteen hexadecimal digits.
pub open spec fn hex16(n: u64) -> Seq<char> {
    hex_digits(n as nat, 16)
}

fn push_hex_digits(out: &mut String, n: u64, k: u64)
    ensures
        final(out)@ == old(out)@ + hex_digits(n as nat, k as nat),
    decreases k,
{
    if k == 0 {
        assert(out@ =~= old(out)@ + hex_digits(n as nat, 0));
    } else {
        push_hex_digits(out, n / 16, k - 1);
        let d: u8 = (n % 16) as u8;
        let c: char = if d < 10 {
            (48u8 + d) as char
        } else {
            (87u8 + d) as char
        };
        out.push(c);
        assert(out@ =~= old(out)@ + hex_digits(n as nat, k as nat));
    }
}

/// Append `n` in sixteen hexadecimal digits.
pub fn push_hex16(out: &mut String, n: u64)
    ensures
        final(out)@ == old(out)@ + hex16(n),
{
    push_hex_digits(out, n, 16);
}

/// `n` in sixteen hexadecimal digits.
pub fn hex16_text(n: u64) -> (s: String)
    ensures
        s@ == hex16(n),
{
    let mut s = String::new();
    push_hex16(&mut s, n);
    assert(s@ =~= hex16(n));
    s
}

/// Different numbers have different sixteen-digit forms.
pub proof fn law_hex16_tells_numbers_apart(a: u64, b: u64)
    requires
        hex16(a) == hex16(b),
    ensures
        a == b,
{
    reveal_with_fuel(pow16, 17);
    lemma_hex_digits_value(a as nat, 16);
    lemma_hex_digits_value(b as nat, 16);
}

pub open spec fn pow16(k: nat) -> nat
    decreases k,
{
    if k == 0 {
        1
    } else {
        16 * pow16((k - 1) as nat)
    }
}

proof fn lemma_hex_digits_value(n: nat, k: nat)
    requires
        n < pow16(k),
    ensures
        text::digits_value(hex_digits(n, k), 16) == n,
    decreases k,
{
    if k > 0 {
        lemma_hex_digits_value(n / 16, (k - 1) as nat);
        assert(hex_digits(n, k).drop_last() =~= hex_digits(n / 16, (k - 1) as nat));
    }
}

/// `{"ip":<ip>,"port":<port>}`.
pub open spec fn addr_json(ip: u32, port: u16) -> Seq<char> {
    "{\"ip\":"@ + text::dec(ip as nat) + ",\"port\":"@ + text::dec(port as nat) + "}"@
}

/// Append an address as JSON.
pub fn push_addr_json(out: &mut String, ip: u32, port: u16)
    ensures
        final(out)@ == old(out)@ + addr_json(ip, port),
{
    push_num(out, "{\"ip\":", ip as u64);
    push_num(out, ",\"port\":", port as u64);
    push_text(out, "}");
    assert(out@ =~= old(out)@ + addr_json(ip, port));
}

} // verus!
