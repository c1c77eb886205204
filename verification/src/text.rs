//! Character-level text handling: trimming, splitting, and reading and
//! writing integers, each tied to a specification over `Seq<char>`.

use vstd::prelude::*;
use vstd::string::StringExecFns;

verus! {

/// `String::push` appends one character at the end.
pub assume_specification[ String::push ](s: &mut String, c: char)
    ensures
        final(s)@ == old(s)@.push(c),
;

/// The text that `Debug` gives for a string: the string in double quotes,
/// with special characters escaped.
pub uninterp spec fn debug_form(s: Seq<char>) -> Seq<char>;

/// `<str as Debug>::fmt`, through `format!`: the result depends on the
/// characters of `s` alone. Which characters are escaped, and how, is not
/// stated.
#[verifier::external_body]
pub(crate) fn quoted(s: &str) -> (r: String)
    ensures
        r@ == debug_form(s@),
{
    format!("{:?}", s)
}

// ---------------------------------------------------------------------------
// Characters
// ---------------------------------------------------------------------------

/// The Unicode `White_Space` property.
pub open spec fn is_white(c: char) -> bool {
    ||| '\u{9}' <= c <= '\u{d}'
    ||| c == ' '
    ||| c == '\u{85}'
    ||| c == '\u{a0}'
    ||| c == '\u{1680}'
    ||| '\u{2000}' <= c <= '\u{200a}'
    ||| c == '\u{2028}'
    ||| c == '\u{2029}'
    ||| c == '\u{202f}'
    ||| c == '\u{205f}'
    ||| c == '\u{3000}'
}

/// ASCII whitespace: space, tab, line feed, form feed, carriage return.
pub open spec fn is_ascii_white(c: char) -> bool {
    c == ' ' || c == '\t' || c == '\n' || c == '\u{c}' || c == '\r'
}

pub fn white(c: char) -> (b: bool)
    ensures
        b == is_white(c),
{
    ('\u{9}' <= c && c <= '\u{d}') || c == ' ' || c == '\u{85}' || c == '\u{a0}' || c
        == '\u{1680}' || ('\u{2000}' <= c && c <= '\u{200a}') || c == '\u{2028}' || c
        == '\u{2029}' || c == '\u{202f}' || c == '\u{205f}' || c == '\u{3000}'
}

pub fn ascii_white(c: char) -> (b: bool)
    ensures
        b == is_ascii_white(c),
{
    c == ' ' || c == '\t' || c == '\n' || c == '\u{c}' || c == '\r'
}

/// The lower-case form of an ASCII letter; any other character as it is.
pub open spec fn lower(c: char) -> char {
    if 'A' <= c <= 'Z' {
        (c as u32 + 32) as char
    } else {
        c
    }
}

/// `s` with each ASCII letter in lower case.
pub open spec fn lower_all(s: Seq<char>) -> Seq<char> {
    s.map_values(|c: char| lower(c))
}

// ---------------------------------------------------------------------------
// Strings and vectors of characters
// ---------------------------------------------------------------------------

/// The characters of `s`.
pub fn chars_of(s: &str) -> (v: Vec<char>)
    ensures
        v@ == s@,
{
    let mut v: Vec<char> = Vec::new();
    for c in it: s.chars()
        invariant
            v@ == s@.take(it.index() as int),
            it.seq() == s@,
    {
        proof {
            assert(s@.take(it.index() as int + 1) =~= s@.take(it.index() as int).push(
                s@[it.index() as int],
            ));
        }
        v.push(c);
    }
    assert(s@.take(s@.len() as int) =~= s@);
    v
}

/// Append the characters `v[lo..hi]` to `out`.
pub fn push_range(out: &mut String, v: &Vec<char>, lo: usize, hi: usize)
    requires
        lo <= hi <= v@.len(),
    ensures
        final(out)@ == old(out)@ + v@.subrange(lo as int, hi as int),
{
    let ghost start = out@;
    let mut i: usize = lo;
    assert(v@.subrange(lo as int, lo as int) =~= Seq::<char>::empty());
    assert(out@ =~= start + v@.subrange(lo as int, lo as int));
    while i < hi
        invariant
            lo <= i <= hi <= v@.len(),
            out@ == start + v@.subrange(lo as int, i as int),
        decreases hi - i,
    {
        out.push(v[i]);
        proof {
            assert(v@.subrange(lo as int, i as int + 1) =~= v@.subrange(lo as int, i as int).push(
                v@[i as int],
            ));
            assert(out@ =~= start + v@.subrange(lo as int, i as int + 1));
        }
        i = i + 1;
    }
}

/// The characters of `v` as a `String`.
pub fn string_of(v: &Vec<char>) -> (s: String)
    ensures
        s@ == v@,
{
    let mut s = String::new();
    push_range(&mut s, v, 0, v.len());
    assert(s@ =~= v@);
    s
}

/// `v[lo..hi]` as a vector of its own.
pub fn sub_chars(v: &Vec<char>, lo: usize, hi: usize) -> (r: Vec<char>)
    requires
        lo <= hi <= v@.len(),
    ensures
        r@ == v@.subrange(lo as int, hi as int),
{
    let mut r: Vec<char> = Vec::new();
    let mut i: usize = lo;
    while i < hi
        invariant
            lo <= i <= hi <= v@.len(),
            r@ == v@.subrange(lo as int, i as int),
        decreases hi - i,
    {
        r.push(v[i]);
        assert(v@.subrange(lo as int, i as int + 1) =~= v@.subrange(lo as int, i as int).push(
            v@[i as int],
        ));
        i = i + 1;
    }
    r
}

/// Whether the characters of `v` are those of the text `t`.
pub fn same(v: &Vec<char>, t: &str) -> (b: bool)
    ensures
        b == (v@ == t@),
{
    let w = chars_of(t);
    same_chars(v, &w)
}

pub fn same_chars(v: &Vec<char>, w: &Vec<char>) -> (b: bool)
    ensures
        b == (v@ == w@),
{
    if v.len() != w.len() {
        return false;
    }
    let mut i: usize = 0;
    while i < v.len()
        invariant
            i <= v@.len(),
            v@.len() == w@.len(),
            forall|j: int| 0 <= j < i ==> v@[j] == w@[j],
        decreases v@.len() - i,
    {
        if v[i] != w[i] {
            return false;
        }
        i = i + 1;
    }
    assert(v@ =~= w@);
    true
}

/// Whether two texts hold the same characters.
pub fn same_text(a: &str, b: &str) -> (r: bool)
    ensures
        r == (a@ == b@),
{
    let v = chars_of(a);
    same(&v, b)
}

/// A copy of the text `s`.
pub fn copy_text(s: &str) -> (r: String)
    ensures
        r@ == s@,
{
    String::from_str(s)
}

/// `v` with each ASCII letter in lower case.
pub fn lower_chars(v: &Vec<char>) -> (r: Vec<char>)
    ensures
        r@ == lower_all(v@),
{
    let mut r: Vec<char> = Vec::new();
    let mut i: usize = 0;
    while i < v.len()
        invariant
            i <= v@.len(),
            r@ == lower_all(v@.take(i as int)),
        decreases v@.len() - i,
    {
        let c = v[i];
        let d = if 'A' <= c && c <= 'Z' {
            ((c as u8) + 32) as char
        } else {
            c
        };
        r.push(d);
        assert(v@.take(i as int + 1) =~= v@.take(i as int).push(c));
        assert(r@ =~= lower_all(v@.take(i as int + 1)));
        i = i + 1;
    }
    assert(v@.take(i as int) =~= v@);
    r
}

// ---------------------------------------------------------------------------
// Trimming
// ---------------------------------------------------------------------------

/// `s` without its leading whitespace.
pub open spec fn trim_start(s: Seq<char>) -> Seq<char>
    decreases s.len(),
{
    if s.len() > 0 && is_white(s[0]) {
        trim_start(s.drop_first())
    } else {
        s
    }
}

/// `s` without its trailing whitespace.
pub open spec fn trim_end(s: Seq<char>) -> Seq<char>
    decreases s.len(),
{
    if s.len() > 0 && is_white(s.last()) {
        trim_end(s.drop_last())
    } else {
        s
    }
}

/// `s` without leading and trailing whitespace.
pub open spec fn trim(s: Seq<char>) -> Seq<char> {
    trim_end(trim_start(s))
}

/// `v` without leading and trailing whitespace.
pub fn trim_chars(v: &Vec<char>) -> (r: Vec<char>)
    ensures
        r@ == trim(v@),
{
    let mut lo: usize = 0;
    assert(v@.subrange(0, v@.len() as int) =~= v@);
    while lo < v.len() && white(v[lo])
        invariant
            lo <= v@.len(),
            trim_start(v@) == trim_start(v@.subrange(lo as int, v@.len() as int)),
        decreases v@.len() - lo,
    {
        assert(v@.subrange(lo as int, v@.len() as int).drop_first() =~= v@.subrange(
            lo as int + 1,
            v@.len() as int,
        ));
        lo = lo + 1;
    }
    let mut hi: usize = v.len();
    let ghost t = v@.subrange(lo as int, v@.len() as int);
    assert(trim_start(v@) == t);
    while hi > lo && white(v[hi - 1])
        invariant
            lo <= hi <= v@.len(),
            trim_end(t) == trim_end(v@.subrange(lo as int, hi as int)),
        decreases hi,
    {
        assert(v@.subrange(lo as int, hi as int).drop_last() =~= v@.subrange(
            lo as int,
            hi as int - 1,
        ));
        hi = hi - 1;
    }
    sub_chars(v, lo, hi)
}

// ---------------------------------------------------------------------------
// Splitting
// ---------------------------------------------------------------------------

/// The views of a vector of vectors of characters.
pub open spec fn views(v: Seq<Vec<char>>) -> Seq<Seq<char>> {
    v.map_values(|w: Vec<char>| w@)
}

/// The pieces of `s` between the occurrences of `sep`; `n` separators give
/// `n + 1` pieces, so the empty text is one empty piece.
pub open spec fn split(s: Seq<char>, sep: char) -> Seq<Seq<char>>
    decreases s.len(),
{
    if s.len() == 0 {
        seq![Seq::<char>::empty()]
    } else {
        let r = split(s.drop_last(), sep);
        if s.last() == sep {
            r.push(Seq::<char>::empty())
        } else {
            r.drop_last().push(r.last().push(s.last()))
        }
    }
}

pub proof fn lemma_split_nonempty(s: Seq<char>, sep: char)
    ensures
        split(s, sep).len() >= 1,
    decreases s.len(),
{
    if s.len() > 0 {
        lemma_split_nonempty(s.drop_last(), sep);
    }
}

/// The pieces of `v` between the occurrences of `sep`.
pub fn split_chars(v: &Vec<char>, sep: char) -> (r: Vec<Vec<char>>)
    ensures
        views(r@) == split(v@, sep),
        r@.len() >= 1,
{
    let mut done: Vec<Vec<char>> = Vec::new();
    let mut cur: Vec<char> = Vec::new();
    let mut i: usize = 0;
    proof {
        assert(v@.take(0) =~= Seq::<char>::empty());
        assert(views(done@).push(cur@) =~= split(v@.take(0), sep));
    }
    while i < v.len()
        invariant
            i <= v@.len(),
            views(done@).push(cur@) == split(v@.take(i as int), sep),
        decreases v@.len() - i,
    {
        let c = v[i];
        let ghost before = views(done@).push(cur@);
        proof {
            assert(v@.take(i as int + 1).drop_last() =~= v@.take(i as int));
            assert(v@.take(i as int + 1).last() == c);
            assert(before.drop_last() =~= views(done@));
            assert(before.last() == cur@);
        }
        if c == sep {
            done.push(cur);
            cur = Vec::new();
            assert(views(done@) =~= before);
        } else {
            cur.push(c);
        }
        i = i + 1;
    }
    assert(v@.take(i as int) =~= v@);
    let ghost before = views(done@).push(cur@);
    done.push(cur);
    assert(views(done@) =~= before);
    done
}

/// The index of the first `c` in `s` at or after `i`; the length of `s` where
/// there is none.
pub open spec fn find_from(s: Seq<char>, c: char, i: int) -> int
    decreases s.len() - i,
{
    if i < 0 || i >= s.len() {
        s.len() as int
    } else if s[i] == c {
        i
    } else {
        find_from(s, c, i + 1)
    }
}

/// What stands before and after the first `c` in `s`.
pub open spec fn split_once(s: Seq<char>, c: char) -> Option<(Seq<char>, Seq<char>)> {
    let i = find_from(s, c, 0);
    if i < s.len() {
        Some((s.take(i), s.skip(i + 1)))
    } else {
        None
    }
}

pub fn split_once_chars(v: &Vec<char>, c: char) -> (r: Option<(Vec<char>, Vec<char>)>)
    ensures
        match r {
            Some(p) => split_once(v@, c) == Some((p.0@, p.1@)),
            None => split_once(v@, c) is None,
        },
{
    let mut i: usize = 0;
    while i < v.len()
        invariant
            i <= v@.len(),
            find_from(v@, c, 0) == find_from(v@, c, i as int),
        decreases v@.len() - i,
    {
        if v[i] == c {
            let a = sub_chars(v, 0, i);
            let b = sub_chars(v, i + 1, v.len());
            assert(a@ =~= v@.take(i as int));
            assert(b@ =~= v@.skip(i as int + 1));
            return Some((a, b));
        }
        i = i + 1;
    }
    None
}

/// The state of a left-to-right scan for words: those finished and the one
/// being read. `ascii` tells whether only ASCII whitespace separates.
pub open spec fn word_scan(s: Seq<char>, ascii: bool) -> (Seq<Seq<char>>, Seq<char>)
    decreases s.len(),
{
    if s.len() == 0 {
        (Seq::empty(), Seq::empty())
    } else {
        let (done, cur) = word_scan(s.drop_last(), ascii);
        let sep = if ascii {
            is_ascii_white(s.last())
        } else {
            is_white(s.last())
        };
        if !sep {
            (done, cur.push(s.last()))
        } else if cur.len() > 0 {
            (done.push(cur), Seq::empty())
        } else {
            (done, cur)
        }
    }
}

/// The maximal runs of non-whitespace characters in `s`, in order.
pub open spec fn words(s: Seq<char>, ascii: bool) -> Seq<Seq<char>> {
    let (done, cur) = word_scan(s, ascii);
    if cur.len() > 0 {
        done.push(cur)
    } else {
        done
    }
}

pub fn words_of(v: &Vec<char>, ascii: bool) -> (r: Vec<Vec<char>>)
    ensures
        views(r@) == words(v@, ascii),
{
    let mut done: Vec<Vec<char>> = Vec::new();
    let mut cur: Vec<char> = Vec::new();
    let mut i: usize = 0;
    proof {
        assert(v@.take(0) =~= Seq::<char>::empty());
        assert(views(done@) =~= Seq::<Seq<char>>::empty());
    }
    while i < v.len()
        invariant
            i <= v@.len(),
            word_scan(v@.take(i as int), ascii) == (views(done@), cur@),
        decreases v@.len() - i,
    {
        let c = v[i];
        proof {
            assert(v@.take(i as int + 1).drop_last() =~= v@.take(i as int));
            assert(v@.take(i as int + 1).last() == c);
        }
        let sep = if ascii {
            ascii_white(c)
        } else {
            white(c)
        };
        if !sep {
            cur.push(c);
        } else if cur.len() > 0 {
            let ghost before = views(done@).push(cur@);
            done.push(cur);
            cur = Vec::new();
            assert(views(done@) =~= before);
        }
        i = i + 1;
    }
    assert(v@.take(i as int) =~= v@);
    if cur.len() > 0 {
        let ghost before = views(done@).push(cur@);
        done.push(cur);
        assert(views(done@) =~= before);
    }
    done
}

// ---------------------------------------------------------------------------
// Reading integers
// ---------------------------------------------------------------------------

/// The value of a digit in bases up to sixteen.
pub open spec fn digit(c: char, radix: int) -> Option<int> {
    let v: int = if '0' <= c <= '9' {
        c as int - '0' as int
    } else if 'a' <= c <= 'f' {
        c as int - 'a' as int + 10
    } else if 'A' <= c <= 'F' {
        c as int - 'A' as int + 10
    } else {
        16
    };
    if v < radix {
        Some(v)
    } else {
        None
    }
}

pub open spec fn all_digits(s: Seq<char>, radix: int) -> bool {
    forall|i: int| 0 <= i < s.len() ==> (#[trigger] digit(s[i], radix)) is Some
}

/// The number that the digits `s` write in base `radix`.
pub open spec fn digits_value(s: Seq<char>, radix: int) -> int
    decreases s.len(),
{
    if s.len() == 0 {
        0
    } else {
        digits_value(s.drop_last(), radix) * radix + digit(s.last(), radix).unwrap()
    }
}

/// The unsigned integer up to `max` that `s` writes in base `radix`: one or
/// more digits, with an optional `+` in front.
pub open spec fn parse_uint(s: Seq<char>, radix: int, max: int) -> Option<int> {
    let body = if s.len() > 0 && s[0] == '+' {
        s.drop_first()
    } else {
        s
    };
    if body.len() > 0 && all_digits(body, radix) && digits_value(body, radix) <= max {
        Some(digits_value(body, radix))
    } else {
        None
    }
}

proof fn lemma_digits_grow(s: Seq<char>, radix: int, k: int)
    requires
        2 <= radix <= 16,
        all_digits(s, radix),
        0 <= k <= s.len(),
    ensures
        0 <= digits_value(s.take(k), radix) <= digits_value(s, radix),
    decreases s.len(),
{
    if k == s.len() {
        assert(s.take(k) =~= s);
        if s.len() > 0 {
            assert(all_digits(s.drop_last(), radix)) by {
                assert forall|i: int| 0 <= i < s.drop_last().len() implies (#[trigger] digit(
                    s.drop_last()[i],
                    radix,
                )) is Some by {
                    assert(digit(s[i], radix) is Some);
                }
            }
            lemma_digits_grow(s.drop_last(), radix, k - 1);
            assert(s.drop_last().take(k - 1) =~= s.drop_last());
            assert(digit(s[s.len() - 1], radix) is Some);
            assert(digits_value(s.drop_last(), radix) * radix >= 0) by (nonlinear_arith)
                requires
                    digits_value(s.drop_last(), radix) >= 0,
                    radix >= 2,
            ;
        }
    } else {
        assert(all_digits(s.drop_last(), radix)) by {
            assert forall|i: int| 0 <= i < s.drop_last().len() implies (#[trigger] digit(
                s.drop_last()[i],
                radix,
            )) is Some by {
                assert(digit(s[i], radix) is Some);
            }
        }
        lemma_digits_grow(s.drop_last(), radix, k);
        assert(s.drop_last().take(k) =~= s.take(k));
        assert(digit(s[s.len() - 1], radix) is Some);
        let d = digits_value(s.drop_last(), radix);
        assert(d * radix >= d) by (nonlinear_arith)
            requires
                d >= 0,
                radix >= 2,
        ;
    }
}

/// What is read is within bounds.
pub proof fn lemma_parse_uint(s: Seq<char>, radix: int, max: int)
    requires
        2 <= radix <= 16,
    ensures
        parse_uint(s, radix, max) matches Some(n) ==> 0 <= n <= max,
{
    let body = if s.len() > 0 && s[0] == '+' {
        s.drop_first()
    } else {
        s
    };
    if all_digits(body, radix) {
        lemma_digits_grow(body, radix, body.len() as int);
    }
}

fn digit_of(c: char) -> (d: u64)
    ensures
        d <= 16,
        forall|radix: int|
            2 <= radix <= 16 ==> (#[trigger] digit(c, radix)) == (if d < radix {
                Some(d as int)
            } else {
                None
            }),
{
    if '0' <= c && c <= '9' {
        (c as u64) - ('0' as u64)
    } else if 'a' <= c && c <= 'f' {
        (c as u64) - ('a' as u64) + 10
    } else if 'A' <= c && c <= 'F' {
        (c as u64) - ('A' as u64) + 10
    } else {
        16
    }
}

/// Read an unsigned integer up to `max`.
pub fn read_uint(v: &Vec<char>, radix: u64, max: u64) -> (r: Option<u64>)
    requires
        2 <= radix <= 16,
    ensures
        match r {
            Some(n) => parse_uint(v@, radix as int, max as int) == Some(n as int),
            None => parse_uint(v@, radix as int, max as int) is None,
        },
{
    let lo: usize = if v.len() > 0 && v[0] == '+' {
        1
    } else {
        0
    };
    let ghost body = if v@.len() > 0 && v@[0] == '+' {
        v@.drop_first()
    } else {
        v@
    };
    assert(body =~= v@.skip(lo as int));
    if lo >= v.len() {
        return None;
    }
    let mut n: u64 = 0;
    let mut i: usize = lo;
    assert(body.take(0) =~= Seq::<char>::empty());
    while i < v.len()
        invariant
            lo <= i <= v@.len(),
            lo <= 1,
            2 <= radix <= 16,
            body == v@.skip(lo as int),
            body == (if v@.len() > 0 && v@[0] == '+' {
                v@.drop_first()
            } else {
                v@
            }),
            forall|j: int|
                0 <= j < i - lo ==> (#[trigger] digit(body[j], radix as int)) is Some,
            n == digits_value(body.take(i - lo), radix as int),
        decreases v@.len() - i,
    {
        let d = digit_of(v[i]);
        let ghost k: int = i - lo;
        assert(body[k] == v@[i as int]);
        if d >= radix {
            assert(digit(body[k], radix as int) is None);
            assert(!all_digits(body, radix as int));
            return None;
        }
        assert(digit(body[k], radix as int) == Some(d as int));
        proof {
            assert(body.take(k + 1).drop_last() =~= body.take(k));
            assert(body.take(k + 1).last() == body[k]);
            assert(digits_value(body.take(k + 1), radix as int) == n * radix + d);
        }
        let m: Option<u64> = n.checked_mul(radix);
        let s: Option<u64> = match m {
            Some(x) => x.checked_add(d),
            None => None,
        };
        match s {
            Some(x) => {
                n = x;
            },
            None => {
                proof {
                    assert(n * radix + d > u64::MAX);
                    if all_digits(body, radix as int) {
                        lemma_digits_grow(body, radix as int, k + 1);
                    }
                }
                return None;
            },
        }
        i = i + 1;
    }
    proof {
        assert(body.take(i - lo) =~= body);
    }
    if n <= max {
        Some(n)
    } else {
        None
    }
}

// ---------------------------------------------------------------------------
// Writing integers
// ---------------------------------------------------------------------------

/// The decimal digit for `d`.
pub open spec fn digit_char(d: int) -> char {
    ('0' as int + d) as char
}

/// `n` in decimal, without leading zeros.
pub open spec fn dec(n: nat) -> Seq<char>
    decreases n,
{
    if n < 10 {
        seq![digit_char(n as int)]
    } else {
        dec(n / 10).push(digit_char((n % 10) as int))
    }
}

/// Append `n` in decimal to `out`.
pub fn push_dec(out: &mut String, n: u64)
    ensures
        final(out)@ == old(out)@ + dec(n as nat),
    decreases n,
{
    if n < 10 {
        out.push((48u8 + n as u8) as char);
        assert(out@ =~= old(out)@ + dec(n as nat));
    } else {
        push_dec(out, n / 10);
        let ghost mid = out@;
        out.push((48u8 + (n % 10) as u8) as char);
        assert(out@ =~= old(out)@ + dec(n as nat));
    }
}

/// Append the text `t` to `out`.
pub fn push_text(out: &mut String, t: &str)
    ensures
        final(out)@ == old(out)@ + t@,
{
    out.append(t);
}

/// `n` in decimal.
pub fn dec_text(n: u64) -> (s: String)
    ensures
        s@ == dec(n as nat),
{
    let mut s = String::new();
    push_dec(&mut s, n);
    assert(s@ =~= dec(n as nat));
    s
}

/// What is written in decimal is read back.
pub proof fn law_decimal_round_trip(n: nat)
    ensures
        parse_uint(dec(n), 10, n as int) == Some(n as int),
{
    lemma_dec(n);
    assert(digit(dec(n)[0], 10) is Some);
}

pub proof fn lemma_dec(n: nat)
    ensures
        dec(n).len() > 0,
        all_digits(dec(n), 10),
        digits_value(dec(n), 10) == n,
    decreases n,
{
    reveal_with_fuel(digits_value, 2);
    if n < 10 {
        assert(dec(n).drop_last() =~= Seq::<char>::empty());
    } else {
        lemma_dec(n / 10);
        assert(dec(n).drop_last() =~= dec(n / 10));
        assert forall|i: int| 0 <= i < dec(n).len() implies (#[trigger] digit(
            dec(n)[i],
            10,
        )) is Some by {
            if i < dec(n / 10).len() {
                assert(digit(dec(n / 10)[i], 10) is Some);
            }
        }
    }
}

// ---------------------------------------------------------------------------
// Signed numbers
// ---------------------------------------------------------------------------

/// The number that `s` writes in decimal, with a sign or without, if it is one
/// of 32 bits.
pub open spec fn parse_int(s: Seq<char>) -> Option<int> {
    if s.len() > 0 && s[0] == '-' {
        let body = s.drop_first();
        if body.len() > 0 && body[0] == '+' {
            None
        } else {
            match parse_uint(body, 10, 0x8000_0000) {
                Some(n) => Some(-n),
                None => None,
            }
        }
    } else {
        parse_uint(s, 10, i32::MAX as int)
    }
}

/// Read a decimal number of 32 bits, with a sign or without.
pub fn read_int(v: &Vec<char>) -> (r: Option<i32>)
    ensures
        match r {
            Some(n) => parse_int(v@) == Some(n as int),
            None => parse_int(v@) is None,
        },
{
    let total: usize = v.len();
    if total > 0 && v[0] == '-' {
        let body = sub_chars(v, 1, total);
        assert(body@ =~= v@.drop_first());
        if body.len() > 0 && body[0] == '+' {
            return None;
        }
        match read_uint(&body, 10, 0x8000_0000) {
            Some(n) => {
                proof {
                    lemma_parse_bounds(body@, 10, 0x8000_0000);
                }
                Some((-(n as i64)) as i32)
            },
            None => None,
        }
    } else {
        match read_uint(v, 10, 0x7fff_ffff) {
            Some(n) => {
                proof {
                    lemma_parse_bounds(v@, 10, 0x7fff_ffff);
                }
                Some(n as i32)
            },
            None => None,
        }
    }
}

proof fn lemma_parse_bounds(s: Seq<char>, radix: int, max: int)
    ensures
        parse_uint(s, radix, max) matches Some(n) ==> n <= max,
{
}

/// `n` in decimal, with a sign where it is negative.
pub open spec fn dec_int(n: int) -> Seq<char> {
    if n < 0 {
        "-"@ + dec((-n) as nat)
    } else {
        dec(n as nat)
    }
}

/// `n` in decimal, with a sign where it is negative.
pub fn int_text(n: i32) -> (s: String)
    ensures
        s@ == dec_int(n as int),
{
    if n < 0 {
        let mut s = copy_text("-");
        push_dec(&mut s, (-(n as i64)) as u64);
        s
    } else {
        dec_text(n as u64)
    }
}

/// Append `n` in decimal, with a sign where it is negative.
pub fn push_int(out: &mut String, n: i32)
    ensures
        final(out)@ == old(out)@ + dec_int(n as int),
{
    push_text(out, int_text(n).as_str());
}

} // verus!
