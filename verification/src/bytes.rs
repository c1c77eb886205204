//! Bytes on disk: gzip, UTF-8, and lines.

use vstd::prelude::*;
use vstd::utf8;

use crate::wire::get_range;

use std::io::Read;
use std::io::Write;

verus! {

/// The gzip stream that `flate2` makes of some bytes at its default level.
pub uninterp spec fn gzipped(b: Seq<u8>) -> Seq<u8>;

/// The bytes in the gzip stream at the start of `b`, or the error that
/// reading it gives.
pub uninterp spec fn gunzipped(b: Seq<u8>) -> Result<Seq<u8>, Seq<char>>;

/// `flate2::write::GzEncoder` at the default compression level, fed `b` and
/// finished: a gzip stream, which starts with the two magic bytes, and which
/// decompression takes back to `b`. Writing to a vector does not fail.
#[verifier::external_body]
fn gzip(b: &[u8]) -> (r: Vec<u8>)
    ensures
        r@ == gzipped(b@),
        r@.len() >= 2 && r@[0] == 0x1f && r@[1] == 0x8b,
        gunzipped(r@) is Ok && gunzipped(r@)->Ok_0 == b@,
{
    let mut e = flate2::write::GzEncoder::new(Vec::new(), flate2::Compression::default());
    let _ = e.write_all(b);
    e.finish().unwrap_or_default()
}

/// `flate2::read::GzDecoder`, read to its end: the bytes of the first gzip
/// stream in `b`, or the text of the error. The result depends on `b` alone;
/// what it is on given bytes is not stated.
#[verifier::external_body]
fn gunzip(b: &[u8]) -> (r: Result<Vec<u8>, String>)
    ensures
        match r {
            Ok(v) => gunzipped(b@) == Ok::<Seq<u8>, Seq<char>>(v@),
            Err(e) => gunzipped(b@) == Err::<Seq<u8>, Seq<char>>(e@),
        },
{
    let mut out = Vec::new();
    match flate2::read::GzDecoder::new(b).read_to_end(&mut out) {
        Ok(_) => Ok(out),
        Err(e) => Err(e.to_string()),
    }
}

/// `String::from_utf8`: the text that the bytes encode; an error exactly
/// where they are not valid UTF-8.
#[verifier::external_body]
fn utf8_text(b: Vec<u8>) -> (r: Option<String>)
    ensures
        match r {
            Some(s) => utf8::valid_utf8(b@) && s@ == utf8::decode_utf8(b@),
            None => !utf8::valid_utf8(b@),
        },
{
    String::from_utf8(b).ok()
}

/// The text that `b` encodes in UTF-8.
pub fn text_of_bytes(b: Vec<u8>) -> (r: Option<String>)
    ensures
        match r {
            Some(s) => utf8::valid_utf8(b@) && s@ == utf8::decode_utf8(b@),
            None => !utf8::valid_utf8(b@),
        },
{
    utf8_text(b)
}

/// Whether `b` starts with the magic bytes of gzip.
pub open spec fn is_gzip(b: Seq<u8>) -> bool {
    b.len() >= 2 && b[0] == 0x1f && b[1] == 0x8b
}

/// What a log file holds: gzip is told by its magic bytes and taken out.
pub open spec fn unpacked(b: Seq<u8>) -> Result<Seq<u8>, Seq<char>> {
    if is_gzip(b) {
        gunzipped(b)
    } else {
        Ok(b)
    }
}

/// The text of a log file, out of its compression if it has one.
pub fn unpack(b: Vec<u8>) -> (r: Result<Vec<u8>, String>)
    ensures
        match r {
            Ok(v) => unpacked(b@) == Ok::<Seq<u8>, Seq<char>>(v@),
            Err(e) => unpacked(b@) == Err::<Seq<u8>, Seq<char>>(e@),
        },
{
    if b.len() >= 2 && b[0] == 0x1f && b[1] == 0x8b {
        gunzip(b.as_slice())
    } else {
        Ok(b)
    }
}

/// The bytes of a log file with the given text: compressed where `gz` says
/// so. Reading them back gives the text, as long as an uncompressed one does
/// not start like gzip.
pub fn pack(b: Vec<u8>, gz: bool) -> (r: Vec<u8>)
    ensures
        r@ == (if gz {
            gzipped(b@)
        } else {
            b@
        }),
        gz || !is_gzip(b@) ==> unpacked(r@) == Ok::<Seq<u8>, Seq<char>>(b@),
{
    if gz {
        gzip(b.as_slice())
    } else {
        b
    }
}

// ---------------------------------------------------------------------------
// Lines
// ---------------------------------------------------------------------------

/// The index of the first line feed at or after `i`; the length of `b` where
/// there is none.
pub open spec fn newline_from(b: Seq<u8>, i: int) -> int
    decreases b.len() - i,
{
    if i < 0 || i >= b.len() {
        b.len() as int
    } else if b[i] == 10 {
        i
    } else {
        newline_from(b, i + 1)
    }
}

/// A line without a carriage return at its end.
pub open spec fn without_return(b: Seq<u8>) -> Seq<u8> {
    if b.len() > 0 && b.last() == 13 {
        b.drop_last()
    } else {
        b
    }
}

/// The lines of `b` from the byte `i` on: what each line feed ends, without a
/// carriage return before it, and what is left behind the last one.
pub open spec fn lines_from(b: Seq<u8>, i: int) -> Seq<Seq<u8>>
    decreases b.len() - i,
    via lines_from_decreases
{
    if i < 0 || i >= b.len() {
        Seq::empty()
    } else {
        let j = newline_from(b, i);
        if j >= b.len() {
            seq![b.skip(i)]
        } else {
            seq![without_return(b.subrange(i, j))] + lines_from(b, j + 1)
        }
    }
}

#[via_fn]
proof fn lines_from_decreases(b: Seq<u8>, i: int) {
    if 0 <= i {
        lemma_newline(b, i);
    }
}

proof fn lemma_newline(b: Seq<u8>, i: int)
    requires
        0 <= i,
    ensures
        i < b.len() ==> i <= newline_from(b, i) <= b.len(),
        newline_from(b, i) < b.len() ==> b[newline_from(b, i)] == 10,
    decreases b.len() - i,
{
    if i < b.len() && b[i] != 10 {
        lemma_newline(b, i + 1);
    }
}

/// The texts of the first `n` lines up to the first that is not valid UTF-8.
pub open spec fn texts_of(lines: Seq<Seq<u8>>, n: int) -> Seq<Seq<char>>
    decreases n,
{
    if n <= 0 {
        Seq::empty()
    } else {
        let t = texts_of(lines, n - 1);
        if t.len() == n - 1 && utf8::valid_utf8(lines[n - 1]) {
            t.push(utf8::decode_utf8(lines[n - 1]))
        } else {
            t
        }
    }
}

pub open spec fn text_views(v: Seq<String>) -> Seq<Seq<char>> {
    v.map_values(|s: String| s@)
}

proof fn lemma_texts_stop(lines: Seq<Seq<u8>>, k: int, n: int)
    requires
        0 <= k <= n,
        texts_of(lines, k).len() < k,
    ensures
        texts_of(lines, n) == texts_of(lines, k),
    decreases n,
{
    if k < n {
        lemma_texts_stop(lines, k, n - 1);
    }
}

/// The lines of `b` as text, up to the first that is not valid UTF-8, and
/// whether there was one.
pub fn split_lines(b: &[u8]) -> (r: (Vec<String>, bool))
    ensures
        text_views(r.0@) == texts_of(lines_from(b@, 0), lines_from(b@, 0).len() as int),
        r.1 == (r.0@.len() < lines_from(b@, 0).len()),
{
    let ghost all = lines_from(b@, 0);
    let mut out: Vec<String> = Vec::new();
    let mut i: usize = 0;
    assert(text_views(out@) =~= Seq::<Seq<char>>::empty());
    assert(all.skip(0) =~= all);
    while i < b.len()
        invariant
            i <= b@.len(),
            all == lines_from(b@, 0),
            out@.len() <= all.len(),
            all.skip(out@.len() as int) == lines_from(b@, i as int),
            text_views(out@) == texts_of(all, out@.len() as int),
        decreases b@.len() - i,
    {
        let ghost k = out@.len() as int;
        let mut j: usize = i;
        while j < b.len() && b[j] != 10
            invariant
                i <= j <= b@.len(),
                newline_from(b@, i as int) == newline_from(b@, j as int),
            decreases b@.len() - j,
        {
            j = j + 1;
        }
        let ended: bool = j < b.len();
        let hi: usize = if ended && j > i && b[j - 1] == 13 {
            j - 1
        } else {
            j
        };
        let line = get_range(b, i, hi);
        proof {
            let rest = lines_from(b@, i as int);
            if ended {
                assert(line@ =~= without_return(b@.subrange(i as int, j as int)));
                assert(rest[0] == line@);
                assert(rest.skip(1) =~= lines_from(b@, j as int + 1));
            } else {
                assert(line@ =~= b@.skip(i as int));
                assert(rest =~= seq![line@]);
                assert(rest.skip(1) =~= lines_from(b@, j as int));
            }
            assert(all.skip(k)[0] == all[k]);
            assert(all.skip(k + 1) =~= all.skip(k).skip(1));
        }
        match text_of_bytes(line) {
            Some(s) => {
                let ghost before = text_views(out@);
                let ghost sv = s@;
                out.push(s);
                assert(text_views(out@) =~= before.push(sv));
            },
            None => {
                proof {
                    assert(text_views(out@).len() == k);
                    assert(texts_of(all, k + 1) == texts_of(all, k));
                    lemma_texts_stop(all, k + 1, all.len() as int);
                }
                return (out, true);
            },
        }
        i = if ended {
            j + 1
        } else {
            j
        };
    }
    proof {
        assert(all.skip(out@.len() as int).len() == 0);
    }
    (out, false)
}

} // verus!
