//! Command-line arguments, as the bytes that the system hands over.

use vstd::prelude::*;
use vstd::utf8;

use crate::bytes::text_of_bytes;
use crate::config;
use crate::wire::get_range;

verus! {

/// The text that stands for some bytes, with replacement characters where
/// they are not UTF-8.
pub uninterp spec fn lossy_form(b: Seq<u8>) -> Seq<char>;

/// `String::from_utf8_lossy`: the result depends on the bytes alone, and is
/// their text where they are UTF-8. How many replacement characters stand for
/// malformed bytes is not stated.
#[verifier::external_body]
pub(crate) fn lossy(b: &[u8]) -> (r: String)
    ensures
        r@ == lossy_form(b@),
        utf8::valid_utf8(b@) ==> r@ == utf8::decode_utf8(b@),
{
    String::from_utf8_lossy(b).into_owned()
}

/// What each of some arguments holds.
pub open spec fn raw_views(v: Seq<Vec<u8>>) -> Seq<Seq<u8>> {
    v.map_values(|x: Vec<u8>| x@)
}

/// An argument as text.
pub open spec fn arg_text(b: Seq<u8>) -> Option<Seq<char>> {
    if utf8::valid_utf8(b) {
        Some(utf8::decode_utf8(b))
    } else {
        None
    }
}

pub fn copy_raw(b: &Vec<u8>) -> (r: Vec<u8>)
    ensures
        r@ == b@,
{
    let r = get_range(b.as_slice(), 0, b.len());
    assert(r@ =~= b@);
    r
}

/// An argument as text; `None` where it is not UTF-8.
pub fn read_arg(b: &Vec<u8>) -> (r: Option<String>)
    ensures
        match r {
            Some(s) => arg_text(b@) == Some(s@),
            None => arg_text(b@) is None,
        },
{
    text_of_bytes(copy_raw(b))
}

/// The arguments from `lo` on.
pub fn rest_of(args: &Vec<Vec<u8>>, lo: usize) -> (r: Vec<Vec<u8>>)
    requires
        lo <= args@.len(),
    ensures
        raw_views(r@) == raw_views(args@).skip(lo as int),
{
    let ghost av = raw_views(args@);
    let mut r: Vec<Vec<u8>> = Vec::new();
    let mut i: usize = lo;
    assert(raw_views(r@) =~= av.subrange(lo as int, lo as int));
    while i < args.len()
        invariant
            lo <= i <= args@.len(),
            av == raw_views(args@),
            raw_views(r@) == av.subrange(lo as int, i as int),
        decreases args@.len() - i,
    {
        let x = copy_raw(&args[i]);
        let ghost before = raw_views(r@);
        let ghost xv = x@;
        r.push(x);
        assert(av[i as int] == xv);
        i = i + 1;
        assert(raw_views(r@) =~= before.push(xv));
        assert(raw_views(r@) =~= av.subrange(lo as int, i as int));
    }
    assert(av.subrange(lo as int, av.len() as int) =~= av.skip(lo as int));
    r
}

/// The readings of the loss values, for each argument taken as a
/// network-condition text, row by row (see [`config::loss_values`]).
pub open spec fn readings_fit(args: Seq<Seq<u8>>, rows: Seq<Vec<Option<u64>>>) -> bool {
    &&& rows.len() == args.len()
    &&& forall|i: int|
        0 <= i < args.len() ==> (arg_text(#[trigger] args[i]) matches Some(t) ==> rows[i]@.len()
            == config::clauses_of(t).len())
}

} // verus!
