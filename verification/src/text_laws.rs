//! The laws of cutting text apart: the pieces make up the text again.

use vstd::prelude::*;

use crate::text;

verus! {

/// The pieces with one `sep` between each two.
pub open spec fn joined(pieces: Seq<Seq<char>>, sep: char) -> Seq<char>
    decreases pieces.len(),
{
    if pieces.len() == 0 {
        Seq::empty()
    } else if pieces.len() == 1 {
        pieces[0]
    } else {
        joined(pieces.drop_last(), sep) + seq![sep] + pieces.last()
    }
}

/// `c` is nowhere in `s`.
pub open spec fn free_of(s: Seq<char>, c: char) -> bool {
    forall|i: int| 0 <= i < s.len() ==> #[trigger] s[i] != c
}

proof fn lemma_find(s: Seq<char>, c: char, i: int)
    requires
        0 <= i <= s.len(),
    ensures
        i <= text::find_from(s, c, i) <= s.len(),
        forall|j: int| i <= j < text::find_from(s, c, i) ==> #[trigger] s[j] != c,
        text::find_from(s, c, i) < s.len() ==> s[text::find_from(s, c, i)] == c,
    decreases s.len() - i,
{
    if i < s.len() && s[i] != c {
        lemma_find(s, c, i + 1);
    }
}

/// A text is cut at the first separator, which alone is lost; one without it
/// is not cut.
pub proof fn law_split_once(s: Seq<char>, c: char)
    ensures
        text::split_once(s, c) is None <==> free_of(s, c),
        text::split_once(s, c) matches Some(p) ==> p.0 + seq![c] + p.1 == s && free_of(p.0, c),
{
    lemma_find(s, c, 0);
    let i = text::find_from(s, c, 0);
    if i < s.len() {
        assert(s.take(i) + seq![c] + s.skip(i + 1) =~= s);
        assert forall|j: int| 0 <= j < s.take(i).len() implies #[trigger] s.take(i)[j] != c by {
            assert(s[j] != c);
        }
    }
}

/// What is put together around a separator comes apart there again.
pub proof fn law_split_once_undoes(a: Seq<char>, c: char, b: Seq<char>)
    requires
        free_of(a, c),
    ensures
        text::split_once(a + seq![c] + b, c) == Some((a, b)),
{
    let s = a + seq![c] + b;
    law_split_once(s, c);
    assert(s[a.len() as int] == c);
    let p = text::split_once(s, c).unwrap();
    if p.0.len() < a.len() {
        assert(s[p.0.len() as int] == c);
        assert(a[p.0.len() as int] == c);
    }
    if p.0.len() > a.len() {
        assert(p.0[a.len() as int] == s[a.len() as int]);
    }
    assert(p.0 =~= s.take(a.len() as int));
    assert(a =~= s.take(a.len() as int));
    assert(p.1 =~= s.skip(a.len() as int + 1));
    assert(b =~= s.skip(a.len() as int + 1));
}

proof fn lemma_split_one(b: Seq<char>, sep: char)
    requires
        free_of(b, sep),
    ensures
        text::split(b, sep) == seq![b],
    decreases b.len(),
{
    if b.len() > 0 {
        assert(free_of(b.drop_last(), sep)) by {
            assert forall|i: int| 0 <= i < b.drop_last().len() implies #[trigger] b.drop_last()[i]
                != sep by {
                assert(b[i] != sep);
            }
        }
        lemma_split_one(b.drop_last(), sep);
        assert(b.last() != sep);
        assert(b.drop_last().push(b.last()) =~= b);
        assert(text::split(b, sep) =~= seq![b]);
    } else {
        assert(b =~= Seq::<char>::empty());
    }
}

proof fn lemma_split_then(a: Seq<char>, sep: char, b: Seq<char>)
    requires
        free_of(b, sep),
    ensures
        text::split(a + seq![sep] + b, sep) == text::split(a, sep).push(b),
    decreases b.len(),
{
    let s = a + seq![sep] + b;
    if b.len() == 0 {
        assert(s.drop_last() =~= a);
        assert(s.last() == sep);
        assert(b =~= Seq::<char>::empty());
    } else {
        let c = b.drop_last();
        assert forall|i: int| 0 <= i < c.len() implies #[trigger] c[i] != sep by {
            assert(b[i] != sep);
        }
        lemma_split_then(a, sep, c);
        assert(s.drop_last() =~= a + seq![sep] + c);
        assert(s.last() == b.last());
        assert(b[b.len() - 1] != sep);
        let r = text::split(a, sep).push(c);
        assert(r.drop_last() =~= text::split(a, sep));
        assert(c.push(b.last()) =~= b);
    }
}

/// Pieces that are put together with a separator that none of them holds come
/// apart as the same pieces, in the same order.
pub proof fn law_split_undoes(pieces: Seq<Seq<char>>, sep: char)
    requires
        pieces.len() > 0,
        forall|i: int| 0 <= i < pieces.len() ==> free_of(#[trigger] pieces[i], sep),
    ensures
        text::split(joined(pieces, sep), sep) == pieces,
    decreases pieces.len(),
{
    if pieces.len() == 1 {
        assert(free_of(pieces[0], sep));
        lemma_split_one(pieces[0], sep);
        assert(seq![pieces[0]] =~= pieces);
    } else {
        let front = pieces.drop_last();
        assert forall|i: int| 0 <= i < front.len() implies free_of(#[trigger] front[i], sep) by {
            assert(front[i] == pieces[i]);
        }
        law_split_undoes(front, sep);
        assert(free_of(pieces[pieces.len() - 1], sep));
        lemma_split_then(joined(front, sep), sep, pieces.last());
        assert(front.push(pieces.last()) =~= pieces);
    }
}

/// Every text is the pieces it is cut into, and no piece holds the separator.
pub proof fn law_split_loses_nothing(s: Seq<char>, sep: char)
    ensures
        text::split(s, sep).len() > 0,
        joined(text::split(s, sep), sep) == s,
        forall|i: int| 0 <= i < text::split(s, sep).len() ==> free_of(
            #[trigger] text::split(s, sep)[i],
            sep,
        ),
    decreases s.len(),
{
    let r = text::split(s, sep);
    if s.len() == 0 {
        assert(s =~= Seq::<char>::empty());
    } else {
        let q = text::split(s.drop_last(), sep);
        law_split_loses_nothing(s.drop_last(), sep);
        assert(s =~= s.drop_last().push(s.last()));
        if s.last() == sep {
            assert(r.drop_last() =~= q);
            assert(joined(r, sep) =~= s);
        } else {
            assert(r.drop_last() =~= q.drop_last());
            assert(r.last() == q.last().push(s.last()));
            assert(joined(r, sep) =~= s);
            assert forall|i: int| 0 <= i < r.len() implies free_of(#[trigger] r[i], sep) by {
                assert(free_of(q[i], sep));
                if i == r.len() - 1 {
                    assert forall|j: int| 0 <= j < r[i].len() implies #[trigger] r[i][j] != sep by {
                        if j < q[i].len() {
                            assert(q[i][j] != sep);
                        }
                    }
                }
            }
        }
    }
}

/// Every character of `s` is whitespace.
pub open spec fn blank(s: Seq<char>) -> bool {
    forall|i: int| 0 <= i < s.len() ==> text::is_white(#[trigger] s[i])
}

proof fn lemma_trim_start(s: Seq<char>) -> (l: Seq<char>)
    ensures
        blank(l),
        l + text::trim_start(s) == s,
        text::trim_start(s).len() > 0 ==> !text::is_white(text::trim_start(s)[0]),
    decreases s.len(),
{
    if s.len() > 0 && text::is_white(s[0]) {
        let l = lemma_trim_start(s.drop_first());
        let r = seq![s[0]] + l;
        assert forall|i: int| 0 <= i < r.len() implies text::is_white(#[trigger] r[i]) by {
            if i > 0 {
                assert(text::is_white(l[i - 1]));
            }
        }
        assert(r + text::trim_start(s) =~= seq![s[0]] + (l + text::trim_start(s.drop_first())));
        assert(seq![s[0]] + s.drop_first() =~= s);
        r
    } else {
        assert(Seq::<char>::empty() + s =~= s);
        Seq::empty()
    }
}

proof fn lemma_trim_end(s: Seq<char>) -> (r: Seq<char>)
    ensures
        blank(r),
        text::trim_end(s) + r == s,
        text::trim_end(s).len() > 0 ==> !text::is_white(text::trim_end(s).last()),
    decreases s.len(),
{
    if s.len() > 0 && text::is_white(s.last()) {
        let q = lemma_trim_end(s.drop_last());
        let r = q.push(s.last());
        assert forall|i: int| 0 <= i < r.len() implies text::is_white(#[trigger] r[i]) by {
            if i < q.len() {
                assert(text::is_white(q[i]));
            }
        }
        assert(text::trim_end(s) + r =~= (text::trim_end(s.drop_last()) + q).push(s.last()));
        assert(s.drop_last().push(s.last()) =~= s);
        r
    } else {
        assert(s + Seq::<char>::empty() =~= s);
        Seq::empty()
    }
}

/// Trimming takes off whitespace at both ends and nothing else, and all of it.
pub proof fn law_trim(s: Seq<char>) -> (ends: (Seq<char>, Seq<char>))
    ensures
        blank(ends.0) && blank(ends.1),
        ends.0 + text::trim(s) + ends.1 == s,
        text::trim(s).len() > 0 ==> !text::is_white(text::trim(s)[0]) && !text::is_white(
            text::trim(s).last(),
        ),
{
    let l = lemma_trim_start(s);
    let t = text::trim_start(s);
    let r = lemma_trim_end(t);
    assert(l + text::trim(s) + r =~= l + (text::trim_end(t) + r));
    if text::trim(s).len() > 0 {
        assert(text::trim(s)[0] == t[0]);
    }
    (l, r)
}

/// A text that neither starts nor ends with whitespace is left as it is.
pub proof fn law_trim_leaves(s: Seq<char>)
    requires
        s.len() > 0 ==> !text::is_white(s[0]) && !text::is_white(s.last()),
    ensures
        text::trim(s) == s,
{
}

} // verus!
