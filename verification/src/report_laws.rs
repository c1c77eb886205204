//! The laws of reports: what a node says in a datagram is heard as it was said,
//! what a recording says of a node is the latest that was heard of it, and what
//! the verdict on a recording of Raft means.

use vstd::prelude::*;
use vstd::utf8;

use crate::chord;
use crate::chord::NodeState;
use crate::hash;
use crate::log::{EventView, RecordView, RecvOutcomeView};
use crate::raft;
use crate::raft::RaftReport;
use crate::raft_oracle;
use crate::raft_report;
use crate::snapshot_laws;
use crate::text;

verus! {

// ---------------------------------------------------------------------------
// Numbers and words
// ---------------------------------------------------------------------------

/// A whole number in decimal is read back.
pub proof fn law_integers_read_back(n: i32)
    ensures
        text::parse_int(text::dec_int(n as int)) == Some(n as int),
{
    let t = text::dec_int(n as int);
    if n < 0 {
        reveal_strlit("-");
        let b = text::dec((-n) as nat);
        text::lemma_dec((-n) as nat);
        assert(t.drop_first() =~= b);
        assert(t[0] == '-');
        assert(text::digit(b[0], 10) is Some);
        assert(b[0] != '+');
    } else {
        text::lemma_dec(n as nat);
        assert(text::digit(t[0], 10) is Some);
    }
}

/// No character of `w` is a blank, of whatever kind.
spec fn solid(w: Seq<char>) -> bool {
    w.len() > 0 && forall|i: int| 0 <= i < w.len() ==> !text::is_white(#[trigger] w[i])
}

proof fn lemma_scan(s: Seq<char>, w: Seq<char>, ascii: bool)
    requires
        forall|i: int| 0 <= i < w.len() ==> !text::is_white(#[trigger] w[i]),
    ensures
        text::word_scan(s + w, ascii) == (
            text::word_scan(s, ascii).0,
            text::word_scan(s, ascii).1 + w,
        ),
    decreases w.len(),
{
    if w.len() == 0 {
        assert(s + w =~= s);
        assert(text::word_scan(s, ascii).1 + w =~= text::word_scan(s, ascii).1);
    } else {
        let p = w.drop_last();
        assert forall|i: int| 0 <= i < p.len() implies !text::is_white(#[trigger] p[i]) by {
            assert(!text::is_white(w[i]));
        }
        lemma_scan(s, p, ascii);
        assert((s + w).drop_last() =~= s + p);
        assert((s + w).last() == w[w.len() - 1]);
        assert(!text::is_white(w[w.len() - 1]));
        assert((text::word_scan(s, ascii).1 + p).push(w.last()) =~= text::word_scan(s, ascii).1
            + w);
    }
}

/// A word behind a blank is one word more.
proof fn lemma_word(s: Seq<char>, w: Seq<char>, ascii: bool)
    requires
        solid(w),
        s.len() == 0 || !text::is_white(s.last()),
    ensures
        s.len() > 0 ==> text::words(s + seq![' '] + w, ascii) == text::words(s, ascii).push(w),
        s.len() == 0 ==> text::words(w, ascii) == seq![w],
        (s + seq![' '] + w).len() > 0,
        !text::is_white((s + seq![' '] + w).last()),
        !text::is_white(w.last()),
{
    assert(!text::is_white(w[w.len() - 1]));
    if s.len() == 0 {
        lemma_scan(s, w, ascii);
        assert(s + w =~= w);
        assert(Seq::<char>::empty() + w =~= w);
        assert(text::words(w, ascii) =~= seq![w]);
    } else {
        let b = s + seq![' '];
        lemma_scan(b, w, ascii);
        assert(b.drop_last() =~= s);
        assert(b.last() == ' ');
        let (done, cur) = text::word_scan(s, ascii);
        assert(text::word_scan(s, ascii) == text::word_scan(s.drop_last().push(s.last()), ascii))
            by {
            assert(s.drop_last().push(s.last()) =~= s);
        }
        assert(cur.len() > 0);
        assert(text::word_scan(b, ascii).1 + w =~= w);
        assert(text::words(b + w, ascii) =~= text::words(s, ascii).push(w));
    }
}

proof fn lemma_solid(n: i32)
    ensures
        solid(text::dec_int(n as int)),
{
    let t = text::dec_int(n as int);
    if n < 0 {
        reveal_strlit("-");
        let b = text::dec((-n) as nat);
        text::lemma_dec((-n) as nat);
        assert forall|i: int| 0 <= i < t.len() implies !text::is_white(#[trigger] t[i]) by {
            if i > 0 {
                assert(t[i] == b[i - 1]);
                assert(text::digit(b[i - 1], 10) is Some);
            }
        }
    } else {
        text::lemma_dec(n as nat);
        assert forall|i: int| 0 <= i < t.len() implies !text::is_white(#[trigger] t[i]) by {
            assert(text::digit(t[i], 10) is Some);
        }
    }
}

/// Six numbers behind the word `RPT`, with blanks between them.
pub open spec fn line_of(a: i32, b: i32, c: i32, d: i32, e: i32, f: i32) -> Seq<char> {
    seq!['R', 'P', 'T'] + seq![' '] + text::dec_int(a as int) + seq![' '] + text::dec_int(b as int)
        + seq![' '] + text::dec_int(c as int) + seq![' '] + text::dec_int(d as int) + seq![' ']
        + text::dec_int(e as int) + seq![' '] + text::dec_int(f as int)
}

proof fn lemma_line(a: i32, b: i32, c: i32, d: i32, e: i32, f: i32, ascii: bool)
    ensures
        text::words(line_of(a, b, c, d, e, f), ascii) == seq![
            "RPT"@,
            text::dec_int(a as int),
            text::dec_int(b as int),
            text::dec_int(c as int),
            text::dec_int(d as int),
            text::dec_int(e as int),
            text::dec_int(f as int),
        ],
{
    reveal_strlit("RPT");
    let r = seq!['R', 'P', 'T'];
    assert("RPT"@ =~= r);
    lemma_solid(a);
    lemma_solid(b);
    lemma_solid(c);
    lemma_solid(d);
    lemma_solid(e);
    lemma_solid(f);
    let k = seq![' '];
    let s1 = r + k + text::dec_int(a as int);
    let s2 = s1 + k + text::dec_int(b as int);
    let s3 = s2 + k + text::dec_int(c as int);
    let s4 = s3 + k + text::dec_int(d as int);
    let s5 = s4 + k + text::dec_int(e as int);
    lemma_word(Seq::empty(), r, ascii);
    lemma_word(r, text::dec_int(a as int), ascii);
    lemma_word(s1, text::dec_int(b as int), ascii);
    lemma_word(s2, text::dec_int(c as int), ascii);
    lemma_word(s3, text::dec_int(d as int), ascii);
    lemma_word(s4, text::dec_int(e as int), ascii);
    lemma_word(s5, text::dec_int(f as int), ascii);
    assert(text::words(line_of(a, b, c, d, e, f), ascii) =~= seq![
        "RPT"@,
        text::dec_int(a as int),
        text::dec_int(b as int),
        text::dec_int(c as int),
        text::dec_int(d as int),
        text::dec_int(e as int),
        text::dec_int(f as int),
    ]);
}

/// The words of a line, as numbers.
proof fn lemma_numbers(a: i32, b: i32, c: i32, d: i32, e: i32, f: i32, ascii: bool)
    ensures
        ({
            let w = text::words(line_of(a, b, c, d, e, f), ascii);
            &&& w.len() == 7
            &&& w[0] == "RPT"@
            &&& text::parse_int(w[1]) == Some(a as int)
            &&& text::parse_int(w[2]) == Some(b as int)
            &&& text::parse_int(w[3]) == Some(c as int)
            &&& text::parse_int(w[4]) == Some(d as int)
            &&& text::parse_int(w[5]) == Some(e as int)
            &&& text::parse_int(w[6]) == Some(f as int)
        }),
{
    lemma_line(a, b, c, d, e, f, ascii);
    law_integers_read_back(a);
    law_integers_read_back(b);
    law_integers_read_back(c);
    law_integers_read_back(d);
    law_integers_read_back(e);
    law_integers_read_back(f);
}

proof fn lemma_chord_words(w: Seq<Seq<char>>, st: NodeState, alive: i32)
    requires
        w.len() == 7,
        w[0] == "RPT"@,
        text::parse_int(w[1]) == Some(st.ident as int),
        text::parse_int(w[2]) == Some(st.date as int),
        text::parse_int(w[3]) == Some(alive as int),
        text::parse_int(w[4]) == Some(st.succ as int),
        text::parse_int(w[5]) == Some(st.succ2 as int),
        text::parse_int(w[6]) == Some(st.prdc as int),
        st.alive == (alive != 0),
    ensures
        chord::report_of_words(w) == Some(st),
{
}

proof fn lemma_raft_words(w: Seq<Seq<char>>, rep: RaftReport, alive: i32)
    requires
        w.len() == 7,
        w[0] == "RPT"@,
        text::parse_int(w[1]) == Some(rep.node as int),
        text::parse_int(w[2]) == Some(rep.date as int),
        text::parse_int(w[3]) == Some(alive as int),
        text::parse_int(w[4]) == Some(rep.term as int),
        text::parse_int(w[5]) == Some(rep.role as int),
        text::parse_int(w[6]) == Some(rep.voted_for as int),
        rep.alive == (alive != 0),
    ensures
        raft::report_of_words(w) == Some(rep),
{
}

proof fn lemma_carried(s: Seq<char>)
    ensures
        hash::unhex(hash::hex(utf8::encode_utf8(s))) == Some(utf8::encode_utf8(s)),
        utf8::valid_utf8(utf8::encode_utf8(s)),
        utf8::decode_utf8(utf8::encode_utf8(s)) == s,
{
    hash::law_hex_round_trip(utf8::encode_utf8(s));
    utf8::encode_utf8_valid_utf8(s);
    utf8::encode_utf8_decode_utf8(s);
}

/// What a Chord node says of itself in a datagram is heard as it was said: its
/// identifier, the date, whether it lives, its two successors and its
/// predecessor, in this order. It is heard where the datagram is sent and where
/// it is delivered; sent it is by the send alone.
#[verifier::spinoff_prover]
#[verifier::rlimit(40)]
pub proof fn law_chord_report_is_heard(st: NodeState, e: EventView)
    requires
        ({
            let p = hash::hex(
                utf8::encode_utf8(
                    line_of(
                        st.ident,
                        st.date,
                        if st.alive {
                            1i32
                        } else {
                            0i32
                        },
                        st.succ,
                        st.succ2,
                        st.prdc,
                    ),
                ),
            );
            ||| e matches EventView::Send { payload, .. } && payload == p
            ||| e matches EventView::Recv {
                outcome: RecvOutcomeView::Delivered { payload, .. },
                ..
            } && payload == p
        }),
    ensures
        chord::report_in(e) == Some(st),
        chord::sent_in(e) == if e is Send {
            Some(st)
        } else {
            None
        },
{
    let alive: i32 = if st.alive {
        1
    } else {
        0
    };
    let t = line_of(st.ident, st.date, alive, st.succ, st.succ2, st.prdc);
    lemma_numbers(st.ident, st.date, alive, st.succ, st.succ2, st.prdc, false);
    lemma_chord_words(text::words(t, false), st, alive);
    assert(chord::report_of(t) == Some(st));
    lemma_heard(t, st);
    lemma_carried(t);
}

proof fn lemma_heard(t: Seq<char>, st: NodeState)
    requires
        chord::report_of(t) == Some(st),
    ensures
        chord::report_in_payload(hash::hex(utf8::encode_utf8(t))) == Some(st),
{
    lemma_carried(t);
}

/// Nothing is heard of events without a payload.
pub proof fn law_silence_is_no_report(e: EventView)
    requires
        !(e is Send),
        !(e matches EventView::Recv { outcome: RecvOutcomeView::Delivered { .. }, .. }),
    ensures
        chord::report_in(e) is None,
        chord::sent_in(e) is None,
        raft::report_in(e) is None,
{
}

/// What a Raft node says of itself in a datagram is heard as it was said: the
/// node, the date, whether it lives, its term, its role and its vote, in this
/// order. It is heard where the datagram is sent.
#[verifier::spinoff_prover]
#[verifier::rlimit(40)]
pub proof fn law_raft_report_is_heard(rep: RaftReport, e: EventView)
    requires
        e matches EventView::Send { payload, .. } && payload == hash::hex(
            utf8::encode_utf8(
                line_of(
                    rep.node,
                    rep.date,
                    if rep.alive {
                        1i32
                    } else {
                        0i32
                    },
                    rep.term,
                    rep.role,
                    rep.voted_for,
                ),
            ),
        ),
    ensures
        raft::report_in(e) == Some(rep),
{
    let alive: i32 = if rep.alive {
        1
    } else {
        0
    };
    let t = line_of(rep.node, rep.date, alive, rep.term, rep.role, rep.voted_for);
    lemma_numbers(rep.node, rep.date, alive, rep.term, rep.role, rep.voted_for, true);
    lemma_raft_words(text::words(t, true), rep, alive);
    assert(raft::report_of(t) == Some(rep));
    lemma_heard_raft(t, rep, e);
}

proof fn lemma_heard_raft(t: Seq<char>, rep: RaftReport, e: EventView)
    requires
        raft::report_of(t) == Some(rep),
        e matches EventView::Send { payload, .. } && payload == hash::hex(utf8::encode_utf8(t)),
    ensures
        raft::report_in(e) == Some(rep),
{
    lemma_carried(t);
}

// ---------------------------------------------------------------------------
// What a recording of Chord says
// ---------------------------------------------------------------------------

/// The record at `i` carries the report `st`.
#[verifier::opaque]
pub open spec fn carries(records: Seq<RecordView>, i: int, st: NodeState) -> bool {
    0 <= i < records.len() && chord::report_in(records[i].e) == Some(st)
}

proof fn lemma_carries(records: Seq<RecordView>, i: int)
    ensures
        forall|r: NodeState|
            carries(records, i, r) ==> 0 <= i < records.len() && chord::report_in(records[i].e)
                == Some(r),
        0 <= i < records.len() ==> (chord::report_in(records[i].e) matches Some(r) ==> #[trigger]
            carries(records, i, r)),
{
    reveal(carries);
}

/// Among the first `n` records, `st` at `j` is the report of its node with the
/// highest date, the last of those that have it.
pub open spec fn newest(records: Seq<RecordView>, n: int, j: int, st: NodeState) -> bool {
    &&& 0 <= j < n
    &&& carries(records, j, st)
    &&& forall|i: int, r: NodeState| #[trigger]
        carries(records, i, r) && 0 <= i < n && r.ident == st.ident ==> r.date < st.date || (r.date
            == st.date && i <= j)
}

/// One of the first `n` records says that the node is dead.
pub open spec fn said_dead(records: Seq<RecordView>, n: int, ident: i32) -> bool {
    exists|i: int, r: NodeState| #[trigger]
        carries(records, i, r) && 0 <= i < n && r.ident == ident && !r.alive
}

/// One of the first `n` records carries a report of the node.
pub open spec fn mentioned(records: Seq<RecordView>, n: int, ident: i32) -> bool {
    exists|i: int, r: NodeState| #[trigger]
        carries(records, i, r) && 0 <= i < n && r.ident == ident
}

/// What the first `n` records say of the node is `got`: its newest report; but
/// it is dead once a report has said so. Of a node without a report they say
/// nothing.
pub open spec fn says(
    records: Seq<RecordView>,
    n: int,
    ident: i32,
    got: Option<NodeState>,
) -> bool {
    match got {
        None => !mentioned(records, n, ident),
        Some(x) => exists|j: int, st: NodeState| #[trigger]
            newest(records, n, j, st) && st.ident == ident && x == (NodeState {
                alive: !said_dead(records, n, ident),
                ..st
            }),
    }
}

proof fn lemma_says(
    records: Seq<RecordView>,
    n: int,
    ident: i32,
    x: NodeState,
    j: int,
    st: NodeState,
)
    requires
        newest(records, n, j, st),
        st.ident == ident,
        x == (NodeState { alive: !said_dead(records, n, ident), ..st }),
    ensures
        says(records, n, ident, Some(x)),
{
}

proof fn lemma_says_more(
    records: Seq<RecordView>,
    n: int,
    ident: i32,
    got: Option<NodeState>,
)
    requires
        0 < n <= records.len(),
        says(records, n - 1, ident, got),
        chord::report_in(records[n - 1].e) matches Some(r) ==> r.ident != ident,
    ensures
        says(records, n, ident, got),
{
    lemma_carries(records, n - 1);
    lemma_nothing_new(records, n, ident);
    if let Some(x) = got {
        let k = n - 1;
        let (j, o) = lemma_pick_newest(records, k, ident, x);
        lemma_says(records, n, ident, x, j, o);
    }
}

proof fn lemma_pick_newest(records: Seq<RecordView>, n: int, ident: i32, x: NodeState) -> (r: (
    int,
    NodeState,
))
    requires
        says(records, n, ident, Some(x)),
    ensures
        newest(records, n, r.0, r.1),
        r.1.ident == ident,
        x == (NodeState { alive: !said_dead(records, n, ident), ..r.1 }),
{
    choose|j: int, st: NodeState| #[trigger]
        newest(records, n, j, st) && st.ident == ident && x == (NodeState {
            alive: !said_dead(records, n, ident),
            ..st
        })
}

proof fn lemma_says_first(records: Seq<RecordView>, n: int, st: NodeState)
    requires
        0 < n <= records.len(),
        says(records, n - 1, st.ident, None),
        carries(records, n - 1, st),
    ensures
        says(records, n, st.ident, Some(st)),
{
    lemma_carries(records, n - 1);
    assert forall|i: int, r: NodeState| #[trigger]
        carries(records, i, r) && 0 <= i < n && r.ident == st.ident implies i == n - 1 && r
        == st by {
        if i < n - 1 {
            assert(mentioned(records, n - 1, st.ident));
        }
    }
    assert(newest(records, n, n - 1, st));
    if said_dead(records, n, st.ident) {
        let (i, r) = choose|i: int, r: NodeState| #[trigger]
            carries(records, i, r) && 0 <= i < n && r.ident == st.ident && !r.alive;
        assert(r == st);
    }
    lemma_says(records, n, st.ident, st, n - 1, st);
}

proof fn lemma_says_again(records: Seq<RecordView>, n: int, x: NodeState, st: NodeState)
    requires
        0 < n <= records.len(),
        says(records, n - 1, st.ident, Some(x)),
        carries(records, n - 1, st),
    ensures
        says(records, n, st.ident, Some(chord::merged(x, st))),
{
    lemma_carries(records, n - 1);
    let ident = st.ident;
    let (j, o) = lemma_pick_newest(records, n - 1, ident, x);
    lemma_said_dead(records, n, ident, st);
    if st.date >= o.date {
        assert forall|i: int, r: NodeState| #[trigger]
            carries(records, i, r) && 0 <= i < n && r.ident == st.ident implies r.date < st.date
            || (r.date == st.date && i <= n - 1) by {
            if i < n - 1 {
                assert(carries(records, i, r));
                assert(r.date <= o.date);
            }
        }
        assert(newest(records, n, n - 1, st));
        lemma_says(records, n, ident, chord::merged(x, st), n - 1, st);
    } else {
        lemma_still_newest(records, n, j, o);
        lemma_says(records, n, ident, chord::merged(x, st), j, o);
    }
}

/// What a recording says of a node is its newest report; but it is dead once a
/// report has said so. Of a node without a report it says nothing.
pub proof fn law_recording_says_the_newest(records: Seq<RecordView>, n: int, ident: i32)
    requires
        0 <= n <= records.len(),
    ensures
        chord::sorted(chord::gathered(records, n)),
        says(records, n, ident, chord::get(chord::gathered(records, n), ident)),
    decreases n,
{
    lemma_carries(records, n - 1);
    if n > 0 {
        law_recording_says_the_newest(records, n - 1, ident);
        let s = chord::gathered(records, n - 1);
        let got = chord::get(s, ident);
        match chord::report_in(records[n - 1].e) {
            None => {
                lemma_says_more(records, n, ident, got);
            },
            Some(st) => {
                assert(carries(records, n - 1, st));
                chord::lemma_observed(s, st);
                snapshot_laws::law_report_concerns_its_node(s, st, ident);
                if st.ident != ident {
                    lemma_says_more(records, n, ident, got);
                } else if got is None {
                    lemma_says_first(records, n, st);
                } else {
                    lemma_says_again(records, n, got.unwrap(), st);
                }
            },
        }
    }
}

proof fn lemma_said_dead(records: Seq<RecordView>, n: int, ident: i32, st: NodeState)
    requires
        0 < n <= records.len(),
        carries(records, n - 1, st),
        st.ident == ident,
    ensures
        said_dead(records, n, ident) <==> said_dead(records, n - 1, ident) || !st.alive,
{
    lemma_carries(records, n - 1);
    if said_dead(records, n - 1, ident) {
        lemma_said_before(records, n - 1, n, ident);
    }
    if said_dead(records, n, ident) && st.alive {
        let (i, r) = choose|i: int, r: NodeState| #[trigger]
            carries(records, i, r) && 0 <= i < n && r.ident == ident && !r.alive;
        assert(i < n - 1);
        assert(carries(records, i, r));
    }
}

proof fn lemma_said_before(records: Seq<RecordView>, k: int, n: int, ident: i32)
    requires
        k <= n,
        said_dead(records, k, ident),
    ensures
        said_dead(records, n, ident),
{
    let (i, r) = choose|i: int, r: NodeState| #[trigger]
        carries(records, i, r) && 0 <= i < k && r.ident == ident && !r.alive;
    assert(carries(records, i, r));
}

proof fn lemma_mentioned_before(records: Seq<RecordView>, k: int, n: int, ident: i32)
    requires
        k <= n,
        mentioned(records, k, ident),
    ensures
        mentioned(records, n, ident),
{
    let (i, r) = choose|i: int, r: NodeState| #[trigger]
        carries(records, i, r) && 0 <= i < k && r.ident == ident;
    assert(carries(records, i, r));
}

proof fn lemma_still_newest(records: Seq<RecordView>, n: int, j: int, o: NodeState)
    requires
        0 < n <= records.len(),
        newest(records, n - 1, j, o),
        chord::report_in(records[n - 1].e) matches Some(r) ==> r.ident != o.ident || r.date
            < o.date,
    ensures
        newest(records, n, j, o),
{
    lemma_carries(records, n - 1);
    assert forall|i: int, r: NodeState| #[trigger]
        carries(records, i, r) && 0 <= i < n && r.ident == o.ident implies r.date < o.date || (
    r.date == o.date && i <= j) by {
        if i < n - 1 {
            assert(carries(records, i, r));
        }
    }
}

/// A record that carries no report of the node changes nothing that is said of
/// it.
proof fn lemma_nothing_new(records: Seq<RecordView>, n: int, ident: i32)
    requires
        0 < n <= records.len(),
        chord::report_in(records[n - 1].e) matches Some(r) ==> r.ident != ident,
    ensures
        said_dead(records, n, ident) <==> said_dead(records, n - 1, ident),
        mentioned(records, n, ident) <==> mentioned(records, n - 1, ident),
        forall|j: int, st: NodeState|
            newest(records, n - 1, j, st) && st.ident == ident ==> #[trigger] newest(
                records,
                n,
                j,
                st,
            ),
{
    lemma_carries(records, n - 1);
    if said_dead(records, n - 1, ident) {
        lemma_said_before(records, n - 1, n, ident);
    }
    if said_dead(records, n, ident) {
        let (i, r) = choose|i: int, r: NodeState| #[trigger]
            carries(records, i, r) && 0 <= i < n && r.ident == ident && !r.alive;
        assert(i < n - 1);
        assert(carries(records, i, r));
    }
    if mentioned(records, n, ident) {
        let (i, r) = choose|i: int, r: NodeState| #[trigger]
            carries(records, i, r) && 0 <= i < n && r.ident == ident;
        assert(i < n - 1);
        assert(carries(records, i, r));
    }
    if mentioned(records, n - 1, ident) {
        lemma_mentioned_before(records, n - 1, n, ident);
    }
    assert forall|j: int, st: NodeState|
        newest(records, n - 1, j, st) && st.ident == ident implies #[trigger] newest(
        records,
        n,
        j,
        st,
    ) by {
        lemma_still_newest(records, n, j, st);
    }
}

// ---------------------------------------------------------------------------
// What a recording of Raft says
// ---------------------------------------------------------------------------

/// One of the records has the node, alive, say that it leads the term; 2 is the
/// role of a leader.
pub open spec fn claims(records: Seq<RecordView>, node: i32, term: i32) -> bool {
    exists|i: int|
        0 <= i < records.len() && (#[trigger] raft::report_in(records[i].e) matches Some(r)
            && r.alive && r.role == 2 && r.node == node && r.term == term)
}

/// Two nodes claim the same term.
pub open spec fn contested(records: Seq<RecordView>, a: i32, b: i32, term: i32) -> bool {
    a != b && claims(records, a, term) && claims(records, b, term)
}

/// The verdict on a recording of Raft: it shows nothing (3) where no node says
/// that it leads, is a violation (2) where two nodes claim the same term, and
/// passes (0) otherwise.
pub proof fn law_raft_verdict_code(records: Seq<RecordView>)
    ensures
        ({
            let c = raft_report::check_code(raft::scanned(records, records.len() as int));
            let some = exists|a: i32, t: i32| claims(records, a, t);
            let two = exists|a: i32, b: i32, t: i32| contested(records, a, b, t);
            &&& c == 3 <==> !some
            &&& c == 2 <==> two
            &&& c == 0 <==> some && !two
        }),
{
    let n = records.len() as int;
    let v = raft::scanned(records, n);
    raft::law_uninformative(records, n);
    assert forall|a: i32, t: i32| claims(records, a, t) <==> #[trigger] raft::led(
        records,
        n,
        a,
        t,
    ) by {
        if claims(records, a, t) {
            let i = choose|i: int|
                0 <= i < records.len() && (#[trigger] raft::report_in(records[i].e) matches Some(r)
                    && r.alive && r.role == 2 && r.node == a && r.term == t);
            assert(raft::leads(records[i], a, t));
        }
        if raft::led(records, n, a, t) {
            let i = choose|i: int| 0 <= i < n && raft::leads(#[trigger] records[i], a, t);
            assert(raft::report_in(records[i].e) is Some);
        }
    }
    if exists|a: i32, t: i32| claims(records, a, t) {
        let (a, t) = choose|a: i32, t: i32| claims(records, a, t);
        assert(raft::led(records, n, a, t));
    }
    if exists|a: i32, t: i32| raft::led(records, n, a, t) {
        let (a, t) = choose|a: i32, t: i32| raft::led(records, n, a, t);
        assert(claims(records, a, t));
    }
    if v.violations.len() > 0 {
        let t = v.violations[0].term;
        raft::law_violations_are_two_leaders(records, n, t);
        let (a, b) = choose|a: i32, b: i32|
            a != b && #[trigger] raft::led(records, n, a, t) && #[trigger] raft::led(
                records,
                n,
                b,
                t,
            );
        assert(contested(records, a, b, t));
    }
    if exists|a: i32, b: i32, t: i32| contested(records, a, b, t) {
        let (a, b, t) = choose|a: i32, b: i32, t: i32| contested(records, a, b, t);
        raft::law_violations_are_two_leaders(records, n, t);
        assert(raft::led(records, n, a, t) && raft::led(records, n, b, t));
    }
}

/// The record at `i` sends the report `r`.
#[verifier::opaque]
pub open spec fn reports(records: Seq<RecordView>, i: int, r: RaftReport) -> bool {
    0 <= i < records.len() && raft::report_in(records[i].e) == Some(r)
}

proof fn lemma_reports(records: Seq<RecordView>, i: int)
    ensures
        forall|r: RaftReport|
            reports(records, i, r) ==> 0 <= i < records.len() && raft::report_in(records[i].e)
                == Some(r),
        0 <= i < records.len() ==> (raft::report_in(records[i].e) matches Some(r) ==> #[trigger]
            reports(records, i, r)),
{
    reveal(reports);
}

/// The model of a recording of Raft has room for every node and every term that
/// is reported, and one term more.
pub proof fn law_raft_scenario_has_room(records: Seq<RecordView>, n: int, fix: u8)
    requires
        0 <= n <= records.len(),
        forall|i: int, r: RaftReport| #[trigger]
            reports(records, i, r) && 0 <= i < n ==> 0 <= r.node < 255 && 0 <= r.term < 255,
    ensures
        ({
            let m = raft_oracle::model_of(raft_oracle::scenario(records, n), fix);
            &&& m.fix == fix
            &&& forall|i: int, r: RaftReport| #[trigger]
                reports(records, i, r) && 0 <= i < n ==> r.node < m.members && r.term < m.term_bound
            &&& m.members == 1 || exists|i: int, r: RaftReport| #[trigger]
                reports(records, i, r) && 0 <= i < n && r.node + 1 == m.members
            &&& m.term_bound == 1 || exists|i: int, r: RaftReport| #[trigger]
                reports(records, i, r) && 0 <= i < n && r.term + 1 == m.term_bound
            &&& raft_oracle::scenario(records, n).top_node < 255
            &&& raft_oracle::scenario(records, n).top_term < 255
        }),
    decreases n,
{
    lemma_reports(records, n - 1);
    if n > 0 {
        law_raft_scenario_has_room(records, n - 1, fix);
        let x = raft_oracle::scenario(records, n - 1);
        let o = raft_oracle::model_of(x, fix);
        let m = raft_oracle::model_of(raft_oracle::scenario(records, n), fix);
        let now = raft::report_in(records[n - 1].e);
        if now is Some {
            assert(reports(records, n - 1, now.unwrap()));
        }
        assert(o.members <= m.members && o.term_bound <= m.term_bound);
        if m.members == o.members && m.members != 1 {
            let (i, r) = choose|i: int, r: RaftReport| #[trigger]
                reports(records, i, r) && 0 <= i < n - 1 && r.node + 1 == o.members;
            assert(reports(records, i, r));
        }
        if m.term_bound == o.term_bound && m.term_bound != 1 {
            let (i, r) = choose|i: int, r: RaftReport| #[trigger]
                reports(records, i, r) && 0 <= i < n - 1 && r.term + 1 == o.term_bound;
            assert(reports(records, i, r));
        }
        assert forall|i: int, r: RaftReport| #[trigger]
            reports(records, i, r) && 0 <= i < n implies r.node < m.members && r.term < m.term_bound by {
            if i < n - 1 {
                assert(r.node < o.members && r.term < o.term_bound);
            }
        }
    }
}

/// The schedule of the model of a recording of Raft has a restart for every
/// report of one, and no more.
pub proof fn law_raft_scenario_restarts(records: Seq<RecordView>, n: int, fix: u8)
    requires
        0 <= n <= records.len(),
    ensures
        ({
            let m = raft_oracle::model_of(raft_oracle::scenario(records, n), fix);
            &&& m.schedule is Fixed
            &&& m.schedule->Fixed_0.len() == deaths(records, n)
            &&& forall|i: int, r: RaftReport| #[trigger]
                reports(records, i, r) && 0 <= i < n && !r.alive ==> m.schedule->Fixed_0.contains(
                    r.node as u8,
                )
        }),
    decreases n,
{
    lemma_reports(records, n - 1);
    if n > 0 {
        law_raft_scenario_restarts(records, n - 1, fix);
        let x = raft_oracle::scenario(records, n - 1);
        let y = raft_oracle::scenario(records, n);
        let a = raft_oracle::nodes_of(x.restarts);
        let b = raft_oracle::nodes_of(y.restarts);
        let now = raft::report_in(records[n - 1].e);
        if now is Some && !now.unwrap().alive {
            let r = now.unwrap();
            let f = raft_oracle::Restart { date: r.date, node: r.node as u8 };
            lemma_placed(x.restarts, f);
            assert forall|u: u8| a.contains(u) || u == f.node implies #[trigger] b.contains(u) by {
                if u == f.node {
                    let l = choose|l: int| 0 <= l < y.restarts.len() && y.restarts[l] == f;
                    assert(b[l] == u);
                } else {
                    let k = choose|k: int| 0 <= k < a.len() && a[k] == u;
                    let g = x.restarts[k];
                    assert(x.restarts.contains(g));
                    assert(y.restarts.contains(g));
                    let l = choose|l: int| 0 <= l < y.restarts.len() && y.restarts[l] == g;
                    assert(b[l] == u);
                }
            }
        } else {
            assert(b == a);
        }
        assert forall|i: int, r: RaftReport| #[trigger]
            reports(records, i, r) && 0 <= i < n && !r.alive implies b.contains(r.node as u8) by {
            if i < n - 1 {
                assert(a.contains(r.node as u8));
            }
        }
    }
}

/// How many of the first `n` records report a restart.
pub open spec fn deaths(records: Seq<RecordView>, n: int) -> nat
    decreases n,
{
    if n <= 0 {
        0
    } else {
        deaths(records, n - 1) + (if raft::report_in(records[n - 1].e) matches Some(r)
            && !r.alive {
            1nat
        } else {
            0nat
        })
    }
}

proof fn lemma_placed(v: Seq<raft_oracle::Restart>, f: raft_oracle::Restart)
    ensures
        raft_oracle::placed(v, f).len() == v.len() + 1,
        raft_oracle::placed(v, f).contains(f),
        forall|g: raft_oracle::Restart|
            v.contains(g) ==> #[trigger] raft_oracle::placed(v, f).contains(g),
    decreases v.len(),
{
    let r = raft_oracle::placed(v, f);
    if v.len() == 0 || !raft_oracle::before(f, v.last()) {
        assert(r[v.len() as int] == f);
        assert forall|g: raft_oracle::Restart| v.contains(g) implies #[trigger] r.contains(g) by {
            let k = choose|k: int| 0 <= k < v.len() && v[k] == g;
            assert(r[k] == g);
        }
    } else {
        let p = v.drop_last();
        let q = raft_oracle::placed(p, f);
        lemma_placed(p, f);
        let k = choose|k: int| 0 <= k < q.len() && q[k] == f;
        assert(r[k] == f);
        assert forall|g: raft_oracle::Restart| v.contains(g) implies #[trigger] r.contains(g) by {
            let k = choose|k: int| 0 <= k < v.len() && v[k] == g;
            if k < p.len() {
                assert(p[k] == g);
                assert(p.contains(g));
                assert(q.contains(g));
                let l = choose|l: int| 0 <= l < q.len() && q[l] == g;
                assert(r[l] == g);
            } else {
                assert(r[q.len() as int] == g);
            }
        }
    }
}

} // verus!
