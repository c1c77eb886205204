//! The laws of what is told of a check: every finding is told, with what it
//! concerns, and a trace tells of every change.

use vstd::prelude::*;

use crate::chord;
use crate::chord::{InvariantKind, NodeState};
use crate::chord_report;
use crate::log::{EventView, HeaderView, RecordView};
use crate::raft;
use crate::raft_report;
use crate::report;
use crate::text;
use crate::timeline_laws;
use crate::timeline_laws::holds;

verus! {

proof fn lemma_append(whole: Seq<char>, more: Seq<char>, part: Seq<char>)
    requires
        holds(whole, part),
    ensures
        holds(whole + more, part),
{
    timeline_laws::lemma_append(whole, more, part);
}

/// A list is told with all that is in it.
pub proof fn law_lists(v: Seq<i32>, n: int, i: int)
    requires
        0 <= i < n <= v.len(),
    ensures
        holds(chord::listed(v, n), text::dec_int(v[i] as int)),
    decreases n,
{
    let part = text::dec_int(v[i] as int);
    if i == n - 1 {
        if n == 1 {
            timeline_laws::lemma_ends(Seq::empty(), part);
            assert(Seq::<char>::empty() + part =~= part);
        } else {
            timeline_laws::lemma_ends(chord::listed(v, n - 1) + ", "@, part);
        }
    } else {
        law_lists(v, n - 1, i);
        lemma_append(chord::listed(v, n - 1), ", "@, part);
        lemma_append(chord::listed(v, n - 1) + ", "@, text::dec_int(v[n - 1] as int), part);
    }
}

// ---------------------------------------------------------------------------
// Rings
// ---------------------------------------------------------------------------

/// The kinds of violation have names of their own.
pub proof fn law_kinds_are_named_apart(a: InvariantKind, b: InvariantKind)
    requires
        a != b,
    ensures
        chord::kind_name(a) != chord::kind_name(b),
{
    reveal_strlit("AtLeastOneRing");
    reveal_strlit("AtMostOneRing");
    reveal_strlit("OrderedRing");
    reveal_strlit("ConnectedAppendages");
    assert("AtLeastOneRing"@.len() == 14);
    assert("AtMostOneRing"@.len() == 13);
    assert("OrderedRing"@.len() == 11);
    assert("ConnectedAppendages"@.len() == 19);
}

proof fn lemma_chord_lines(v: Seq<chord::ViolationView>, n: int, i: int)
    requires
        0 <= i < n <= v.len(),
    ensures
        holds(chord_report::violation_lines(v, n), chord::kind_name(v[i].kind) + " : "@ + v[i].detail),
    decreases n,
{
    let part = chord::kind_name(v[i].kind) + " : "@ + v[i].detail;
    let front = chord_report::violation_lines(v, n - 1);
    let line = chord_report::violation_line(v[n - 1]);
    if i == n - 1 {
        let head = "  \u{2717} "@;
        timeline_laws::lemma_holds(front + line, front + head, part, "\n"@);
    } else {
        lemma_chord_lines(v, n - 1, i);
        lemma_append(front, line, part);
    }
}

/// The verdict on a ring is that the run is to be discarded where the
/// assumption did not hold, else that all is well where nothing was found, else
/// that something is violated, with every kind and every detail.
pub proof fn law_ring_verdict_is_told(held: bool, v: Seq<chord::ViolationView>, i: int)
    ensures
        ({
            let t = chord_report::verdict_text(held, v);
            &&& !held ==> holds(t, "DISCARD"@)
            &&& held && v.len() == 0 ==> holds(t, "OK"@)
            &&& held && v.len() > 0 ==> holds(t, "VIOLATION"@)
            &&& held && 0 <= i < v.len() ==> holds(
                t,
                chord::kind_name(v[i].kind) + " : "@ + v[i].detail,
            )
        }),
{
    let t = chord_report::verdict_text(held, v);
    reveal_strlit("DISCARD");
    reveal_strlit("OK");
    reveal_strlit("VIOLATION");
    if !held {
        reveal_strlit("\nverdict   : DISCARD — failure assumption violated by the scenario\n");
        timeline_laws::lemma_holds(t, t.take(13), "DISCARD"@, t.skip(20));
    } else if v.len() == 0 {
        reveal_strlit("\nverdict   : OK — all correctness invariants hold\n");
        timeline_laws::lemma_holds(t, t.take(13), "OK"@, t.skip(15));
    } else {
        let head = "\nverdict   : VIOLATION — still violated after the quiescent repair tail (unrepairable per Zave for these invariants)\n"@;
        reveal_strlit(
            "\nverdict   : VIOLATION — still violated after the quiescent repair tail (unrepairable per Zave for these invariants)\n",
        );
        let lines = chord_report::violation_lines(v, v.len() as int);
        timeline_laws::lemma_holds(head, head.take(13), "VIOLATION"@, head.skip(22));
        lemma_append(head, lines, "VIOLATION"@);
        if 0 <= i < v.len() {
            let part = chord::kind_name(v[i].kind) + " : "@ + v[i].detail;
            lemma_chord_lines(v, v.len() as int, i);
            timeline_laws::lemma_within(head, lines, Seq::empty(), part);
            assert(head + lines + Seq::<char>::empty() =~= head + lines);
        }
    }
}

/// A check of a ring tells which recording it is of and with which seed, the
/// nodes as they ended up, and its verdict.
pub proof fn law_ring_check_is_told(
    h: HeaderView,
    path: Seq<char>,
    s: Seq<NodeState>,
    held: bool,
    v: Seq<chord::ViolationView>,
)
    ensures
        ({
            let t = chord_report::check_text(h, path, s, held, v);
            &&& holds(t, path + "  (seed "@ + text::dec(h.seed as nat))
            &&& holds(t, chord::snapshot_text(s))
            &&& holds(t, chord_report::verdict_text(held, v))
        }),
{
    let a = chord_report::check_head(h, path);
    let b = chord::snapshot_text(s);
    let c = chord_report::assumption_text(held);
    let d = chord_report::verdict_text(held, v);
    let e = "=======================================================\n"@;
    let top = "=============== CHORD FINAL-STATE CHECK ===============\nrecording : "@;
    let part = path + "  (seed "@ + text::dec(h.seed as nat);
    timeline_laws::lemma_holds(a, top, part, ", net "@ + h.net + ")\n"@);
    lemma_append(a, b, part);
    lemma_append(a + b, c, part);
    lemma_append(a + b + c, d, part);
    lemma_append(a + b + c + d, e, part);
    timeline_laws::lemma_ends(a, b);
    lemma_append(a + b, c, b);
    lemma_append(a + b + c, d, b);
    lemma_append(a + b + c + d, e, b);
    timeline_laws::lemma_ends(a + b + c, d);
    lemma_append(a + b + c + d, e, d);
}

// ---------------------------------------------------------------------------
// The trace of a ring
// ---------------------------------------------------------------------------

/// What a node tells of itself in an event, if one does.
#[verifier::opaque]
pub open spec fn told(e: EventView) -> Option<NodeState> {
    chord::sent_in(e)
}

/// The `i`-th record is the last of the first `n` in which the node told of
/// itself.
pub open spec fn last_told(records: Seq<RecordView>, n: int, i: int, st: NodeState) -> bool {
    &&& 0 <= i < n <= records.len()
    &&& told(records[i].e) == Some(st)
    &&& forall|k: int|
        i < k < n ==> !(told((#[trigger] records[k]).e) matches Some(x) && x.ident == st.ident)
}

#[verifier::opaque]
spec fn last_states(records: Seq<RecordView>, n: int) -> Map<i32, NodeState> {
    chord_report::traced(records, n).last
}

proof fn lemma_last_step(records: Seq<RecordView>, n: int)
    requires
        0 < n <= records.len(),
    ensures
        last_states(records, n) == match told(records[n - 1].e) {
            Some(st) => last_states(records, n - 1).insert(st.ident, st),
            None => last_states(records, n - 1),
        },
{
    reveal(last_states);
    reveal(told);
}

proof fn lemma_last(records: Seq<RecordView>, n: int, ident: i32)
    requires
        0 <= n <= records.len(),
    ensures
        ({
            let last = last_states(records, n);
            &&& last.contains_key(ident) ==> last[ident].ident == ident && exists|i: int|
                #[trigger] last_told(records, n, i, last[ident])
            &&& forall|i: int, st: NodeState| #[trigger]
                last_told(records, n, i, st) && st.ident == ident ==> last.contains_key(ident)
                    && last[ident] == st
        }),
    decreases n,
{
    if n > 0 {
        lemma_last(records, n - 1, ident);
        lemma_last_step(records, n);
        let before = last_states(records, n - 1);
        let last = last_states(records, n);
        let now = told(records[n - 1].e);
        if now is Some && now.unwrap().ident == ident {
            let st = now.unwrap();
            assert(last_told(records, n, n - 1, st));
            assert forall|i: int, x: NodeState| #[trigger]
                last_told(records, n, i, x) && x.ident == ident implies last.contains_key(ident)
                && last[ident] == x by {
                if i < n - 1 {
                    assert(told(records[n - 1].e) == Some(st));
                }
            }
        } else {
            if before.contains_key(ident) {
                let st = last[ident];
                let i = choose|i: int| #[trigger] last_told(records, n - 1, i, st);
                assert(last_told(records, n, i, st));
            }
            assert forall|i: int, x: NodeState| #[trigger]
                last_told(records, n, i, x) && x.ident == ident implies last.contains_key(ident)
                && last[ident] == x by {
                assert(i != n - 1);
                assert(last_told(records, n - 1, i, x));
            }
        }
    } else {
        reveal(last_states);
    }
}

proof fn lemma_changes(records: Seq<RecordView>, n: int, now: NodeState)
    requires
        0 <= n < records.len(),
        told(records[n].e) == Some(now),
    ensures
        ({
            let last = last_states(records, n);
            chord_report::changes(records, n) <==> !last.contains_key(now.ident) || {
                let st = last[now.ident];
                st.succ != now.succ || st.succ2 != now.succ2 || st.prdc != now.prdc || st.alive
                    != now.alive
            }
        }),
{
    reveal(last_states);
    reveal(told);
}

/// A record changes the trace if and only if a node tells of itself there for
/// the first time, or otherwise than the last time: with another successor,
/// another second successor, another predecessor, or no longer alive.
pub proof fn law_trace_tells_changes(
    records: Seq<RecordView>,
    n: int,
    i: int,
    st: NodeState,
    now: NodeState,
)
    requires
        0 <= n < records.len(),
        told(records[n].e) == Some(now),
    ensures
        last_told(records, n, i, st) && st.ident == now.ident ==> (chord_report::changes(records, n)
            <==> st.succ != now.succ || st.succ2 != now.succ2 || st.prdc != now.prdc || st.alive
            != now.alive),
        (forall|k: int|
            0 <= k < n ==> !(told((#[trigger] records[k]).e) matches Some(x) && x.ident
                == now.ident)) ==> chord_report::changes(records, n),
{
    lemma_changes(records, n, now);
    lemma_no_change(records, n, now);
    lemma_last(records, n, now.ident);
}

proof fn lemma_no_change(records: Seq<RecordView>, n: int, now: NodeState)
    requires
        0 <= n < records.len(),
    ensures
        (forall|k: int|
            0 <= k < n ==> !(told((#[trigger] records[k]).e) matches Some(x) && x.ident
                == now.ident)) ==> !last_states(records, n).contains_key(now.ident),
{
    lemma_last(records, n, now.ident);
    let last = last_states(records, n);
    if last.contains_key(now.ident) {
        let k = choose|k: int| #[trigger] last_told(records, n, k, last[now.ident]);
        assert(told(records[k].e) == Some(last[now.ident]));
    }
}

/// A change adds one line to the trace, which names the operation, the node and
/// its failure or its pointers; nothing else adds anything.
pub proof fn law_trace_lines(records: Seq<RecordView>, n: int)
    requires
        0 <= n < records.len(),
    ensures
        ({
            let before = chord_report::traced(records, n).text;
            let after = chord_report::traced(records, n + 1).text;
            &&& !chord_report::changes(records, n) ==> after == before
            &&& chord_report::changes(records, n) ==> {
                let st = chord::sent_in(records[n].e).unwrap();
                let line = after.skip(before.len() as int);
                &&& after.len() >= before.len() && after.take(before.len() as int) == before
                &&& holds(line, text::dec(records[n].op as nat))
                &&& holds(line, text::dec_int(st.ident as int))
                &&& !st.alive ==> holds(line, "FAILED"@)
                &&& st.alive ==> holds(line, chord::pointers_text(st))
            }
        }),
{
    let t = chord_report::traced(records, n);
    let after = chord_report::traced(records, n + 1).text;
    if chord_report::changes(records, n) {
        let st = chord::sent_in(records[n].e).unwrap();
        let ring = chord::ring_of(chord::observed(t.seen, st));
        let op = records[n].op;
        let line = chord_report::trace_line(op, st, ring);
        assert(after == t.text + line);
        assert(after.take(t.text.len() as int) =~= t.text);
        assert(after.skip(t.text.len() as int) =~= line);
        lemma_trace_line(op, st, ring);
    }
}

proof fn lemma_trace_line(op: u64, st: NodeState, ring: Seq<i32>)
    ensures
        ({
            let line = chord_report::trace_line(op, st, ring);
            &&& holds(line, text::dec(op as nat))
            &&& holds(line, text::dec_int(st.ident as int))
            &&& !st.alive ==> holds(line, "FAILED"@)
            &&& st.alive ==> holds(line, chord::pointers_text(st))
        }),
{
    let number = text::dec(op as nat);
    let ident = text::dec_int(st.ident as int);
    let a = report::padded(number, 5);
    let b = chord::col(st.ident);
    timeline_laws::lemma_padded(number, 5);
    timeline_laws::lemma_padded(ident, 3);
    let state = if st.alive {
        "  "@ + chord::pointers_text(st)
    } else {
        "  *** FAILED ***"@
    };
    let e = Seq::<char>::empty();
    let s1 = "op "@ + a;
    let s2 = s1 + " node "@ + b;
    let s3 = s2 + state;
    let s4 = s3 + "  ring="@;
    let s5 = s4 + chord::list_text(ring);
    timeline_laws::lemma_within("op "@, a, e, number);
    assert("op "@ + a + e =~= s1);
    lemma_append(s1, " node "@, number);
    lemma_append(s1 + " node "@, b, number);
    lemma_append(s2, state, number);
    lemma_append(s3, "  ring="@, number);
    lemma_append(s4, chord::list_text(ring), number);
    lemma_append(s5, "\n"@, number);
    timeline_laws::lemma_within(s1 + " node "@, b, e, ident);
    assert(s1 + " node "@ + b + e =~= s2);
    lemma_append(s2, state, ident);
    lemma_append(s3, "  ring="@, ident);
    lemma_append(s4, chord::list_text(ring), ident);
    lemma_append(s5, "\n"@, ident);
    let part = if st.alive {
        chord::pointers_text(st)
    } else {
        "FAILED"@
    };
    if st.alive {
        timeline_laws::lemma_ends("  "@, part);
    } else {
        reveal_strlit("  *** FAILED ***");
        reveal_strlit("FAILED");
        timeline_laws::lemma_holds(state, state.take(6), part, state.skip(12));
    }
    timeline_laws::lemma_within(s2, state, e, part);
    assert(s2 + state + e =~= s3);
    lemma_append(s3, "  ring="@, part);
    lemma_append(s4, chord::list_text(ring), part);
    lemma_append(s5, "\n"@, part);
}

/// The trace marks the operation at which the ring was lost: the last change
/// that left no ring where there was one.
pub proof fn law_trace_marks_the_loss(records: Seq<RecordView>, n: int)
    requires
        0 <= n < records.len(),
    ensures
        ({
            let before = chord_report::traced(records, n);
            let after = chord_report::traced(records, n + 1);
            let gone = chord::ring_of(after.seen).len() == 0;
            &&& chord_report::changes(records, n) ==> (after.empty <==> gone)
            &&& chord_report::changes(records, n) && gone && !before.empty ==> after.broke == Some(
                records[n].op,
            )
            &&& !(chord_report::changes(records, n) && gone && !before.empty) ==> after.broke
                == before.broke
        }),
{
}

// ---------------------------------------------------------------------------
// Elections
// ---------------------------------------------------------------------------

proof fn lemma_raft_lines(v: Seq<raft::ViolationView>, n: int, i: int)
    requires
        0 <= i < n <= v.len(),
    ensures
        holds(
            raft_report::violation_lines(v, n),
            text::dec_int(v[i].term as int) + ": leaders "@ + chord::list_text(v[i].leaders)
                + " (second leader at op "@ + text::dec(v[i].at_op as nat),
        ),
    decreases n,
{
    let part = text::dec_int(v[i].term as int) + ": leaders "@ + chord::list_text(v[i].leaders)
        + " (second leader at op "@ + text::dec(v[i].at_op as nat);
    let front = raft_report::violation_lines(v, n - 1);
    let line = raft_report::violation_line(v[n - 1]);
    if i == n - 1 {
        timeline_laws::lemma_holds(front + line, front + "  \u{2717} term "@, part, ")\n"@);
    } else {
        lemma_raft_lines(v, n - 1, i);
        lemma_append(front, line, part);
    }
}

/// The verdict on elections is that the run shows nothing where nobody was
/// elected, else that all is well where nothing was found, else that something
/// is violated, with every term, its leaders and where the second came.
pub proof fn law_election_verdict_is_told(v: raft::VerdictView, term: i32, i: int)
    ensures
        ({
            let t = raft_report::verdict_text(v);
            &&& (forall|k: i32| !#[trigger] v.leaders.contains_key(k)) ==> holds(t, "DISCARD"@)
            &&& v.leaders.contains_key(term) && v.violations.len() == 0 ==> holds(t, "OK"@)
            &&& v.leaders.contains_key(term) && 0 <= i < v.violations.len() ==> holds(
                t,
                "VIOLATION"@,
            ) && holds(
                t,
                text::dec_int(v.violations[i].term as int) + ": leaders "@ + chord::list_text(
                    v.violations[i].leaders,
                ) + " (second leader at op "@ + text::dec(v.violations[i].at_op as nat),
            )
        }),
{
    let t = raft_report::verdict_text(v);
    reveal_strlit("DISCARD");
    reveal_strlit("OK");
    reveal_strlit("VIOLATION");
    if forall|k: i32| !#[trigger] v.leaders.contains_key(k) {
        assert(v.leaders.dom() =~= Set::<i32>::empty());
        reveal_strlit("\nverdict   : DISCARD — no leader elected; seed uninformative\n");
        timeline_laws::lemma_holds(t, t.take(13), "DISCARD"@, t.skip(20));
    }
    if v.leaders.contains_key(term) {
        assert(v.leaders.dom().contains(term));
        if v.violations.len() == 0 {
            reveal_strlit("\nverdict   : OK — at most one leader per term\n");
            timeline_laws::lemma_holds(t, t.take(13), "OK"@, t.skip(15));
        } else if 0 <= i < v.violations.len() {
            let head = "\nverdict   : VIOLATION — ElectionSafety broken\n"@;
            reveal_strlit("\nverdict   : VIOLATION — ElectionSafety broken\n");
            let lines = raft_report::violation_lines(v.violations, v.violations.len() as int);
            timeline_laws::lemma_holds(head, head.take(13), "VIOLATION"@, head.skip(22));
            lemma_append(head, lines, "VIOLATION"@);
            lemma_raft_lines(v.violations, v.violations.len() as int, i);
            let part = text::dec_int(v.violations[i].term as int) + ": leaders "@
                + chord::list_text(v.violations[i].leaders) + " (second leader at op "@ + text::dec(
                v.violations[i].at_op as nat,
            );
            timeline_laws::lemma_within(head, lines, Seq::empty(), part);
            assert(head + lines + Seq::<char>::empty() =~= head + lines);
        }
    }
}

/// A check of elections tells which recording it is of and with which seed, how
/// many reports and restarts there were, and its verdict.
pub proof fn law_election_check_is_told(h: HeaderView, path: Seq<char>, v: raft::VerdictView)
    ensures
        ({
            let t = raft_report::check_text(h, path, v);
            &&& holds(t, path + "  (seed "@ + text::dec(h.seed as nat))
            &&& holds(t, text::dec(v.reports as nat) + " state reports, "@ + text::dec(
                v.restarts as nat,
            ) + " crash-restarts"@)
            &&& holds(t, raft_report::verdict_text(v))
        }),
{
    let terms = raft_report::in_order(v.leaders.dom());
    let a = raft_report::check_head(h, path);
    let b = raft_report::counts_text(v);
    let c = raft_report::term_lines(v.leaders, terms, terms.len() as int);
    let d = raft_report::verdict_text(v);
    let e = "==========================================================\n"@;
    let top = "=============== RAFT ELECTION-SAFETY CHECK ===============\nrecording : "@;
    let part = path + "  (seed "@ + text::dec(h.seed as nat);
    timeline_laws::lemma_holds(a, top, part, ", net "@ + h.net + ")\n"@);
    lemma_append(a, b, part);
    lemma_append(a + b, c, part);
    lemma_append(a + b + c, d, part);
    lemma_append(a + b + c + d, e, part);
    let counts = text::dec(v.reports as nat) + " state reports, "@ + text::dec(v.restarts as nat)
        + " crash-restarts"@;
    reveal_strlit(" crash-restarts\n");
    reveal_strlit(" crash-restarts");
    reveal_strlit("\n");
    assert(" crash-restarts\n"@ =~= " crash-restarts"@ + "\n"@);
    timeline_laws::lemma_holds(b, "reports   : "@, counts, "\n"@);
    timeline_laws::lemma_within(a, b, c, counts);
    lemma_append(a + b + c, d, counts);
    lemma_append(a + b + c + d, e, counts);
    timeline_laws::lemma_ends(a + b + c, d);
    lemma_append(a + b + c + d, e, d);
}

// ---------------------------------------------------------------------------
// The nodes of a ring
// ---------------------------------------------------------------------------

/// The line of a node that lives tells its name, its pointers, the successor it
/// goes by, and whether it is on the ring.
pub proof fn law_live_line(s: Seq<NodeState>, n: NodeState)
    ensures
        ({
            let t = chord::live_line(s, n);
            &&& holds(t, text::dec_int(n.ident as int))
            &&& holds(t, chord::pointers_text(n))
            &&& holds(t, " bestSucc="@ + chord::col(chord::best(s, n)))
            &&& chord::ring_of(s).contains(n.ident) ==> holds(t, " [ring]"@)
            &&& !chord::ring_of(s).contains(n.ident) ==> holds(t, " [appendage]"@)
        }),
{
    let ident = text::dec_int(n.ident as int);
    let a = chord::col(n.ident);
    let p = chord::pointers_text(n);
    let b = " bestSucc="@ + chord::col(chord::best(s, n));
    let place = if chord::ring_of(s).contains(n.ident) {
        " [ring]"@
    } else {
        " [appendage]"@
    };
    let e = Seq::<char>::empty();
    let t = chord::live_line(s, n);
    let s1 = "  node "@ + a;
    let s2 = s1 + ": "@ + p;
    let s3 = s2 + " bestSucc="@ + chord::col(chord::best(s, n));
    let s4 = s3 + place;
    assert(t == s4 + "\n"@);
    timeline_laws::lemma_padded(ident, 3);
    timeline_laws::lemma_within("  node "@, a, e, ident);
    assert("  node "@ + a + e =~= s1);
    lemma_append(s1, ": "@, ident);
    lemma_append(s1 + ": "@, p, ident);
    lemma_append(s2, " bestSucc="@, ident);
    lemma_append(s2 + " bestSucc="@, chord::col(chord::best(s, n)), ident);
    lemma_append(s3, place, ident);
    lemma_append(s4, "\n"@, ident);
    timeline_laws::lemma_ends(s1 + ": "@, p);
    lemma_append(s2, " bestSucc="@, p);
    lemma_append(s2 + " bestSucc="@, chord::col(chord::best(s, n)), p);
    lemma_append(s3, place, p);
    lemma_append(s4, "\n"@, p);
    timeline_laws::lemma_holds(s3, s2, b, e);
    lemma_append(s3, place, b);
    lemma_append(s4, "\n"@, b);
    timeline_laws::lemma_ends(s3, place);
    lemma_append(s4, "\n"@, place);
}

/// Every node has its line: one that lives with its pointers, one that does not
/// as failed.
pub proof fn law_every_node_has_its_line(s: Seq<NodeState>, nodes: Seq<NodeState>, i: int)
    requires
        0 <= i < nodes.len(),
    ensures
        holds(chord::live_lines(s, nodes), chord::live_line(s, nodes[i])),
        !nodes[i].alive ==> holds(
            chord::dead_lines(nodes),
            chord::col(nodes[i].ident) + ": FAILED"@,
        ),
        (forall|k: int| 0 <= k < nodes.len() ==> (#[trigger] nodes[k]).alive)
            ==> chord::dead_lines(nodes).len() == 0,
    decreases nodes.len(),
{
    let p = nodes.drop_last();
    let x = nodes.last();
    let front = chord::live_lines(s, p);
    let rest = chord::dead_lines(p);
    let part = chord::col(nodes[i].ident) + ": FAILED"@;
    let e = Seq::<char>::empty();
    assert forall|k: int| 0 <= k < p.len() implies #[trigger] p[k] == nodes[k] by {}
    if p.len() > 0 {
        law_every_node_has_its_line(s, p, if i < p.len() {
            i
        } else {
            0
        });
    } else {
        assert(rest.len() == 0);
    }
    if i == nodes.len() - 1 {
        timeline_laws::lemma_ends(front, chord::live_line(s, x));
        if !x.alive {
            reveal_strlit(": FAILED\n");
            reveal_strlit(": FAILED");
            let f = ": FAILED\n"@;
            assert(f =~= ": FAILED"@ + f.skip(8));
            timeline_laws::lemma_holds(
                chord::dead_lines(nodes),
                rest + "  node "@,
                part,
                f.skip(8),
            );
        }
    } else {
        lemma_append(front, chord::live_line(s, x), chord::live_line(s, nodes[i]));
        if !nodes[i].alive && !x.alive {
            lemma_append(rest, "  node "@ + chord::col(x.ident) + ": FAILED\n"@, part);
        }
    }
}

/// The pointers of a node are its successor, its second successor and its
/// predecessor, in this order.
pub proof fn law_pointers(n: NodeState)
    ensures
        holds(chord::pointers_text(n), "succ="@ + chord::col(n.succ)),
        holds(chord::pointers_text(n), " succ2="@ + chord::col(n.succ2)),
        holds(chord::pointers_text(n), " prdc="@ + chord::col(n.prdc)),
{
    let t = chord::pointers_text(n);
    let e = Seq::<char>::empty();
    let a = "succ="@ + chord::col(n.succ);
    let b = " succ2="@ + chord::col(n.succ2);
    let c = " prdc="@ + chord::col(n.prdc);
    assert(t =~= a + b + c);
    timeline_laws::lemma_holds(t, e, a, b + c);
    timeline_laws::lemma_holds(t, a, b, c);
    timeline_laws::lemma_holds(t, a + b, c, e);
}

/// A node goes by its successor while that lives, else by its second successor
/// while that lives, else by none.
pub proof fn law_best_successor(s: Seq<NodeState>, n: NodeState)
    ensures
        chord::is_live(s, n.succ) ==> chord::best(s, n) == n.succ,
        !chord::is_live(s, n.succ) && chord::is_live(s, n.succ2) ==> chord::best(s, n) == n.succ2,
        !chord::is_live(s, n.succ) && !chord::is_live(s, n.succ2) ==> chord::best(s, n)
            == chord::NONE,
{
}

} // verus!
