//! What a recording of Chord shows, as text: the check of the final state, and
//! the trace of how it came about.

use vstd::prelude::*;
use std::collections::BTreeMap;

use crate::chord;
use crate::chord::{
    ints_text, pointers, sent_report, ChordViolation, NodeState, Snapshot,
    ViolationView,
};
use crate::log::{HeaderView, Log, LogView, RecordView};
use crate::report;
use crate::report::push_padded;
use crate::text;
use crate::text::{copy_text, dec_text, int_text, push_dec, push_text};

verus! {

// ---------------------------------------------------------------------------
// The check
// ---------------------------------------------------------------------------

/// The exit code where everything holds.
pub const PASSED: u8 = 0;

/// The exit code where the recording cannot be read.
pub const UNREADABLE: u8 = 1;

/// The exit code where an invariant is violated.
pub const VIOLATED: u8 = 2;

/// The exit code where the run shows nothing.
pub const DISCARDED: u8 = 3;

pub open spec fn check_head(h: HeaderView, path: Seq<char>) -> Seq<char> {
    "=============== CHORD FINAL-STATE CHECK ===============\nrecording : "@ + path + "  (seed "@
        + text::dec(h.seed as nat) + ", net "@ + h.net + ")\n"@
}

pub open spec fn assumption_text(held: bool) -> Seq<char> {
    "assumption: papers' failure precondition "@ + (if held {
        "HELD at every failure"@
    } else {
        "VIOLATED (seed invalid)"@
    }) + "\n"@
}

pub open spec fn violation_line(v: ViolationView) -> Seq<char> {
    "  ✗ "@ + chord::kind_name(v.kind) + " : "@ + v.detail + "\n"@
}

/// The lines for the first `n` violations.
pub open spec fn violation_lines(v: Seq<ViolationView>, n: int) -> Seq<char>
    decreases n,
{
    if n <= 0 {
        Seq::empty()
    } else {
        violation_lines(v, n - 1) + violation_line(v[n - 1])
    }
}

/// The verdict. A run that broke the failure assumption shows nothing of the
/// protocol, whatever it violates.
pub open spec fn verdict_text(held: bool, v: Seq<ViolationView>) -> Seq<char> {
    if !held {
        "\nverdict   : DISCARD — failure assumption violated by the scenario\n"@
    } else if v.len() == 0 {
        "\nverdict   : OK — all correctness invariants hold\n"@
    } else {
        "\nverdict   : VIOLATION — still violated after the quiescent repair tail (unrepairable per Zave for these invariants)\n"@
            + violation_lines(v, v.len() as int)
    }
}

pub open spec fn check_code(held: bool, v: Seq<ViolationView>) -> u8 {
    if !held {
        DISCARDED
    } else if v.len() == 0 {
        PASSED
    } else {
        VIOLATED
    }
}

pub open spec fn check_text(
    h: HeaderView,
    path: Seq<char>,
    s: Seq<NodeState>,
    held: bool,
    v: Seq<ViolationView>,
) -> Seq<char> {
    check_head(h, path) + chord::snapshot_text(s) + assumption_text(held) + verdict_text(held, v)
        + "=======================================================\n"@
}

fn head(log: &Log, path: &str) -> (s: String)
    ensures
        s@ == check_head(log@.header, path@),
{
    let mut s = copy_text(
        "=============== CHORD FINAL-STATE CHECK ===============\nrecording : ",
    );
    push_text(&mut s, path);
    push_text(&mut s, "  (seed ");
    push_dec(&mut s, log.header.seed);
    push_text(&mut s, ", net ");
    push_text(&mut s, log.header.net.as_str());
    push_text(&mut s, ")\n");
    s
}

fn assumption(held: bool) -> (s: String)
    ensures
        s@ == assumption_text(held),
{
    let mut s = copy_text("assumption: papers' failure precondition ");
    if held {
        push_text(&mut s, "HELD at every failure");
    } else {
        push_text(&mut s, "VIOLATED (seed invalid)");
    }
    push_text(&mut s, "\n");
    s
}

fn line_of_violation(v: &ChordViolation) -> (s: String)
    ensures
        s@ == violation_line(v@),
{
    let mut s = copy_text("  ✗ ");
    push_text(&mut s, v.kind.name());
    push_text(&mut s, " : ");
    push_text(&mut s, v.detail.as_str());
    push_text(&mut s, "\n");
    s
}

fn verdict(held: bool, v: &Vec<ChordViolation>) -> (s: String)
    ensures
        s@ == verdict_text(held, chord::violation_views(v@)),
{
    let ghost vv = chord::violation_views(v@);
    if !held {
        return copy_text("\nverdict   : DISCARD — failure assumption violated by the scenario\n");
    }
    if v.len() == 0 {
        return copy_text("\nverdict   : OK — all correctness invariants hold\n");
    }
    let mut lines = String::new();
    let mut i: usize = 0;
    assert(lines@ =~= Seq::<char>::empty());
    while i < v.len()
        invariant
            i <= v@.len(),
            vv == chord::violation_views(v@),
            lines@ == violation_lines(vv, i as int),
        decreases v@.len() - i,
    {
        assert(vv[i as int] == v@[i as int]@);
        push_text(&mut lines, line_of_violation(&v[i]).as_str());
        i = i + 1;
    }
    let mut s = copy_text(
        "\nverdict   : VIOLATION — still violated after the quiescent repair tail (unrepairable per Zave for these invariants)\n",
    );
    push_text(&mut s, lines.as_str());
    s
}

/// Check the final state of a recording: the report for a reader, and the exit
/// code.
#[must_use]
pub fn check_report(log: &Log, path: &str, m: u32) -> (r: (String, u8))
    requires
        m < 64,
    ensures
        ({
            let s = chord::gathered(log@.records, log@.records.len() as int);
            let held = chord::lives(log@.records, log@.records.len() as int).held;
            let v = chord::violations_of(s, m as nat);
            &&& r.0@ == check_text(log@.header, path@, s, held, v)
            &&& r.1 == check_code(held, v)
        }),
{
    let snap = Snapshot::from_log(log);
    let v = snap.check(m);
    let held: bool = Snapshot::failure_assumption_held(log);
    let mut s = head(log, path);
    push_text(&mut s, snap.render().as_str());
    push_text(&mut s, assumption(held).as_str());
    push_text(&mut s, verdict(held, &v).as_str());
    push_text(&mut s, "=======================================================\n");
    let code: u8 = if !held {
        DISCARDED
    } else if v.len() == 0 {
        PASSED
    } else {
        VIOLATED
    };
    assert(chord::violation_views(v@).len() == v@.len());
    (s, code)
}

// ---------------------------------------------------------------------------
// The trace
// ---------------------------------------------------------------------------

/// How far a trace has come.
pub struct TraceView {
    /// The configuration.
    pub seen: Seq<NodeState>,
    /// The last report of each node.
    pub last: Map<i32, NodeState>,
    /// Whether there was no ring at the last change.
    pub empty: bool,
    /// Where the ring was last lost.
    pub broke: Option<u64>,
    pub text: Seq<char>,
}

/// Whether a report differs from the last one of its node.
pub open spec fn is_news(last: Map<i32, NodeState>, st: NodeState) -> bool {
    !last.contains_key(st.ident) || {
        let p = last[st.ident];
        p.succ != st.succ || p.succ2 != st.succ2 || p.prdc != st.prdc || p.alive != st.alive
    }
}

pub open spec fn trace_line(op: u64, st: NodeState, ring: Seq<i32>) -> Seq<char> {
    "op "@ + report::padded(text::dec(op as nat), 5) + " node "@ + chord::col(st.ident) + (
    if st.alive {
        "  "@ + chord::pointers_text(st)
    } else {
        "  *** FAILED ***"@
    }) + "  ring="@ + chord::list_text(ring) + "\n"@
}

/// The trace behind one more report. Only a change makes a line.
pub open spec fn trace_step(t: TraceView, op: u64, st: NodeState) -> TraceView {
    let seen = chord::observed(t.seen, st);
    let last = t.last.insert(st.ident, st);
    if is_news(t.last, st) {
        let ring = chord::ring_of(seen);
        TraceView {
            seen,
            last,
            empty: ring.len() == 0,
            broke: if ring.len() == 0 && !t.empty {
                Some(op)
            } else {
                t.broke
            },
            text: t.text + trace_line(op, st, ring),
        }
    } else {
        TraceView { seen, last, ..t }
    }
}

/// The trace behind the first `n` records.
pub open spec fn traced(records: Seq<RecordView>, n: int) -> TraceView
    decreases n,
{
    if n <= 0 {
        TraceView {
            seen: Seq::empty(),
            last: Map::empty(),
            empty: false,
            broke: None,
            text: Seq::empty(),
        }
    } else {
        let t = traced(records, n - 1);
        match chord::sent_in(records[n - 1].e) {
            Some(st) => trace_step(t, records[n - 1].op, st),
            None => t,
        }
    }
}

/// What is said at the end of a run that lost its ring for good.
pub open spec fn broken_text(s: Seq<NodeState>, broke: Option<u64>) -> Seq<char> {
    match broke {
        Some(op) => if chord::ring_of(s).len() == 0 {
            "AtLeastOneRing broke permanently at op "@ + text::dec(op as nat)
                + " and never recovered through the quiescent tail.\n"@
        } else {
            Seq::empty()
        },
        None => Seq::empty(),
    }
}

pub open spec fn trace_text(log: LogView, path: Seq<char>) -> Seq<char> {
    let t = traced(log.records, log.records.len() as int);
    "=== CHORD STATE TRACE: "@ + path + " (seed "@ + text::dec(log.header.seed as nat)
        + ") ===\n"@ + t.text + "--- final ---\n"@ + chord::snapshot_text(t.seen) + broken_text(
        t.seen,
        t.broke,
    )
}

fn line_of_report(op: u64, st: &NodeState, ring: &Vec<i32>) -> (s: String)
    ensures
        s@ == trace_line(op, *st, ring@),
{
    let mut s = copy_text("op ");
    push_padded(&mut s, dec_text(op).as_str(), 5);
    push_text(&mut s, " node ");
    push_padded(&mut s, int_text(st.ident).as_str(), 3);
    if st.alive {
        let mut p = copy_text("  ");
        push_text(&mut p, pointers(st).as_str());
        push_text(&mut s, p.as_str());
    } else {
        push_text(&mut s, "  *** FAILED ***");
    }
    push_text(&mut s, "  ring=");
    push_text(&mut s, ints_text(ring).as_str());
    push_text(&mut s, "\n");
    s
}

fn differs(last: &BTreeMap<i32, NodeState>, st: &NodeState) -> (b: bool)
    ensures
        b == is_news(last@, *st),
{
    match last.get(&st.ident) {
        Some(p) => p.succ != st.succ || p.succ2 != st.succ2 || p.prdc != st.prdc || p.alive
            != st.alive,
        None => true,
    }
}

fn broken(ring: &Vec<i32>, broke: Option<u64>, Ghost(s): Ghost<Seq<NodeState>>) -> (r: String)
    requires
        ring@ == chord::ring_of(s),
    ensures
        r@ == broken_text(s, broke),
{
    if let Some(op) = broke {
        if ring.len() == 0 {
            let mut r = copy_text("AtLeastOneRing broke permanently at op ");
            push_dec(&mut r, op);
            push_text(&mut r, " and never recovered through the quiescent tail.\n");
            return r;
        }
    }
    let r = String::new();
    assert(r@ =~= Seq::<char>::empty());
    r
}

/// Trace how the nodes' pointers came about in a recording, and where the ring
/// was lost.
#[must_use]
pub fn trace(log: &Log, path: &str) -> (r: String)
    ensures
        r@ == trace_text(log@, path@),
{
    let mut snap = Snapshot::default();
    let mut last: BTreeMap<i32, NodeState> = BTreeMap::new();
    let mut empty: bool = false;
    let mut broke: Option<u64> = None;
    let mut lines = String::new();
    let mut i: usize = 0;
    assert(lines@ =~= Seq::<char>::empty());
    let ghost records = log@.records;
    while i < log.records.len()
        invariant
            i <= log.records@.len(),
            records == log@.records,
            records.len() == log.records@.len(),
            snap.wf(),
            (TraceView { seen: snap@, last: last@, empty, broke, text: lines@ }) == traced(
                records,
                i as int,
            ),
        decreases log.records@.len() - i,
    {
        let r = &log.records[i];
        assert(records[i as int] == r@);
        if let Some(st) = sent_report(&r.e) {
            let news: bool = differs(&last, &st);
            snap.observe(st);
            let _old = last.insert(st.ident, st);
            if news {
                let ring = snap.ring_members();
                if ring.len() == 0 && !empty {
                    broke = Some(r.op);
                }
                empty = ring.len() == 0;
                push_text(&mut lines, line_of_report(r.op, &st, &ring).as_str());
            }
        }
        i = i + 1;
    }
    let ring = snap.ring_members();
    let mut s = copy_text("=== CHORD STATE TRACE: ");
    push_text(&mut s, path);
    push_text(&mut s, " (seed ");
    push_dec(&mut s, log.header.seed);
    push_text(&mut s, ") ===\n");
    push_text(&mut s, lines.as_str());
    push_text(&mut s, "--- final ---\n");
    push_text(&mut s, snap.render().as_str());
    push_text(&mut s, broken(&ring, broke, Ghost(snap@)).as_str());
    s
}

// ---------------------------------------------------------------------------
// Laws
// ---------------------------------------------------------------------------

/// Whether the record at `i` changed what is known.
pub open spec fn changes(records: Seq<RecordView>, i: int) -> bool {
    0 <= i < records.len() && match chord::sent_in(records[i].e) {
        Some(st) => is_news(traced(records, i).last, st),
        None => false,
    }
}

/// Whether there is no ring behind the record at `i`.
pub open spec fn ringless(records: Seq<RecordView>, i: int) -> bool {
    chord::ring_of(traced(records, i + 1).seen).len() == 0
}

/// The ring was lost at `i`, and had not come back at any change up to `n`.
pub open spec fn lost_at(records: Seq<RecordView>, i: int, n: int) -> bool {
    &&& 0 <= i < n
    &&& changes(records, i)
    &&& !traced(records, i).empty
    &&& forall|j: int| i <= j < n && #[trigger] changes(records, j) ==> ringless(records, j)
}

proof fn lemma_one_more(records: Seq<RecordView>, n: int)
    requires
        0 < n <= records.len(),
    ensures
        ({
            let t = traced(records, n - 1);
            let u = traced(records, n);
            if changes(records, n - 1) {
                &&& u.empty == ringless(records, n - 1)
                &&& u.broke == if u.empty && !t.empty {
                    Some(records[n - 1].op)
                } else {
                    t.broke
                }
            } else {
                u.empty == t.empty && u.broke == t.broke
            }
        }),
{
}

/// Where a trace ends without a ring, the place that it names is the change at
/// which the last ring was lost, and no change since brought one back.
pub proof fn law_named_break_is_permanent(records: Seq<RecordView>, n: int)
    requires
        0 <= n <= records.len(),
        traced(records, n).empty,
    ensures
        exists|i: int| #[trigger]
            lost_at(records, i, n) && traced(records, n).broke == Some(records[i].op),
    decreases n,
{
    if n > 0 {
        let t = traced(records, n - 1);
        lemma_one_more(records, n);
        if changes(records, n - 1) && !t.empty {
            assert forall|j: int| n - 1 <= j < n && #[trigger] changes(records, j) implies ringless(
                records,
                j,
            ) by {
                assert(j == n - 1);
            }
            assert(lost_at(records, n - 1, n));
        } else {
            law_named_break_is_permanent(records, n - 1);
            let i = choose|i: int| #[trigger]
                lost_at(records, i, n - 1) && t.broke == Some(records[i].op);
            assert(lost_at(records, i, n - 1));
            assert forall|j: int| i <= j < n && #[trigger] changes(records, j) implies ringless(
                records,
                j,
            ) by {
                if j == n - 1 {
                    assert(ringless(records, n - 1));
                }
            }
            assert(lost_at(records, i, n));
        }
    }
}

} // verus!
