//! The laws of what is put down and what is told of it: an event is put down as
//! it happened, and a report holds what is needed to see it again.

use vstd::prelude::*;

use crate::broker::ObservedView;
use crate::hash;
use crate::log;
use crate::log::{EventView, LogView, RecordView, SendOutcome, WriterModel};
use crate::monitor::ViolationView;
use crate::netcore::{PendingView, SendResult};
use crate::recorder;
use crate::report;
use crate::text;
use crate::wire::VAddr;

verus! {

// ---------------------------------------------------------------------------
// Events
// ---------------------------------------------------------------------------

/// A send is put down with its connection, its addresses, its number, its time
/// and its fate, and with a payload that reads back as what was sent.
pub proof fn law_send_is_put_down(
    conn: u64,
    src: VAddr,
    dst: VAddr,
    chan_seq: u64,
    send_vt: u64,
    payload: Seq<u8>,
    result: SendResult,
)
    ensures
        ({
            let e = recorder::event_of(
                ObservedView::Send { conn, src, dst, chan_seq, send_vt, payload, result },
            );
            &&& e is Send
            &&& e->Send_conn == conn && e->chan_seq == chan_seq && e->send_vt == send_vt
            &&& e->src.ip == src.ip && e->src.port == src.port
            &&& e->dst.ip == dst.ip && e->dst.port == dst.port
            &&& hash::unhex(e->payload) == Some(payload)
            &&& result is Dropped <==> e->Send_outcome is Dropped
            &&& result is NoReceiver <==> e->Send_outcome is NoReceiver
            &&& result matches SendResult::Enqueued { to_conn, deliv_ns, tie } ==> e->Send_outcome
                == (SendOutcome::Enqueued { to_conn, deliv_ns, tie })
        }),
{
    hash::law_hex_round_trip(payload);
}

/// A receive is put down with its connection, whether it blocked, and what it
/// got, if anything.
pub proof fn law_receive_is_put_down(conn: u64, blocking: bool, result: Option<PendingView>)
    ensures
        ({
            let e = recorder::event_of(ObservedView::Recv { conn, blocking, result });
            &&& e is Recv
            &&& e->Recv_conn == conn && e->blocking == blocking
            &&& result is None <==> e->Recv_outcome is Empty
            &&& result matches Some(p) ==> {
                let o = e->Recv_outcome;
                &&& o is Delivered
                &&& o->src.ip == p.src.ip && o->src.port == p.src.port
                &&& o->dst.ip == p.dst.ip && o->dst.port == p.dst.port
                &&& o->deliv_ns == p.deliv && o->tie == p.tie
                &&& hash::unhex(o->payload) == Some(p.payload)
            }
        }),
{
    if let Some(p) = result {
        hash::law_hex_round_trip(p.payload);
    }
}

/// Whoever comes, says hello, takes an address or leaves is put down as doing
/// so.
pub proof fn law_coming_and_going_is_put_down(conn: u64, node: u32, addr: VAddr)
    ensures
        recorder::event_of(ObservedView::Connect { conn }) == (EventView::Connect { conn }),
        recorder::event_of(ObservedView::Hello { conn, node }) == (EventView::Hello { conn, node }),
        recorder::event_of(ObservedView::Disconnect { conn }) == (EventView::Disconnect { conn }),
        ({
            let e = recorder::event_of(ObservedView::Bind { conn, addr });
            e is Bind && e->Bind_conn == conn && e->addr.ip == addr.ip && e->addr.port == addr.port
        }),
{
}

/// Every violation that an event completes is put down behind it, in order,
/// under the rule that found it.
pub proof fn law_violations_are_put_down(
    w: WriterModel,
    vt: u64,
    v: Seq<ViolationView>,
    next: ViolationView,
)
    ensures
        recorder::with_violations(w, vt, v, 0) == w,
        recorder::with_violations(w, vt, v.push(next), v.len() as int + 1) == log::writer_append(
            recorder::with_violations(w, vt, v, v.len() as int),
            vt,
            EventView::Violation { rule: next.rule, message: next.message },
        ),
{
    lemma_violations(w, vt, v, next, v.len() as int);
}

proof fn lemma_violations(
    w: WriterModel,
    vt: u64,
    v: Seq<ViolationView>,
    next: ViolationView,
    n: int,
)
    requires
        0 <= n <= v.len(),
    ensures
        recorder::with_violations(w, vt, v.push(next), n) == recorder::with_violations(w, vt, v, n),
    decreases n,
{
    if n > 0 {
        lemma_violations(w, vt, v, next, n - 1);
    }
}

// ---------------------------------------------------------------------------
// Reports
// ---------------------------------------------------------------------------

/// `part` stands somewhere in `whole`.
pub open spec fn holds(whole: Seq<char>, part: Seq<char>) -> bool {
    exists|p: Seq<char>, q: Seq<char>| #[trigger] (p + part + q) == whole
}

/// A text holds what it is put together of.
pub proof fn lemma_holds(whole: Seq<char>, p: Seq<char>, part: Seq<char>, q: Seq<char>)
    requires
        p + part + q =~= whole,
    ensures
        holds(whole, part),
{
}

/// What a text holds, a longer one holds.
pub proof fn lemma_within(a: Seq<char>, whole: Seq<char>, b: Seq<char>, part: Seq<char>)
    requires
        holds(whole, part),
    ensures
        holds(a + whole + b, part),
{
    let (p, q): (Seq<char>, Seq<char>) = choose|p: Seq<char>, q: Seq<char>| #[trigger]
        (p + part + q) == whole;
    assert((a + p) + part + (q + b) =~= a + whole + b);
    lemma_holds(a + whole + b, a + p, part, q + b);
}

/// The events that a report shows are those up to four before and four after the
/// one at fault, as far as there are any.
pub proof fn law_window(op: u64, n: nat)
    requires
        op < n <= u64::MAX,
    ensures
        report::window_low(op) <= op <= report::window_high(op, n) < n,
        op - report::window_low(op) <= 4,
        report::window_high(op, n) - op <= 4,
        report::window_low(op) == 0 || op - report::window_low(op) == 4,
        report::window_high(op, n) == n - 1 || report::window_high(op, n) - op == 4,
{
}

/// Every record within the window has its row, and with it its number, its
/// time and what happened.
pub proof fn law_rows(records: Seq<RecordView>, at: u64, lo: u64, hi: u64, n: int, i: int)
    requires
        0 <= i < n <= records.len(),
    ensures
        lo <= records[i].op <= hi ==> holds(
            report::rows(records, at, lo, hi, n),
            report::row(records[i], at),
        ),
        (forall|j: int| 0 <= j < n ==> (#[trigger] records[j]).op < lo || records[j].op > hi)
            ==> report::rows(records, at, lo, hi, n).len() == 0,
    decreases n,
{
    let before = report::rows(records, at, lo, hi, n - 1);
    let all = report::rows(records, at, lo, hi, n);
    let e = Seq::<char>::empty();
    if i < n - 1 {
        law_rows(records, at, lo, hi, n - 1, i);
        if lo <= records[i].op <= hi {
            let r = records[n - 1];
            let last = if r.op < lo || r.op > hi {
                e
            } else {
                report::row(r, at)
            };
            lemma_within(e, before, last, report::row(records[i], at));
            assert(e + before + last =~= all);
        }
    } else {
        if lo <= records[i].op <= hi {
            lemma_holds(all, before, report::row(records[i], at), e);
        }
        if n > 1 {
            law_rows(records, at, lo, hi, n - 1, 0);
        } else {
            assert(before.len() == 0);
        }
    }
}

/// A row holds the number and the time of its event and what happened, and
/// only the one at fault is marked.
pub proof fn law_row(r: RecordView, at: u64)
    ensures
        holds(report::row(r, at), text::dec(r.op as nat)),
        holds(report::row(r, at), text::dec(r.vt as nat)),
        holds(report::row(r, at), report::line_of(r.e)),
        report::row(r, at).len() >= 2,
        report::row(r, at)[0] == '>' <==> r.op == at,
{
    let mark = if r.op == at {
        ">>"@
    } else {
        "  "@
    };
    reveal_strlit(">>");
    reveal_strlit("  ");
    let op = text::dec(r.op as nat);
    let vt = text::dec(r.vt as nat);
    let line = report::line_of(r.e);
    let whole = report::row(r, at);
    let a = report::padded(op, 4);
    let b = report::padded(vt, 12);
    let e = Seq::<char>::empty();
    lemma_padded(op, 4);
    lemma_padded(vt, 12);
    let back = "ns  "@ + line + seq!['\n'];
    lemma_within(mark + " op "@, a, "  vt "@ + b + back, op);
    assert(mark + " op "@ + a + ("  vt "@ + b + back) =~= whole);
    lemma_within(mark + " op "@ + a + "  vt "@, b, back, vt);
    assert(mark + " op "@ + a + "  vt "@ + b + back =~= whole);
    lemma_holds(
        whole,
        mark + " op "@ + a + "  vt "@ + b + "ns  "@,
        line,
        seq!['\n'],
    );
    assert(whole[0] == mark[0]);
}

/// Padding keeps the text.
pub proof fn lemma_padded(s: Seq<char>, width: nat)
    ensures
        holds(report::padded(s, width), s),
{
    let whole = report::padded(s, width);
    let e = Seq::<char>::empty();
    if s.len() >= width {
        lemma_holds(whole, e, s, e);
    } else {
        lemma_holds(whole, Seq::new((width - s.len()) as nat, |i: int| ' '), s, e);
    }
}

/// A report names the rule that was broken, where and when, and says what was
/// found; it holds the seed, the network and the recording to see it again
/// with, the command to stop there, and the events around it.
pub proof fn law_report_holds_all(v: ViolationView, log: LogView, path: Seq<char>)
    ensures
        ({
            let t = report::report_text(v, log, path);
            &&& holds(t, v.rule)
            &&& holds(t, v.message)
            &&& holds(t, text::dec(v.op as nat))
            &&& holds(t, text::dec(v.vt as nat))
            &&& holds(t, text::dec(log.header.seed as nat))
            &&& log.header.net.len() > 0 ==> holds(t, log.header.net)
            &&& holds(t, path + " --until "@ + text::dec(v.op as nat))
            &&& holds(
                t,
                report::rows(
                    log.records,
                    v.op,
                    report::window_low(v.op),
                    report::window_high(v.op, log.records.len()),
                    log.records.len() as int,
                ),
            )
        }),
{
    let a = report::top_text();
    let b = report::finding_text(v, log.records.len());
    let c = report::inputs_text(log, path);
    let d = report::reproduce_text(v.op, path);
    let f = report::around_text(v.op, log.records);
    let g = report::bottom_text();
    let t = report::report_text(v, log, path);
    lemma_finding(v, log.records.len());
    lemma_inputs(log, path);
    lemma_reproduce(v.op, path);
    lemma_around(v.op, log.records);
    let rest = c + d + f + g;
    assert(a + b + rest =~= t);
    lemma_within(a, b, rest, v.rule);
    lemma_within(a, b, rest, v.message);
    lemma_within(a, b, rest, text::dec(v.op as nat));
    lemma_within(a, b, rest, text::dec(v.vt as nat));
    assert((a + b) + c + (d + f + g) =~= t);
    lemma_within(a + b, c, d + f + g, text::dec(log.header.seed as nat));
    if log.header.net.len() > 0 {
        lemma_within(a + b, c, d + f + g, log.header.net);
    }
    assert((a + b + c) + d + (f + g) =~= t);
    lemma_within(a + b + c, d, f + g, path + " --until "@ + text::dec(v.op as nat));
    assert((a + b + c + d) + f + g =~= t);
    lemma_within(
        a + b + c + d,
        f,
        g,
        report::rows(
            log.records,
            v.op,
            report::window_low(v.op),
            report::window_high(v.op, log.records.len()),
            log.records.len() as int,
        ),
    );
}

proof fn lemma_finding(v: ViolationView, total: nat)
    ensures
        holds(report::finding_text(v, total), v.rule),
        holds(report::finding_text(v, total), v.message),
        holds(report::finding_text(v, total), text::dec(v.op as nat)),
        holds(report::finding_text(v, total), text::dec(v.vt as nat)),
{
    let t = report::finding_text(v, total);
    let op = text::dec(v.op as nat);
    let vt = text::dec(v.vt as nat);
    let tail = "\nevent     : "@ + report::line_of(v.event) + "\n\n"@;
    let from_message = v.message + tail;
    let from_vt = vt + " ns\nwhat      : "@ + from_message;
    let from_op = op + " of "@ + text::dec(total) + ", virtual time "@ + from_vt;
    let head = "invariant : "@ + v.rule + "\nwhere     : op "@;
    assert(head + from_op =~= t);
    lemma_holds(t, "invariant : "@, v.rule, "\nwhere     : op "@ + from_op);
    lemma_holds(t, head, op, " of "@ + text::dec(total) + ", virtual time "@ + from_vt);
    lemma_holds(
        t,
        head + op + " of "@ + text::dec(total) + ", virtual time "@,
        vt,
        " ns\nwhat      : "@ + from_message,
    );
    lemma_holds(
        t,
        head + op + " of "@ + text::dec(total) + ", virtual time "@ + vt + " ns\nwhat      : "@,
        v.message,
        tail,
    );
}

/// What a text holds, it holds with more behind it.
pub proof fn lemma_append(whole: Seq<char>, more: Seq<char>, part: Seq<char>)
    requires
        holds(whole, part),
    ensures
        holds(whole + more, part),
{
    let e = Seq::<char>::empty();
    lemma_within(e, whole, more, part);
    assert(e + whole + more =~= whole + more);
}

/// A text holds its end.
pub proof fn lemma_ends(front: Seq<char>, part: Seq<char>)
    ensures
        holds(front + part, part),
{
    lemma_holds(front + part, front, part, Seq::empty());
}

/// `x` stands in the text that nine more pieces make behind it.
proof fn lemma_nine(
    x: Seq<char>,
    a: Seq<char>,
    b: Seq<char>,
    c: Seq<char>,
    d: Seq<char>,
    e: Seq<char>,
    f: Seq<char>,
    g: Seq<char>,
    h: Seq<char>,
    i: Seq<char>,
    part: Seq<char>,
)
    requires
        holds(x, part),
    ensures
        holds(x + a + b + c + d + e + f + g + h + i, part),
{
    lemma_append(x, a, part);
    lemma_append(x + a, b, part);
    lemma_append(x + a + b, c, part);
    lemma_append(x + a + b + c, d, part);
    lemma_append(x + a + b + c + d, e, part);
    lemma_append(x + a + b + c + d + e, f, part);
    lemma_append(x + a + b + c + d + e + f, g, part);
    lemma_append(x + a + b + c + d + e + f + g, h, part);
    lemma_append(x + a + b + c + d + e + f + g + h, i, part);
}

proof fn lemma_inputs(log: LogView, path: Seq<char>)
    ensures
        holds(report::inputs_text(log, path), text::dec(log.header.seed as nat)),
        log.header.net.len() > 0 ==> holds(report::inputs_text(log, path), log.header.net),
        holds(report::inputs_text(log, path), path),
{
    let seed = text::dec(log.header.seed as nat);
    let net = if log.header.net.len() == 0 {
        "(reliable)"@
    } else {
        log.header.net
    };
    let version = text::dec(log.header.version as nat);
    let digest = crate::json::hex16(log::digest_of(log.records, log.records.len() as int));
    let label = report::label_line(log.header.meta.label);
    let head = "run inputs (sufficient for exact reproduction):\n  seed        : "@;
    let s1 = head + seed;
    let s2 = s1 + "\n  net spec    : "@ + net;
    let s3 = s2 + "\n  log file    : "@ + path;
    lemma_ends(head, seed);
    lemma_append(s1, "\n  net spec    : "@, seed);
    lemma_append(s1 + "\n  net spec    : "@, net, seed);
    lemma_append(s2, "\n  log file    : "@, seed);
    lemma_append(s2 + "\n  log file    : "@, path, seed);
    lemma_ends(s1 + "\n  net spec    : "@, net);
    lemma_append(s2, "\n  log file    : "@, net);
    lemma_append(s2 + "\n  log file    : "@, path, net);
    lemma_ends(s2 + "\n  log file    : "@, path);
    let a = "\n  log format  : "@;
    let c = " v"@;
    let e = "\n  stream hash : "@;
    let g = "\n"@;
    lemma_nine(s3, a, log.header.format, c, version, e, digest, g, label, g, seed);
    lemma_nine(s3, a, log.header.format, c, version, e, digest, g, label, g, net);
    lemma_nine(s3, a, log.header.format, c, version, e, digest, g, label, g, path);
}

proof fn lemma_reproduce(op: u64, path: Seq<char>)
    ensures
        holds(report::reproduce_text(op, path), path + " --until "@ + text::dec(op as nat)),
{
    let t = report::reproduce_text(op, path);
    let part = path + " --until "@ + text::dec(op as nat);
    let head = "reproduce:\n  weft replay "@ + path
        + "            # re-executes to the identical stream hash\n  weft replay "@;
    lemma_holds(t, head, part, "  # stops right after the violating op\n\n"@);
}

proof fn lemma_around(op: u64, records: Seq<RecordView>)
    ensures
        holds(
            report::around_text(op, records),
            report::rows(
                records,
                op,
                report::window_low(op),
                report::window_high(op, records.len()),
                records.len() as int,
            ),
        ),
{
    let t = report::around_text(op, records);
    let lo = report::window_low(op);
    let hi = report::window_high(op, records.len());
    let part = report::rows(records, op, lo, hi, records.len() as int);
    let head = "event window (op "@ + text::dec(lo as nat) + "..="@ + text::dec(hi as nat) + "):\n"@;
    lemma_holds(t, head, part, Seq::empty());
}

/// The line of an event names its connection, and tells a datagram that was
/// dropped, one that nobody had the address of and one that is on its way
/// apart.
pub proof fn law_lines(e: EventView, deliv_ns: u64, tie: u64, to_conn: u64)
    ensures
        e matches EventView::Connect { conn } ==> holds(report::line_of(e), text::dec(conn as nat)),
        e matches EventView::Hello { conn, node } ==> holds(
            report::line_of(e),
            text::dec(conn as nat) + " is node "@ + text::dec(node as nat),
        ),
        e matches EventView::Disconnect { conn } ==> holds(
            report::line_of(e),
            text::dec(conn as nat),
        ),
        e matches EventView::Violation { rule, message } ==> holds(report::line_of(e), rule)
            && holds(report::line_of(e), message),
        e matches EventView::Send { conn, outcome, .. } ==> holds(
            report::line_of(e),
            report::fate_text(outcome),
        ),
        holds(
            report::fate_text(SendOutcome::Enqueued { to_conn, deliv_ns, tie }),
            text::dec(deliv_ns as nat),
        ),
        report::fate_text(SendOutcome::Dropped) != report::fate_text(SendOutcome::NoReceiver),
        report::fate_text(SendOutcome::Dropped) != report::fate_text(
            SendOutcome::Enqueued { to_conn, deliv_ns, tie },
        ),
        report::fate_text(SendOutcome::NoReceiver) != report::fate_text(
            SendOutcome::Enqueued { to_conn, deliv_ns, tie },
        ),
{
    let t = report::line_of(e);
    let n = Seq::<char>::empty();
    match e {
        EventView::Connect { conn } => {
            lemma_holds(t, "conn "@, text::dec(conn as nat), " connected"@);
        },
        EventView::Hello { conn, node } => {
            lemma_holds(
                t,
                "conn "@,
                text::dec(conn as nat) + " is node "@ + text::dec(node as nat),
                n,
            );
        },
        EventView::Disconnect { conn } => {
            lemma_holds(t, "conn "@, text::dec(conn as nat), " disconnected"@);
        },
        EventView::Violation { rule, message } => {
            lemma_holds(t, "VIOLATION ["@, rule, "]: "@ + message);
            lemma_holds(t, "VIOLATION ["@ + rule + "]: "@, message, n);
        },
        EventView::Send { conn, src, dst, chan_seq, outcome, .. } => {
            lemma_holds(
                t,
                "conn "@ + text::dec(conn as nat) + " send "@ + report::channel_text(src, dst)
                    + " seq "@ + text::dec(chan_seq as nat) + ": "@,
                report::fate_text(outcome),
                n,
            );
        },
        _ => {},
    }
    reveal_strlit("DROPPED by fault model");
    reveal_strlit("discarded (no receiver)");
    reveal_strlit("enqueued, delivery at vt ");
    let f = report::fate_text(SendOutcome::Enqueued { to_conn, deliv_ns, tie });
    lemma_holds(
        f,
        "enqueued, delivery at vt "@,
        text::dec(deliv_ns as nat),
        "ns (tie "@ + text::dec(tie as nat) + ")"@,
    );
    assert(f[0] == 'e');
    assert(report::fate_text(SendOutcome::Dropped)[0] == 'D');
    assert(report::fate_text(SendOutcome::NoReceiver)[0] == 'd');
}

} // verus!
