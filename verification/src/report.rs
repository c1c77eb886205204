//! The report on a violation: the inputs of the run, the place of the
//! violation on the timeline, the events around it, and how to replay it.

use vstd::prelude::*;

use crate::json;
use crate::json::{hex16_text, push_num};
use crate::log;
use crate::log::{Addr, Event, EventView, Log, LogView, RecordView, RecvOutcome, RecvOutcomeView, SendOutcome};
use crate::monitor::{ViolationRecord, ViolationView};
use crate::text;
use crate::text::{copy_text, dec_text, push_dec, push_text};
use crate::wire;
use crate::wire::push_addr_text;

verus! {

/// How many events are shown on each side of the violation.
pub const WINDOW: u64 = 4;

pub open spec fn arrow() -> Seq<char> {
    seq![' ', '\u{2192}', ' ']
}

/// `src -> dst`, with an arrow.
pub open spec fn channel_text(src: Addr, dst: Addr) -> Seq<char> {
    wire::addr_text(src.ip, src.port) + arrow() + wire::addr_text(dst.ip, dst.port)
}

/// Append `src -> dst`, with an arrow.
pub fn push_channel(out: &mut String, src: &Addr, dst: &Addr)
    ensures
        final(out)@ == old(out)@ + channel_text(*src, *dst),
{
    push_addr_text(out, src.ip, src.port);
    out.push(' ');
    out.push('\u{2192}');
    out.push(' ');
    push_addr_text(out, dst.ip, dst.port);
    assert(out@ =~= old(out)@ + channel_text(*src, *dst));
}

pub open spec fn fate_text(o: SendOutcome) -> Seq<char> {
    match o {
        SendOutcome::Dropped => "DROPPED by fault model"@,
        SendOutcome::NoReceiver => "discarded (no receiver)"@,
        SendOutcome::Enqueued { to_conn, deliv_ns, tie } => "enqueued, delivery at vt "@
            + text::dec(deliv_ns as nat) + "ns (tie "@ + text::dec(tie as nat) + ")"@,
    }
}

/// An event as one line for a reader.
pub open spec fn line_of(e: EventView) -> Seq<char> {
    match e {
        EventView::Connect { conn } => "conn "@ + text::dec(conn as nat) + " connected"@,
        EventView::Hello { conn, node } => "conn "@ + text::dec(conn as nat) + " is node "@
            + text::dec(node as nat),
        EventView::Bind { conn, addr } => "conn "@ + text::dec(conn as nat) + " bound "@
            + wire::addr_text(addr.ip, addr.port),
        EventView::Send { conn, src, dst, chan_seq, outcome, .. } => "conn "@ + text::dec(
            conn as nat,
        ) + " send "@ + channel_text(src, dst) + " seq "@ + text::dec(chan_seq as nat) + ": "@
            + fate_text(outcome),
        EventView::Recv { conn, blocking, outcome } => match outcome {
            RecvOutcomeView::Empty => "conn "@ + text::dec(conn as nat) + " recv: empty"@,
            RecvOutcomeView::Delivered { src, dst, deliv_ns, tie, .. } => "conn "@ + text::dec(
                conn as nat,
            ) + (if blocking {
                " recv (blocking): delivered "@
            } else {
                " recv: delivered "@
            }) + channel_text(src, dst) + " (sent-at-vt "@ + text::dec(deliv_ns as nat)
                + "ns, tie "@ + text::dec(tie as nat) + ")"@,
        },
        EventView::Disconnect { conn } => "conn "@ + text::dec(conn as nat) + " disconnected"@,
        EventView::Violation { rule, message } => "VIOLATION ["@ + rule + "]: "@ + message,
        EventView::End { events, sent, dropped } => "end of run: "@ + text::dec(events as nat)
            + " events, "@ + text::dec(sent as nat) + " sent, "@ + text::dec(dropped as nat)
            + " dropped"@,
    }
}

fn push_fate(out: &mut String, o: &SendOutcome)
    ensures
        final(out)@ == old(out)@ + fate_text(*o),
{
    match o {
        SendOutcome::Dropped => {
            push_text(out, "DROPPED by fault model");
        },
        SendOutcome::NoReceiver => {
            push_text(out, "discarded (no receiver)");
        },
        SendOutcome::Enqueued { to_conn: _, deliv_ns, tie } => {
            push_num(out, "enqueued, delivery at vt ", *deliv_ns);
            push_num(out, "ns (tie ", *tie);
            push_text(out, ")");
        },
    }
    assert(out@ =~= old(out)@ + fate_text(*o));
}

/// `conn <conn>` and what follows.
fn conn_line(conn: u64, after: &str) -> (s: String)
    ensures
        s@ == "conn "@ + text::dec(conn as nat) + after@,
{
    let mut s = copy_text("conn ");
    push_dec(&mut s, conn);
    push_text(&mut s, after);
    s
}

/// An event as one line for a reader, without a line feed.
fn event_line(e: &Event) -> (s: String)
    ensures
        s@ == line_of(e@),
{
    match e {
        Event::Connect { conn } => conn_line(*conn, " connected"),
        Event::Hello { conn, node } => {
            let mut s = conn_line(*conn, " is node ");
            push_dec(&mut s, *node as u64);
            s
        },
        Event::Bind { conn, addr } => {
            let mut s = conn_line(*conn, " bound ");
            push_addr_text(&mut s, addr.ip, addr.port);
            s
        },
        Event::Send { conn, src, dst, chan_seq, send_vt: _, payload: _, outcome } => {
            let mut s = conn_line(*conn, " send ");
            push_channel(&mut s, src, dst);
            push_num(&mut s, " seq ", *chan_seq);
            push_text(&mut s, ": ");
            push_fate(&mut s, outcome);
            s
        },
        Event::Recv { conn, blocking, outcome } => {
            match outcome {
                RecvOutcome::Empty => conn_line(*conn, " recv: empty"),
                RecvOutcome::Delivered { src, dst, deliv_ns, tie, payload: _ } => {
                    let mut s = if *blocking {
                        conn_line(*conn, " recv (blocking): delivered ")
                    } else {
                        conn_line(*conn, " recv: delivered ")
                    };
                    push_channel(&mut s, src, dst);
                    push_num(&mut s, " (sent-at-vt ", *deliv_ns);
                    push_num(&mut s, "ns, tie ", *tie);
                    push_text(&mut s, ")");
                    s
                },
            }
        },
        Event::Disconnect { conn } => conn_line(*conn, " disconnected"),
        Event::Violation { rule, message } => {
            let mut s = copy_text("VIOLATION [");
            push_text(&mut s, rule.as_str());
            push_text(&mut s, "]: ");
            push_text(&mut s, message.as_str());
            s
        },
        Event::End { events, sent, dropped } => {
            let mut s = copy_text("end of run: ");
            push_dec(&mut s, *events);
            push_num(&mut s, " events, ", *sent);
            push_num(&mut s, " sent, ", *dropped);
            push_text(&mut s, " dropped");
            s
        },
    }
}

/// `s` with spaces in front up to `width` characters.
pub open spec fn padded(s: Seq<char>, width: nat) -> Seq<char> {
    if s.len() >= width {
        s
    } else {
        Seq::new((width - s.len()) as nat, |i: int| ' ') + s
    }
}

/// Append a text with spaces in front up to `width` characters.
pub fn push_padded(out: &mut String, s: &str, width: usize)
    ensures
        final(out)@ == old(out)@ + padded(s@, width as nat),
{
    let v = crate::text::chars_of(s);
    let mut k: usize = v.len();
    let ghost start = out@;
    assert(out@ =~= start + Seq::new(0, |i: int| ' '));
    while k < width
        invariant
            v@ == s@,
            v@.len() <= k,
            k <= width || k == v@.len(),
            out@ == start + Seq::new((k - v@.len()) as nat, |i: int| ' '),
        decreases width - k,
    {
        out.push(' ');
        proof {
            assert(out@ =~= start + Seq::new((k + 1 - v@.len()) as nat, |i: int| ' '));
        }
        k = k + 1;
    }
    push_text(out, s);
    assert(out@ =~= start + padded(s@, width as nat));
}

/// One row of the event window; the violating event is marked.
pub open spec fn row(r: RecordView, at: u64) -> Seq<char> {
    (if r.op == at {
        ">>"@
    } else {
        "  "@
    }) + " op "@ + padded(text::dec(r.op as nat), 4) + "  vt "@ + padded(text::dec(r.vt as nat), 12)
        + "ns  "@ + line_of(r.e) + seq!['\n']
}

/// The rows for those of the first `n` records that lie from `lo` to `hi`.
pub open spec fn rows(records: Seq<RecordView>, at: u64, lo: u64, hi: u64, n: int) -> Seq<char>
    decreases n,
{
    if n <= 0 {
        Seq::empty()
    } else {
        let r = records[n - 1];
        let before = rows(records, at, lo, hi, n - 1);
        if r.op < lo || r.op > hi {
            before
        } else {
            before + row(r, at)
        }
    }
}

pub open spec fn window_low(op: u64) -> u64 {
    if op < WINDOW {
        0
    } else {
        (op - WINDOW) as u64
    }
}

pub open spec fn window_high(op: u64, n: nat) -> u64 {
    let last = if n == 0 {
        0
    } else {
        n - 1
    };
    if op + WINDOW < last {
        (op + WINDOW) as u64
    } else {
        last as u64
    }
}

pub open spec fn label_line(label: Option<Seq<char>>) -> Seq<char> {
    match label {
        Some(l) => "  label       : "@ + l + seq!['\n'],
        None => Seq::empty(),
    }
}

pub open spec fn top_text() -> Seq<char> {
    "================ WEFT INVARIANT VIOLATION ================\n"@
}

pub open spec fn bottom_text() -> Seq<char> {
    "===========================================================\n"@
}

/// What is violated, where, and by which event.
pub open spec fn finding_text(v: ViolationView, total: nat) -> Seq<char> {
    "invariant : "@ + v.rule + "\nwhere     : op "@ + text::dec(v.op as nat) + " of "@ + text::dec(
        total,
    ) + ", virtual time "@ + text::dec(v.vt as nat) + " ns\nwhat      : "@ + v.message
        + "\nevent     : "@ + line_of(v.event) + "\n\n"@
}

/// The inputs of the run.
pub open spec fn inputs_text(log: LogView, path: Seq<char>) -> Seq<char> {
    "run inputs (sufficient for exact reproduction):\n  seed        : "@ + text::dec(
        log.header.seed as nat,
    ) + "\n  net spec    : "@ + (if log.header.net.len() == 0 {
        "(reliable)"@
    } else {
        log.header.net
    }) + "\n  log file    : "@ + path + "\n  log format  : "@ + log.header.format + " v"@
        + text::dec(log.header.version as nat) + "\n  stream hash : "@ + json::hex16(
        log::digest_of(log.records, log.records.len() as int),
    ) + "\n"@ + label_line(log.header.meta.label) + "\n"@
}

/// How to replay the run.
pub open spec fn reproduce_text(op: u64, path: Seq<char>) -> Seq<char> {
    "reproduce:\n  weft replay "@ + path
        + "            # re-executes to the identical stream hash\n  weft replay "@ + path
        + " --until "@ + text::dec(op as nat) + "  # stops right after the violating op\n\n"@
}

/// The events around the violation.
pub open spec fn around_text(op: u64, records: Seq<RecordView>) -> Seq<char> {
    let lo = window_low(op);
    let hi = window_high(op, records.len());
    "event window (op "@ + text::dec(lo as nat) + "..="@ + text::dec(hi as nat) + "):\n"@ + rows(
        records,
        op,
        lo,
        hi,
        records.len() as int,
    )
}

/// The whole report.
pub open spec fn report_text(v: ViolationView, log: LogView, path: Seq<char>) -> Seq<char> {
    top_text() + finding_text(v, log.records.len()) + inputs_text(log, path) + reproduce_text(
        v.op,
        path,
    ) + around_text(v.op, log.records) + bottom_text()
}

fn finding(v: &ViolationRecord, total: u64) -> (s: String)
    ensures
        s@ == finding_text(v@, total as nat),
{
    let mut s = copy_text("invariant : ");
    push_text(&mut s, v.rule.as_str());
    push_num(&mut s, "\nwhere     : op ", v.op);
    push_num(&mut s, " of ", total);
    push_num(&mut s, ", virtual time ", v.vt);
    push_text(&mut s, " ns\nwhat      : ");
    push_text(&mut s, v.message.as_str());
    push_text(&mut s, "\nevent     : ");
    push_text(&mut s, event_line(&v.event).as_str());
    push_text(&mut s, "\n\n");
    s
}

fn inputs(log: &Log, path: &str) -> (s: String)
    ensures
        s@ == inputs_text(log@, path@),
{
    let mut s = copy_text("run inputs (sufficient for exact reproduction):\n  seed        : ");
    push_dec(&mut s, log.header.seed);
    push_text(&mut s, "\n  net spec    : ");
    if log.header.net.as_str().is_empty() {
        push_text(&mut s, "(reliable)");
    } else {
        push_text(&mut s, log.header.net.as_str());
    }
    push_text(&mut s, "\n  log file    : ");
    push_text(&mut s, path);
    push_text(&mut s, "\n  log format  : ");
    push_text(&mut s, log.header.format.as_str());
    push_text(&mut s, " v");
    push_dec(&mut s, log.header.version as u64);
    push_text(&mut s, "\n  stream hash : ");
    push_text(&mut s, hex16_text(log.stream_digest()).as_str());
    push_text(&mut s, "\n");
    let label = match &log.header.meta.label {
        Some(l) => {
            let mut t = copy_text("  label       : ");
            push_text(&mut t, l.as_str());
            t.push('\n');
            assert(t@ =~= label_line(log@.header.meta.label));
            t
        },
        None => String::new(),
    };
    push_text(&mut s, label.as_str());
    push_text(&mut s, "\n");
    s
}

fn reproduce(op: u64, path: &str) -> (s: String)
    ensures
        s@ == reproduce_text(op, path@),
{
    let mut s = copy_text("reproduce:\n  weft replay ");
    push_text(&mut s, path);
    push_text(
        &mut s,
        "            # re-executes to the identical stream hash\n  weft replay ",
    );
    push_text(&mut s, path);
    push_num(&mut s, " --until ", op);
    push_text(&mut s, "  # stops right after the violating op\n\n");
    s
}

fn row_of(r: &log::Record, at: u64) -> (s: String)
    ensures
        s@ == row(r@, at),
{
    let mut s = if r.op == at {
        copy_text(">>")
    } else {
        copy_text("  ")
    };
    push_text(&mut s, " op ");
    push_padded(&mut s, dec_text(r.op).as_str(), 4);
    push_text(&mut s, "  vt ");
    push_padded(&mut s, dec_text(r.vt).as_str(), 12);
    push_text(&mut s, "ns  ");
    push_text(&mut s, event_line(&r.e).as_str());
    s.push('\n');
    assert(s@ =~= row(r@, at));
    s
}

/// The events around the violation.
fn around(op: u64, log: &Log) -> (s: String)
    requires
        op <= u64::MAX - WINDOW,
    ensures
        s@ == around_text(op, log@.records),
{
    let lo: u64 = if op < WINDOW {
        0
    } else {
        op - WINDOW
    };
    let last: u64 = if log.records.len() == 0 {
        0
    } else {
        log.records.len() as u64 - 1
    };
    let hi: u64 = if op + WINDOW < last {
        op + WINDOW
    } else {
        last
    };
    let mut s = copy_text("event window (op ");
    push_dec(&mut s, lo);
    push_num(&mut s, "..=", hi);
    push_text(&mut s, "):\n");
    let ghost start = s@;
    let ghost recs = log@.records;
    let mut i: usize = 0;
    assert(s@ =~= start + rows(recs, op, lo, hi, 0));
    while i < log.records.len()
        invariant
            i <= log.records@.len(),
            recs == log@.records,
            s@ == start + rows(recs, op, lo, hi, i as int),
        decreases log.records@.len() - i,
    {
        let r = &log.records[i];
        assert(recs[i as int] == r@);
        if !(r.op < lo || r.op > hi) {
            push_text(&mut s, row_of(r, op).as_str());
            assert(s@ =~= start + rows(recs, op, lo, hi, i as int + 1));
        }
        i = i + 1;
    }
    s
}

/// Render the report on a violation of a log. `path` is where a reader finds
/// the log.
#[must_use]
pub fn render(v: &ViolationRecord, log: &Log, path: &str) -> (out: String)
    requires
        v.op <= u64::MAX - WINDOW,
    ensures
        out@ == report_text(v@, log@, path@),
{
    let mut out = copy_text("================ WEFT INVARIANT VIOLATION ================\n");
    push_text(&mut out, finding(v, log.records.len() as u64).as_str());
    push_text(&mut out, inputs(log, path).as_str());
    push_text(&mut out, reproduce(v.op, path).as_str());
    push_text(&mut out, around(v.op, log).as_str());
    push_text(&mut out, "===========================================================\n");
    out
}

} // verus!
