//! Recording: what the broker observed, as log events, with the violations
//! that the rules raise right behind the events that raised them.

use vstd::prelude::*;

use crate::broker::{Observed, ObservedView};
use crate::hash;
use crate::hash::to_hex;
use crate::log;
use crate::log::{
    send_outcome, Addr, Event, EventView, Header, LogWriter, RecvOutcome, RecvOutcomeView,
    WriterModel,
};
use crate::monitor;
use crate::monitor::{Invariant, Monitor, Seen, ViolationRecord, ViolationView};
use crate::netcore::{PendingView, RecvResult};
use crate::text::copy_text;

verus! {

/// What a receive gave, as the log holds it.
pub open spec fn recv_outcome_of(r: Option<PendingView>) -> RecvOutcomeView {
    match r {
        None => RecvOutcomeView::Empty,
        Some(p) => RecvOutcomeView::Delivered {
            src: log::to_addr(p.src),
            dst: log::to_addr(p.dst),
            deliv_ns: p.deliv,
            tie: p.tie,
            payload: hash::hex(p.payload),
        },
    }
}

/// What was observed, as the log holds it.
pub open spec fn event_of(o: ObservedView) -> EventView {
    match o {
        ObservedView::Connect { conn } => EventView::Connect { conn },
        ObservedView::Hello { conn, node } => EventView::Hello { conn, node },
        ObservedView::Bind { conn, addr } => EventView::Bind { conn, addr: log::to_addr(addr) },
        ObservedView::Send { conn, src, dst, chan_seq, send_vt, payload, result } =>
            EventView::Send {
            conn,
            src: log::to_addr(src),
            dst: log::to_addr(dst),
            chan_seq,
            send_vt,
            payload: hash::hex(payload),
            outcome: log::outcome_of(result),
        },
        ObservedView::Recv { conn, blocking, result } => EventView::Recv {
            conn,
            blocking,
            outcome: recv_outcome_of(result),
        },
        ObservedView::Disconnect { conn } => EventView::Disconnect { conn },
    }
}

/// What a receive gave, as the log holds it.
pub fn recv_outcome(r: &RecvResult) -> (o: RecvOutcome)
    ensures
        o@ == recv_outcome_of(crate::netcore::received(*r)),
{
    match r {
        RecvResult::Empty => RecvOutcome::Empty,
        RecvResult::Delivered { src, dst, deliv_ns, tie, payload } => RecvOutcome::Delivered {
            src: Addr { ip: src.ip, port: src.port },
            dst: Addr { ip: dst.ip, port: dst.port },
            deliv_ns: *deliv_ns,
            tie: *tie,
            payload: to_hex(payload.as_slice()),
        },
    }
}

/// What was observed, as the log holds it.
pub fn to_event(ev: &Observed) -> (e: Event)
    ensures
        e@ == event_of(ev@),
{
    match ev {
        Observed::Connect { conn } => Event::Connect { conn: *conn },
        Observed::Hello { conn, node } => Event::Hello { conn: *conn, node: *node },
        Observed::Bind { conn, addr } => Event::Bind {
            conn: *conn,
            addr: Addr { ip: addr.ip, port: addr.port },
        },
        Observed::Send { conn, src, dst, chan_seq, send_vt, payload, result } => Event::Send {
            conn: *conn,
            src: Addr { ip: src.ip, port: src.port },
            dst: Addr { ip: dst.ip, port: dst.port },
            chan_seq: *chan_seq,
            send_vt: *send_vt,
            payload: to_hex(payload.as_slice()),
            outcome: send_outcome(*result),
        },
        Observed::Recv { conn, blocking, result } => Event::Recv {
            conn: *conn,
            blocking: *blocking,
            outcome: recv_outcome(result),
        },
        Observed::Disconnect { conn } => Event::Disconnect { conn: *conn },
    }
}

/// The log event for a violation.
pub open spec fn violation_event(v: ViolationView) -> EventView {
    EventView::Violation { rule: v.rule, message: v.message }
}

/// The writer behind the first `n` violations, all at time `vt`.
pub open spec fn with_violations(w: WriterModel, vt: u64, v: Seq<ViolationView>, n: int)
    -> WriterModel
    decreases n,
{
    if n <= 0 {
        w
    } else {
        log::writer_append(with_violations(w, vt, v, n - 1), vt, violation_event(v[n - 1]))
    }
}

pub proof fn lemma_with_violations(w: WriterModel, vt: u64, v: Seq<ViolationView>, n: int)
    requires
        0 <= n,
        w.next_op + n <= u64::MAX,
    ensures
        with_violations(w, vt, v, n).next_op == w.next_op + n,
    decreases n,
{
    if n > 0 {
        lemma_with_violations(w, vt, v, n - 1);
    }
}

/// Append the violations from the `lo`-th on, all at time `vt`.
pub fn append_violations(w: &mut LogWriter, vt: u64, v: &Vec<ViolationRecord>, lo: usize)
    requires
        old(w).wf(),
        lo <= v@.len(),
        old(w)@.next_op + (v@.len() - lo) <= u64::MAX,
    ensures
        final(w).wf(),
        final(w)@ == with_violations(
            old(w)@,
            vt,
            monitor::violation_views(v@).skip(lo as int),
            v@.len() - lo,
        ),
{
    let ghost w0 = w@;
    let ghost vv = monitor::violation_views(v@).skip(lo as int);
    let mut i: usize = lo;
    while i < v.len()
        invariant
            lo <= i <= v@.len(),
            w.wf(),
            vv == monitor::violation_views(v@).skip(lo as int),
            w0.next_op + (v@.len() - lo) <= u64::MAX,
            w@ == with_violations(w0, vt, vv, i - lo),
        decreases v@.len() - i,
    {
        proof {
            lemma_with_violations(w0, vt, vv, i - lo);
            assert(vv[i - lo] == v@[i as int]@);
        }
        let e = Event::Violation {
            rule: copy_text(v[i].rule.as_str()),
            message: copy_text(v[i].message.as_str()),
        };
        let _op: u64 = w.append(vt, e);
        i = i + 1;
    }
}

/// A recording session.
pub struct Recorder<I> {
    writer: LogWriter,
    monitor: Monitor<I>,
    last_vt: u64,
}

impl<I: Invariant> Recorder<I> {
    pub closed spec fn wf(&self) -> bool {
        self.writer.wf() && self.monitor.wf()
    }

    pub closed spec fn writer(&self) -> WriterModel {
        self.writer@
    }

    pub closed spec fn rules(&self) -> Seq<I> {
        self.monitor.rules@
    }

    pub closed spec fn found(&self) -> Seq<ViolationView> {
        monitor::violation_views(self.monitor.raised@)
    }

    /// The virtual time of the last observed operation.
    pub closed spec fn last(&self) -> u64 {
        self.last_vt
    }

    /// Start a recording with the given rules.
    pub fn create(header: &Header, rules: Vec<I>) -> (r: Self)
        requires
            monitor::all_ok(rules@),
        ensures
            r.wf(),
            r.writer() == log::writer_new(header@),
            r.rules() == rules@,
            r.found() == Seq::<ViolationView>::empty(),
            r.last() == 0,
    {
        let monitor = Monitor { rules, raised: Vec::new() };
        assert(monitor::violation_views(monitor.raised@) =~= Seq::<ViolationView>::empty());
        Recorder { writer: LogWriter::new(header), monitor, last_vt: 0 }
    }

    /// Record one observed operation, and right behind it what the rules
    /// raise at it.
    pub fn observe(&mut self, vt: u64, ev: &Observed)
        requires
            old(self).wf(),
            old(self).writer().next_op + 1 + old(self).rules().len() <= u64::MAX,
        ensures
            final(self).wf(),
            final(self).last() == vt,
            ({
                let w = log::writer_append(old(self).writer(), vt, event_of(ev@));
                let now = Seen { op: old(self).writer().next_op, vt, e: event_of(ev@) };
                let new = monitor::raised(
                    old(self).rules(),
                    Seq::empty(),
                    now,
                    old(self).rules().len() as int,
                );
                &&& monitor::all_shown(old(self).rules(), final(self).rules(), seq![now])
                &&& final(self).found() == old(self).found() + new
                &&& final(self).writer() == with_violations(w, vt, new, new.len() as int)
            }),
    {
        self.last_vt = vt;
        let event = to_event(ev);
        let op: u64 = self.writer.append(vt, event.copy());
        let before: usize = self.monitor.raised.len();
        let ghost found0 = monitor::violation_views(self.monitor.raised@);
        let ghost rules0 = self.monitor.rules@;
        let _n: usize = self.monitor.observe(op, vt, &event);
        proof {
            let now = Seen { op, vt, e: event@ };
            let new = monitor::raised(rules0, Seq::empty(), now, rules0.len() as int);
            lemma_raised_len(rules0, Seq::empty(), now, rules0.len() as int);
            assert(monitor::violation_views(self.monitor.raised@).skip(before as int) =~= new);
        }
        append_violations(&mut self.writer, vt, &self.monitor.raised, before);
    }

    /// Take out the text recorded since the last time.
    pub fn take_text(&mut self) -> (s: String)
        requires
            old(self).wf(),
        ensures
            final(self).wf(),
            s@ == old(self).writer().out,
            final(self).writer() == (WriterModel { out: Seq::empty(), ..old(self).writer() }),
            final(self).rules() == old(self).rules(),
            final(self).found() == old(self).found(),
            final(self).last() == old(self).last(),
    {
        self.writer.take_text()
    }

    /// Write the last record and answer the text not taken yet and every
    /// violation that was raised.
    pub fn finish(self) -> (r: (String, Vec<ViolationRecord>))
        requires
            self.wf(),
            self.writer().next_op < u64::MAX,
        ensures
            r.0@ == log::writer_append(
                self.writer(),
                self.last(),
                log::end_event(self.writer()),
            ).out,
            monitor::violation_views(r.1@) == self.found(),
    {
        let mut writer = self.writer;
        writer.finish(self.last_vt);
        (writer.take_text(), self.monitor.raised)
    }
}

/// The rules raise at most one violation each.
pub proof fn lemma_raised_len<I: Invariant>(rules: Seq<I>, extra: Seq<Seen>, now: Seen, n: int)
    requires
        0 <= n,
    ensures
        monitor::raised(rules, extra, now, n).len() <= n,
    decreases n,
{
    if n > 0 {
        lemma_raised_len(rules, extra, now, n - 1);
    }
}

} // verus!
