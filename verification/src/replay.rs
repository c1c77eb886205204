//! Deterministic replay: the log gives the order of the operations and the
//! payloads; every decision is made again by the same core, and each event
//! that comes out is held against the recorded one.

use vstd::prelude::*;

use crate::broker;
use crate::canon_laws;
use crate::config;
use crate::fault::{FaultModel, TailSource};
use crate::hash;
use crate::hash::{from_hex, FNV_OFFSET};
use crate::log;
use crate::log::{
    canon, hash_text, send_outcome, Event, EventView, Log, LogView, Record, RecordView,
};
use crate::monitor;
use crate::monitor::{Invariant, Monitor, Seen, ViolationRecord, ViolationView};
use crate::netcore;
use crate::netcore::{Core, CoreModel};
use crate::recorder;
use crate::recorder::recv_outcome;
use crate::text;
use crate::text::{copy_text, push_dec, push_text};
use crate::wire::{ToBrokerView, VAddr};

verus! {

/// Why a replay could not run at all.
#[derive(Debug, Clone, PartialEq)]
pub enum ReplayError {
    /// The network-condition text of the header was refused.
    BadNetSpec(String),
    /// A recorded payload is not hexadecimal.
    BadPayload { op: u64 },
}

pub enum ReplayErrorView {
    BadNetSpec(Seq<char>),
    BadPayload { op: u64 },
}

impl View for ReplayError {
    type V = ReplayErrorView;

    open spec fn view(&self) -> ReplayErrorView {
        match *self {
            ReplayError::BadNetSpec(e) => ReplayErrorView::BadNetSpec(e@),
            ReplayError::BadPayload { op } => ReplayErrorView::BadPayload { op },
        }
    }
}

impl ReplayError {
    /// The message for a reader.
    #[must_use]
    pub fn text(&self) -> (s: String)
        ensures
            s@ == match self@ {
                ReplayErrorView::BadNetSpec(e) => "log header net spec unusable: "@ + e,
                ReplayErrorView::BadPayload { op } => "op "@ + text::dec(op as nat)
                    + ": payload is not valid hex"@,
            },
    {
        let mut s = String::new();
        match self {
            ReplayError::BadNetSpec(e) => {
                push_text(&mut s, "log header net spec unusable: ");
                push_text(&mut s, e.as_str());
                assert(s@ =~= "log header net spec unusable: "@ + e@);
            },
            ReplayError::BadPayload { op } => {
                push_text(&mut s, "op ");
                push_dec(&mut s, *op);
                push_text(&mut s, ": payload is not valid hex");
                assert(s@ =~= "op "@ + text::dec(*op as nat) + ": payload is not valid hex"@);
            },
        }
        s
    }
}

/// The first point where the replay differs from the recording.
#[derive(Clone, Debug, PartialEq)]
pub struct Divergence {
    pub op: u64,
    /// The canonical text of the recorded event.
    pub recorded: String,
    /// The canonical text of the replayed event.
    pub replayed: String,
}

pub struct DivergenceView {
    pub op: u64,
    pub recorded: Seq<char>,
    pub replayed: Seq<char>,
}

impl View for Divergence {
    type V = DivergenceView;

    open spec fn view(&self) -> DivergenceView {
        DivergenceView { op: self.op, recorded: self.recorded@, replayed: self.replayed@ }
    }
}

/// What a replay gives.
#[derive(Debug)]
pub struct ReplayOutcome {
    /// Whether every replayed record matched the recording.
    pub identical: bool,
    /// How many records were replayed.
    pub ops_replayed: u64,
    pub divergence: Option<Divergence>,
    /// What the rules raised during the replay.
    pub violations: Vec<ViolationRecord>,
    /// The digest of the replayed stream.
    pub stream_digest: u64,
}

pub struct OutcomeView {
    pub identical: bool,
    pub ops_replayed: u64,
    pub divergence: Option<DivergenceView>,
    pub violations: Seq<ViolationView>,
    pub stream_digest: u64,
}

impl View for ReplayOutcome {
    type V = OutcomeView;

    open spec fn view(&self) -> OutcomeView {
        OutcomeView {
            identical: self.identical,
            ops_replayed: self.ops_replayed,
            divergence: match self.divergence {
                Some(d) => Some(d@),
                None => None,
            },
            violations: monitor::violation_views(self.violations@),
            stream_digest: self.stream_digest,
        }
    }
}

/// The state of a replay.
pub struct ReplayModel {
    pub core: CoreModel,
    /// The events shown to the rules.
    pub shown: Seq<Seen>,
    /// What the rules raised.
    pub raised: Seq<ViolationView>,
    /// How many of those the log has accounted for.
    pub matched: int,
    pub digest: u64,
    pub ops: nat,
}

pub open spec fn replay_start(core: CoreModel) -> ReplayModel {
    ReplayModel {
        core,
        shown: Seq::empty(),
        raised: Seq::empty(),
        matched: 0,
        digest: FNV_OFFSET,
        ops: 0,
    }
}

/// A core operation done again: the state behind it and the event with its
/// outcome recomputed from its inputs. `None` where the payload of a send is
/// not hexadecimal.
pub open spec fn redone<T: TailSource>(c: CoreModel, e: EventView, tails: T) -> Option<
    (CoreModel, EventView),
> {
    match e {
        EventView::Connect { conn } => Some((netcore::core_connect(c, conn), e)),
        EventView::Bind { conn, addr } => Some(
            (netcore::core_bind(c, conn, log::to_vaddr(addr)), e),
        ),
        EventView::Disconnect { conn } => Some((netcore::core_disconnect(c, conn), e)),
        EventView::Send { conn, src, dst, chan_seq, send_vt, payload, outcome } => {
            let s = log::to_vaddr(src);
            let d = log::to_vaddr(dst);
            match hash::unhex(payload) {
                None => None,
                Some(bytes) => {
                    let tail = netcore::tail_for(c, s, d, tails);
                    Some(
                        (
                            netcore::core_send(c, s, d, bytes, send_vt, tail),
                            EventView::Send {
                                conn,
                                src,
                                dst,
                                chan_seq: netcore::next_seq(c, s, d),
                                send_vt,
                                payload,
                                outcome: log::outcome_of(
                                    netcore::send_answer(c, s, d, bytes.len(), send_vt, tail),
                                ),
                            },
                        ),
                    )
                },
            }
        },
        EventView::Recv { conn, blocking, outcome } => Some(
            (
                netcore::core_recv(c, conn, None),
                EventView::Recv {
                    conn,
                    blocking,
                    outcome: recorder::recv_outcome_of(netcore::recv_answer(c, conn, None)),
                },
            ),
        ),
        _ => Some((c, e)),
    }
}

pub open spec fn none_raised() -> EventView {
    EventView::Violation {
        rule: "(none raised)"@,
        message: "replayed invariants raised no violation here"@,
    }
}

/// Whether a record claims a violation where the rules raised none.
pub open spec fn unraised(
    raised: Seq<ViolationView>,
    matched: int,
    r: RecordView,
    checking: bool,
) -> bool {
    checking && r.e is Violation && matched >= raised.len()
}

/// A record done again. A recorded violation is held against the next one
/// that the rules raised, or carried through where there are no rules.
pub open spec fn redone_record<T: TailSource>(
    core: CoreModel,
    raised: Seq<ViolationView>,
    matched: int,
    r: RecordView,
    checking: bool,
    tails: T,
) -> Option<(CoreModel, EventView, int)> {
    match r.e {
        EventView::Violation { rule, message } => if !checking {
            Some((core, r.e, matched))
        } else if matched < raised.len() {
            Some((core, recorder::violation_event(raised[matched]), matched + 1))
        } else {
            Some((core, none_raised(), matched))
        },
        EventView::End { events, sent, dropped } => Some(
            (
                core,
                EventView::End {
                    events: (r.op + 1) as u64,
                    sent: core.sent,
                    dropped: core.dropped,
                },
                matched,
            ),
        ),
        _ => match redone(core, r.e, tails) {
            Some((c, e)) => Some((c, e, matched)),
            None => None,
        },
    }
}

/// Whether the rules are shown an event: not markers of violations, nor the
/// end.
pub open spec fn is_shown(e: EventView) -> bool {
    !(e is Violation) && !(e is End)
}

/// How far a replay has come.
pub enum Progress {
    Running(ReplayModel),
    /// The record behind which the replay was asked to stop was passed.
    Stopped(ReplayModel),
    Diverged(ReplayModel, DivergenceView),
    BadPayload(u64),
}

/// The replay behind one more record.
pub open spec fn replay_step<I: Invariant, T: TailSource>(
    s: ReplayModel,
    r: RecordView,
    rules: Seq<I>,
    until: Option<u64>,
    tails: T,
) -> Progress {
    if until is Some && r.op > until.unwrap() {
        Progress::Stopped(s)
    } else {
        match redone_record(s.core, s.raised, s.matched, r, rules.len() > 0, tails) {
            None => Progress::BadPayload(r.op),
            Some((core, e, matched)) => {
                let now = Seen { op: r.op, vt: core.vt, e };
                let see = rules.len() > 0 && is_shown(e);
                let n = ReplayModel {
                    core,
                    matched,
                    shown: if see {
                        s.shown.push(now)
                    } else {
                        s.shown
                    },
                    raised: if see {
                        s.raised + monitor::raised(rules, s.shown, now, rules.len() as int)
                    } else {
                        s.raised
                    },
                    digest: log::text_hash(s.digest, log::canon_text(r.op, core.vt, e)),
                    ops: s.ops + 1,
                };
                if e != r.e || core.vt != r.vt || unraised(
                    s.raised,
                    s.matched,
                    r,
                    rules.len() > 0,
                ) {
                    Progress::Diverged(
                        n,
                        DivergenceView {
                            op: r.op,
                            recorded: log::canon_text(r.op, r.vt, r.e),
                            replayed: log::canon_text(r.op, core.vt, e),
                        },
                    )
                } else {
                    Progress::Running(n)
                }
            },
        }
    }
}

/// The replay behind the first `n` records.
pub open spec fn replayed<I: Invariant, T: TailSource>(
    start: CoreModel,
    records: Seq<RecordView>,
    rules: Seq<I>,
    until: Option<u64>,
    tails: T,
    n: int,
) -> Progress
    decreases n,
{
    if n <= 0 {
        Progress::Running(replay_start(start))
    } else {
        match replayed(start, records, rules, until, tails, n - 1) {
            Progress::Running(s) => replay_step(s, records[n - 1], rules, until, tails),
            other => other,
        }
    }
}

pub open spec fn outcome_at(p: Progress) -> Result<OutcomeView, ReplayErrorView> {
    match p {
        Progress::BadPayload(op) => Err(ReplayErrorView::BadPayload { op }),
        Progress::Running(s) => Ok(clean(s)),
        Progress::Stopped(s) => Ok(clean(s)),
        Progress::Diverged(s, d) => Ok(
            OutcomeView { identical: false, divergence: Some(d), ..clean(s) },
        ),
    }
}

pub open spec fn clean(s: ReplayModel) -> OutcomeView {
    OutcomeView {
        identical: true,
        ops_replayed: s.ops as u64,
        divergence: None,
        violations: s.raised,
        stream_digest: s.digest,
    }
}

/// What replaying a log gives.
pub open spec fn replay_of<I: Invariant, T: TailSource>(
    log: LogView,
    readings: Seq<Option<u64>>,
    rules: Seq<I>,
    until: Option<u64>,
    tails: T,
) -> Result<OutcomeView, ReplayErrorView> {
    match config::model_of(
        log.header.seed,
        config::clauses_of(log.header.net),
        readings,
        readings.len() as int,
    ) {
        Err(e) => Err(ReplayErrorView::BadNetSpec(config::error_text(e))),
        Ok(m) => outcome_at(
            replayed(
                netcore::core_new(m),
                log.records,
                rules,
                until,
                tails,
                log.records.len() as int,
            ),
        ),
    }
}

proof fn lemma_replay_over<I: Invariant, T: TailSource>(
    start: CoreModel,
    records: Seq<RecordView>,
    rules: Seq<I>,
    until: Option<u64>,
    tails: T,
    k: int,
    n: int,
)
    requires
        0 <= k <= n,
        !(replayed(start, records, rules, until, tails, k) is Running),
    ensures
        replayed(start, records, rules, until, tails, n) == replayed(
            start,
            records,
            rules,
            until,
            tails,
            k,
        ),
    decreases n,
{
    if k < n {
        lemma_replay_over(start, records, rules, until, tails, k, n - 1);
    }
}

/// A core never counts more sends than records were replayed.
proof fn lemma_replay_sent<I: Invariant, T: TailSource>(
    start: CoreModel,
    records: Seq<RecordView>,
    rules: Seq<I>,
    until: Option<u64>,
    tails: T,
    n: int,
)
    requires
        start.sent == 0,
        replayed(start, records, rules, until, tails, n) is Running,
        0 <= n <= u64::MAX,
    ensures
        ({
            let s = replayed(start, records, rules, until, tails, n)->Running_0;
            s.core.sent <= n && s.ops == n
        }),
    decreases n,
{
    if n > 0 {
        lemma_replay_sent(start, records, rules, until, tails, n - 1);
    }
}

/// Do one core operation again.
fn redo<T: TailSource>(core: &mut Core, op: u64, e: &Event, tails: &T) -> (r: Result<
    Event,
    ReplayError,
>)
    requires
        old(core).wf(),
        old(core)@.sent < u64::MAX,
        is_shown(e@),
    ensures
        final(core).wf(),
        match r {
            Ok(n) => redone(old(core)@, e@, *tails) == Some((final(core)@, n@)),
            Err(x) => redone(old(core)@, e@, *tails) is None && x@ == (
            ReplayErrorView::BadPayload { op }),
        },
{
    match e {
        Event::Connect { conn } => {
            core.connect(*conn);
            Ok(e.copy())
        },
        Event::Bind { conn, addr } => {
            core.bind(*conn, VAddr { ip: addr.ip, port: addr.port });
            Ok(e.copy())
        },
        Event::Disconnect { conn } => {
            core.disconnect(*conn);
            Ok(e.copy())
        },
        Event::Send { conn, src, dst, chan_seq: _, send_vt, payload, outcome: _ } => {
            let bytes = match from_hex(payload.as_str()) {
                Some(b) => b,
                None => {
                    return Err(ReplayError::BadPayload { op });
                },
            };
            let s = VAddr { ip: src.ip, port: src.port };
            let d = VAddr { ip: dst.ip, port: dst.port };
            let (chan_seq, res) = core.send(s, d, bytes.as_slice(), *send_vt, tails);
            Ok(
                Event::Send {
                    conn: *conn,
                    src: *src,
                    dst: *dst,
                    chan_seq,
                    send_vt: *send_vt,
                    payload: copy_text(payload.as_str()),
                    outcome: send_outcome(res),
                },
            )
        },
        Event::Recv { conn, blocking, outcome: _ } => {
            let got = core.recv(*conn);
            Ok(Event::Recv { conn: *conn, blocking: *blocking, outcome: recv_outcome(&got) })
        },
        _ => Ok(e.copy()),
    }
}

/// Do one record again.
fn redo_record<T: TailSource>(
    core: &mut Core,
    raised: &Vec<ViolationRecord>,
    matched: usize,
    r: &Record,
    checking: bool,
    tails: &T,
) -> (n: Result<(Event, usize), ReplayError>)
    requires
        old(core).wf(),
        old(core)@.sent < u64::MAX,
        matched <= raised@.len(),
        r.e is End ==> r.op < u64::MAX,
    ensures
        final(core).wf(),
        match n {
            Ok((e, m)) => m <= raised@.len() && redone_record(
                old(core)@,
                monitor::violation_views(raised@),
                matched as int,
                r@,
                checking,
                *tails,
            ) == Some((final(core)@, e@, m as int)),
            Err(x) => redone_record(
                old(core)@,
                monitor::violation_views(raised@),
                matched as int,
                r@,
                checking,
                *tails,
            ) is None && x@ == (ReplayErrorView::BadPayload { op: r.op }),
        },
{
    match &r.e {
        Event::Violation { .. } => {
            if !checking {
                Ok((r.e.copy(), matched))
            } else if matched < raised.len() {
                let v = &raised[matched];
                let e = Event::Violation {
                    rule: copy_text(v.rule.as_str()),
                    message: copy_text(v.message.as_str()),
                };
                Ok((e, matched + 1))
            } else {
                let e = Event::Violation {
                    rule: copy_text("(none raised)"),
                    message: copy_text("replayed invariants raised no violation here"),
                };
                Ok((e, matched))
            }
        },
        Event::End { .. } => {
            let (sent, dropped) = core.stats();
            Ok((Event::End { events: r.op + 1, sent, dropped }, matched))
        },
        other => match redo(core, r.op, other, tails) {
            Ok(n) => Ok((n, matched)),
            Err(x) => Err(x),
        },
    }
}

fn finished(
    identical: bool,
    ops: u64,
    divergence: Option<Divergence>,
    violations: Vec<ViolationRecord>,
    digest: u64,
) -> (r: ReplayOutcome)
    ensures
        r@ == (OutcomeView {
            identical,
            ops_replayed: ops,
            divergence: match divergence {
                Some(d) => Some(d@),
                None => None,
            },
            violations: monitor::violation_views(violations@),
            stream_digest: digest,
        }),
{
    ReplayOutcome {
        identical,
        ops_replayed: ops,
        divergence,
        violations,
        stream_digest: digest,
    }
}

/// Replay the records through a core, holding each event against the recorded
/// one and showing it to the rules.
#[verifier::rlimit(60)]
#[verifier::spinoff_prover]
pub fn replay_records<I: Invariant, T: TailSource>(
    model: FaultModel,
    log: &Log,
    rules: Vec<I>,
    until: Option<u64>,
    tails: &T,
) -> (r: Result<ReplayOutcome, ReplayError>)
    requires
        monitor::all_ok(rules@),
        forall|i: int|
            0 <= i < log@.records.len() && (#[trigger] log@.records[i]).e is End
                ==> log@.records[i].op < u64::MAX,
    ensures
        ({
            let p = replayed(
                netcore::core_new(model@),
                log@.records,
                rules@,
                until,
                *tails,
                log@.records.len() as int,
            );
            match r {
                Ok(o) => outcome_at(p) == Ok::<OutcomeView, ReplayErrorView>(o@),
                Err(e) => outcome_at(p) == Err::<OutcomeView, ReplayErrorView>(e@),
            }
        }),
{
    let ghost start = netcore::core_new(model@);
    let ghost recs = log@.records;
    let ghost rules0 = rules@;
    let ghost total = recs.len() as int;
    let checking: bool = rules.len() > 0;
    let mut core = Core::new(model);
    let mut monitor: Monitor<I> = Monitor { rules, raised: Vec::new() };
    let mut matched: usize = 0;
    let mut digest: u64 = FNV_OFFSET;
    let mut ops: u64 = 0;
    let ghost mut shown: Seq<Seen> = Seq::empty();
    let mut i: usize = 0;
    proof {
        assert(monitor::violation_views(monitor.raised@) =~= Seq::<ViolationView>::empty());
        assert forall|j: int| 0 <= j < rules0.len() implies monitor::shown(
            #[trigger] rules0[j],
            monitor.rules@[j],
            shown,
        ) by {
            assert(rules0[j].history() + shown =~= rules0[j].history());
        }
    }
    while i < log.records.len()
        invariant
            i <= log.records@.len(),
            recs == log@.records,
            total == recs.len(),
            start == netcore::core_new(model@),
            checking == (rules0.len() > 0),
            rules0 == rules@,
            forall|j: int|
                0 <= j < recs.len() && (#[trigger] recs[j]).e is End ==> recs[j].op < u64::MAX,
            core.wf(),
            monitor.wf(),
            monitor::all_shown(rules0, monitor.rules@, shown),
            matched <= monitor.raised@.len(),
            ops == i,
            replayed(start, recs, rules0, until, *tails, i as int) == Progress::Running(
                ReplayModel {
                    core: core@,
                    shown,
                    raised: monitor::violation_views(monitor.raised@),
                    matched: matched as int,
                    digest,
                    ops: ops as nat,
                },
            ),
        decreases log.records@.len() - i,
    {
        let r = &log.records[i];
        let ghost rv = recs[i as int];
        let ghost s0 = replayed(start, recs, rules0, until, *tails, i as int)->Running_0;
        proof {
            assert(rv == r@);
            lemma_replay_sent(start, recs, rules0, until, *tails, i as int);
            if !(replayed(start, recs, rules0, until, *tails, i as int + 1) is Running) {
                lemma_replay_over(start, recs, rules0, until, *tails, i as int + 1, total);
            }
        }
        if let Some(u) = until {
            if r.op > u {
                return Ok(finished(true, ops, None, monitor.raised, digest));
            }
        }
        let unraised: bool = match &r.e {
            Event::Violation { .. } => checking && matched >= monitor.raised.len(),
            _ => false,
        };
        let (e, now_matched): (Event, usize) = match redo_record(
            &mut core,
            &monitor.raised,
            matched,
            r,
            checking,
            tails,
        ) {
            Ok(p) => p,
            Err(x) => {
                return Err(x);
            },
        };
        matched = now_matched;
        let vt: u64 = core.vt();
        digest = hash_text(digest, canon(r.op, vt, &e).as_str());
        ops = ops + 1;
        let see: bool = match &e {
            Event::Violation { .. } => false,
            Event::End { .. } => false,
            _ => checking,
        };
        let ghost now = Seen { op: r.op, vt, e: e@ };
        if see {
            let ghost before = monitor.rules@;
            let ghost raised0 = monitor::violation_views(monitor.raised@);
            let _n: usize = monitor.observe(r.op, vt, &e);
            proof {
                monitor::lemma_raised_shown(
                    rules0,
                    before,
                    shown,
                    Seq::empty(),
                    now,
                    rules0.len() as int,
                );
                assert(shown + Seq::<Seen>::empty() =~= shown);
                monitor::lemma_shown_again(rules0, before, monitor.rules@, shown, seq![now]);
                assert(shown + seq![now] =~= shown.push(now));
                shown = shown.push(now);
            }
        }
        if unraised || !e.same(&r.e) || vt != r.vt {
            let d = Divergence {
                op: r.op,
                recorded: canon(r.op, r.vt, &r.e),
                replayed: canon(r.op, vt, &e),
            };
            return Ok(finished(false, ops, Some(d), monitor.raised, digest));
        }
        i = i + 1;
    }
    Ok(finished(true, ops, None, monitor.raised, digest))
}

/// Replay `log`, showing what happens to `rules`. `until` stops behind the
/// record with that position. `readings` are the loss values of the header's
/// network-condition text (see [`config::loss_values`]).
pub fn replay_log<I: Invariant, T: TailSource>(
    log: &Log,
    readings: &Vec<Option<u64>>,
    rules: Vec<I>,
    until: Option<u64>,
    tails: &T,
) -> (r: Result<ReplayOutcome, ReplayError>)
    requires
        readings@.len() == config::clauses_of(log@.header.net).len(),
        monitor::all_ok(rules@),
        forall|i: int|
            0 <= i < log@.records.len() && (#[trigger] log@.records[i]).e is End
                ==> log@.records[i].op < u64::MAX,
    ensures
        match r {
            Ok(o) => replay_of(log@, readings@, rules@, until, *tails) == Ok::<
                OutcomeView,
                ReplayErrorView,
            >(o@),
            Err(e) => replay_of(log@, readings@, rules@, until, *tails) == Err::<
                OutcomeView,
                ReplayErrorView,
            >(e@),
        },
{
    match config::parse(log.header.seed, log.header.net.as_str(), readings) {
        Ok(model) => replay_records(model, log, rules, until, tails),
        Err(e) => Err(ReplayError::BadNetSpec(e.text())),
    }
}

// ---------------------------------------------------------------------------
// Laws
// ---------------------------------------------------------------------------

/// A replay of a whole log that is identical has the digest of the log.
pub proof fn law_identical_digest<I: Invariant, T: TailSource>(
    start: CoreModel,
    records: Seq<RecordView>,
    rules: Seq<I>,
    until: Option<u64>,
    tails: T,
    n: int,
)
    requires
        0 <= n <= records.len(),
        replayed(start, records, rules, until, tails, n) is Running,
    ensures
        replayed(start, records, rules, until, tails, n)->Running_0.digest == log::digest_of(
            records,
            n,
        ),
        replayed(start, records, rules, until, tails, n)->Running_0.ops == n,
    decreases n,
{
    if n > 0 {
        law_identical_digest(start, records, rules, until, tails, n - 1);
    }
}

/// A replay never reports a difference without one: the two texts of a
/// divergence belong to events or times that differ, or to a violation that
/// the rules did not raise again.
pub proof fn law_divergence_is_real<I: Invariant, T: TailSource>(
    s: ReplayModel,
    r: RecordView,
    rules: Seq<I>,
    until: Option<u64>,
    tails: T,
)
    requires
        replay_step(s, r, rules, until, tails) is Diverged,
    ensures
        ({
            let (core, e, matched) = redone_record(
                s.core,
                s.raised,
                s.matched,
                r,
                rules.len() > 0,
                tails,
            ).unwrap();
            e != r.e || core.vt != r.vt || unraised(s.raised, s.matched, r, rules.len() > 0)
        }),
{
}

proof fn lemma_until_same<I: Invariant, T: TailSource>(
    start: CoreModel,
    records: Seq<RecordView>,
    rules: Seq<I>,
    until: u64,
    tails: T,
    k: int,
    n: int,
)
    requires
        0 <= n <= k <= records.len(),
        k <= until + 1,
        forall|i: int| 0 <= i < records.len() ==> (#[trigger] records[i]).op == i,
    ensures
        replayed(start, records, rules, Some(until), tails, n) == replayed(
            start,
            records.take(k),
            rules,
            None,
            tails,
            n,
        ),
    decreases n,
{
    if n > 0 {
        lemma_until_same(start, records, rules, until, tails, k, n - 1);
        assert(records.take(k)[n - 1] == records[n - 1]);
    }
}

proof fn lemma_until_stops<I: Invariant, T: TailSource>(
    start: CoreModel,
    records: Seq<RecordView>,
    rules: Seq<I>,
    until: u64,
    tails: T,
    k: int,
)
    requires
        0 <= k < records.len(),
        records[k].op > until,
        replayed(start, records, rules, Some(until), tails, k) is Running,
    ensures
        replayed(start, records, rules, Some(until), tails, k + 1) == Progress::Stopped(
            replayed(start, records, rules, Some(until), tails, k)->Running_0,
        ),
{
    let s = replayed(start, records, rules, Some(until), tails, k)->Running_0;
    assert(replay_step(s, records[k], rules, Some(until), tails) == Progress::Stopped(s));
}

/// A replay up to an operation is the replay of the log that ends with it.
#[verifier::spinoff_prover]
#[verifier::rlimit(40)]
pub proof fn law_until_replays_a_prefix<I: Invariant, T: TailSource>(
    start: CoreModel,
    records: Seq<RecordView>,
    rules: Seq<I>,
    until: u64,
    tails: T,
)
    requires
        forall|i: int| 0 <= i < records.len() ==> (#[trigger] records[i]).op == i,
    ensures
        ({
            let k = if until < records.len() {
                until + 1
            } else {
                records.len() as int
            };
            outcome_at(
                replayed(start, records, rules, Some(until), tails, records.len() as int),
            ) == outcome_at(replayed(start, records.take(k), rules, None, tails, k))
        }),
{
    let n = records.len() as int;
    let k = if until < n {
        until + 1
    } else {
        n
    };
    lemma_until_same(start, records, rules, until, tails, k, k);
    if k < n {
        let p = replayed(start, records, rules, Some(until), tails, k);
        if p is Running {
            lemma_until_stops(start, records, rules, until, tails, k);
            lemma_replay_over(start, records, rules, Some(until), tails, k + 1, n);
        } else {
            lemma_replay_over(start, records, rules, Some(until), tails, k, n);
        }
    }
}

/// A recorded violation that the rules do not raise again is a divergence,
/// whatever it says. Where there are no rules it is carried through.
pub proof fn law_violations_are_raised_again<I: Invariant, T: TailSource>(
    s: ReplayModel,
    r: RecordView,
    rules: Seq<I>,
    tails: T,
)
    requires
        r.e is Violation,
    ensures
        rules.len() > 0 && s.matched >= s.raised.len() ==> replay_step(
            s,
            r,
            rules,
            None,
            tails,
        ) is Diverged && replay_step(s, r, rules, None, tails)->Diverged_1.op == r.op,
        rules.len() == 0 && s.core.vt == r.vt ==> replay_step(s, r, rules, None, tails) is Running,
{
}

/// The two texts of a divergence differ, but for a violation that the rules did
/// not raise again.
pub proof fn law_divergence_texts_differ<I: Invariant, T: TailSource>(
    s: ReplayModel,
    r: RecordView,
    rules: Seq<I>,
    until: Option<u64>,
    tails: T,
)
    requires
        replay_step(s, r, rules, until, tails) is Diverged,
        !unraised(s.raised, s.matched, r, rules.len() > 0),
    ensures
        replay_step(s, r, rules, until, tails)->Diverged_1.recorded != replay_step(
            s,
            r,
            rules,
            until,
            tails,
        )->Diverged_1.replayed,
{
    let (core, e, matched) = redone_record(
        s.core,
        s.raised,
        s.matched,
        r,
        rules.len() > 0,
        tails,
    ).unwrap();
    if log::canon_text(r.op, r.vt, r.e) == log::canon_text(r.op, core.vt, e) {
        canon_laws::law_canonical_text_tells_apart(r.op, r.vt, r.e, r.op, core.vt, e);
    }
}

/// Where a replay diverged it went on from a record that it had reached.
proof fn lemma_diverged_at<I: Invariant, T: TailSource>(
    start: CoreModel,
    records: Seq<RecordView>,
    rules: Seq<I>,
    tails: T,
    n: int,
) -> (k: int)
    requires
        0 <= n <= records.len(),
        replayed(start, records, rules, None, tails, n) is Diverged,
    ensures
        0 <= k < n,
        replayed(start, records, rules, None, tails, k) is Running,
        replayed(start, records, rules, None, tails, n) == replay_step(
            replayed(start, records, rules, None, tails, k)->Running_0,
            records[k],
            rules,
            None,
            tails,
        ),
    decreases n,
{
    if replayed(start, records, rules, None, tails, n - 1) is Running {
        n - 1
    } else {
        lemma_diverged_at(start, records, rules, tails, n - 1)
    }
}

proof fn lemma_was_running<I: Invariant, T: TailSource>(
    start: CoreModel,
    records: Seq<RecordView>,
    rules: Seq<I>,
    tails: T,
    j: int,
    k: int,
)
    requires
        0 <= j <= k,
        replayed(start, records, rules, None, tails, k) is Running,
    ensures
        replayed(start, records, rules, None, tails, j) is Running,
    decreases k,
{
    if j < k {
        lemma_was_running(start, records, rules, tails, j, k - 1);
    }
}

/// What a step that diverges leaves.
proof fn lemma_diverged_step<I: Invariant, T: TailSource>(
    s: ReplayModel,
    r: RecordView,
    rules: Seq<I>,
    tails: T,
)
    requires
        replay_step(s, r, rules, None, tails) is Diverged,
    ensures
        replay_step(s, r, rules, None, tails)->Diverged_0.ops == s.ops + 1,
        replay_step(s, r, rules, None, tails)->Diverged_1.op == r.op,
{
}

/// A divergence is the first one: a replay up to any earlier operation is
/// identical, and the replay itself ends with the operation that diverged.
/// Without rules the two texts differ.
pub proof fn law_divergence_is_the_first<I: Invariant, T: TailSource>(
    start: CoreModel,
    records: Seq<RecordView>,
    rules: Seq<I>,
    tails: T,
    d: DivergenceView,
    u: u64,
)
    requires
        records.len() <= u64::MAX,
        forall|i: int| 0 <= i < records.len() ==> (#[trigger] records[i]).op == i,
        ({
            let o = outcome_at(
                replayed(start, records, rules, None, tails, records.len() as int),
            );
            o is Ok && o->Ok_0.divergence == Some(d)
        }),
    ensures
        ({
            let o = outcome_at(
                replayed(start, records, rules, None, tails, records.len() as int),
            )->Ok_0;
            &&& !o.identical
            &&& d.op < records.len()
            &&& o.ops_replayed == d.op + 1
            &&& rules.len() == 0 ==> d.recorded != d.replayed
        }),
        u < d.op ==> ({
            let o = outcome_at(
                replayed(start, records, rules, Some(u), tails, records.len() as int),
            );
            &&& o is Ok
            &&& o->Ok_0.identical
            &&& o->Ok_0.divergence is None
            &&& o->Ok_0.ops_replayed == u + 1
        }),
{
    let n = records.len() as int;
    let k = lemma_diverged_at(start, records, rules, tails, n);
    let s = replayed(start, records, rules, None, tails, k)->Running_0;
    law_identical_digest(start, records, rules, None, tails, k);
    lemma_diverged_step(s, records[k], rules, tails);
    assert(records[k].op == k);
    if rules.len() == 0 {
        law_divergence_texts_differ(s, records[k], rules, None, tails);
    }
    if u < d.op {
        let j = u as int + 1;
        law_until_replays_a_prefix(start, records, rules, u, tails);
        lemma_until_same(start, records, rules, u, tails, j, j);
        lemma_prefix_same(start, records, rules, tails, j, j);
        lemma_was_running(start, records, rules, tails, j, k);
        law_identical_digest(start, records, rules, None, tails, j);
    }
}

proof fn lemma_prefix_same<I: Invariant, T: TailSource>(
    start: CoreModel,
    records: Seq<RecordView>,
    rules: Seq<I>,
    tails: T,
    k: int,
    n: int,
)
    requires
        0 <= n <= k <= records.len(),
    ensures
        replayed(start, records.take(k), rules, None, tails, n) == replayed(
            start,
            records,
            rules,
            None,
            tails,
            n,
        ),
    decreases n,
{
    if n > 0 {
        lemma_prefix_same(start, records, rules, tails, k, n - 1);
        assert(records.take(k)[n - 1] == records[n - 1]);
    }
}

/// What a single-host broker does and records is what a replay does again:
/// from the same core, the recorded event gives the same core, the same event
/// and the same time.
pub proof fn law_broker_step_replays<T: TailSource>(
    m: broker::BrokerModel,
    conn: u64,
    msg: ToBrokerView,
    tails: T,
)
    requires
        m.seq is None,
        broker::on_message(m, conn, msg, tails).1.events.len() > 0,
    ensures
        ({
            let (n, step) = broker::on_message(m, conn, msg, tails);
            let (vt, o) = step.events[0];
            &&& step.events.len() == 1
            &&& vt == n.core.vt
            &&& redone(m.core, recorder::event_of(o), tails) == Some(
                (n.core, recorder::event_of(o)),
            )
        }),
{
    let (n, step) = broker::on_message(m, conn, msg, tails);
    match msg {
        ToBrokerView::Send { src, dst, payload, local_vt } => {
            hash::law_hex_round_trip(payload);
            assert(log::to_vaddr(log::to_addr(src)) == src);
            assert(log::to_vaddr(log::to_addr(dst)) == dst);
        },
        ToBrokerView::Bind { addr } => {
            assert(log::to_vaddr(log::to_addr(addr)) == addr);
        },
        _ => {},
    }
}

/// The same of connections that begin and end.
pub proof fn law_broker_connection_replays<T: TailSource>(
    m: broker::BrokerModel,
    conn: u64,
    tails: T,
)
    requires
        m.seq is None,
    ensures
        ({
            let (n, events) = broker::on_connect(m, conn);
            &&& events.len() == 1 && events[0].0 == n.core.vt
            &&& redone(m.core, recorder::event_of(events[0].1), tails) == Some(
                (n.core, recorder::event_of(events[0].1)),
            )
        }),
        ({
            let (n, events) = broker::on_disconnect(m, conn, tails);
            &&& events.len() == 1 && events[0].0 == n.core.vt
            &&& redone(m.core, recorder::event_of(events[0].1), tails) == Some(
                (n.core, recorder::event_of(events[0].1)),
            )
        }),
{
}

/// In a windowed run too, each send that is sealed and fed replays: from the
/// core that it met, with the recorded anchor, it gives the recorded event.
pub proof fn law_fed_send_replays<T: TailSource>(
    core: CoreModel,
    ops: Seq<crate::window::SendView>,
    tails: T,
)
    requires
        ops.len() > 0,
    ensures
        ({
            let (c, before) = broker::fed(core, ops.drop_last(), tails);
            let (n, events) = broker::fed(core, ops, tails);
            let e = recorder::event_of(events.last().1);
            &&& events == before.push(events.last())
            &&& events.last().0 == n.vt
            &&& redone(c, e, tails) == Some((n, e))
        }),
{
    let x = ops.last();
    hash::law_hex_round_trip(x.payload);
    assert(log::to_vaddr(log::to_addr(x.src)) == x.src);
    assert(log::to_vaddr(log::to_addr(x.dst)) == x.dst);
}

} // verus!
