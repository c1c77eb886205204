//! Operation inputs and their deterministic execution.
//!
//! The outcomes in a log follow from what the clients chose: who connected,
//! what was bound, which bytes were sent where, when a receive was tried. An
//! [`OpInput`] is that part of an operation. [`execute`] runs a sequence of
//! them through the decision core and computes every outcome again;
//! [`execute_and_record`] writes the result as a log.

use vstd::prelude::*;

use crate::config;
use crate::fault::{FaultModel, TailSource};
use crate::hash;
use crate::hash::{from_hex, to_hex};
use crate::log;
use crate::log::{
    send_outcome, Addr, Event, EventView, Header, HeaderView, Log, LogWriter, Meta, MetaView,
    RecordView, FORMAT, VERSION,
};
use crate::monitor;
use crate::monitor::{Invariant, Monitor, Seen, ViolationRecord, ViolationView};
use crate::netcore;
use crate::netcore::{copy_bytes, Core, CoreModel};
use crate::recorder;
use crate::recorder::{append_violations, recv_outcome};
use crate::text::copy_text;
use crate::wire::VAddr;

verus! {

/// The part of a broker operation that the client chose.
#[allow(inconsistent_fields)]
#[derive(Clone, PartialEq, Eq, Debug)]
pub enum OpInput {
    Connect { conn: u64 },
    Hello { conn: u64, node: u32 },
    Bind { conn: u64, addr: VAddr },
    Send { conn: u64, src: VAddr, dst: VAddr, payload: Vec<u8> },
    /// A receive; it is always executed as one that does not wait.
    Recv { conn: u64, blocking: bool },
    Disconnect { conn: u64 },
}

#[allow(inconsistent_fields)]
pub enum OpView {
    Connect { conn: u64 },
    Hello { conn: u64, node: u32 },
    Bind { conn: u64, addr: VAddr },
    Send { conn: u64, src: VAddr, dst: VAddr, payload: Seq<u8> },
    Recv { conn: u64, blocking: bool },
    Disconnect { conn: u64 },
}

impl View for OpInput {
    type V = OpView;

    open spec fn view(&self) -> OpView {
        match *self {
            OpInput::Connect { conn } => OpView::Connect { conn },
            OpInput::Hello { conn, node } => OpView::Hello { conn, node },
            OpInput::Bind { conn, addr } => OpView::Bind { conn, addr },
            OpInput::Send { conn, src, dst, payload } => OpView::Send {
                conn,
                src,
                dst,
                payload: payload@,
            },
            OpInput::Recv { conn, blocking } => OpView::Recv { conn, blocking },
            OpInput::Disconnect { conn } => OpView::Disconnect { conn },
        }
    }
}

pub open spec fn op_views(ops: Seq<OpInput>) -> Seq<OpView> {
    ops.map_values(|o: OpInput| o@)
}

/// The connection that an operation belongs to.
pub open spec fn conn_of(o: OpView) -> u64 {
    match o {
        OpView::Connect { conn } => conn,
        OpView::Hello { conn, node } => conn,
        OpView::Bind { conn, addr } => conn,
        OpView::Send { conn, src, dst, payload } => conn,
        OpView::Recv { conn, blocking } => conn,
        OpView::Disconnect { conn } => conn,
    }
}

/// What the client chose of a recorded event; nothing of violations and the
/// end. A payload that is not hexadecimal counts as empty.
pub open spec fn input_of(e: EventView) -> Option<OpView> {
    match e {
        EventView::Connect { conn } => Some(OpView::Connect { conn }),
        EventView::Hello { conn, node } => Some(OpView::Hello { conn, node }),
        EventView::Bind { conn, addr } => Some(OpView::Bind { conn, addr: log::to_vaddr(addr) }),
        EventView::Send { conn, src, dst, payload, .. } => Some(
            OpView::Send {
                conn,
                src: log::to_vaddr(src),
                dst: log::to_vaddr(dst),
                payload: match hash::unhex(payload) {
                    Some(b) => b,
                    None => Seq::empty(),
                },
            },
        ),
        EventView::Recv { conn, blocking, .. } => Some(OpView::Recv { conn, blocking }),
        EventView::Disconnect { conn } => Some(OpView::Disconnect { conn }),
        EventView::Violation { .. } => None,
        EventView::End { .. } => None,
    }
}

/// The inputs of the first `n` records.
pub open spec fn inputs_of(records: Seq<RecordView>, n: int) -> Seq<OpView>
    decreases n,
{
    if n <= 0 {
        Seq::empty()
    } else {
        match input_of(records[n - 1].e) {
            Some(o) => inputs_of(records, n - 1).push(o),
            None => inputs_of(records, n - 1),
        }
    }
}

fn same_bytes(a: &Vec<u8>, b: &Vec<u8>) -> (r: bool)
    ensures
        r == (a@ == b@),
{
    if a.len() != b.len() {
        return false;
    }
    let mut i: usize = 0;
    while i < a.len()
        invariant
            i <= a@.len(),
            a@.len() == b@.len(),
            forall|j: int| 0 <= j < i ==> a@[j] == b@[j],
        decreases a@.len() - i,
    {
        if a[i] != b[i] {
            return false;
        }
        i = i + 1;
    }
    assert(a@ =~= b@);
    true
}

fn read_payload(hex: &str) -> (b: Vec<u8>)
    ensures
        b@ == match hash::unhex(hex@) {
            Some(b) => b,
            None => Seq::empty(),
        },
{
    match from_hex(hex) {
        Some(b) => b,
        None => Vec::new(),
    }
}

impl OpInput {
    /// The connection this operation belongs to.
    #[must_use]
    pub fn conn(&self) -> (c: u64)
        ensures
            c == conn_of(self@),
    {
        match self {
            OpInput::Connect { conn } => *conn,
            OpInput::Hello { conn, node: _ } => *conn,
            OpInput::Bind { conn, addr: _ } => *conn,
            OpInput::Send { conn, src: _, dst: _, payload: _ } => *conn,
            OpInput::Recv { conn, blocking: _ } => *conn,
            OpInput::Disconnect { conn } => *conn,
        }
    }

    /// A copy.
    pub fn copy(&self) -> (r: Self)
        ensures
            r@ == self@,
    {
        match self {
            OpInput::Connect { conn } => OpInput::Connect { conn: *conn },
            OpInput::Hello { conn, node } => OpInput::Hello { conn: *conn, node: *node },
            OpInput::Bind { conn, addr } => OpInput::Bind { conn: *conn, addr: *addr },
            OpInput::Send { conn, src, dst, payload } => OpInput::Send {
                conn: *conn,
                src: *src,
                dst: *dst,
                payload: copy_bytes(payload.as_slice()),
            },
            OpInput::Recv { conn, blocking } => OpInput::Recv { conn: *conn, blocking: *blocking },
            OpInput::Disconnect { conn } => OpInput::Disconnect { conn: *conn },
        }
    }

    /// Whether two operations are the same.
    pub fn same(&self, other: &Self) -> (b: bool)
        ensures
            b == (self@ == other@),
    {
        match (self, other) {
            (OpInput::Connect { conn: a }, OpInput::Connect { conn: b }) => *a == *b,
            (OpInput::Hello { conn: a, node: m }, OpInput::Hello { conn: b, node: n }) => *a == *b
                && *m == *n,
            (OpInput::Bind { conn: a, addr: m }, OpInput::Bind { conn: b, addr: n }) => *a == *b
                && *m == *n,
            (
                OpInput::Send { conn, src, dst, payload },
                OpInput::Send { conn: conn2, src: src2, dst: dst2, payload: payload2 },
            ) => *conn == *conn2 && *src == *src2 && *dst == *dst2 && same_bytes(
                payload,
                payload2,
            ),
            (OpInput::Recv { conn: a, blocking: m }, OpInput::Recv { conn: b, blocking: n }) => *a
                == *b && *m == *n,
            (OpInput::Disconnect { conn: a }, OpInput::Disconnect { conn: b }) => *a == *b,
            _ => false,
        }
    }

    /// What the client chose of an event, if anything.
    fn of_event(e: &Event) -> (r: Option<Self>)
        ensures
            match r {
                Some(o) => input_of(e@) == Some(o@),
                None => input_of(e@) is None,
            },
    {
        match e {
            Event::Connect { conn } => Some(OpInput::Connect { conn: *conn }),
            Event::Hello { conn, node } => Some(OpInput::Hello { conn: *conn, node: *node }),
            Event::Bind { conn, addr } => Some(
                OpInput::Bind { conn: *conn, addr: VAddr { ip: addr.ip, port: addr.port } },
            ),
            Event::Send { conn, src, dst, payload, .. } => Some(
                OpInput::Send {
                    conn: *conn,
                    src: VAddr { ip: src.ip, port: src.port },
                    dst: VAddr { ip: dst.ip, port: dst.port },
                    payload: read_payload(payload.as_str()),
                },
            ),
            Event::Recv { conn, blocking, .. } => Some(
                OpInput::Recv { conn: *conn, blocking: *blocking },
            ),
            Event::Disconnect { conn } => Some(OpInput::Disconnect { conn: *conn }),
            Event::Violation { .. } => None,
            Event::End { .. } => None,
        }
    }

    /// The inputs of a log, in order. Violations and the end carry none.
    #[must_use]
    pub fn from_log(log: &Log) -> (r: Vec<Self>)
        ensures
            op_views(r@) == inputs_of(log@.records, log@.records.len() as int),
    {
        let mut r: Vec<OpInput> = Vec::new();
        let mut i: usize = 0;
        assert(op_views(r@) =~= Seq::<OpView>::empty());
        while i < log.records.len()
            invariant
                i <= log.records@.len(),
                op_views(r@) == inputs_of(log@.records, i as int),
            decreases log.records@.len() - i,
        {
            let rec = &log.records[i];
            assert(log@.records[i as int] == rec@);
            if let Some(o) = Self::of_event(&rec.e) {
                let ghost before = op_views(r@);
                let ghost ov = o@;
                r.push(o);
                assert(op_views(r@) =~= before.push(ov));
            }
            i = i + 1;
        }
        r
    }
}

/// Copies of the operations from `lo` to `hi`.
pub fn copy_ops(ops: &Vec<OpInput>, lo: usize, hi: usize) -> (r: Vec<OpInput>)
    requires
        lo <= hi <= ops@.len(),
    ensures
        op_views(r@) == op_views(ops@).subrange(lo as int, hi as int),
{
    let mut r: Vec<OpInput> = Vec::new();
    let mut i: usize = lo;
    assert(op_views(r@) =~= op_views(ops@).subrange(lo as int, lo as int));
    while i < hi
        invariant
            lo <= i <= hi <= ops@.len(),
            op_views(r@) == op_views(ops@).subrange(lo as int, i as int),
        decreases hi - i,
    {
        let o = ops[i].copy();
        let ghost before = op_views(r@);
        let ghost ov = o@;
        r.push(o);
        proof {
            assert(op_views(r@) =~= before.push(ov));
            assert(op_views(ops@).subrange(lo as int, i as int + 1) =~= before.push(ov));
        }
        i = i + 1;
    }
    r
}

// ---------------------------------------------------------------------------
// Execution
// ---------------------------------------------------------------------------

/// One operation put to a core: the state behind it, and the event with its
/// outcome. Deliveries are anchored at time 0.
pub open spec fn applied<T: TailSource>(c: CoreModel, o: OpView, tails: T) -> (
    CoreModel,
    EventView,
) {
    match o {
        OpView::Connect { conn } => (netcore::core_connect(c, conn), EventView::Connect { conn }),
        OpView::Hello { conn, node } => (c, EventView::Hello { conn, node }),
        OpView::Bind { conn, addr } => (
            netcore::core_bind(c, conn, addr),
            EventView::Bind { conn, addr: log::to_addr(addr) },
        ),
        OpView::Send { conn, src, dst, payload } => {
            let tail = netcore::tail_for(c, src, dst, tails);
            (
                netcore::core_send(c, src, dst, payload, 0, tail),
                EventView::Send {
                    conn,
                    src: log::to_addr(src),
                    dst: log::to_addr(dst),
                    chan_seq: netcore::next_seq(c, src, dst),
                    send_vt: 0,
                    payload: hash::hex(payload),
                    outcome: log::outcome_of(
                        netcore::send_answer(c, src, dst, payload.len(), 0, tail),
                    ),
                },
            )
        },
        OpView::Recv { conn, blocking } => (
            netcore::core_recv(c, conn, None),
            EventView::Recv {
                conn,
                blocking,
                outcome: recorder::recv_outcome_of(netcore::recv_answer(c, conn, None)),
            },
        ),
        OpView::Disconnect { conn } => (
            netcore::core_disconnect(c, conn),
            EventView::Disconnect { conn },
        ),
    }
}

/// The core behind the first `n` operations.
pub open spec fn core_at<T: TailSource>(start: CoreModel, ops: Seq<OpView>, tails: T, n: int)
    -> CoreModel
    decreases n,
{
    if n <= 0 {
        start
    } else {
        applied(core_at(start, ops, tails, n - 1), ops[n - 1], tails).0
    }
}

/// The event of the operation at `i`, with its place and the time behind it.
pub open spec fn event_at<T: TailSource>(start: CoreModel, ops: Seq<OpView>, tails: T, i: int)
    -> Seen {
    Seen {
        op: i as u64,
        vt: core_at(start, ops, tails, i + 1).vt,
        e: applied(core_at(start, ops, tails, i), ops[i], tails).1,
    }
}

/// The events of the first `n` operations.
pub open spec fn events_at<T: TailSource>(start: CoreModel, ops: Seq<OpView>, tails: T, n: int)
    -> Seq<Seen> {
    Seq::new(n as nat, |i: int| event_at(start, ops, tails, i))
}

/// One executed operation: its place among the inputs, the virtual time
/// behind it, and the event.
pub type ExecEvent = (u64, u64, Event);

pub open spec fn exec_views(events: Seq<ExecEvent>) -> Seq<Seen> {
    events.map_values(|x: ExecEvent| Seen { op: x.0, vt: x.1, e: x.2@ })
}

/// The result of executing a sequence of inputs.
pub struct ExecOutcome {
    pub events: Vec<ExecEvent>,
    /// What the rules raised; `op` is a place among the inputs.
    pub violations: Vec<ViolationRecord>,
    /// How many datagrams were sent, and how many of them dropped.
    pub stats: (u64, u64),
    pub final_vt: u64,
}

pub struct ExecView {
    pub events: Seq<Seen>,
    pub violations: Seq<ViolationView>,
    pub stats: (u64, u64),
    pub final_vt: u64,
}

impl View for ExecOutcome {
    type V = ExecView;

    open spec fn view(&self) -> ExecView {
        ExecView {
            events: exec_views(self.events@),
            violations: monitor::violation_views(self.violations@),
            stats: self.stats,
            final_vt: self.final_vt,
        }
    }
}

/// What executing `ops` on a core gives.
pub open spec fn executed<I: Invariant, T: TailSource>(
    start: CoreModel,
    ops: Seq<OpView>,
    rules: Seq<I>,
    tails: T,
) -> ExecView {
    let n = ops.len() as int;
    let events = events_at(start, ops, tails, n);
    let end = core_at(start, ops, tails, n);
    ExecView {
        events,
        violations: monitor::all_raised(rules, events, n),
        stats: (end.sent, end.dropped),
        final_vt: end.vt,
    }
}

/// What executing `ops` under a seed and a network-condition text gives; the
/// message of the text's error where it has one.
pub open spec fn execution_of<I: Invariant, T: TailSource>(
    seed: u64,
    net: Seq<char>,
    readings: Seq<Option<u64>>,
    ops: Seq<OpView>,
    rules: Seq<I>,
    tails: T,
) -> Result<ExecView, Seq<char>> {
    match config::model_of(seed, config::clauses_of(net), readings, readings.len() as int) {
        Err(e) => Err(config::error_text(e)),
        Ok(m) => Ok(executed(netcore::core_new(m), ops, rules, tails)),
    }
}

/// Put one operation to the core.
fn apply<T: TailSource>(core: &mut Core, input: &OpInput, tails: &T) -> (e: Event)
    requires
        old(core).wf(),
        old(core)@.sent < u64::MAX,
    ensures
        final(core).wf(),
        applied(old(core)@, input@, *tails) == (final(core)@, e@),
{
    match input {
        OpInput::Connect { conn } => {
            core.connect(*conn);
            Event::Connect { conn: *conn }
        },
        OpInput::Hello { conn, node } => Event::Hello { conn: *conn, node: *node },
        OpInput::Bind { conn, addr } => {
            core.bind(*conn, *addr);
            Event::Bind { conn: *conn, addr: Addr { ip: addr.ip, port: addr.port } }
        },
        OpInput::Send { conn, src, dst, payload } => {
            let (chan_seq, res) = core.send(*src, *dst, payload.as_slice(), 0, tails);
            Event::Send {
                conn: *conn,
                src: Addr { ip: src.ip, port: src.port },
                dst: Addr { ip: dst.ip, port: dst.port },
                chan_seq,
                send_vt: 0,
                payload: to_hex(payload.as_slice()),
                outcome: send_outcome(res),
            }
        },
        OpInput::Recv { conn, blocking } => {
            let got = core.recv(*conn);
            Event::Recv { conn: *conn, blocking: *blocking, outcome: recv_outcome(&got) }
        },
        OpInput::Disconnect { conn } => {
            core.disconnect(*conn);
            Event::Disconnect { conn: *conn }
        },
    }
}

/// A core counts no more sends than it was put operations.
pub proof fn lemma_sent<T: TailSource>(start: CoreModel, ops: Seq<OpView>, tails: T, n: int)
    requires
        start.sent == 0,
        0 <= n <= u64::MAX,
    ensures
        core_at(start, ops, tails, n).sent <= n,
    decreases n,
{
    if n > 0 {
        lemma_sent(start, ops, tails, n - 1);
    }
}

/// The rules behind one more event.
pub proof fn lemma_watch<I: Invariant>(
    rules: Seq<I>,
    before: Seq<I>,
    after: Seq<I>,
    seen: Seq<Seen>,
    now: Seen,
)
    requires
        monitor::all_shown(rules, before, seen),
        monitor::all_shown(before, after, seq![now]),
    ensures
        monitor::all_shown(rules, after, seen.push(now)),
        monitor::raised(before, Seq::empty(), now, before.len() as int) == monitor::raised(
            rules,
            seen,
            now,
            rules.len() as int,
        ),
        monitor::all_raised(rules, seen.push(now), seen.len() as int + 1) == monitor::all_raised(
            rules,
            seen,
            seen.len() as int,
        ) + monitor::raised(rules, seen, now, rules.len() as int),
{
    monitor::law_live_and_later_agree(rules, before, seen, now);
    monitor::lemma_raised_shown(rules, before, seen, Seq::empty(), now, rules.len() as int);
    assert(seen + Seq::<Seen>::empty() =~= seen);
    monitor::lemma_shown_again(rules, before, after, seen, seq![now]);
    assert(seen + seq![now] =~= seen.push(now));
}

proof fn lemma_nothing_shown<I: Invariant>(rules: Seq<I>)
    requires
        monitor::all_ok(rules),
    ensures
        monitor::all_shown(rules, rules, Seq::empty()),
{
    assert forall|i: int| 0 <= i < rules.len() implies monitor::shown(
        #[trigger] rules[i],
        rules[i],
        Seq::empty(),
    ) by {
        assert(rules[i].history() + Seq::<Seen>::empty() =~= rules[i].history());
    }
}

/// Execute `ops` under a seed and a network-condition text, and show every
/// event to the rules. `readings` holds what the text's loss values read as
/// (see [`config::loss_values`]).
pub fn execute<I: Invariant, T: TailSource>(
    seed: u64,
    net: &str,
    readings: &Vec<Option<u64>>,
    ops: &Vec<OpInput>,
    rules: Vec<I>,
    tails: &T,
) -> (r: Result<ExecOutcome, String>)
    requires
        readings@.len() == config::clauses_of(net@).len(),
        monitor::all_ok(rules@),
    ensures
        match r {
            Ok(o) => execution_of(seed, net@, readings@, op_views(ops@), rules@, *tails) == Ok::<
                ExecView,
                Seq<char>,
            >(o@),
            Err(e) => execution_of(seed, net@, readings@, op_views(ops@), rules@, *tails) == Err::<
                ExecView,
                Seq<char>,
            >(e@),
        },
{
    let model = match config::parse(seed, net, readings) {
        Ok(m) => m,
        Err(e) => {
            return Err(e.text());
        },
    };
    let ghost start = netcore::core_new(model@);
    let ghost inputs = op_views(ops@);
    let ghost rules0 = rules@;
    let mut core = Core::new(model);
    let mut monitor = Monitor { rules, raised: Vec::new() };
    let mut events: Vec<ExecEvent> = Vec::new();
    let mut i: usize = 0;
    proof {
        lemma_nothing_shown(rules0);
        assert(events_at(start, inputs, *tails, 0) =~= Seq::<Seen>::empty());
        assert(exec_views(events@) =~= events_at(start, inputs, *tails, 0));
        assert(monitor::violation_views(monitor.raised@) =~= Seq::<ViolationView>::empty());
    }
    while i < ops.len()
        invariant
            i <= ops@.len(),
            inputs == op_views(ops@),
            start.sent == 0,
            core.wf(),
            core@ == core_at(start, inputs, *tails, i as int),
            monitor.wf(),
            monitor::all_shown(
                rules0,
                monitor.rules@,
                events_at(start, inputs, *tails, i as int),
            ),
            exec_views(events@) == events_at(start, inputs, *tails, i as int),
            monitor::violation_views(monitor.raised@) == monitor::all_raised(
                rules0,
                events_at(start, inputs, *tails, i as int),
                i as int,
            ),
        decreases ops@.len() - i,
    {
        let ghost seen = events_at(start, inputs, *tails, i as int);
        let ghost before = monitor.rules@;
        proof {
            lemma_sent(start, inputs, *tails, i as int);
            assert(inputs[i as int] == ops@[i as int]@);
        }
        let e = apply(&mut core, &ops[i], tails);
        let op: u64 = i as u64;
        let vt: u64 = core.vt();
        let _n: usize = monitor.observe(op, vt, &e);
        let ghost now = Seen { op, vt, e: e@ };
        let ghost sofar = exec_views(events@);
        events.push((op, vt, e));
        proof {
            assert(now == event_at(start, inputs, *tails, i as int));
            assert(exec_views(events@) =~= sofar.push(now));
            assert(events_at(start, inputs, *tails, i as int + 1) =~= seen.push(now));
            lemma_watch(rules0, before, monitor.rules@, seen, now);
        }
        i = i + 1;
    }
    let final_vt: u64 = core.vt();
    Ok(ExecOutcome { events, violations: monitor.raised, stats: core.stats(), final_vt })
}

// ---------------------------------------------------------------------------
// Recording
// ---------------------------------------------------------------------------

/// Violations as log events, all at time `vt`.
pub open spec fn marks(vt: u64, v: Seq<ViolationView>) -> Seq<(u64, EventView)> {
    v.map_values(|x: ViolationView| (vt, recorder::violation_event(x)))
}

/// What is recorded of the first `n` operations: each event, and right behind
/// it what the rules raise at it.
pub open spec fn recorded_events<I: Invariant, T: TailSource>(
    start: CoreModel,
    ops: Seq<OpView>,
    rules: Seq<I>,
    tails: T,
    n: int,
) -> Seq<(u64, EventView)>
    decreases n,
{
    if n <= 0 {
        Seq::empty()
    } else {
        let now = event_at(start, ops, tails, n - 1);
        let new = monitor::raised(
            rules,
            events_at(start, ops, tails, n - 1),
            now,
            rules.len() as int,
        );
        recorded_events(start, ops, rules, tails, n - 1).push((now.vt, now.e)) + marks(now.vt, new)
    }
}

/// Everything that is recorded: the operations and, last, the totals.
pub open spec fn recording<I: Invariant, T: TailSource>(
    h: HeaderView,
    start: CoreModel,
    ops: Seq<OpView>,
    rules: Seq<I>,
    tails: T,
) -> Seq<(u64, EventView)> {
    let events = recorded_events(start, ops, rules, tails, ops.len() as int);
    let end = log::end_event(log::written(h, events, events.len() as int));
    events.push((core_at(start, ops, tails, ops.len() as int).vt, end))
}

/// The header of a recorded execution.
pub open spec fn exec_header(seed: u64, net: Seq<char>, label: Seq<char>) -> HeaderView {
    HeaderView {
        format: FORMAT@,
        version: VERSION,
        seed,
        net,
        window_ns: 0,
        meta: MetaView { recorded_unix_ms: None, weft_version: None, label: Some(label) },
    }
}

pub proof fn lemma_written_prefix(
    h: HeaderView,
    a: Seq<(u64, EventView)>,
    b: Seq<(u64, EventView)>,
    n: int,
)
    requires
        0 <= n <= a.len(),
        n <= b.len(),
        forall|i: int| 0 <= i < n ==> a[i] == b[i],
    ensures
        log::written(h, a, n) == log::written(h, b, n),
    decreases n,
{
    if n > 0 {
        lemma_written_prefix(h, a, b, n - 1);
    }
}

/// Appending violations is writing their events.
pub proof fn lemma_written_marks(
    h: HeaderView,
    a: Seq<(u64, EventView)>,
    vt: u64,
    v: Seq<ViolationView>,
    n: int,
)
    requires
        0 <= n <= v.len(),
    ensures
        recorder::with_violations(log::written(h, a, a.len() as int), vt, v, n) == log::written(
            h,
            a + marks(vt, v),
            a.len() + n,
        ),
    decreases n,
{
    if n == 0 {
        lemma_written_prefix(h, a, a + marks(vt, v), a.len() as int);
    } else {
        lemma_written_marks(h, a, vt, v, n - 1);
        assert((a + marks(vt, v))[a.len() + n - 1] == (vt, recorder::violation_event(v[n - 1])));
    }
}

/// At most one record for each operation and rule, and one for the operation.
proof fn lemma_recorded_len<I: Invariant, T: TailSource>(
    start: CoreModel,
    ops: Seq<OpView>,
    rules: Seq<I>,
    tails: T,
    n: int,
)
    requires
        0 <= n,
    ensures
        n <= recorded_events(start, ops, rules, tails, n).len() <= n * (rules.len() + 1),
    decreases n,
{
    if n > 0 {
        lemma_recorded_len(start, ops, rules, tails, n - 1);
        recorder::lemma_raised_len(
            rules,
            events_at(start, ops, tails, n - 1),
            event_at(start, ops, tails, n - 1),
            rules.len() as int,
        );
        let k = rules.len() + 1;
        assert((n - 1) * k + k == n * k) by (nonlinear_arith);
    }
}

/// Run `ops` from a new core and record each event, with what the rules raise
/// at it behind it. Answers the writer, the violations and the last time.
#[verifier::rlimit(40)]
#[verifier::spinoff_prover]
fn record_ops<I: Invariant, T: TailSource>(
    model: FaultModel,
    header: &Header,
    ops: &Vec<OpInput>,
    rules: Vec<I>,
    tails: &T,
) -> (r: (LogWriter, Vec<ViolationRecord>, u64))
    requires
        monitor::all_ok(rules@),
        ops@.len() * (rules@.len() + 1) < u64::MAX,
    ensures
        ({
            let start = netcore::core_new(model@);
            let n = ops@.len() as int;
            let recs = recorded_events(start, op_views(ops@), rules@, *tails, n);
            &&& r.0.wf()
            &&& recs.len() < u64::MAX
            &&& r.0@ == log::written(header@, recs, recs.len() as int)
            &&& r.2 == core_at(start, op_views(ops@), *tails, n).vt
            &&& monitor::violation_views(r.1@) == executed(
                start,
                op_views(ops@),
                rules@,
                *tails,
            ).violations
        }),
{
    let ghost h = header@;
    let ghost start = netcore::core_new(model@);
    let ghost inputs = op_views(ops@);
    let ghost rules0 = rules@;
    let mut core = Core::new(model);
    let mut monitor = Monitor { rules, raised: Vec::new() };
    let mut w = LogWriter::new(header);
    let mut i: usize = 0;
    proof {
        lemma_nothing_shown(rules0);
        assert(events_at(start, inputs, *tails, 0) =~= Seq::<Seen>::empty());
        assert(monitor::violation_views(monitor.raised@) =~= Seq::<ViolationView>::empty());
    }
    while i < ops.len()
        invariant
            i <= ops@.len(),
            inputs == op_views(ops@),
            start.sent == 0,
            core.wf(),
            core@ == core_at(start, inputs, *tails, i as int),
            monitor.wf(),
            w.wf(),
            ops@.len() * (rules0.len() + 1) < u64::MAX,
            monitor::all_shown(
                rules0,
                monitor.rules@,
                events_at(start, inputs, *tails, i as int),
            ),
            w@ == log::written(
                h,
                recorded_events(start, inputs, rules0, *tails, i as int),
                recorded_events(start, inputs, rules0, *tails, i as int).len() as int,
            ),
            monitor::violation_views(monitor.raised@) == monitor::all_raised(
                rules0,
                events_at(start, inputs, *tails, i as int),
                i as int,
            ),
        decreases ops@.len() - i,
    {
        let ghost seen = events_at(start, inputs, *tails, i as int);
        let ghost recs = recorded_events(start, inputs, rules0, *tails, i as int);
        let ghost before = monitor.rules@;
        let ghost found = monitor::violation_views(monitor.raised@);
        proof {
            lemma_sent(start, inputs, *tails, i as int);
            assert(inputs[i as int] == ops@[i as int]@);
            lemma_recorded_len(start, inputs, rules0, *tails, i as int);
            let k = rules0.len() + 1;
            let all = ops@.len() as int;
            assert(i * k + k <= all * k) by (nonlinear_arith)
                requires
                    i + 1 <= all,
                    0 <= k,
            ;
            log::lemma_written(h, recs, recs.len() as int);
        }
        let e = apply(&mut core, &ops[i], tails);
        let op: u64 = i as u64;
        let vt: u64 = core.vt();
        let known: usize = monitor.raised.len();
        let _n: usize = monitor.observe(op, vt, &e);
        let ghost now = Seen { op, vt, e: e@ };
        let _op: u64 = w.append(vt, e);
        proof {
            assert(now == event_at(start, inputs, *tails, i as int));
            assert(events_at(start, inputs, *tails, i as int + 1) =~= seen.push(now));
            lemma_watch(rules0, before, monitor.rules@, seen, now);
            let new = monitor::raised(rules0, seen, now, rules0.len() as int);
            recorder::lemma_raised_len(rules0, seen, now, rules0.len() as int);
            assert(monitor::violation_views(monitor.raised@).skip(known as int) =~= new);
            let one = recs.push((vt, now.e));
            lemma_written_prefix(h, recs, one, recs.len() as int);
            assert(w@ == log::written(h, one, one.len() as int));
            lemma_written_marks(h, one, vt, new, new.len() as int);
        }
        append_violations(&mut w, vt, &monitor.raised, known);
        i = i + 1;
    }
    proof {
        lemma_recorded_len(start, inputs, rules0, *tails, inputs.len() as int);
    }
    let final_vt: u64 = core.vt();
    (w, monitor.raised, final_vt)
}

/// Execute `ops` and write the result as a log: the violations at the places
/// where they were raised, and a last record with the totals. Answers the
/// text of the log and the violations.
pub fn execute_and_record<I: Invariant, T: TailSource>(
    seed: u64,
    net: &str,
    readings: &Vec<Option<u64>>,
    ops: &Vec<OpInput>,
    rules: Vec<I>,
    label: &str,
    tails: &T,
) -> (r: Result<(String, Vec<ViolationRecord>), String>)
    requires
        readings@.len() == config::clauses_of(net@).len(),
        monitor::all_ok(rules@),
        ops@.len() * (rules@.len() + 1) < u64::MAX,
    ensures
        match config::model_of(seed, config::clauses_of(net@), readings@, readings@.len() as int) {
            Err(e) => r is Err && r->Err_0@ == config::error_text(e),
            Ok(m) => r is Ok && ({
                let h = exec_header(seed, net@, label@);
                let start = netcore::core_new(m);
                let events = recording(h, start, op_views(ops@), rules@, *tails);
                &&& r->Ok_0.0@ == log::written(h, events, events.len() as int).out
                &&& monitor::violation_views(r->Ok_0.1@) == executed(
                    start,
                    op_views(ops@),
                    rules@,
                    *tails,
                ).violations
            }),
        },
{
    let model = match config::parse(seed, net, readings) {
        Ok(m) => m,
        Err(e) => {
            return Err(e.text());
        },
    };
    let header = Header {
        format: copy_text(FORMAT),
        version: VERSION,
        seed,
        net: copy_text(net),
        window_ns: 0,
        meta: Meta { recorded_unix_ms: None, weft_version: None, label: Some(copy_text(label)) },
    };
    let ghost h = exec_header(seed, net@, label@);
    let ghost start = netcore::core_new(model@);
    let ghost inputs = op_views(ops@);
    let ghost rules0 = rules@;
    let (mut w, violations, final_vt) = record_ops(model, &header, ops, rules, tails);
    proof {
        let recs = recorded_events(start, inputs, rules0, *tails, inputs.len() as int);
        log::lemma_written(h, recs, recs.len() as int);
        lemma_written_prefix(
            h,
            recs,
            recording(h, start, inputs, rules0, *tails),
            recs.len() as int,
        );
    }
    w.finish(final_vt);
    Ok((w.take_text(), violations))
}

} // verus!
