//! What the broker decides: the reply to each message, what is observed of
//! it, and when a waiting receive is to be tried again. Sockets, threads and
//! locks are around it; every message is handled in one step, and the order
//! of the steps is the order of the recording.

use std::collections::HashSet;

use vstd::prelude::*;

use crate::fault;
use crate::fault::{FaultModel, TailSource};
use crate::netcore;
use crate::netcore::{copy_bytes, Core, CoreModel, PendingView, RecvResult, SendResult};
use crate::text;
use crate::text::{copy_text, push_dec, push_text};
use crate::window;
use crate::window::{ConnState, SendView, SeqError, SeqModel, SeqSend, WindowSequencer, INFINITY};
use crate::window_laws;
use crate::wire::{FromBroker, FromBrokerView, ToBroker, ToBrokerView, VAddr};

verus! {

/// One operation of the broker, with the decision made.
#[allow(inconsistent_fields)]
#[derive(Debug)]
pub enum Observed {
    Connect { conn: u64 },
    Hello { conn: u64, node: u32 },
    Bind { conn: u64, addr: VAddr },
    Send {
        conn: u64,
        src: VAddr,
        dst: VAddr,
        chan_seq: u64,
        /// The time that the delivery was anchored to; 0 on a single host.
        send_vt: u64,
        payload: Vec<u8>,
        result: SendResult,
    },
    /// A completed receive. One that waits is observed when it succeeds.
    Recv { conn: u64, blocking: bool, result: RecvResult },
    Disconnect { conn: u64 },
}

/// What an [`Observed`] says.
#[allow(inconsistent_fields)]
pub enum ObservedView {
    Connect { conn: u64 },
    Hello { conn: u64, node: u32 },
    Bind { conn: u64, addr: VAddr },
    Send {
        conn: u64,
        src: VAddr,
        dst: VAddr,
        chan_seq: u64,
        send_vt: u64,
        payload: Seq<u8>,
        result: SendResult,
    },
    Recv { conn: u64, blocking: bool, result: Option<PendingView> },
    Disconnect { conn: u64 },
}

impl View for Observed {
    type V = ObservedView;

    open spec fn view(&self) -> ObservedView {
        match *self {
            Observed::Connect { conn } => ObservedView::Connect { conn },
            Observed::Hello { conn, node } => ObservedView::Hello { conn, node },
            Observed::Bind { conn, addr } => ObservedView::Bind { conn, addr },
            Observed::Send { conn, src, dst, chan_seq, send_vt, payload, result } =>
                ObservedView::Send {
                conn,
                src,
                dst,
                chan_seq,
                send_vt,
                payload: payload@,
                result,
            },
            Observed::Recv { conn, blocking, result } => ObservedView::Recv {
                conn,
                blocking,
                result: netcore::received(result),
            },
            Observed::Disconnect { conn } => ObservedView::Disconnect { conn },
        }
    }
}

/// What is observed, each with the core's virtual time behind it.
pub open spec fn event_views(e: Seq<(u64, Observed)>) -> Seq<(u64, ObservedView)> {
    e.map_values(|p: (u64, Observed)| (p.0, p.1@))
}

/// What the handling of one message gives.
pub struct Step {
    /// What to send back, if anything.
    pub reply: Option<FromBroker>,
    /// Whether the request waits: it is to be tried again, by
    /// [`BrokerState::poll_recv`], once another step notifies.
    pub wait: bool,
    /// Whether waiting requests are to be tried again.
    pub notify: bool,
    /// The violation for which the sequencer refused the message.
    pub rejected: Option<SeqError>,
    /// What was observed, in order.
    pub events: Vec<(u64, Observed)>,
}

/// What a [`Step`] says.
pub struct StepView {
    pub reply: Option<FromBrokerView>,
    pub wait: bool,
    pub notify: bool,
    pub rejected: Option<SeqError>,
    pub events: Seq<(u64, ObservedView)>,
}

pub open spec fn reply_view(r: Option<FromBroker>) -> Option<FromBrokerView> {
    match r {
        Some(m) => Some(m@),
        None => None,
    }
}

impl View for Step {
    type V = StepView;

    open spec fn view(&self) -> StepView {
        StepView {
            reply: reply_view(self.reply),
            wait: self.wait,
            notify: self.notify,
            rejected: self.rejected,
            events: event_views(self.events@),
        }
    }
}

/// The mathematical state of the broker.
pub struct BrokerModel {
    pub core: CoreModel,
    /// The sequencer of a windowed broker.
    pub seq: Option<SeqModel>,
    /// The largest distance seen between a node's local time and the core's.
    pub max_skew: u64,
    /// The first protocol violation.
    pub violation: Option<Seq<char>>,
    /// The nodes that said hello.
    pub nodes: Set<u32>,
    /// Connections accepted and not yet disconnected.
    pub live: u64,
    /// The connections that said hello.
    pub hello: Set<u64>,
    /// The connections that said goodbye.
    pub goodbye: Set<u64>,
    /// How many nodes have to say hello before a window seals.
    pub expected: u32,
    /// How many sends one node may buffer in one window; 0 for any number.
    pub limit: u64,
}

/// A violation as text: the variant with its fields.
pub open spec fn seq_error_text(e: SeqError) -> Seq<char> {
    match e {
        SeqError::UnknownConn(c) => "UnknownConn("@ + text::dec(c as nat) + ")"@,
        SeqError::NonMonotone { conn, prev, got } => "NonMonotone { conn: "@ + text::dec(
            conn as nat,
        ) + ", prev: "@ + text::dec(prev as nat) + ", got: "@ + text::dec(got as nat) + " }"@,
        SeqError::LateOp { conn, local_vt, horizon } => "LateOp { conn: "@ + text::dec(conn as nat)
            + ", local_vt: "@ + text::dec(local_vt as nat) + ", horizon: "@ + text::dec(
            horizon as nat,
        ) + " }"@,
    }
}

fn push_seq_error(out: &mut String, e: &SeqError)
    ensures
        final(out)@ == old(out)@ + seq_error_text(*e),
{
    match e {
        SeqError::UnknownConn(c) => {
            push_text(out, "UnknownConn(");
            push_dec(out, *c);
            push_text(out, ")");
        },
        SeqError::NonMonotone { conn, prev, got } => {
            push_text(out, "NonMonotone { conn: ");
            push_dec(out, *conn);
            push_text(out, ", prev: ");
            push_dec(out, *prev);
            push_text(out, ", got: ");
            push_dec(out, *got);
            push_text(out, " }");
        },
        SeqError::LateOp { conn, local_vt, horizon } => {
            push_text(out, "LateOp { conn: ");
            push_dec(out, *conn);
            push_text(out, ", local_vt: ");
            push_dec(out, *local_vt);
            push_text(out, ", horizon: ");
            push_dec(out, *horizon);
            push_text(out, " }");
        },
    }
    assert(out@ =~= old(out)@ + seq_error_text(*e));
}

/// `rejected <what> on conn <conn>: <error>`.
pub open spec fn rejection_text(what: Seq<char>, conn: u64, e: SeqError) -> Seq<char> {
    "rejected "@ + what + " on conn "@ + text::dec(conn as nat) + ": "@ + seq_error_text(e)
}

pub open spec fn crash_text(conn: u64) -> Seq<char> {
    "conn "@ + text::dec(conn as nat) + " closed without goodbye (node crash)"@
}

/// `conn <conn> joined again as node <node> (reconnect splice)`.
pub open spec fn splice_text(conn: u64, node_id: u32) -> Seq<char> {
    "conn "@ + text::dec(conn as nat) + " joined again as node "@ + text::dec(node_id as nat)
        + " (reconnect splice)"@
}

/// Whether a hello would join a second life to a first: of a node that has
/// joined before, or of a connection that has.
pub open spec fn spliced(m: BrokerModel, conn: u64, node_id: u32) -> bool {
    m.nodes.contains(node_id) || m.hello.contains(conn)
}

/// `node <node> of host <host> buffered more than <limit> sends in one window`.
pub open spec fn crowd_text(x: SendView, limit: u64) -> Seq<char> {
    "node "@ + text::dec(x.node_id as nat) + " of host "@ + text::dec(x.host_id as nat)
        + " buffered more than "@ + text::dec(limit as nat) + " sends in one window"@
}

/// The first violation stays.
pub open spec fn latched(m: BrokerModel, why: Seq<char>) -> BrokerModel {
    if m.violation is Some {
        m
    } else {
        BrokerModel { violation: Some(why), ..m }
    }
}

/// The distance of two times.
pub open spec fn distance(a: u64, b: u64) -> u64 {
    if a < b {
        (b - a) as u64
    } else {
        (a - b) as u64
    }
}

/// The state with the skew of a local time taken into account; a time of 0
/// comes from a caller without a clock.
pub open spec fn skewed(m: BrokerModel, local_vt: u64) -> BrokerModel {
    if local_vt > 0 && distance(local_vt, m.core.vt) > m.max_skew {
        BrokerModel { max_skew: distance(local_vt, m.core.vt), ..m }
    } else {
        m
    }
}

/// The core after it was fed sends in the given order, and what was observed.
pub open spec fn fed<T: TailSource>(core: CoreModel, ops: Seq<SendView>, tails: T) -> (
    CoreModel,
    Seq<(u64, ObservedView)>,
)
    decreases ops.len(),
{
    if ops.len() == 0 {
        (core, Seq::empty())
    } else {
        let (c, events) = fed(core, ops.drop_last(), tails);
        let x = ops.last();
        let tail = netcore::tail_for(c, x.src, x.dst, tails);
        let n = netcore::core_send(c, x.src, x.dst, x.payload, x.local_vt, tail);
        (
            n,
            events.push(
                (
                    n.vt,
                    ObservedView::Send {
                        conn: x.conn,
                        src: x.src,
                        dst: x.dst,
                        chan_seq: netcore::next_seq(c, x.src, x.dst),
                        send_vt: x.local_vt,
                        payload: x.payload,
                        result: netcore::send_answer(
                            c,
                            x.src,
                            x.dst,
                            x.payload.len(),
                            x.local_vt,
                            tail,
                        ),
                    },
                ),
            ),
        )
    }
}

/// Whether enough nodes have joined for windows to seal.
pub open spec fn joined(m: BrokerModel) -> bool {
    m.nodes.len() >= m.expected
}

/// The earliest time at which a connection can send on account of what it knows
/// or what waits for it: its frontier, or, while it waits in a blocking
/// receive, the delivery that wakes it. Infinity where it waits and nothing is
/// there for it, or where it has ended.
pub open spec fn wakes_at(core: CoreModel, conn: u64, c: ConnState) -> u64 {
    if !c.live {
        INFINITY
    } else if c.blocked {
        window::later(c.frontier, netcore::due_at(core, conn))
    } else {
        c.frontier
    }
}

/// `t` is the earliest time of a send that can still come, but for those that
/// answer other sends to come: of what is buffered, and of the connections.
/// Infinity where there is none.
pub open spec fn is_stir(core: CoreModel, s: SeqModel, t: u64) -> bool {
    &&& forall|i: int| 0 <= i < s.pending.len() ==> t <= (#[trigger] s.pending[i]).local_vt
    &&& forall|k: u64| #[trigger] s.conns.contains_key(k) ==> t <= wakes_at(core, k, s.conns[k])
    &&& t == INFINITY || (exists|i: int|
        0 <= i < s.pending.len() && (#[trigger] s.pending[i]).local_vt == t) || exists|k: u64|
        #[trigger] s.conns.contains_key(k) && wakes_at(core, k, s.conns[k]) == t
}

pub open spec fn stirs_at(core: CoreModel, s: SeqModel) -> u64 {
    choose|t: u64| is_stir(core, s, t)
}

proof fn lemma_stir(core: CoreModel, s: SeqModel, t: u64)
    requires
        is_stir(core, s, t),
    ensures
        stirs_at(core, s) == t,
{
    let g = stirs_at(core, s);
    assert(is_stir(core, s, g));
    lemma_stir_least(core, s, g, t);
    lemma_stir_least(core, s, t, g);
}

proof fn lemma_stir_least(core: CoreModel, s: SeqModel, g: u64, t: u64)
    requires
        is_stir(core, s, g),
        is_stir(core, s, t),
    ensures
        g <= t,
{
    if t != INFINITY {
        if exists|i: int| 0 <= i < s.pending.len() && (#[trigger] s.pending[i]).local_vt == t {
            let i = choose|i: int|
                0 <= i < s.pending.len() && (#[trigger] s.pending[i]).local_vt == t;
            assert(g <= s.pending[i].local_vt);
        } else {
            let k = choose|k: u64| #[trigger]
                s.conns.contains_key(k) && wakes_at(core, k, s.conns[k]) == t;
            assert(s.conns.contains_key(k));
        }
    }
}

/// The time `delay` behind `t`; short of infinity unless `t` is infinite.
pub open spec fn reached(t: u64, delay: u64) -> u64 {
    if t == INFINITY {
        INFINITY
    } else if t + delay >= INFINITY {
        (INFINITY - 1) as u64
    } else {
        (t + delay) as u64
    }
}

/// The reactivation bound: no send of the connection can lie below it. One that
/// waits in a blocking receive speaks again at the earliest for what is there
/// for it, or for what a send to come brings it, by the least delay later.
pub open spec fn speaks_at(core: CoreModel, s: SeqModel, conn: u64) -> u64 {
    let c = s.conns[conn];
    if !c.live {
        INFINITY
    } else if c.blocked {
        let due = netcore::due_at(core, conn);
        let brought = reached(stirs_at(core, s), fault::least_delay(core.model.latency));
        window::later(
            c.frontier,
            if due < brought {
                due
            } else {
                brought
            },
        )
    } else {
        c.frontier
    }
}

/// `f` is the least of the reactivation bounds; infinity where there is none.
pub open spec fn is_bound(core: CoreModel, s: SeqModel, f: u64) -> bool {
    &&& forall|k: u64| #[trigger] s.conns.contains_key(k) ==> f <= speaks_at(core, s, k)
    &&& f == INFINITY || exists|k: u64| #[trigger]
        s.conns.contains_key(k) && speaks_at(core, s, k) == f
}

/// The time below which nobody will send any more.
pub open spec fn seal_bound(core: CoreModel, s: SeqModel) -> u64 {
    choose|f: u64| is_bound(core, s, f)
}

proof fn lemma_bound(core: CoreModel, s: SeqModel, f: u64)
    requires
        is_bound(core, s, f),
    ensures
        seal_bound(core, s) == f,
{
    let g = seal_bound(core, s);
    assert(is_bound(core, s, g));
    if g != INFINITY {
        let k = choose|k: u64| #[trigger]
            s.conns.contains_key(k) && speaks_at(core, s, k) == g;
        assert(s.conns.contains_key(k));
    }
    if f != INFINITY {
        let k = choose|k: u64| #[trigger]
            s.conns.contains_key(k) && speaks_at(core, s, k) == f;
        assert(s.conns.contains_key(k));
    }
}

/// There is an earliest time of a send that can still come.
pub proof fn lemma_stir_exists(core: CoreModel, s: SeqModel)
    ensures
        is_stir(core, s, stirs_at(core, s)),
{
    let t = lemma_stir_above(core, s, 0);
    assert(is_stir(core, s, t));
}

proof fn lemma_stir_above(core: CoreModel, s: SeqModel, t: u64) -> (r: u64)
    requires
        forall|i: int| 0 <= i < s.pending.len() ==> t <= (#[trigger] s.pending[i]).local_vt,
        forall|k: u64| #[trigger] s.conns.contains_key(k) ==> t <= wakes_at(core, k, s.conns[k]),
    ensures
        is_stir(core, s, r),
    decreases INFINITY - t,
{
    if is_stir(core, s, t) {
        t
    } else {
        assert(t != INFINITY);
        assert forall|i: int| 0 <= i < s.pending.len() implies t + 1 <= (
        #[trigger] s.pending[i]).local_vt by {}
        lemma_stir_above(core, s, (t + 1) as u64)
    }
}

/// There is a least reactivation bound.
pub proof fn lemma_bound_exists(core: CoreModel, s: SeqModel)
    ensures
        is_bound(core, s, seal_bound(core, s)),
{
    let f = lemma_bound_above(core, s, 0);
    assert(is_bound(core, s, f));
}

proof fn lemma_bound_above(core: CoreModel, s: SeqModel, f: u64) -> (r: u64)
    requires
        forall|k: u64| #[trigger] s.conns.contains_key(k) ==> f <= speaks_at(core, s, k),
    ensures
        is_bound(core, s, r),
    decreases INFINITY - f,
{
    if is_bound(core, s, f) {
        f
    } else {
        assert(f != INFINITY);
        lemma_bound_above(core, s, (f + 1) as u64)
    }
}

/// The bounds look at the connections that run, at what is buffered and at the
/// first datagram that waits for each; not at the order in which the sends
/// came in, nor at connections that have ended.
pub proof fn lemma_bounds_same(core: CoreModel, s: SeqModel, other: CoreModel, t: SeqModel)
    requires
        core.model == other.model,
        s.pending.to_multiset() == t.pending.to_multiset(),
        forall|k: u64|
            s.conns.contains_key(k) && s.conns[k].live <==> t.conns.contains_key(k)
                && #[trigger] t.conns[k].live,
        forall|k: u64|
            s.conns.contains_key(k) && s.conns[k].live ==> #[trigger] t.conns[k].frontier
                == s.conns[k].frontier && t.conns[k].blocked == s.conns[k].blocked
                && netcore::due_at(other, k) == netcore::due_at(core, k),
    ensures
        stirs_at(core, s) == stirs_at(other, t),
        seal_bound(core, s) == seal_bound(other, t),
{
    lemma_stir_exists(core, s);
    lemma_bound_exists(core, s);
    let x = stirs_at(core, s);
    assert(is_stir(other, t, x)) by {
        assert forall|i: int| 0 <= i < t.pending.len() implies x <= (
        #[trigger] t.pending[i]).local_vt by {
            let j = lemma_found(t.pending, s.pending, i);
            assert(x <= s.pending[j].local_vt);
        }
        assert forall|k: u64| #[trigger] t.conns.contains_key(k) implies x <= wakes_at(
            other,
            k,
            t.conns[k],
        ) by {
            if t.conns[k].live {
                assert(s.conns.contains_key(k));
            }
        }
        if x != INFINITY {
            if exists|i: int| 0 <= i < s.pending.len() && (#[trigger] s.pending[i]).local_vt == x {
                let i = choose|i: int|
                    0 <= i < s.pending.len() && (#[trigger] s.pending[i]).local_vt == x;
                let j = lemma_found(s.pending, t.pending, i);
                assert(t.pending[j].local_vt == x);
            } else {
                let k = choose|k: u64| #[trigger]
                    s.conns.contains_key(k) && wakes_at(core, k, s.conns[k]) == x;
                assert(s.conns[k].live);
                assert(t.conns[k].frontier == s.conns[k].frontier);
                assert(t.conns[k].live);
                assert(t.conns.contains_key(k) && wakes_at(other, k, t.conns[k]) == x);
            }
        }
    }
    lemma_stir(other, t, x);
    let f = seal_bound(core, s);
    assert(is_bound(other, t, f)) by {
        assert forall|k: u64| #[trigger] t.conns.contains_key(k) implies f <= speaks_at(
            other,
            t,
            k,
        ) by {
            if t.conns[k].live {
                assert(s.conns.contains_key(k));
            }
        }
        if f != INFINITY {
            let k = choose|k: u64| #[trigger]
                s.conns.contains_key(k) && speaks_at(core, s, k) == f;
            assert(s.conns[k].live);
            assert(t.conns[k].frontier == s.conns[k].frontier);
            assert(t.conns[k].live);
            assert(t.conns.contains_key(k) && speaks_at(other, t, k) == f);
        }
    }
    lemma_bound(other, t, f);
}

proof fn lemma_found(s: Seq<SendView>, t: Seq<SendView>, i: int) -> (j: int)
    requires
        s.to_multiset() == t.to_multiset(),
        0 <= i < s.len(),
    ensures
        0 <= j < t.len(),
        t[j] == s[i],
{
    s.to_multiset_ensures();
    t.to_multiset_ensures();
    assert(s.contains(s[i]));
    assert(s.to_multiset().count(s[i]) > 0);
    assert(t.contains(s[i]));
    choose|j: int| 0 <= j < t.len() && t[j] == s[i]
}

/// The horizon that the broker seals to.
pub open spec fn next_horizon(m: BrokerModel) -> u64 {
    let s = m.seq.unwrap();
    window::rounded(s.width, seal_bound(m.core, s))
}

/// The time below which every delivery is known: what is sealed later is
/// delivered by the least delay behind the horizon.
pub open spec fn pop_horizon(m: BrokerModel) -> u64 {
    netcore::capped(m.seq.unwrap().horizon, fault::least_delay(m.core.model.latency))
}

/// The state after sealing what can be sealed and feeding it to the core.
pub open spec fn sealed_and_fed<T: TailSource>(m: BrokerModel, tails: T) -> (
    BrokerModel,
    Seq<(u64, ObservedView)>,
) {
    match m.seq {
        Some(s) => if joined(m) {
            let h = next_horizon(m);
            let (c, events) = fed(m.core, window::output_below(s, h), tails);
            (BrokerModel { core: c, seq: Some(window::sealed_below(s, h)), ..m }, events)
        } else {
            (m, Seq::empty())
        },
        None => (m, Seq::empty()),
    }
}

pub open spec fn acked(m: BrokerModel) -> Option<FromBrokerView> {
    Some(FromBrokerView::Ack { vt: m.core.vt })
}

pub open spec fn quiet(m: BrokerModel) -> StepView {
    StepView {
        reply: acked(m),
        wait: false,
        notify: false,
        rejected: None,
        events: Seq::empty(),
    }
}

/// A connection was accepted.
pub open spec fn on_connect(m: BrokerModel, conn: u64) -> (BrokerModel, Seq<(u64, ObservedView)>) {
    let n = BrokerModel {
        core: netcore::core_connect(m.core, conn),
        live: (m.live + 1) as u64,
        ..m
    };
    (n, seq![(n.core.vt, ObservedView::Connect { conn })])
}

/// A connection joins as a node. In windowed mode a node that joins a second
/// time is a violation: its clock and its numbering begin anew, so its sends
/// have no place in the order.
pub open spec fn on_hello(m: BrokerModel, conn: u64, node_id: u32, host_id: u32) -> (
    BrokerModel,
    StepView,
) {
    let k = if m.seq is Some && spliced(m, conn, node_id) {
        latched(m, splice_text(conn, node_id))
    } else {
        m
    };
    let n = BrokerModel {
        nodes: m.nodes.insert(node_id),
        hello: m.hello.insert(conn),
        seq: match m.seq {
            Some(s) => Some(window::seq_register(s, conn, host_id, node_id)),
            None => None,
        },
        ..k
    };
    (
        n,
        StepView {
            events: seq![(n.core.vt, ObservedView::Hello { conn, node: node_id })],
            ..quiet(n)
        },
    )
}

pub open spec fn on_bind(m: BrokerModel, conn: u64, addr: VAddr) -> (BrokerModel, StepView) {
    let n = BrokerModel { core: netcore::core_bind(m.core, conn, addr), ..m };
    (n, StepView { events: seq![(n.core.vt, ObservedView::Bind { conn, addr })], ..quiet(n) })
}

/// On a single host a send is routed as it comes, at time 0.
pub open spec fn on_routed<T: TailSource>(
    m: BrokerModel,
    conn: u64,
    src: VAddr,
    dst: VAddr,
    payload: Seq<u8>,
    local_vt: u64,
    tails: T,
) -> (BrokerModel, StepView) {
    let k = skewed(m, local_vt);
    let tail = netcore::tail_for(k.core, src, dst, tails);
    let result = netcore::send_answer(k.core, src, dst, payload.len(), 0, tail);
    let n = BrokerModel { core: netcore::core_send(k.core, src, dst, payload, 0, tail), ..k };
    (
        n,
        StepView {
            notify: result is Enqueued,
            events: seq![
                (
                    n.core.vt,
                    ObservedView::Send {
                        conn,
                        src,
                        dst,
                        chan_seq: netcore::next_seq(k.core, src, dst),
                        send_vt: 0,
                        payload,
                        result,
                    },
                ),
            ],
            ..quiet(n)
        },
    )
}

/// A refused operation of a windowed run changes nothing but the violation.
pub open spec fn refused(m: BrokerModel, what: Seq<char>, conn: u64, e: SeqError) -> (
    BrokerModel,
    StepView,
) {
    let n = latched(m, rejection_text(what, conn, e));
    (n, StepView { rejected: Some(e), ..quiet(n) })
}

/// An accepted operation of a windowed run is followed by sealing.
pub open spec fn accepted<T: TailSource>(m: BrokerModel, tails: T) -> (BrokerModel, StepView) {
    let (n, events) = sealed_and_fed(m, tails);
    (n, StepView { notify: true, events, ..quiet(n) })
}

/// The state behind an admitted send: a node that buffers more in one window
/// than it may is a violation.
pub open spec fn counted(m: BrokerModel) -> BrokerModel {
    let s = m.seq.unwrap();
    let x = s.pending.last();
    if m.limit > 0 && window::crowd(s.pending, x, s.width, s.pending.len() as int) > m.limit {
        latched(m, crowd_text(x, m.limit))
    } else {
        m
    }
}

pub open spec fn on_admitted<T: TailSource>(
    m: BrokerModel,
    conn: u64,
    src: VAddr,
    dst: VAddr,
    payload: Seq<u8>,
    local_vt: u64,
    tails: T,
) -> (BrokerModel, StepView) {
    let k = skewed(m, local_vt);
    let s = k.seq.unwrap();
    match window::admit_answer(s, conn, local_vt) {
        Ok(_) => accepted(
            counted(
                BrokerModel {
                    seq: Some(window::seq_admitted(s, conn, local_vt, src, dst, payload)),
                    ..k
                },
            ),
            tails,
        ),
        Err(e) => refused(k, "send"@, conn, e),
    }
}

pub open spec fn on_frontier<T: TailSource>(m: BrokerModel, conn: u64, local_vt: u64, tails: T) -> (
    BrokerModel,
    StepView,
) {
    let k = skewed(m, local_vt);
    let s = k.seq.unwrap();
    match window::frontier_answer(s, conn, local_vt) {
        Ok(_) => accepted(
            BrokerModel { seq: Some(window::seq_declared(s, conn, local_vt)), ..k },
            tails,
        ),
        Err(e) => refused(k, "frontier"@, conn, e),
    }
}

/// One try of a receive on a single host.
pub open spec fn on_poll(m: BrokerModel, conn: u64, blocking: bool) -> (BrokerModel, StepView) {
    let got = netcore::recv_answer(m.core, conn, None);
    let n = BrokerModel { core: netcore::core_recv(m.core, conn, None), ..m };
    match got {
        Some(p) => (
            n,
            StepView {
                reply: Some(
                    FromBrokerView::Deliver {
                        src: p.src,
                        dst: p.dst,
                        payload: p.payload,
                        vt: n.core.vt,
                    },
                ),
                events: seq![(n.core.vt, ObservedView::Recv { conn, blocking, result: got })],
                ..quiet(n)
            },
        ),
        None => if !blocking || !m.core.queues.contains_key(conn) {
            (
                n,
                StepView {
                    reply: Some(FromBrokerView::Empty { vt: n.core.vt }),
                    events: seq![(n.core.vt, ObservedView::Recv { conn, blocking, result: got })],
                    ..quiet(n)
                },
            )
        } else {
            (n, StepView { reply: None, wait: true, ..quiet(n) })
        },
    }
}

/// A receive of a windowed run, which never waits. One that blocks leaves the
/// quorum and takes the earliest sealed datagram; one that does not takes what
/// was delivered before its own time.
pub open spec fn on_windowed_recv<T: TailSource>(
    m: BrokerModel,
    conn: u64,
    blocking: bool,
    local_vt: u64,
    tails: T,
) -> (BrokerModel, StepView) {
    let k = skewed(m, local_vt);
    let s = k.seq.unwrap();
    let told = BrokerModel {
        seq: Some(
            if blocking {
                window::seq_blocked(s, conn, local_vt)
            } else {
                window::seq_touched(s, conn, local_vt)
            },
        ),
        ..k
    };
    let (f, events) = sealed_and_fed(told, tails);
    let horizon = pop_horizon(f);
    let bound = if blocking || horizon < local_vt {
        horizon
    } else {
        local_vt
    };
    let got = netcore::recv_answer(f.core, conn, Some(bound));
    let core = netcore::core_recv(f.core, conn, Some(bound));
    match got {
        Some(p) => {
            let n = BrokerModel {
                core,
                seq: Some(window::seq_woken(f.seq.unwrap(), conn, p.deliv)),
                ..f
            };
            (
                n,
                StepView {
                    reply: Some(
                        FromBrokerView::Deliver {
                            src: p.src,
                            dst: p.dst,
                            payload: p.payload,
                            vt: p.deliv,
                        },
                    ),
                    events: events.push(
                        (n.core.vt, ObservedView::Recv { conn, blocking, result: got }),
                    ),
                    ..quiet(n)
                },
            )
        },
        None => {
            let n = BrokerModel { core, ..f };
            (
                n,
                StepView {
                    reply: Some(FromBrokerView::Empty { vt: horizon }),
                    events: events.push(
                        (n.core.vt, ObservedView::Recv { conn, blocking, result: got }),
                    ),
                    ..quiet(n)
                },
            )
        },
    }
}

/// What a message does.
pub open spec fn on_message<T: TailSource>(m: BrokerModel, conn: u64, msg: ToBrokerView, tails: T)
    -> (BrokerModel, StepView) {
    match msg {
        ToBrokerView::Hello { node_id, host_id } => on_hello(m, conn, node_id, host_id),
        ToBrokerView::Bind { addr } => on_bind(m, conn, addr),
        ToBrokerView::Send { src, dst, payload, local_vt } => if m.seq is Some {
            on_admitted(m, conn, src, dst, payload, local_vt, tails)
        } else {
            on_routed(m, conn, src, dst, payload, local_vt, tails)
        },
        ToBrokerView::Recv { addr, blocking, local_vt } => if m.seq is Some {
            on_windowed_recv(m, conn, blocking, local_vt, tails)
        } else {
            on_poll(skewed(m, local_vt), conn, blocking)
        },
        ToBrokerView::Frontier { local_vt } => if m.seq is Some {
            on_frontier(m, conn, local_vt, tails)
        } else {
            (m, quiet(m))
        },
        ToBrokerView::Goodbye => {
            let n = BrokerModel { goodbye: m.goodbye.insert(conn), ..m };
            (n, StepView { reply: None, ..quiet(n) })
        },
    }
}

/// A connection ended. In a windowed run one that said hello and not goodbye
/// has crashed, which is a violation.
pub open spec fn on_disconnect<T: TailSource>(m: BrokerModel, conn: u64, tails: T) -> (
    BrokerModel,
    Seq<(u64, ObservedView)>,
) {
    let gone = BrokerModel {
        core: netcore::core_disconnect(m.core, conn),
        live: if m.live > 0 {
            (m.live - 1) as u64
        } else {
            0
        },
        ..m
    };
    let judged = if m.seq is Some && m.hello.contains(conn) && !m.goodbye.contains(conn) {
        latched(gone, crash_text(conn))
    } else {
        gone
    };
    match judged.seq {
        Some(s) => {
            let (n, events) = sealed_and_fed(
                BrokerModel { seq: Some(window::seq_closed(s, conn)), ..judged },
                tails,
            );
            (n, events.push((n.core.vt, ObservedView::Disconnect { conn })))
        },
        None => (judged, seq![(judged.core.vt, ObservedView::Disconnect { conn })]),
    }
}

/// How many sends are buffered.
pub open spec fn buffered(m: BrokerModel) -> nat {
    match m.seq {
        Some(s) => s.pending.len(),
        None => 0,
    }
}

/// The counters have room for another send.
pub open spec fn room(m: BrokerModel, conn: u64) -> bool {
    &&& m.core.sent + buffered(m) < u64::MAX
    &&& m.seq is Some && m.seq.unwrap().conns.contains_key(conn) ==> m.seq.unwrap().conns[conn].next_seq
        < u64::MAX
}

pub open spec fn broker_new(model: crate::fault::ModelView, window_ns: u64) -> BrokerModel {
    BrokerModel {
        core: netcore::core_new(model),
        seq: if window_ns > 0 {
            Some(window::seq_new(window_ns))
        } else {
            None
        },
        max_skew: 0,
        violation: None,
        nodes: Set::empty(),
        live: 0,
        hello: Set::empty(),
        goodbye: Set::empty(),
        expected: 0,
        limit: 0,
    }
}

/// What always holds of a broker.
pub open spec fn broker_ok(m: BrokerModel) -> bool {
    netcore::core_ok(m.core) && (m.seq is Some ==> window::seq_ok(m.seq.unwrap()))
}

/// Every live guest waits for a message that cannot come, and there is one.
pub open spec fn hung(m: BrokerModel) -> bool {
    &&& m.seq is Some && window::stuck(m.seq.unwrap())
    &&& !exists|c: u64| #[trigger] m.core.queues.contains_key(c) && m.core.queues[c].len() > 0
}

/// The broker's state, which one step at a time changes.
pub struct BrokerState {
    core: Core,
    seq: Option<WindowSequencer>,
    max_skew_ns: u64,
    violation: Option<String>,
    nodes_hello: HashSet<u32>,
    live_conns: u64,
    hello_conns: HashSet<u64>,
    said_goodbye: HashSet<u64>,
    expected: u32,
    window_ops: u64,
}

pub open spec fn seq_view(s: Option<WindowSequencer>) -> Option<SeqModel> {
    match s {
        Some(w) => Some(w@),
        None => None,
    }
}

pub open spec fn text_view(s: Option<String>) -> Option<Seq<char>> {
    match s {
        Some(t) => Some(t@),
        None => None,
    }
}

impl View for BrokerState {
    type V = BrokerModel;

    closed spec fn view(&self) -> BrokerModel {
        BrokerModel {
            core: self.core@,
            seq: seq_view(self.seq),
            max_skew: self.max_skew_ns,
            violation: text_view(self.violation),
            nodes: self.nodes_hello@,
            live: self.live_conns,
            hello: self.hello_conns@,
            goodbye: self.said_goodbye@,
            expected: self.expected,
            limit: self.window_ops,
        }
    }
}

/// `e` lists the connections of the sequencer with their states.
spec fn lists(e: Seq<(u64, ConnState)>, s: SeqModel) -> bool {
    &&& forall|i: int|
        0 <= i < e.len() ==> s.conns.contains_key((#[trigger] e[i]).0) && s.conns[e[i].0] == e[i].1
    &&& forall|k: u64| #[trigger] s.conns.contains_key(k) ==> e.contains((k, s.conns[k]))
}

fn send_event(op: SeqSend, chan_seq: u64, result: SendResult) -> (e: Observed)
    ensures
        e@ == (ObservedView::Send {
            conn: op.conn,
            src: op.src,
            dst: op.dst,
            chan_seq,
            send_vt: op.local_vt,
            payload: op.payload@,
            result,
        }),
{
    Observed::Send {
        conn: op.conn,
        src: op.src,
        dst: op.dst,
        chan_seq,
        send_vt: op.local_vt,
        payload: op.payload,
        result,
    }
}

proof fn lemma_part_len(s: Seq<SendView>, h: u64)
    ensures
        window::part(s, h, true).len() + window::part(s, h, false).len() == s.len(),
    decreases s.len(),
{
    if s.len() > 0 {
        lemma_part_len(s.drop_last(), h);
    }
}

/// What sealing hands out and what it leaves make up what was buffered.
pub proof fn lemma_seal_len(m: SeqModel, h: u64)
    ensures
        window::output_below(m, h).len() + window::sealed_below(m, h).pending.len()
            == m.pending.len(),
{
    lemma_part_len(m.pending, h);
    window_laws::law_sort_sorts(window::part(m.pending, h, true));
}

/// Each send that is fed counts once.
pub proof fn lemma_fed_sent<T: TailSource>(core: CoreModel, ops: Seq<SendView>, tails: T)
    requires
        core.sent + ops.len() <= u64::MAX,
    ensures
        fed(core, ops, tails).0.sent == core.sent + ops.len(),
        fed(core, ops, tails).1.len() == ops.len(),
    decreases ops.len(),
{
    if ops.len() > 0 {
        lemma_fed_sent(core, ops.drop_last(), tails);
    }
}

impl BrokerState {
    pub closed spec fn wf(&self) -> bool {
        &&& self.core.wf()
        &&& self.seq is Some ==> self.seq.unwrap().wf()
    }

    /// Invariants that follow from [`BrokerState::wf`].
    pub proof fn lemma_wf(&self)
        requires
            self.wf(),
        ensures
            broker_ok(self@),
    {
        self.core.lemma_wf();
        if self.seq is Some {
            self.seq.unwrap().lemma_wf();
        }
    }

    /// A broker over `model`; `window_ns` above 0 selects the windowed
    /// protocol.
    #[must_use]
    pub fn new(model: FaultModel, window_ns: u64) -> (r: Self)
        ensures
            r.wf(),
            r@ == broker_new(model@, window_ns),
    {
        let seq: Option<WindowSequencer> = if window_ns > 0 {
            Some(WindowSequencer::new(window_ns))
        } else {
            None
        };
        let r = BrokerState {
            core: Core::new(model),
            seq,
            max_skew_ns: 0,
            violation: None,
            nodes_hello: HashSet::new(),
            live_conns: 0,
            hello_conns: HashSet::new(),
            said_goodbye: HashSet::new(),
            expected: 0,
            window_ops: 0,
        };
        proof {
            assert(r@.nodes =~= Set::<u32>::empty());
            assert(r@.hello =~= Set::<u64>::empty());
            assert(r@.goodbye =~= Set::<u64>::empty());
        }
        r
    }

    fn track_skew(&mut self, local_vt: u64)
        requires
            old(self).wf(),
        ensures
            final(self).wf(),
            final(self)@ == skewed(old(self)@, local_vt),
    {
        if local_vt > 0 {
            let vt: u64 = self.core.vt();
            let skew: u64 = if local_vt < vt {
                vt - local_vt
            } else {
                local_vt - vt
            };
            if skew > self.max_skew_ns {
                self.max_skew_ns = skew;
            }
        }
    }

    /// The earliest time of a send that can still come, but for those that
    /// answer other sends to come.
    fn first_stir(&self, w: &WindowSequencer, conns: &Vec<(u64, ConnState)>) -> (t: u64)
        requires
            self.wf(),
            lists(conns@, w@),
        ensures
            t == stirs_at(self@.core, w@),
    {
        let ghost e = conns@;
        let ghost core = self@.core;
        let first: u64 = w.first_pending();
        let mut t: u64 = first;
        let mut i: usize = 0;
        while i < conns.len()
            invariant
                self.wf(),
                core == self@.core,
                core == self.core@,
                e == conns@,
                i <= e.len(),
                t <= first,
                forall|j: int| 0 <= j < i ==> t <= wakes_at(core, (#[trigger] e[j]).0, e[j].1),
                t == first || exists|j: int|
                    0 <= j < i && wakes_at(core, (#[trigger] e[j]).0, e[j].1) == t,
            decreases e.len() - i,
        {
            let (k, c): (u64, ConnState) = conns[i];
            let x: u64 = if !c.live {
                INFINITY
            } else if c.blocked {
                let due: u64 = self.core.due(k);
                if c.frontier < due {
                    due
                } else {
                    c.frontier
                }
            } else {
                c.frontier
            };
            assert(x == wakes_at(core, e[i as int].0, e[i as int].1));
            if x < t {
                t = x;
            }
            i = i + 1;
        }
        proof {
            assert forall|k: u64| #[trigger] w@.conns.contains_key(k) implies t <= wakes_at(
                core,
                k,
                w@.conns[k],
            ) by {
                let j = choose|j: int| 0 <= j < e.len() && e[j] == (k, w@.conns[k]);
                assert(t <= wakes_at(core, e[j].0, e[j].1));
            }
            if t != first {
                let j = choose|j: int|
                    0 <= j < e.len() && wakes_at(core, (#[trigger] e[j]).0, e[j].1) == t;
                assert(w@.conns.contains_key(e[j].0));
            }
            lemma_stir(core, w@, t);
        }
        t
    }

    /// The time below which nobody will send any more.
    fn least_bound(&self, w: &WindowSequencer) -> (f: u64)
        requires
            self.wf(),
        ensures
            f == seal_bound(self@.core, w@),
    {
        let conns = w.connections();
        let ghost e = conns@;
        let ghost core = self@.core;
        let stir: u64 = self.first_stir(w, &conns);
        let delay: u64 = self.core.min_delay_ns();
        let brought: u64 = if stir == INFINITY {
            INFINITY
        } else if stir >= INFINITY - delay {
            INFINITY - 1
        } else {
            stir + delay
        };
        let mut f: u64 = INFINITY;
        let mut i: usize = 0;
        while i < conns.len()
            invariant
                self.wf(),
                core == self@.core,
                core == self.core@,
                e == conns@,
                lists(e, w@),
                brought == reached(
                    stirs_at(core, w@),
                    fault::least_delay(core.model.latency),
                ),
                i <= e.len(),
                forall|j: int| 0 <= j < i ==> f <= speaks_at(core, w@, (#[trigger] e[j]).0),
                f == INFINITY || exists|j: int|
                    0 <= j < i && speaks_at(core, w@, (#[trigger] e[j]).0) == f,
            decreases e.len() - i,
        {
            let (k, c): (u64, ConnState) = conns[i];
            let x: u64 = if !c.live {
                INFINITY
            } else if c.blocked {
                let due: u64 = self.core.due(k);
                let again: u64 = if due < brought {
                    due
                } else {
                    brought
                };
                if c.frontier < again {
                    again
                } else {
                    c.frontier
                }
            } else {
                c.frontier
            };
            assert(w@.conns[e[i as int].0] == e[i as int].1);
            assert(x == speaks_at(core, w@, e[i as int].0));
            if x < f {
                f = x;
            }
            i = i + 1;
        }
        proof {
            assert forall|k: u64| #[trigger] w@.conns.contains_key(k) implies f <= speaks_at(
                core,
                w@,
                k,
            ) by {
                let j = choose|j: int| 0 <= j < e.len() && e[j] == (k, w@.conns[k]);
                assert(f <= speaks_at(core, w@, e[j].0));
            }
            if f != INFINITY {
                let j = choose|j: int|
                    0 <= j < e.len() && speaks_at(core, w@, (#[trigger] e[j]).0) == f;
                assert(w@.conns.contains_key(e[j].0));
            }
            lemma_bound(core, w@, f);
        }
        f
    }

    /// Seal what can be sealed and feed it to the core in assigned order.
    fn seal_and_feed<T: TailSource>(&mut self, tails: &T) -> (events: Vec<(u64, Observed)>)
        requires
            old(self).wf(),
            old(self)@.core.sent + buffered(old(self)@) <= u64::MAX,
        ensures
            final(self).wf(),
            (final(self)@, event_views(events@)) == sealed_and_fed(old(self)@, *tails),
            final(self)@.core.sent + buffered(final(self)@) == old(self)@.core.sent + buffered(
                old(self)@,
            ),
    {
        let ghost m = self@;
        let mut events: Vec<(u64, Observed)> = Vec::new();
        assert(event_views(events@) =~= Seq::<(u64, ObservedView)>::empty());
        if (self.nodes_hello.len() as u64) < self.expected as u64 {
            return events;
        }
        let f: u64 = match &self.seq {
            Some(w) => self.least_bound(w),
            None => INFINITY,
        };
        let assigned: Vec<SeqSend> = match self.seq.take() {
            Some(mut w) => {
                let r = w.seal_to(f);
                self.seq = Some(w);
                r
            },
            None => {
                return events;
            },
        };
        let ghost ops = window::send_views(assigned@);
        let ghost core0 = self.core@;
        let ghost n = self@;
        proof {
            lemma_seal_len(m.seq.unwrap(), next_horizon(m));
            assert(ops.take(0) =~= Seq::<SendView>::empty());
        }
        let ghost ops_seq = assigned@;
        for op in it: assigned
            invariant
                it.seq() == ops_seq,
                ops == window::send_views(ops_seq),
                self.core.wf(),
                core0.sent + ops.len() <= u64::MAX,
                (self.core@, event_views(events@)) == fed(
                    core0,
                    ops.take(it.index() as int),
                    *tails,
                ),
                self.wf(),
                self@ == (BrokerModel { core: self.core@, ..n }),
        {
            let ghost i = it.index() as int;
            let ghost opv = op@;
            let ghost c = self.core@;
            proof {
                assert(ops.take(i + 1).drop_last() =~= ops.take(i));
                assert(ops.take(i + 1).last() == opv);
                lemma_fed_sent(core0, ops.take(i), *tails);
            }
            let (chan_seq, result) = self.core.send(
                op.src,
                op.dst,
                op.payload.as_slice(),
                op.local_vt,
                tails,
            );
            let vt: u64 = self.core.vt();
            let e = send_event(op, chan_seq, result);
            let ghost before = event_views(events@);
            let ghost ev = e@;
            events.push((vt, e));
            assert(event_views(events@) =~= before.push((vt, ev)));
        }
        proof {
            assert(ops.take(ops.len() as int) =~= ops);
            lemma_fed_sent(core0, ops, *tails);
        }
        events
    }

    fn latch(&mut self, why: String)
        requires
            old(self).wf(),
        ensures
            final(self).wf(),
            final(self)@ == latched(old(self)@, why@),
    {
        if self.violation.is_none() {
            self.violation = Some(why);
        }
    }

    /// A connection was accepted.
    pub fn connect(&mut self, conn: u64) -> (events: Vec<(u64, Observed)>)
        requires
            old(self).wf(),
            old(self)@.live < u64::MAX,
        ensures
            final(self).wf(),
            (final(self)@, event_views(events@)) == on_connect(old(self)@, conn),
    {
        self.core.connect(conn);
        self.live_conns = self.live_conns + 1;
        self.one_event(Observed::Connect { conn })
    }

    fn one_event(&self, e: Observed) -> (events: Vec<(u64, Observed)>)
        ensures
            event_views(events@) == seq![(self@.core.vt, e@)],
    {
        let mut events: Vec<(u64, Observed)> = Vec::new();
        let ghost ev = e@;
        events.push((self.core.vt(), e));
        assert(event_views(events@) =~= seq![(self@.core.vt, ev)]);
        events
    }

    fn ack(&self, notify: bool, events: Vec<(u64, Observed)>) -> (s: Step)
        ensures
            s@ == (StepView { notify, events: event_views(events@), ..quiet(self@) }),
    {
        Step {
            reply: Some(FromBroker::Ack { vt: self.core.vt() }),
            wait: false,
            notify,
            rejected: None,
            events,
        }
    }

    fn refuse(&mut self, what: &str, conn: u64, e: SeqError) -> (s: Step)
        requires
            old(self).wf(),
        ensures
            final(self).wf(),
            (final(self)@, s@) == refused(old(self)@, what@, conn, e),
    {
        let mut why = copy_text("rejected ");
        push_text(&mut why, what);
        push_text(&mut why, " on conn ");
        push_dec(&mut why, conn);
        push_text(&mut why, ": ");
        push_seq_error(&mut why, &e);
        assert(why@ =~= rejection_text(what@, conn, e));
        self.latch(why);
        let s = Step {
            reply: Some(FromBroker::Ack { vt: self.core.vt() }),
            wait: false,
            notify: false,
            rejected: Some(e),
            events: Vec::new(),
        };
        assert(event_views(s.events@) =~= Seq::<(u64, ObservedView)>::empty());
        s
    }

    fn route_send<T: TailSource>(
        &mut self,
        conn: u64,
        src: VAddr,
        dst: VAddr,
        payload: Vec<u8>,
        local_vt: u64,
        tails: &T,
    ) -> (s: Step)
        requires
            old(self).wf(),
            old(self)@.core.sent < u64::MAX,
        ensures
            final(self).wf(),
            (final(self)@, s@) == on_routed(
                old(self)@,
                conn,
                src,
                dst,
                payload@,
                local_vt,
                *tails,
            ),
    {
        self.track_skew(local_vt);
        let (chan_seq, result) = self.core.send(src, dst, payload.as_slice(), 0, tails);
        let notify: bool = match result {
            SendResult::Enqueued { .. } => true,
            _ => false,
        };
        let events = self.one_event(
            Observed::Send { conn, src, dst, chan_seq, send_vt: 0, payload, result },
        );
        self.ack(notify, events)
    }

    /// Look whether the send admitted last is one too many.
    fn count_crowd(&mut self)
        requires
            old(self).wf(),
            old(self)@.seq is Some,
            0 < buffered(old(self)@) <= u64::MAX,
        ensures
            final(self).wf(),
            final(self)@ == counted(old(self)@),
    {
        if self.window_ops == 0 {
            return;
        }
        let mut why = String::new();
        if let Some(w) = &self.seq {
            if w.last_crowd() <= self.window_ops {
                return;
            }
            let (host, node): (u32, u32) = w.last_sender();
            why = copy_text("node ");
            push_dec(&mut why, node as u64);
            push_text(&mut why, " of host ");
            push_dec(&mut why, host as u64);
            push_text(&mut why, " buffered more than ");
            push_dec(&mut why, self.window_ops);
            push_text(&mut why, " sends in one window");
        }
        assert(why@ =~= crowd_text(old(self)@.seq.unwrap().pending.last(), self.window_ops));
        self.latch(why);
    }

    fn admit_send<T: TailSource>(
        &mut self,
        conn: u64,
        src: VAddr,
        dst: VAddr,
        payload: Vec<u8>,
        local_vt: u64,
        tails: &T,
    ) -> (s: Step)
        requires
            old(self).wf(),
            old(self)@.seq is Some,
            room(old(self)@, conn),
        ensures
            final(self).wf(),
            (final(self)@, s@) == on_admitted(
                old(self)@,
                conn,
                src,
                dst,
                payload@,
                local_vt,
                *tails,
            ),
    {
        self.track_skew(local_vt);
        let r: Result<u64, SeqError> = match self.seq.take() {
            Some(mut w) => {
                let r = w.admit_send(conn, local_vt, src, dst, payload);
                self.seq = Some(w);
                r
            },
            None => Err(SeqError::UnknownConn(conn)),
        };
        match r {
            Ok(_) => {
                self.count_crowd();
                let events = self.seal_and_feed(tails);
                self.ack(true, events)
            },
            Err(e) => self.refuse("send", conn, e),
        }
    }

    fn declare_frontier<T: TailSource>(&mut self, conn: u64, local_vt: u64, tails: &T) -> (s: Step)
        requires
            old(self).wf(),
            old(self)@.seq is Some,
            room(old(self)@, conn),
        ensures
            final(self).wf(),
            (final(self)@, s@) == on_frontier(old(self)@, conn, local_vt, *tails),
    {
        self.track_skew(local_vt);
        let r: Result<(), SeqError> = match self.seq.take() {
            Some(mut w) => {
                let r = w.declare_frontier(conn, local_vt);
                self.seq = Some(w);
                r
            },
            None => Err(SeqError::UnknownConn(conn)),
        };
        match r {
            Ok(_) => {
                let events = self.seal_and_feed(tails);
                self.ack(true, events)
            },
            Err(e) => self.refuse("frontier", conn, e),
        }
    }

    fn recv_windowed<T: TailSource>(
        &mut self,
        conn: u64,
        blocking: bool,
        local_vt: u64,
        tails: &T,
    ) -> (s: Step)
        requires
            old(self).wf(),
            old(self)@.seq is Some,
            room(old(self)@, conn),
        ensures
            final(self).wf(),
            (final(self)@, s@) == on_windowed_recv(
                old(self)@,
                conn,
                blocking,
                local_vt,
                *tails,
            ),
    {
        self.track_skew(local_vt);
        if let Some(mut w) = self.seq.take() {
            if blocking {
                w.block(conn, local_vt);
            } else {
                w.touch_frontier(conn, local_vt);
            }
            self.seq = Some(w);
        }
        let mut events = self.seal_and_feed(tails);
        let horizon: u64 = match &self.seq {
            Some(w) => w.horizon().saturating_add(self.core.min_delay_ns()),
            None => u64::MAX,
        };
        let bound: u64 = if blocking || horizon < local_vt {
            horizon
        } else {
            local_vt
        };
        let result: RecvResult = self.core.recv_before(conn, bound);
        let reply: FromBroker = match &result {
            RecvResult::Delivered { src, dst, deliv_ns, tie: _, payload } => {
                if let Some(mut w) = self.seq.take() {
                    w.wake(conn, *deliv_ns);
                    self.seq = Some(w);
                }
                FromBroker::Deliver {
                    src: *src,
                    dst: *dst,
                    payload: copy_bytes(payload.as_slice()),
                    vt: *deliv_ns,
                }
            },
            RecvResult::Empty => FromBroker::Empty { vt: horizon },
        };
        let ghost before = event_views(events@);
        let e = Observed::Recv { conn, blocking, result };
        let ghost ev = e@;
        let vt: u64 = self.core.vt();
        events.push((vt, e));
        assert(event_views(events@) =~= before.push((vt, ev)));
        Step { reply: Some(reply), wait: false, notify: false, rejected: None, events }
    }

    /// One try of a receive on a single host. A blocking one that finds
    /// nothing waits, and is tried again this way.
    pub fn poll_recv(&mut self, conn: u64, blocking: bool) -> (s: Step)
        requires
            old(self).wf(),
        ensures
            final(self).wf(),
            (final(self)@, s@) == on_poll(old(self)@, conn, blocking),
    {
        let result: RecvResult = self.core.recv(conn);
        let reply: FromBroker = match &result {
            RecvResult::Delivered { src, dst, deliv_ns: _, tie: _, payload } => FromBroker::Deliver {
                src: *src,
                dst: *dst,
                payload: copy_bytes(payload.as_slice()),
                vt: self.core.vt(),
            },
            RecvResult::Empty => {
                if blocking && self.core.is_connected(conn) {
                    let s = Step {
                        reply: None,
                        wait: true,
                        notify: false,
                        rejected: None,
                        events: Vec::new(),
                    };
                    assert(event_views(s.events@) =~= Seq::<(u64, ObservedView)>::empty());
                    return s;
                }
                FromBroker::Empty { vt: self.core.vt() }
            },
        };
        let events = self.one_event(Observed::Recv { conn, blocking, result });
        Step { reply: Some(reply), wait: false, notify: false, rejected: None, events }
    }

    /// Handle one message from a connection.
    pub fn handle<T: TailSource>(&mut self, conn: u64, msg: ToBroker, tails: &T) -> (s: Step)
        requires
            old(self).wf(),
            room(old(self)@, conn),
        ensures
            final(self).wf(),
            (final(self)@, s@) == on_message(old(self)@, conn, msg@, *tails),
    {
        let windowed: bool = self.seq.is_some();
        match msg {
            ToBroker::Hello { node_id, host_id } => {
                if windowed && (self.nodes_hello.contains(&node_id) || self.hello_conns.contains(
                    &conn,
                )) {
                    let mut why = copy_text("conn ");
                    push_dec(&mut why, conn);
                    push_text(&mut why, " joined again as node ");
                    push_dec(&mut why, node_id as u64);
                    push_text(&mut why, " (reconnect splice)");
                    assert(why@ =~= splice_text(conn, node_id));
                    self.latch(why);
                }
                let _new: bool = self.nodes_hello.insert(node_id);
                let _first: bool = self.hello_conns.insert(conn);
                if let Some(mut w) = self.seq.take() {
                    w.register(conn, host_id, node_id);
                    self.seq = Some(w);
                }
                proof {
                    assert(self@.nodes =~= old(self)@.nodes.insert(node_id));
                    assert(self@.hello =~= old(self)@.hello.insert(conn));
                }
                let events = self.one_event(Observed::Hello { conn, node: node_id });
                self.ack(false, events)
            },
            ToBroker::Bind { addr } => {
                self.core.bind(conn, addr);
                let events = self.one_event(Observed::Bind { conn, addr });
                self.ack(false, events)
            },
            ToBroker::Send { src, dst, payload, local_vt } => {
                if windowed {
                    self.admit_send(conn, src, dst, payload, local_vt, tails)
                } else {
                    self.route_send(conn, src, dst, payload, local_vt, tails)
                }
            },
            ToBroker::Recv { addr: _, blocking, local_vt } => {
                if windowed {
                    self.recv_windowed(conn, blocking, local_vt, tails)
                } else {
                    self.track_skew(local_vt);
                    self.poll_recv(conn, blocking)
                }
            },
            ToBroker::Frontier { local_vt } => {
                if windowed {
                    self.declare_frontier(conn, local_vt, tails)
                } else {
                    let events: Vec<(u64, Observed)> = Vec::new();
                    assert(event_views(events@) =~= Seq::<(u64, ObservedView)>::empty());
                    self.ack(false, events)
                }
            },
            ToBroker::Goodbye => {
                let _first: bool = self.said_goodbye.insert(conn);
                proof {
                    assert(self@.goodbye =~= old(self)@.goodbye.insert(conn));
                }
                let s = Step {
                    reply: None,
                    wait: false,
                    notify: false,
                    rejected: None,
                    events: Vec::new(),
                };
                assert(event_views(s.events@) =~= Seq::<(u64, ObservedView)>::empty());
                s
            },
        }
    }

    /// A connection ended. Whoever waits is to be tried again afterwards.
    pub fn disconnect<T: TailSource>(&mut self, conn: u64, tails: &T) -> (events: Vec<
        (u64, Observed),
    >)
        requires
            old(self).wf(),
            old(self)@.core.sent + buffered(old(self)@) <= u64::MAX,
        ensures
            final(self).wf(),
            (final(self)@, event_views(events@)) == on_disconnect(old(self)@, conn, *tails),
    {
        self.core.disconnect(conn);
        if self.live_conns > 0 {
            self.live_conns = self.live_conns - 1;
        }
        let windowed: bool = self.seq.is_some();
        if windowed && self.hello_conns.contains(&conn) && !self.said_goodbye.contains(&conn) {
            let mut why = copy_text("conn ");
            push_dec(&mut why, conn);
            push_text(&mut why, " closed without goodbye (node crash)");
            assert(why@ =~= crash_text(conn));
            self.latch(why);
        }
        if let Some(mut w) = self.seq.take() {
            w.close(conn);
            self.seq = Some(w);
            let mut events = self.seal_and_feed(tails);
            let ghost before = event_views(events@);
            let vt: u64 = self.core.vt();
            events.push((vt, Observed::Disconnect { conn }));
            assert(event_views(events@) =~= before.push((vt, ObservedView::Disconnect { conn })));
            events
        } else {
            self.one_event(Observed::Disconnect { conn })
        }
    }

    /// Hold back every window until `n` different nodes have said hello.
    pub fn expect_nodes(&mut self, n: u32)
        requires
            old(self).wf(),
        ensures
            final(self).wf(),
            final(self)@ == (BrokerModel { expected: n, ..old(self)@ }),
    {
        self.expected = n;
    }

    /// Let one node buffer at most `n` sends in one window, or any number where
    /// `n` is 0. More is a violation.
    pub fn limit_window_ops(&mut self, n: u64)
        requires
            old(self).wf(),
        ensures
            final(self).wf(),
            final(self)@ == (BrokerModel { limit: n, ..old(self)@ }),
    {
        self.window_ops = n;
    }

    /// The core's virtual time.
    #[must_use]
    pub fn vt(&self) -> (r: u64)
        ensures
            r == self@.core.vt,
    {
        self.core.vt()
    }

    /// How many datagrams were sent, and how many of them dropped.
    #[must_use]
    pub fn stats(&self) -> (r: (u64, u64))
        ensures
            r == (self@.core.sent, self@.core.dropped),
    {
        self.core.stats()
    }

    /// The largest distance seen between a node's local time and the core's.
    #[must_use]
    pub fn max_skew_ns(&self) -> (r: u64)
        ensures
            r == self@.max_skew,
    {
        self.max_skew_ns
    }

    /// Host, node and lag of every connection that sealing waits for; none on
    /// a single host.
    #[must_use]
    pub fn frontier_lags(&self) -> (r: Vec<(u32, u32, u64)>)
        requires
            self.wf(),
        ensures
            match self@.seq {
                Some(s) => forall|x: (u32, u32, u64)| #[trigger]
                    r@.contains(x) <==> window::is_lag(s.conns, x),
                None => r@.len() == 0,
            },
    {
        match &self.seq {
            Some(w) => w.frontier_lags(),
            None => Vec::new(),
        }
    }

    /// Whether `expected` different nodes have said hello and every
    /// connection has ended since.
    #[must_use]
    pub fn cluster_drained(&self, expected: u32) -> (b: bool)
        requires
            self.wf(),
        ensures
            b == (self@.nodes.len() >= expected && self@.live == 0),
    {
        self.nodes_hello.len() as u64 >= expected as u64 && self.live_conns == 0
    }

    /// The first protocol violation; a run with one is invalid.
    #[must_use]
    pub fn violation(&self) -> (r: Option<String>)
        ensures
            text_view(r) == self@.violation,
    {
        match &self.violation {
            Some(s) => Some(copy_text(s.as_str())),
            None => None,
        }
    }

    /// Whether the windowed cluster hangs: every live guest waits for a
    /// message that cannot come, and there is one.
    #[must_use]
    pub fn deadlock_check(&self) -> (b: bool)
        requires
            self.wf(),
        ensures
            b == hung(self@),
    {
        match &self.seq {
            Some(w) => w.deadlocked() && !self.core.any_queued(),
            None => false,
        }
    }
}

/// What is recorded, and what the core comes to, does not depend on the order
/// in which buffered sends arrived.
pub proof fn law_recording_ignores_arrival<T: TailSource>(m: BrokerModel, n: BrokerModel, tails: T)
    requires
        m.core == n.core,
        m.nodes == n.nodes,
        m.expected == n.expected,
        m.seq is Some,
        n.seq is Some,
        window_laws::same_up_to_arrival(m.seq.unwrap(), n.seq.unwrap()),
        window_laws::orderly(m.seq.unwrap()),
    ensures
        sealed_and_fed(m, tails).1 == sealed_and_fed(n, tails).1,
        sealed_and_fed(m, tails).0.core == sealed_and_fed(n, tails).0.core,
        window_laws::same_up_to_arrival(
            sealed_and_fed(m, tails).0.seq.unwrap(),
            sealed_and_fed(n, tails).0.seq.unwrap(),
        ),
{
    let s = m.seq.unwrap();
    let t = n.seq.unwrap();
    lemma_bounds_same(m.core, s, n.core, t);
    window_laws::lemma_output_same(s, t, next_horizon(m));
}

/// Nothing seals before every expected node has said hello.
pub proof fn law_join_barrier<T: TailSource>(m: BrokerModel, tails: T)
    requires
        m.nodes.len() < m.expected,
    ensures
        sealed_and_fed(m, tails) == (m, Seq::<(u64, ObservedView)>::empty()),
{
}

/// A violation, once seen, stays as it is.
pub proof fn law_violation_stays<T: TailSource>(
    m: BrokerModel,
    conn: u64,
    msg: ToBrokerView,
    tails: T,
)
    requires
        m.violation is Some,
    ensures
        on_message(m, conn, msg, tails).0.violation == m.violation,
        on_disconnect(m, conn, tails).0.violation == m.violation,
{
}

} // verus!
