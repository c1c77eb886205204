//! The law of recording: whatever happens to a broker, and whatever rules are
//! watching, the recording replays identically.

use vstd::prelude::*;

use crate::broker;
use crate::broker::{BrokerModel, ObservedView};
use crate::fault::{ModelView, TailSource};
use crate::input;
use crate::input_laws;
use crate::log;
use crate::log::{EventView, HeaderView};
use crate::monitor;
use crate::monitor::{Invariant, Seen};
use crate::netcore;
use crate::netcore::CoreModel;
use crate::recorder;
use crate::replay;
use crate::replay::{OutcomeView, ReplayErrorView, ReplayModel};
use crate::window;
use crate::window::SendView;
use crate::wire::ToBrokerView;

verus! {

// ---------------------------------------------------------------------------
// A run
// ---------------------------------------------------------------------------

/// Something that happens to a broker.
pub enum Happening {
    Connect { conn: u64 },
    Message { conn: u64, msg: ToBrokerView },
    /// A receive that waits is tried again.
    Poll { conn: u64, blocking: bool },
    Disconnect { conn: u64 },
}

/// The state behind a happening, and what was observed.
pub open spec fn happened<T: TailSource>(m: BrokerModel, h: Happening, tails: T) -> (
    BrokerModel,
    Seq<(u64, ObservedView)>,
) {
    match h {
        Happening::Connect { conn } => broker::on_connect(m, conn),
        Happening::Message { conn, msg } => {
            let (n, step) = broker::on_message(m, conn, msg, tails);
            (n, step.events)
        },
        Happening::Poll { conn, blocking } => {
            let (n, step) = broker::on_poll(m, conn, blocking);
            (n, step.events)
        },
        Happening::Disconnect { conn } => broker::on_disconnect(m, conn, tails),
    }
}

/// The state behind the first `n` happenings, and everything observed.
pub open spec fn ran<T: TailSource>(m: BrokerModel, hs: Seq<Happening>, tails: T, n: int) -> (
    BrokerModel,
    Seq<(u64, ObservedView)>,
)
    decreases n,
{
    if n <= 0 {
        (m, Seq::empty())
    } else {
        let (k, seen) = ran(m, hs, tails, n - 1);
        let (t, new) = happened(k, hs[n - 1], tails);
        (t, seen + new)
    }
}

/// The broker once it no longer waits for the connection, which is still
/// there.
pub open spec fn closing(m: BrokerModel, conn: u64) -> BrokerModel {
    match m.seq {
        Some(s) => BrokerModel { seq: Some(window::seq_closed(s, conn)), ..m },
        None => m,
    }
}

/// What is recorded of a happening tells all that it did. On a single host it
/// always does. In a windowed run there are two ways in which it does not: a
/// receive comes back empty although a datagram waits for it, whose time has
/// not come; and a connection that ends lets sends be sealed that are meant
/// for itself, which are recorded before its end and discarded.
pub open spec fn telling<T: TailSource>(m: BrokerModel, h: Happening, tails: T) -> bool {
    let (n, seen) = happened(m, h, tails);
    m.seq is Some ==> match h {
        Happening::Message { conn, msg: ToBrokerView::Recv { .. } } => seen.last().1->Recv_result
            is None ==> netcore::recv_answer(n.core, conn, None) is None,
        Happening::Disconnect { conn } => seen.drop_last() == broker::sealed_and_fed(
            closing(m, conn),
            tails,
        ).1,
        _ => true,
    }
}

/// Every happening of a run is told.
pub open spec fn all_telling<T: TailSource>(m: BrokerModel, hs: Seq<Happening>, tails: T) -> bool {
    forall|i: int|
        0 <= i < hs.len() ==> telling(#[trigger] ran(m, hs, tails, i).0, hs[i], tails)
}

// ---------------------------------------------------------------------------
// Doing it again
// ---------------------------------------------------------------------------

/// The core behind the first `n` observations done again; `None` where one
/// does not come out as it was observed.
pub open spec fn redid<T: TailSource>(
    c: CoreModel,
    seen: Seq<(u64, ObservedView)>,
    tails: T,
    n: int,
) -> Option<CoreModel>
    decreases n,
{
    if n <= 0 {
        Some(c)
    } else {
        match redid(c, seen, tails, n - 1) {
            None => None,
            Some(k) => {
                let e = recorder::event_of(seen[n - 1].1);
                match replay::redone(k, e, tails) {
                    Some((t, f)) => if f == e && t.vt == seen[n - 1].0 {
                        Some(t)
                    } else {
                        None
                    },
                    None => None,
                }
            },
        }
    }
}

proof fn lemma_redid_prefix<T: TailSource>(
    c: CoreModel,
    a: Seq<(u64, ObservedView)>,
    b: Seq<(u64, ObservedView)>,
    tails: T,
    n: int,
)
    requires
        0 <= n <= a.len(),
        n <= b.len(),
        forall|i: int| 0 <= i < n ==> a[i] == b[i],
    ensures
        redid(c, a, tails, n) == redid(c, b, tails, n),
    decreases n,
{
    if n > 0 {
        lemma_redid_prefix(c, a, b, tails, n - 1);
    }
}

proof fn lemma_redid_more<T: TailSource>(
    c: CoreModel,
    a: Seq<(u64, ObservedView)>,
    b: Seq<(u64, ObservedView)>,
    k: CoreModel,
    tails: T,
    n: int,
)
    requires
        0 <= n <= b.len(),
        redid(c, a, tails, a.len() as int) == Some(k),
    ensures
        redid(c, a + b, tails, a.len() + n) == redid(k, b, tails, n),
    decreases n,
{
    if n == 0 {
        lemma_redid_prefix(c, a, a + b, tails, a.len() as int);
    } else {
        lemma_redid_more(c, a, b, k, tails, n - 1);
        assert((a + b)[a.len() + n - 1] == b[n - 1]);
    }
}

/// One observation that comes out again.
proof fn lemma_redid_one<T: TailSource>(
    c: CoreModel,
    seen: Seq<(u64, ObservedView)>,
    k: CoreModel,
    vt: u64,
    o: ObservedView,
    t: CoreModel,
    tails: T,
)
    requires
        redid(c, seen, tails, seen.len() as int) == Some(k),
        replay::redone(k, recorder::event_of(o), tails) == Some((t, recorder::event_of(o))),
        t.vt == vt,
    ensures
        redid(c, seen.push((vt, o)), tails, seen.len() as int + 1) == Some(t),
{
    lemma_redid_prefix(c, seen, seen.push((vt, o)), tails, seen.len() as int);
}

proof fn lemma_redid_fed<T: TailSource>(core: CoreModel, ops: Seq<SendView>, tails: T)
    ensures
        redid(
            core,
            broker::fed(core, ops, tails).1,
            tails,
            broker::fed(core, ops, tails).1.len() as int,
        ) == Some(broker::fed(core, ops, tails).0),
    decreases ops.len(),
{
    if ops.len() > 0 {
        lemma_redid_fed(core, ops.drop_last(), tails);
        replay::law_fed_send_replays(core, ops, tails);
        let (c, before) = broker::fed(core, ops.drop_last(), tails);
        let (n, events) = broker::fed(core, ops, tails);
        lemma_redid_one(core, before, c, events.last().0, events.last().1, n, tails);
    }
}

proof fn lemma_redid_sealed<T: TailSource>(m: BrokerModel, tails: T)
    ensures
        ({
            let (n, seen) = broker::sealed_and_fed(m, tails);
            redid(m.core, seen, tails, seen.len() as int) == Some(n.core)
        }),
{
    match m.seq {
        Some(s) => if broker::joined(m) {
            lemma_redid_fed(m.core, window::output_below(s, broker::next_horizon(m)), tails);
        },
        None => {},
    }
}

/// A send and the end of a connection that it does not concern can change
/// places.
proof fn lemma_send_past_end(
    c: CoreModel,
    conn: u64,
    x: SendView,
    tail: u64,
)
    requires
        netcore::send_answer(c, x.src, x.dst, x.payload.len(), x.local_vt, tail)
            == netcore::send_answer(
            netcore::core_disconnect(c, conn),
            x.src,
            x.dst,
            x.payload.len(),
            x.local_vt,
            tail,
        ),
    ensures
        netcore::core_send(
            netcore::core_disconnect(c, conn),
            x.src,
            x.dst,
            x.payload,
            x.local_vt,
            tail,
        ) == netcore::core_disconnect(
            netcore::core_send(c, x.src, x.dst, x.payload, x.local_vt, tail),
            conn,
        ),
{
    let d = netcore::core_disconnect(c, conn);
    let a = netcore::core_send(d, x.src, x.dst, x.payload, x.local_vt, tail);
    let b = netcore::core_disconnect(
        netcore::core_send(c, x.src, x.dst, x.payload, x.local_vt, tail),
        conn,
    );
    assert(a.queues =~= b.queues);
    assert(a.bound =~= b.bound);
    assert(a.seq =~= b.seq);
}

/// Where sends are answered the same whether or not a connection has ended,
/// it can end before or behind them.
proof fn lemma_fed_past_end<T: TailSource>(c: CoreModel, conn: u64, ops: Seq<SendView>, tails: T)
    requires
        broker::fed(c, ops, tails).1 == broker::fed(
            netcore::core_disconnect(c, conn),
            ops,
            tails,
        ).1,
    ensures
        broker::fed(netcore::core_disconnect(c, conn), ops, tails).0 == netcore::core_disconnect(
            broker::fed(c, ops, tails).0,
            conn,
        ),
    decreases ops.len(),
{
    if ops.len() > 0 {
        let d = netcore::core_disconnect(c, conn);
        let (k, ea) = broker::fed(c, ops.drop_last(), tails);
        let (l, eb) = broker::fed(d, ops.drop_last(), tails);
        let fa = broker::fed(c, ops, tails).1;
        let fb = broker::fed(d, ops, tails).1;
        assert(fa.drop_last() =~= ea);
        assert(fb.drop_last() =~= eb);
        lemma_fed_past_end(c, conn, ops.drop_last(), tails);
        assert(fa.last() == fb.last());
        let x = ops.last();
        let tail = netcore::tail_for(k, x.src, x.dst, tails);
        assert(tail == netcore::tail_for(l, x.src, x.dst, tails));
        lemma_send_past_end(k, conn, x, tail);
    }
}

/// The sends that the end of a connection lets be sealed.
pub open spec fn freed(m: BrokerModel, conn: u64) -> Seq<SendView> {
    if m.seq is Some && broker::joined(m) {
        let left = closing(m, conn);
        window::output_below(left.seq.unwrap(), broker::next_horizon(left))
    } else {
        Seq::empty()
    }
}

proof fn lemma_end<T: TailSource>(m: BrokerModel, conn: u64, tails: T)
    ensures
        ({
            let (n, seen) = broker::on_disconnect(m, conn, tails);
            let (k, before) = broker::fed(
                netcore::core_disconnect(m.core, conn),
                freed(m, conn),
                tails,
            );
            n.core == k && seen == before.push((k.vt, ObservedView::Disconnect { conn }))
        }),
        m.seq is Some ==> broker::sealed_and_fed(closing(m, conn), tails).1 == broker::fed(
            m.core,
            freed(m, conn),
            tails,
        ).1,
{
    let (n, seen) = broker::on_disconnect(m, conn, tails);
    if m.seq is Some {
        let s = window::seq_closed(m.seq.unwrap(), conn);
        broker::lemma_bounds_same(m.core, s, netcore::core_disconnect(m.core, conn), s);
    }
    if m.seq is None {
        assert(seen =~= Seq::<(u64, ObservedView)>::empty().push(
            (n.core.vt, ObservedView::Disconnect { conn }),
        ));
    }
}

proof fn lemma_end_redid<T: TailSource>(m: BrokerModel, conn: u64, tails: T)
    requires
        telling(m, Happening::Disconnect { conn }, tails),
    ensures
        ({
            let (n, seen) = broker::on_disconnect(m, conn, tails);
            redid(m.core, seen, tails, seen.len() as int) == Some(n.core)
        }),
{
    let (n, seen) = broker::on_disconnect(m, conn, tails);
    let o = ObservedView::Disconnect { conn };
    let ops = freed(m, conn);
    let gone = broker::fed(netcore::core_disconnect(m.core, conn), ops, tails);
    lemma_end(m, conn, tails);
    assert(seen.drop_last() =~= gone.1);
    assert(broker::fed(m.core, ops, tails).1 == gone.1);
    lemma_fed_past_end(m.core, conn, ops, tails);
    lemma_redid_fed(m.core, ops, tails);
    let k = broker::fed(m.core, ops, tails).0;
    lemma_redid_one(m.core, gone.1, k, n.core.vt, o, n.core, tails);
}

proof fn lemma_windowed_recv_redid<T: TailSource>(
    m: BrokerModel,
    conn: u64,
    msg: ToBrokerView,
    tails: T,
)
    requires
        m.seq is Some,
        msg is Recv,
        telling(m, Happening::Message { conn, msg }, tails),
    ensures
        ({
            let (n, step) = broker::on_message(m, conn, msg, tails);
            redid(m.core, step.events, tails, step.events.len() as int) == Some(n.core)
        }),
{
    if let ToBrokerView::Recv { addr, blocking, local_vt } = msg {
        let (n, step) = broker::on_message(m, conn, msg, tails);
        let k = broker::skewed(m, local_vt);
        let s = k.seq.unwrap();
        let told = BrokerModel {
            seq: Some(
                if blocking {
                    window::seq_blocked(s, conn, local_vt)
                } else {
                    window::seq_touched(s, conn, local_vt)
                },
            ),
            ..k
        };
        let (f, before) = broker::sealed_and_fed(told, tails);
        lemma_redid_sealed(told, tails);
        let last = step.events.last();
        assert(step.events =~= before.push(last));
        assert(netcore::core_recv(f.core, conn, None) == n.core);
        lemma_redid_one(m.core, before, f.core, last.0, last.1, n.core, tails);
    }
}

/// What a happening did is done again from what was recorded of it.
#[verifier::spinoff_prover]
proof fn lemma_happening_redid<T: TailSource>(m: BrokerModel, h: Happening, tails: T)
    requires
        telling(m, h, tails),
    ensures
        ({
            let (n, seen) = happened(m, h, tails);
            redid(m.core, seen, tails, seen.len() as int) == Some(n.core)
        }),
{
    let (n, seen) = happened(m, h, tails);
    match h {
        Happening::Connect { conn } => {
            let o = ObservedView::Connect { conn };
            assert(seen =~= Seq::<(u64, ObservedView)>::empty().push((n.core.vt, o)));
            lemma_redid_one(m.core, Seq::empty(), m.core, n.core.vt, o, n.core, tails);
        },
        Happening::Disconnect { conn } => {
            lemma_end_redid(m, conn, tails);
        },
        Happening::Poll { conn, blocking } => {
            if seen.len() > 0 {
                let last = seen[0];
                assert(seen =~= Seq::<(u64, ObservedView)>::empty().push(last));
                lemma_redid_one(m.core, Seq::empty(), m.core, last.0, last.1, n.core, tails);
            }
        },
        Happening::Message { conn, msg } => {
            lemma_message_redid(m, conn, msg, tails);
        },
    }
}

#[verifier::spinoff_prover]
proof fn lemma_message_redid<T: TailSource>(
    m: BrokerModel,
    conn: u64,
    msg: ToBrokerView,
    tails: T,
)
    requires
        telling(m, Happening::Message { conn, msg }, tails),
    ensures
        ({
            let (n, step) = broker::on_message(m, conn, msg, tails);
            redid(m.core, step.events, tails, step.events.len() as int) == Some(n.core)
        }),
{
    let (n, step) = broker::on_message(m, conn, msg, tails);
    let seen = step.events;
    if m.seq is None {
        if seen.len() > 0 {
            replay::law_broker_step_replays(m, conn, msg, tails);
            assert(seen =~= Seq::<(u64, ObservedView)>::empty().push(seen[0]));
            lemma_redid_one(m.core, Seq::empty(), m.core, seen[0].0, seen[0].1, n.core, tails);
        }
    } else {
        match msg {
            ToBrokerView::Hello { node_id, host_id } => {
                let o = ObservedView::Hello { conn, node: node_id };
                assert(seen =~= Seq::<(u64, ObservedView)>::empty().push((n.core.vt, o)));
                lemma_redid_one(m.core, Seq::empty(), m.core, n.core.vt, o, n.core, tails);
            },
            ToBrokerView::Bind { addr } => {
                let o = ObservedView::Bind { conn, addr };
                assert(log::to_vaddr(log::to_addr(addr)) == addr);
                assert(seen =~= Seq::<(u64, ObservedView)>::empty().push((n.core.vt, o)));
                lemma_redid_one(m.core, Seq::empty(), m.core, n.core.vt, o, n.core, tails);
            },
            ToBrokerView::Send { src, dst, payload, local_vt } => {
                let k = broker::skewed(m, local_vt);
                let s = k.seq.unwrap();
                lemma_redid_sealed(
                    broker::counted(
                        BrokerModel {
                            seq: Some(window::seq_admitted(s, conn, local_vt, src, dst, payload)),
                            ..k
                        },
                    ),
                    tails,
                );
            },
            ToBrokerView::Recv { addr, blocking, local_vt } => {
                lemma_windowed_recv_redid(m, conn, msg, tails);
            },
            ToBrokerView::Frontier { local_vt } => {
                let k = broker::skewed(m, local_vt);
                let s = k.seq.unwrap();
                lemma_redid_sealed(
                    BrokerModel { seq: Some(window::seq_declared(s, conn, local_vt)), ..k },
                    tails,
                );
            },
            ToBrokerView::Goodbye => {},
        }
    }
}

proof fn lemma_run_redid<T: TailSource>(m: BrokerModel, hs: Seq<Happening>, tails: T, n: int)
    requires
        0 <= n <= hs.len(),
        all_telling(m, hs, tails),
    ensures
        ({
            let (k, seen) = ran(m, hs, tails, n);
            redid(m.core, seen, tails, seen.len() as int) == Some(k.core)
        }),
    decreases n,
{
    if n > 0 {
        lemma_run_redid(m, hs, tails, n - 1);
        let (k, seen) = ran(m, hs, tails, n - 1);
        let (t, new) = happened(k, hs[n - 1], tails);
        assert(telling(ran(m, hs, tails, n - 1).0, hs[n - 1], tails));
        lemma_happening_redid(k, hs[n - 1], tails);
        lemma_redid_more(m.core, seen, new, k.core, tails, new.len() as int);
    }
}

// ---------------------------------------------------------------------------
// A recording
// ---------------------------------------------------------------------------

/// What a recorder has written of the first `n` observations, each event with
/// what the rules raise at it right behind it, and what it has shown them.
pub open spec fn put_down<I: Invariant>(rules: Seq<I>, seen: Seq<(u64, ObservedView)>, n: int) -> (
    Seq<(u64, EventView)>,
    Seq<Seen>,
)
    decreases n,
{
    if n <= 0 {
        (Seq::empty(), Seq::empty())
    } else {
        let (w, past) = put_down(rules, seen, n - 1);
        let now = noticed(w, seen[n - 1]);
        (
            w.push((now.vt, now.e)) + input::marks(
                now.vt,
                monitor::raised(rules, past, now, rules.len() as int),
            ),
            past.push(now),
        )
    }
}

/// An observation as the rules are shown it, at the place where it is written.
pub open spec fn noticed(w: Seq<(u64, EventView)>, x: (u64, ObservedView)) -> Seen {
    Seen { op: w.len() as u64, vt: x.0, e: recorder::event_of(x.1) }
}

/// Everything that a recorder writes: the observations and, last, the totals.
pub open spec fn session<I: Invariant>(
    h: HeaderView,
    rules: Seq<I>,
    seen: Seq<(u64, ObservedView)>,
) -> Seq<(u64, EventView)> {
    let w = put_down(rules, seen, seen.len() as int).0;
    let last = if seen.len() > 0 {
        seen.last().0
    } else {
        0
    };
    w.push((last, log::end_event(log::written(h, w, w.len() as int))))
}

proof fn lemma_put_down_prefix<I: Invariant>(
    rules: Seq<I>,
    a: Seq<(u64, ObservedView)>,
    b: Seq<(u64, ObservedView)>,
    n: int,
)
    requires
        0 <= n <= a.len(),
        n <= b.len(),
        forall|i: int| 0 <= i < n ==> a[i] == b[i],
    ensures
        put_down(rules, a, n) == put_down(rules, b, n),
    decreases n,
{
    if n > 0 {
        lemma_put_down_prefix(rules, a, b, n - 1);
    }
}

/// A recorder puts down what it observes: where it has written some
/// observations and shown them to its rules, it has behind another one written
/// and shown that too.
pub proof fn law_recorder_puts_down<I: Invariant>(
    h: HeaderView,
    rules: Seq<I>,
    before: Seq<I>,
    after: Seq<I>,
    seen: Seq<(u64, ObservedView)>,
    vt: u64,
    o: ObservedView,
)
    requires
        put_down(rules, seen, seen.len() as int).0.len() < u64::MAX,
        monitor::all_shown(rules, before, put_down(rules, seen, seen.len() as int).1),
        monitor::all_shown(
            before,
            after,
            seq![noticed(put_down(rules, seen, seen.len() as int).0, (vt, o))],
        ),
    ensures
        ({
            let done = put_down(rules, seen, seen.len() as int).0;
            let w = log::written(h, done, done.len() as int);
            let now = Seen { op: w.next_op, vt, e: recorder::event_of(o) };
            let new = monitor::raised(before, Seq::empty(), now, before.len() as int);
            let (more, shown) = put_down(rules, seen.push((vt, o)), seen.len() as int + 1);
            &&& recorder::with_violations(
                log::writer_append(w, vt, now.e),
                vt,
                new,
                new.len() as int,
            ) == log::written(h, more, more.len() as int)
            &&& monitor::all_shown(rules, after, shown)
        }),
{
    let (done, past) = put_down(rules, seen, seen.len() as int);
    let now = noticed(done, (vt, o));
    lemma_put_down_prefix(rules, seen, seen.push((vt, o)), seen.len() as int);
    log::lemma_written(h, done, done.len() as int);
    input::lemma_watch(rules, before, after, past, now);
    let new = monitor::raised(rules, past, now, rules.len() as int);
    let one = done.push((vt, now.e));
    input::lemma_written_prefix(h, done, one, done.len() as int);
    input::lemma_written_marks(h, one, vt, new, new.len() as int);
}

/// The counts of a core change with sends alone.
proof fn lemma_redone_counts<T: TailSource>(c: CoreModel, e: EventView, t: CoreModel, tails: T)
    requires
        replay::redone(c, e, tails) == Some((t, e)),
    ensures
        t.sent == if log::is_send(e) {
            (c.sent + 1) as u64
        } else {
            c.sent
        },
        t.dropped == if log::is_dropped(e) {
            (c.dropped + 1) as u64
        } else {
            c.dropped
        },
{
}

/// A writer counts the sends and the drops that the core counts.
proof fn lemma_put_down_counts<I: Invariant, T: TailSource>(
    h: HeaderView,
    m: ModelView,
    rules: Seq<I>,
    seen: Seq<(u64, ObservedView)>,
    tails: T,
    n: int,
)
    requires
        0 <= n <= seen.len(),
        redid(netcore::core_new(m), seen, tails, n) is Some,
    ensures
        ({
            let w = put_down(rules, seen, n).0;
            let c = redid(netcore::core_new(m), seen, tails, n).unwrap();
            &&& log::written(h, w, w.len() as int).sent == c.sent
            &&& log::written(h, w, w.len() as int).dropped == c.dropped
        }),
    decreases n,
{
    if n > 0 {
        lemma_put_down_counts(h, m, rules, seen, tails, n - 1);
        let (w, past) = put_down(rules, seen, n - 1);
        let now = noticed(w, seen[n - 1]);
        let new = monitor::raised(rules, past, now, rules.len() as int);
        let one = w.push((now.vt, now.e));
        input::lemma_written_prefix(h, w, one, w.len() as int);
        input::lemma_written_marks(h, one, now.vt, new, new.len() as int);
        input_laws::lemma_marks_count(
            log::written(h, one, one.len() as int),
            now.vt,
            new,
            new.len() as int,
        );
        let c = redid(netcore::core_new(m), seen, tails, n - 1).unwrap();
        let t = redid(netcore::core_new(m), seen, tails, n).unwrap();
        lemma_redone_counts(c, now.e, t, tails);
    }
}

/// What was put down of some observations begins what is put down of more.
proof fn lemma_put_down_grows<I: Invariant>(
    rules: Seq<I>,
    seen: Seq<(u64, ObservedView)>,
    k: int,
    n: int,
)
    requires
        0 <= k <= n,
    ensures
        input_laws::begins_with(put_down(rules, seen, n).0, put_down(rules, seen, k).0),
    decreases n,
{
    if k < n {
        lemma_put_down_grows(rules, seen, k, n - 1);
        let a = put_down(rules, seen, k).0;
        let p = put_down(rules, seen, n - 1).0;
        let b = put_down(rules, seen, n).0;
        assert forall|i: int| 0 <= i < a.len() implies #[trigger] b[i] == a[i] by {
            assert(p[i] == a[i]);
        }
    }
}

/// The records that the observation at `k - 1` left.
proof fn lemma_records_at<I: Invariant>(
    h: HeaderView,
    rules: Seq<I>,
    seen: Seq<(u64, ObservedView)>,
    events: Seq<(u64, EventView)>,
    k: int,
)
    requires
        0 < k <= seen.len(),
        events.len() < u64::MAX,
        input_laws::begins_with(events, put_down(rules, seen, seen.len() as int).0),
    ensures
        ({
            let (w, past) = put_down(rules, seen, k - 1);
            let now = noticed(w, seen[k - 1]);
            let new = monitor::raised(rules, past, now, rules.len() as int);
            let records = input_laws::records_of(h, events);
            &&& input_laws::op_records(records, w.len() as int, now, new)
            &&& records[w.len() as int].op == now.op
            &&& put_down(rules, seen, k).0.len() == w.len() + 1 + new.len()
        }),
{
    let (w, past) = put_down(rules, seen, k - 1);
    let n = w.len() as int;
    let now = noticed(w, seen[k - 1]);
    let new = monitor::raised(rules, past, now, rules.len() as int);
    let records = input_laws::records_of(h, events);
    let here = put_down(rules, seen, k).0;
    let all = put_down(rules, seen, seen.len() as int).0;
    lemma_put_down_grows(rules, seen, k, seen.len() as int);
    assert(here == w.push((now.vt, now.e)) + input::marks(now.vt, new));
    assert(all[n] == here[n]);
    assert(events[n] == all[n]);
    log::lemma_written(h, events, n);
    assert forall|i: int| 0 <= i < new.len() implies records[n + 1 + i].e
        == recorder::violation_event(#[trigger] new[i]) && records[n + 1 + i].vt == now.vt by {
        let j = n + 1 + i;
        assert(here[j] == input::marks(now.vt, new)[i]);
        assert(all[j] == here[j]);
        assert(events[j] == all[j]);
    }
}

/// The state that a replay has reached behind the first `k` observations.
pub open spec fn abreast<I: Invariant, T: TailSource>(
    s: ReplayModel,
    start: CoreModel,
    rules: Seq<I>,
    checks: Seq<I>,
    seen: Seq<(u64, ObservedView)>,
    tails: T,
    k: int,
) -> bool {
    &&& redid(start, seen, tails, k) == Some(s.core)
    &&& checks.len() > 0 ==> {
        &&& s.shown == put_down(rules, seen, k).1
        &&& s.matched == s.raised.len()
        &&& s.raised == monitor::all_raised(rules, s.shown, k)
    }
}

#[verifier::spinoff_prover]
#[verifier::rlimit(40)]
proof fn lemma_replay_observation<I: Invariant, T: TailSource>(
    h: HeaderView,
    start: CoreModel,
    rules: Seq<I>,
    checks: Seq<I>,
    seen: Seq<(u64, ObservedView)>,
    events: Seq<(u64, EventView)>,
    tails: T,
    k: int,
)
    requires
        0 <= k <= seen.len(),
        events.len() < u64::MAX,
        checks.len() == 0 || checks == rules,
        input_laws::begins_with(events, put_down(rules, seen, seen.len() as int).0),
        redid(start, seen, tails, seen.len() as int) is Some,
    ensures
        ({
            let n = put_down(rules, seen, k).0.len() as int;
            let p = replay::replayed(
                start,
                input_laws::records_of(h, events),
                checks,
                None,
                tails,
                n,
            );
            p is Running && abreast(p->Running_0, start, rules, checks, seen, tails, k)
        }),
    decreases k,
{
    let records = input_laws::records_of(h, events);
    if k > 0 {
        lemma_replay_observation(h, start, rules, checks, seen, events, tails, k - 1);
        lemma_records_at(h, rules, seen, events, k);
        lemma_redid_some(start, seen, tails, k, seen.len() as int);
        let (w, past) = put_down(rules, seen, k - 1);
        let n = w.len() as int;
        let now = noticed(w, seen[k - 1]);
        let new = monitor::raised(rules, past, now, rules.len() as int);
        let s = replay::replayed(start, records, checks, None, tails, n)->Running_0;
        let c = redid(start, seen, tails, k).unwrap();
        let r = records[n];
        input_laws::lemma_replay_one(s, r, c, checks, tails);
        let p = replay::replayed(start, records, checks, None, tails, n + 1);
        assert(p == replay::replay_step(s, r, checks, None, tails));
        let t = p->Running_0;
        if checks.len() > 0 {
            assert(Seen { op: r.op, vt: r.vt, e: r.e } == now);
            assert(t.raised == s.raised + new);
            assert forall|i: int| 0 <= i < new.len() implies recorder::violation_event(
                t.raised[t.matched + i],
            ) == recorder::violation_event(#[trigger] new[i]) by {
                assert(t.raised[t.matched + i] == new[i]);
            }
            lemma_put_down_shown(rules, seen, k - 1);
            lemma_all_raised_push(rules, past, now);
        }
        input_laws::lemma_replay_marks(
            start,
            records,
            checks,
            tails,
            n + 1,
            t,
            new,
            new.len() as int,
        );
    }
}

proof fn lemma_all_raised_push<I: Invariant>(rules: Seq<I>, past: Seq<Seen>, now: Seen)
    ensures
        monitor::all_raised(rules, past.push(now), past.len() as int + 1) == monitor::all_raised(
            rules,
            past,
            past.len() as int,
        ) + monitor::raised(rules, past, now, rules.len() as int),
{
    monitor::lemma_raised_prefix(rules, past, past.push(now), past.len() as int);
    assert(past.push(now).take(past.len() as int) =~= past);
}

proof fn lemma_put_down_shown<I: Invariant>(
    rules: Seq<I>,
    seen: Seq<(u64, ObservedView)>,
    n: int,
)
    requires
        0 <= n,
    ensures
        put_down(rules, seen, n).1.len() == n,
    decreases n,
{
    if n > 0 {
        lemma_put_down_shown(rules, seen, n - 1);
    }
}

proof fn lemma_redid_some<T: TailSource>(
    c: CoreModel,
    seen: Seq<(u64, ObservedView)>,
    tails: T,
    k: int,
    n: int,
)
    requires
        0 <= k <= n,
        redid(c, seen, tails, n) is Some,
    ensures
        redid(c, seen, tails, k) is Some,
    decreases n,
{
    if k < n {
        lemma_redid_some(c, seen, tails, k, n - 1);
    }
}

/// A run that was recorded replays identically: from the header's conditions,
/// the replay of the recording gives every record again, byte for byte, with
/// the digest of the log, and ends with the core where the run ended. Checked
/// with the rules of the recording it raises what they raised live. It holds
/// on a single host of every run, and in a windowed run wherever what is
/// recorded tells all that was done.
pub proof fn law_recorded_run_replays<I: Invariant, T: TailSource>(
    h: HeaderView,
    m: ModelView,
    window_ns: u64,
    expected: u32,
    limit: u64,
    hs: Seq<Happening>,
    rules: Seq<I>,
    checks: Seq<I>,
    tails: T,
)
    requires
        all_telling(BrokerModel { expected, limit, ..broker::broker_new(m, window_ns) }, hs, tails),
        checks.len() == 0 || checks == rules,
        ({
            let b = BrokerModel { expected, limit, ..broker::broker_new(m, window_ns) };
            session(h, rules, ran(b, hs, tails, hs.len() as int).1).len() < u64::MAX
        }),
    ensures
        ({
            let b = BrokerModel { expected, limit, ..broker::broker_new(m, window_ns) };
            let (n, seen) = ran(b, hs, tails, hs.len() as int);
            let records = input_laws::records_of(h, session(h, rules, seen));
            let p = replay::replayed(
                netcore::core_new(m),
                records,
                checks,
                None,
                tails,
                records.len() as int,
            );
            &&& p is Running
            &&& p->Running_0.core == n.core
            &&& replay::outcome_at(p) == Ok::<OutcomeView, ReplayErrorView>(
                OutcomeView {
                    identical: true,
                    ops_replayed: records.len() as u64,
                    divergence: None,
                    violations: p->Running_0.raised,
                    stream_digest: log::digest_of(records, records.len() as int),
                },
            )
            &&& checks.len() > 0 ==> p->Running_0.raised == monitor::all_raised(
                rules,
                put_down(rules, seen, seen.len() as int).1,
                seen.len() as int,
            )
        }),
{
    let b = BrokerModel { expected, limit, ..broker::broker_new(m, window_ns) };
    let start = netcore::core_new(m);
    let (n, seen) = ran(b, hs, tails, hs.len() as int);
    let events = session(h, rules, seen);
    let records = input_laws::records_of(h, events);
    let w = put_down(rules, seen, seen.len() as int).0;
    let at = w.len() as int;
    lemma_run_redid(b, hs, tails, hs.len() as int);
    assert(input_laws::begins_with(events, w));
    lemma_replay_observation(h, start, rules, checks, seen, events, tails, seen.len() as int);
    lemma_put_down_counts(h, m, rules, seen, tails, seen.len() as int);
    input::lemma_written_prefix(h, w, events, at);
    log::lemma_written(h, events, at);
    let s = replay::replayed(start, records, checks, None, tails, at)->Running_0;
    let p = replay::replayed(start, records, checks, None, tails, at + 1);
    assert(p == replay::replay_step(s, records[at], checks, None, tails));
    assert(s.core.vt == records[at].vt);
    replay::law_identical_digest(start, records, checks, None, tails, at + 1);
}

proof fn lemma_stays_single<T: TailSource>(m: BrokerModel, hs: Seq<Happening>, tails: T, n: int)
    requires
        m.seq is None,
    ensures
        ran(m, hs, tails, n).0.seq is None,
    decreases n,
{
    if n > 0 {
        lemma_stays_single(m, hs, tails, n - 1);
    }
}

/// On a single host every run that is recorded replays identically.
pub proof fn law_single_host_run_replays<I: Invariant, T: TailSource>(
    h: HeaderView,
    m: ModelView,
    hs: Seq<Happening>,
    rules: Seq<I>,
    tails: T,
)
    requires
        session(h, rules, ran(broker::broker_new(m, 0), hs, tails, hs.len() as int).1).len()
            < u64::MAX,
    ensures
        ({
            let seen = ran(broker::broker_new(m, 0), hs, tails, hs.len() as int).1;
            let records = input_laws::records_of(h, session(h, rules, seen));
            let p = replay::replayed(
                netcore::core_new(m),
                records,
                rules,
                None,
                tails,
                records.len() as int,
            );
            &&& p is Running
            &&& replay::outcome_at(p)->Ok_0.identical
            &&& replay::outcome_at(p)->Ok_0.stream_digest == log::digest_of(
                records,
                records.len() as int,
            )
        }),
{
    let b = broker::broker_new(m, 0);
    assert(BrokerModel { expected: 0, limit: 0, ..b } == b);
    assert forall|i: int| 0 <= i < hs.len() implies telling(
        #[trigger] ran(b, hs, tails, i).0,
        hs[i],
        tails,
    ) by {
        lemma_stays_single(b, hs, tails, i);
    }
    law_recorded_run_replays(h, m, 0, 0, 0, hs, rules, rules, tails);
}

} // verus!
