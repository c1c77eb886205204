//! The laws of the broker: what each message does, and what it is answered.

use vstd::prelude::*;

use crate::broker;
use crate::broker::{BrokerModel, ObservedView};
use crate::fault;
use crate::fault::{ModelView, TailSource};
use crate::netcore;
use crate::netcore::CoreModel;
use crate::window;
use crate::window::SendView;
use crate::wire::{FromBrokerView, ToBrokerView, VAddr};

verus! {

/// A broker starts with nobody joined and nothing wrong, and with windows
/// exactly where their width is stated.
pub proof fn law_start(model: ModelView, window_ns: u64)
    ensures
        ({
            let m = broker::broker_new(model, window_ns);
            &&& m.seq is Some <==> window_ns > 0
            &&& m.seq matches Some(s) ==> s.width == window_ns && s.horizon == 0 && s.pending.len()
                == 0
            &&& m.core.model == model && m.core.sent == 0 && m.core.vt == 0
            &&& m.violation is None && m.live == 0 && m.nodes.len() == 0
        }),
{
}

/// A violation is told once, at the first; what was told stays.
pub open spec fn told_since(m: BrokerModel, n: BrokerModel, now: bool) -> bool {
    &&& m.violation is Some ==> n.violation == m.violation
    &&& m.violation is None ==> (n.violation is Some <==> now)
}

/// Whoever says hello is acknowledged and known from then on; under windows it
/// is a violation to say it twice, on a connection or as a node.
pub proof fn law_hello<T: TailSource>(
    m: BrokerModel,
    conn: u64,
    node_id: u32,
    host_id: u32,
    tails: T,
)
    ensures
        ({
            let (n, step) = broker::on_message(
                m,
                conn,
                ToBrokerView::Hello { node_id, host_id },
                tails,
            );
            &&& step.reply == Some(FromBrokerView::Ack { vt: m.core.vt })
            &&& !step.wait && step.rejected is None
            &&& step.events.len() == 1 && step.events[0].1 == (ObservedView::Hello {
                conn,
                node: node_id,
            })
            &&& n.nodes == m.nodes.insert(node_id) && n.hello == m.hello.insert(conn)
            &&& n.core == m.core && n.goodbye == m.goodbye && n.live == m.live
            &&& told_since(
                m,
                n,
                m.seq is Some && (m.nodes.contains(node_id) || m.hello.contains(conn)),
            )
            &&& m.seq matches Some(s) ==> n.seq == Some(
                window::seq_register(s, conn, host_id, node_id),
            )
            &&& m.seq is None ==> n.seq is None
        }),
{
}

/// Whoever takes an address is acknowledged and gets what is sent there.
pub proof fn law_bind<T: TailSource>(m: BrokerModel, conn: u64, addr: VAddr, tails: T)
    ensures
        ({
            let (n, step) = broker::on_message(m, conn, ToBrokerView::Bind { addr }, tails);
            &&& step.reply == Some(FromBrokerView::Ack { vt: m.core.vt })
            &&& step.events.len() == 1 && step.events[0].1 == (ObservedView::Bind { conn, addr })
            &&& n.core.bound == m.core.bound.insert(addr, conn)
            &&& n.core.queues == m.core.queues && n.seq == m.seq && n.violation == m.violation
        }),
{
}

/// A goodbye is not answered, and is remembered; it changes nothing else.
pub proof fn law_goodbye<T: TailSource>(m: BrokerModel, conn: u64, tails: T)
    ensures
        ({
            let (n, step) = broker::on_message(m, conn, ToBrokerView::Goodbye, tails);
            &&& step.reply is None && !step.wait && step.events.len() == 0
            &&& n == (BrokerModel { goodbye: m.goodbye.insert(conn), ..m })
        }),
{
}

/// A connection that closes is gone, and the closing is put down last; under
/// windows it is a violation to close after a hello without a goodbye.
pub proof fn law_closing<T: TailSource>(m: BrokerModel, conn: u64, tails: T)
    ensures
        ({
            let (n, events) = broker::on_disconnect(m, conn, tails);
            &&& events.len() > 0 && events.last() == (
                n.core.vt,
                ObservedView::Disconnect { conn },
            )
            &&& m.live > 0 ==> n.live == m.live - 1
            &&& m.live == 0 ==> n.live == 0
            &&& told_since(
                m,
                n,
                m.seq is Some && m.hello.contains(conn) && !m.goodbye.contains(conn),
            )
            &&& m.seq is None ==> n.core == netcore::core_disconnect(m.core, conn) && events.len()
                == 1
            &&& m.seq is Some ==> n.seq is Some && (m.seq.unwrap().conns.contains_key(conn)
                ==> n.seq.unwrap().conns.contains_key(conn)
                && !n.seq.unwrap().conns[conn].live)
        }),
{
}

/// Without windows a datagram is on its way at once: it is routed as the
/// network routes it, acknowledged, and those who wait are told if it goes to
/// somebody.
pub proof fn law_send_at_once<T: TailSource>(
    m: BrokerModel,
    conn: u64,
    src: VAddr,
    dst: VAddr,
    payload: Seq<u8>,
    local_vt: u64,
    tails: T,
)
    requires
        m.seq is None,
    ensures
        ({
            let (n, step) = broker::on_message(
                m,
                conn,
                ToBrokerView::Send { src, dst, payload, local_vt },
                tails,
            );
            let tail = netcore::tail_for(m.core, src, dst, tails);
            let result = netcore::send_answer(m.core, src, dst, payload.len(), 0, tail);
            &&& n.core == netcore::core_send(m.core, src, dst, payload, 0, tail)
            &&& step.reply == Some(FromBrokerView::Ack { vt: n.core.vt })
            &&& step.notify <==> result is Enqueued
            &&& !step.wait && step.rejected is None
            &&& step.events.len() == 1 && step.events[0].0 == n.core.vt && step.events[0].1 == (
            ObservedView::Send {
                conn,
                src,
                dst,
                chan_seq: netcore::next_seq(m.core, src, dst),
                send_vt: 0,
                payload,
                result,
            })
            &&& n.violation == m.violation && n.seq is None
        }),
{
}

/// Under windows a send is taken if and only if it is admitted; one that is not
/// is a violation and goes nowhere, and one that is waits for its window: until
/// every node has joined nothing is on its way.
pub proof fn law_send_in_a_window<T: TailSource>(
    m: BrokerModel,
    conn: u64,
    src: VAddr,
    dst: VAddr,
    payload: Seq<u8>,
    local_vt: u64,
    tails: T,
)
    requires
        m.seq is Some,
    ensures
        ({
            let (n, step) = broker::on_message(
                m,
                conn,
                ToBrokerView::Send { src, dst, payload, local_vt },
                tails,
            );
            let s = m.seq.unwrap();
            let answer = window::admit_answer(s, conn, local_vt);
            &&& step.reply == Some(FromBrokerView::Ack { vt: n.core.vt }) && !step.wait
            &&& answer matches Err(e) ==> step.rejected == Some(e) && n.violation is Some && n.core
                == m.core && n.seq == m.seq && step.events.len() == 0
            &&& answer is Ok ==> {
                let t = window::seq_admitted(s, conn, local_vt, src, dst, payload);
                &&& step.rejected is None && step.notify
                &&& m.nodes.len() < m.expected ==> n.core == m.core && n.seq == Some(t)
                    && step.events.len() == 0
                &&& told_since(
                    m,
                    n,
                    m.limit > 0 && window::crowd(
                        t.pending,
                        t.pending.last(),
                        t.width,
                        t.pending.len() as int,
                    ) > m.limit,
                )
            }
        }),
{
}

/// A promise under windows is taken if and only if it may be made; without
/// windows it means nothing.
pub proof fn law_promise_is_taken<T: TailSource>(
    m: BrokerModel,
    conn: u64,
    local_vt: u64,
    tails: T,
)
    ensures
        ({
            let (n, step) = broker::on_message(m, conn, ToBrokerView::Frontier { local_vt }, tails);
            &&& step.reply == Some(FromBrokerView::Ack { vt: n.core.vt }) && !step.wait
            &&& m.seq is None ==> n == m && step.rejected is None
            &&& m.seq matches Some(s) ==> {
                let known = s.conns.contains_key(conn) && s.conns[conn].frontier <= local_vt;
                &&& step.rejected is None <==> known
                &&& !known ==> n.violation is Some && n.core == m.core && n.seq == m.seq
                &&& known ==> n.violation == m.violation && n.seq is Some
                    && n.seq.unwrap().conns[conn].frontier == local_vt
            }
        }),
{
}

/// Without windows a receive hands over what waits; where nothing does, it is
/// told so, unless it is to wait for it.
pub proof fn law_receive_at_once<T: TailSource>(
    m: BrokerModel,
    conn: u64,
    addr: VAddr,
    blocking: bool,
    local_vt: u64,
    tails: T,
)
    requires
        m.seq is None,
        m.core.queues.contains_key(conn),
    ensures
        ({
            let (n, step) = broker::on_message(
                m,
                conn,
                ToBrokerView::Recv { addr, blocking, local_vt },
                tails,
            );
            let q = m.core.queues[conn];
            &&& q.len() > 0 ==> {
                &&& step.reply == Some(
                    FromBrokerView::Deliver {
                        src: q.last().src,
                        dst: q.last().dst,
                        payload: q.last().payload,
                        vt: m.core.vt,
                    },
                )
                &&& !step.wait && step.events.len() == 1
                &&& n.core.queues[conn] == q.drop_last()
            }
            &&& q.len() == 0 && !blocking ==> step.reply == Some(
                FromBrokerView::Empty { vt: m.core.vt },
            ) && !step.wait && step.events.len() == 1 && n.core == m.core
            &&& q.len() == 0 && blocking ==> step.reply is None && step.wait && step.events.len()
                == 0 && n.core == m.core
        }),
{
}

/// Under windows a receive never waits for its answer. What it is handed is due
/// below what is sealed and the least delay together, and for one that does
/// not block below its own time; a blocking receive that finds nothing blocks,
/// and one that is handed something goes on.
pub proof fn law_receive_in_a_window<T: TailSource>(
    m: BrokerModel,
    conn: u64,
    addr: VAddr,
    blocking: bool,
    local_vt: u64,
    tails: T,
)
    requires
        m.seq is Some,
        m.seq.unwrap().conns.contains_key(conn),
    ensures
        ({
            let (n, step) = broker::on_message(
                m,
                conn,
                ToBrokerView::Recv { addr, blocking, local_vt },
                tails,
            );
            let reach = n.seq.unwrap().horizon + fault::least_delay(n.core.model.latency);
            let c = n.seq.unwrap().conns[conn];
            &&& n.seq is Some && n.seq.unwrap().conns.contains_key(conn)
            &&& !step.wait && step.rejected is None && n.violation == m.violation
            &&& step.reply matches Some(FromBrokerView::Deliver { vt, .. }) ==> vt < reach && (
            !blocking ==> vt < local_vt) && vt <= c.frontier && !c.blocked
            &&& step.reply matches Some(FromBrokerView::Empty { vt }) ==> vt == if reach
                > u64::MAX {
                u64::MAX as int
            } else {
                reach
            } && (blocking ==> c.blocked) && local_vt <= c.frontier
            &&& step.reply is Some && !(step.reply.unwrap() is Ack)
            &&& step.events.len() > 0 && step.events.last().1 is Recv
        }),
{
}

/// What is sealed goes on its way one by one, in the order in which it is
/// sealed, each as it was admitted; and each is put down with the state it
/// leaves.
pub proof fn law_sealed_sends_go_out<T: TailSource>(
    core: CoreModel,
    ops: Seq<SendView>,
    tails: T,
    i: int,
)
    ensures
        broker::fed(core, ops, tails).1.len() == ops.len(),
        0 <= i < ops.len() ==> {
            let (vt, e) = broker::fed(core, ops, tails).1[i];
            let before = broker::fed(core, ops.take(i), tails).0;
            let after = broker::fed(core, ops.take(i + 1), tails).0;
            let x = ops[i];
            let tail = netcore::tail_for(before, x.src, x.dst, tails);
            &&& after == netcore::core_send(before, x.src, x.dst, x.payload, x.local_vt, tail)
            &&& vt == after.vt
            &&& e is Send
            &&& e->Send_conn == x.conn && e->src == x.src && e->dst == x.dst && e->payload
                == x.payload && e->send_vt == x.local_vt
            &&& e->Send_result == netcore::send_answer(
                before,
                x.src,
                x.dst,
                x.payload.len(),
                x.local_vt,
                tail,
            )
        },
    decreases ops.len(),
{
    if ops.len() > 0 {
        let p = ops.drop_last();
        let n = ops.len() as int;
        law_sealed_sends_go_out(core, p, tails, i);
        assert(ops.take(n) =~= ops);
        assert(ops.take(n - 1) =~= p);
        if 0 <= i < n - 1 {
            assert(p.take(i) =~= ops.take(i));
            assert(p.take(i + 1) =~= ops.take(i + 1));
        }
    }
}

/// The skew is the greatest distance that was ever seen between the time of a
/// node, where it tells one, and that of the network.
pub proof fn law_skew(m: BrokerModel, local_vt: u64)
    ensures
        ({
            let n = broker::skewed(m, local_vt);
            let d = if local_vt < m.core.vt {
                m.core.vt - local_vt
            } else {
                local_vt - m.core.vt
            };
            &&& m.max_skew <= n.max_skew
            &&& local_vt > 0 ==> d <= n.max_skew && (n.max_skew == d || n.max_skew == m.max_skew)
            &&& local_vt == 0 ==> n.max_skew == m.max_skew
            &&& n == (BrokerModel { max_skew: n.max_skew, ..m })
        }),
{
}

/// Windows seal only once every node that is expected has joined.
pub proof fn law_nothing_is_sealed_before_all_joined<T: TailSource>(m: BrokerModel, tails: T)
    ensures
        m.nodes.len() < m.expected ==> broker::sealed_and_fed(m, tails).0 == m
            && broker::sealed_and_fed(m, tails).1.len() == 0,
        m.seq is None ==> broker::sealed_and_fed(m, tails).0 == m,
        m.seq is Some && m.nodes.len() >= m.expected ==> {
            let h = broker::next_horizon(m);
            let n = broker::sealed_and_fed(m, tails).0;
            &&& n.seq is Some
            &&& m.seq.unwrap().horizon < h ==> n.seq.unwrap().horizon == h
            &&& h <= m.seq.unwrap().horizon ==> n == m
        },
{
}

/// The run hangs if and only if it is windowed, every node left waits and
/// nothing is on its way to anybody.
pub proof fn law_hung(m: BrokerModel)
    ensures
        broker::hung(m) <==> m.seq is Some && window::stuck(m.seq.unwrap()) && forall|c: u64|
            #[trigger] m.core.queues.contains_key(c) ==> m.core.queues[c].len() == 0,
{
    if m.seq is Some && window::stuck(m.seq.unwrap()) {
        if forall|c: u64| #[trigger]
            m.core.queues.contains_key(c) ==> m.core.queues[c].len() == 0 {
            assert(broker::hung(m));
        }
    }
}

} // verus!
