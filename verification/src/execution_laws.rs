//! The laws of an execution: one event for each operation, and totals that are
//! those of the events.

use vstd::prelude::*;

use crate::fault::{ModelView, TailSource};
use crate::input;
use crate::input::OpView;
use crate::log::{EventView, SendOutcome};
use crate::monitor::Invariant;
use crate::netcore;
use crate::workload_laws;

verus! {

/// How many of the first `n` events are sends that were dropped.
pub open spec fn drops<T: TailSource>(
    m: ModelView,
    ops: Seq<OpView>,
    tails: T,
    n: int,
) -> nat
    decreases n,
{
    if n <= 0 {
        0
    } else {
        drops(m, ops, tails, n - 1) + match input::event_at(
            netcore::core_new(m),
            ops,
            tails,
            n - 1,
        ).e {
            EventView::Send { outcome: SendOutcome::Dropped, .. } => 1nat,
            _ => 0nat,
        }
    }
}

proof fn lemma_totals<T: TailSource>(m: ModelView, ops: Seq<OpView>, tails: T, n: int)
    requires
        0 <= n <= ops.len() < u64::MAX,
    ensures
        ({
            let c = input::core_at(netcore::core_new(m), ops, tails, n);
            &&& c.sent == workload_laws::sends(ops.take(n))
            &&& c.dropped == drops(m, ops, tails, n)
            &&& drops(m, ops, tails, n) <= n
            &&& workload_laws::sends(ops.take(n)) <= n
        }),
    decreases n,
{
    if n > 0 {
        lemma_totals(m, ops, tails, n - 1);
        assert(ops.take(n).drop_last() =~= ops.take(n - 1));
        assert(ops.take(n).last() == ops[n - 1]);
    } else {
        assert(ops.take(0).len() == 0);
    }
}

/// An execution has one event for each operation, numbered in their order; and
/// it counts the datagrams that the operations send and those that were
/// dropped.
pub proof fn law_execution<I: Invariant, T: TailSource>(
    m: ModelView,
    ops: Seq<OpView>,
    rules: Seq<I>,
    tails: T,
    i: int,
)
    requires
        ops.len() < u64::MAX,
    ensures
        ({
            let x = input::executed(netcore::core_new(m), ops, rules, tails);
            &&& x.events.len() == ops.len()
            &&& 0 <= i < ops.len() ==> x.events[i].op == i
            &&& x.stats.0 == workload_laws::sends(ops)
            &&& x.stats.1 == drops(m, ops, tails, ops.len() as int)
        }),
{
    lemma_totals(m, ops, tails, ops.len() as int);
    assert(ops.take(ops.len() as int) =~= ops);
}

/// The event of an operation is of its kind and on its connection.
pub proof fn law_event_of_an_operation<T: TailSource>(
    m: ModelView,
    ops: Seq<OpView>,
    tails: T,
    i: int,
)
    requires
        0 <= i < ops.len(),
    ensures
        ({
            let e = input::event_at(netcore::core_new(m), ops, tails, i).e;
            &&& ops[i] matches OpView::Connect { conn } ==> e == (EventView::Connect { conn })
            &&& ops[i] matches OpView::Hello { conn, node } ==> e == (EventView::Hello {
                conn,
                node,
            })
            &&& ops[i] matches OpView::Bind { conn, addr } ==> e is Bind && e->Bind_conn == conn
                && e->addr.ip == addr.ip && e->addr.port == addr.port
            &&& ops[i] matches OpView::Send { conn, src, dst, payload } ==> e is Send
                && e->Send_conn == conn && e->src.ip == src.ip && e->src.port == src.port
                && e->dst.ip == dst.ip && e->dst.port == dst.port && crate::hash::unhex(e->payload)
                == Some(payload)
            &&& ops[i] matches OpView::Recv { conn, blocking } ==> e is Recv && e->Recv_conn == conn
                && e->blocking == blocking
            &&& ops[i] matches OpView::Disconnect { conn } ==> e == (EventView::Disconnect { conn })
        }),
{
    if let OpView::Send { conn, src, dst, payload } = ops[i] {
        crate::hash::law_hex_round_trip(payload);
    }
}

} // verus!
