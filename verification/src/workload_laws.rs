//! The laws of a workload: who joins, what is sent, and who looks for it.

use vstd::prelude::*;

use crate::abi;
use crate::input::OpView;
use crate::workload;
use crate::workload::Workload;

verus! {

/// There are as many nodes as were asked for, and two at the least; they have
/// the addresses from 127.0.0.1 on, at port 100.
pub proof fn law_nodes(w: Workload, node: u32)
    requires
        node < 255,
    ensures
        workload::node_count(w) >= 2 && workload::node_count(w) >= w.nodes,
        w.nodes >= 2 ==> workload::node_count(w) == w.nodes,
        w.nodes < 2 ==> workload::node_count(w) == 2,
        workload::addr_of(node).ip == 0x7f00_0001 + node,
        workload::addr_of(node).port == 100,
{
}

/// A payload has the length that was asked for, and one byte at the least; it
/// starts with the number of the datagram, its lowest byte first, as far as
/// four bytes, and goes on with zeros.
pub proof fn law_payload(i: u32, len: nat)
    ensures
        ({
            let p = workload::payload_of(i, len);
            &&& p.len() == if len == 0 {
                1
            } else {
                len
            }
            &&& p[0] == i % 256
            &&& p.len() >= 2 ==> p[1] == i / 256 % 256
            &&& p.len() >= 3 ==> p[2] == i / 65536 % 256
            &&& p.len() >= 4 ==> p[3] == i / 16777216
            &&& forall|j: int| 4 <= j < p.len() ==> #[trigger] p[j] == 0
        }),
{
    reveal_with_fuel(abi::le_bytes, 6);
}

/// Every node connects, says hello and takes its address, one node after the
/// other, before anything else.
pub proof fn law_setup(n: int, i: int)
    requires
        0 <= i < n <= u32::MAX,
    ensures
        workload::setup(n).len() == 3 * n,
        workload::setup(n)[3 * i] == (OpView::Connect { conn: i as u64 }),
        workload::setup(n)[3 * i + 1] == (OpView::Hello { conn: i as u64, node: i as u32 }),
        workload::setup(n)[3 * i + 2] == (OpView::Bind {
            conn: i as u64,
            addr: workload::addr_of(i as u32),
        }),
    decreases n,
{
    if n > 1 {
        law_setup(n - 1, if i < n - 1 {
            i
        } else {
            0
        });
    } else {
        assert(workload::setup(0).len() == 0);
    }
}

/// How many of the operations send.
pub open spec fn sends(ops: Seq<OpView>) -> nat
    decreases ops.len(),
{
    if ops.len() == 0 {
        0
    } else {
        sends(ops.drop_last()) + if ops.last() is Send {
            1nat
        } else {
            0
        }
    }
}

proof fn lemma_sends_joined(a: Seq<OpView>, b: Seq<OpView>)
    ensures
        sends(a + b) == sends(a) + sends(b),
    decreases b.len(),
{
    if b.len() == 0 {
        assert(a + b =~= a);
    } else {
        assert((a + b).drop_last() =~= a + b.drop_last());
        assert((a + b).last() == b.last());
        lemma_sends_joined(a, b.drop_last());
    }
}

/// Between the setup and the end the datagrams are sent that were asked for,
/// each with its own number, and now and then a node looks, without waiting,
/// whether there is something for it.
pub proof fn law_stream(seed: u64, nodes: u32, len: nat, k: int, t: int)
    requires
        nodes >= 2,
        0 <= k <= u32::MAX,
    ensures
        ({
            let ops = workload::stream(seed, nodes, len, k).1;
            &&& sends(ops) == k
            &&& 0 <= t < ops.len() ==> {
                &&& ops[t] is Send ==> ops[t]->payload == workload::payload_of(
                    sends(ops.take(t)) as u32,
                    len,
                )
                &&& !(ops[t] is Send) ==> ops[t] is Recv && !ops[t]->blocking && ops[t]->Recv_conn
                    < nodes
            }
        }),
    decreases k,
{
    if k > 0 {
        law_stream(seed, nodes, len, k - 1, t);
        let p = workload::stream(seed, nodes, len, k - 1).1;
        let ops = workload::stream(seed, nodes, len, k).1;
        let n = p.len() as int;
        let mid = ops.take(n + 1);
        assert(ops.take(n) =~= p);
        assert(mid.drop_last() =~= p);
        assert(ops[n] is Send);
        assert(sends(mid) == k);
        if ops.len() == n + 1 {
            assert(mid =~= ops);
        } else {
            assert(ops.drop_last() =~= mid);
        }
        if 0 <= t < n {
            assert(ops[t] == p[t]);
            assert(ops.take(t) =~= p.take(t));
        }
    }
}

/// At the end every node looks for as many datagrams as were sent, one node
/// after the other, without waiting.
pub proof fn law_drain(n: int, count: u32, c: int, j: int)
    requires
        0 <= c < n <= u32::MAX,
        0 <= j < count,
    ensures
        workload::drain(n, count).len() == n * count,
        workload::drain(n, count)[c * count + j] == (OpView::Recv {
            conn: c as u64,
            blocking: false,
        }),
    decreases n,
{
    let p = workload::drain(n - 1, count);
    assert(n * count == (n - 1) * count + count) by (nonlinear_arith);
    if n > 1 {
        law_drain(n - 1, count, if c < n - 1 {
            c
        } else {
            0
        }, j);
    } else {
        assert(p.len() == 0);
        assert((n - 1) * count == 0) by (nonlinear_arith)
            requires
                n == 1,
        ;
    }
    if c < n - 1 {
        assert(0 <= c * count + j < (n - 1) * count) by (nonlinear_arith)
            requires
                0 <= c,
                c + 1 <= n - 1,
                0 <= j < count,
        ;
    } else {
        assert(c * count + j == (n - 1) * count + j);
    }
}

proof fn lemma_no_sends_in_setup(n: int)
    ensures
        sends(workload::setup(n)) == 0,
    decreases n,
{
    if n > 0 {
        lemma_no_sends_in_setup(n - 1);
        let a = workload::setup(n - 1);
        let node = (n - 1) as u32;
        let b = a.push(OpView::Connect { conn: node as u64 });
        let c = b.push(OpView::Hello { conn: node as u64, node });
        let d = c.push(OpView::Bind { conn: node as u64, addr: workload::addr_of(node) });
        assert(b.drop_last() =~= a);
        assert(sends(b) == sends(a));
        assert(c.drop_last() =~= b);
        assert(sends(c) == sends(b));
        assert(d.drop_last() =~= c);
        assert(sends(d) == sends(c));
        assert(workload::setup(n) == d);
    }
}

proof fn lemma_no_sends_in_polls(conn: u64, n: nat)
    ensures
        sends(workload::polls_of(conn, n)) == 0,
    decreases n,
{
    if n > 0 {
        lemma_no_sends_in_polls(conn, (n - 1) as nat);
        assert(workload::polls_of(conn, n).drop_last() =~= workload::polls_of(
            conn,
            (n - 1) as nat,
        ));
    }
}

proof fn lemma_no_sends_in_drain(n: int, count: u32)
    ensures
        sends(workload::drain(n, count)) == 0,
    decreases n,
{
    if n > 0 {
        lemma_no_sends_in_drain(n - 1, count);
        lemma_no_sends_in_polls((n - 1) as u64, count as nat);
        lemma_sends_joined(
            workload::drain(n - 1, count),
            workload::polls_of((n - 1) as u64, count as nat),
        );
    }
}

/// A workload starts with its setup, ends with every node looking for all that
/// was sent, and sends as many datagrams as were asked for.
pub proof fn law_workload(w: Workload)
    ensures
        ({
            let nodes = workload::node_count(w) as int;
            let g = workload::generated(w);
            let setup = workload::setup(nodes);
            let drain = workload::drain(nodes, w.sends);
            &&& sends(g) == w.sends
            &&& g.len() >= setup.len() + w.sends + drain.len()
            &&& g.take(setup.len() as int) == setup
            &&& g.skip(g.len() - drain.len()) == drain
        }),
{
    let nodes = workload::node_count(w);
    let seed = w.workload_seed ^ 0x9e37_79b9_7f4a_7c15;
    let a = workload::setup(nodes as int);
    let b = workload::stream(seed, nodes, w.payload_len as nat, w.sends as int).1;
    let c = workload::drain(nodes as int, w.sends);
    let g = workload::generated(w);
    law_stream(seed, nodes, w.payload_len as nat, w.sends as int, 0);
    lemma_no_sends_in_setup(nodes as int);
    lemma_no_sends_in_drain(nodes as int, w.sends);
    lemma_sends_joined(a, b);
    lemma_sends_joined(a + b, c);
    lemma_sends_at_most(b);
    assert(g.take(a.len() as int) =~= a);
    assert(g.skip(g.len() - c.len()) =~= c);
}

proof fn lemma_sends_at_most(ops: Seq<OpView>)
    ensures
        sends(ops) <= ops.len(),
    decreases ops.len(),
{
    if ops.len() > 0 {
        lemma_sends_at_most(ops.drop_last());
    }
}

} // verus!
