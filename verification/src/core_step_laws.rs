//! The laws of one step of the network: where a datagram goes, when it comes,
//! and what stays as it is.

use vstd::prelude::*;

use crate::netcore;
use crate::netcore::{CoreModel, PendingView, SendResult};
use crate::wire::VAddr;

verus! {

proof fn lemma_enqueue(q: Seq<PendingView>, x: PendingView)
    ensures
        netcore::enqueue(q, x).to_multiset() == q.to_multiset().insert(x),
        netcore::enqueue(q, x).len() == q.len() + 1,
    decreases q.len(),
{
    broadcast use vstd::seq_lib::group_to_multiset_ensures;

    if !(q.len() == 0 || netcore::sooner(x, q.last())) {
        let p = q.drop_last();
        lemma_enqueue(p, x);
        assert(p.push(q.last()) =~= q);
        let r = netcore::enqueue(p, x);
        assert(r.push(q.last()).to_multiset() == r.to_multiset().insert(q.last()));
        assert(p.push(q.last()).to_multiset() == p.to_multiset().insert(q.last()));
        assert(p.to_multiset().insert(x).insert(q.last()) =~= p.to_multiset().insert(
            q.last(),
        ).insert(x));
    }
}

/// A datagram is dropped where its fate says so, lost where nobody has the
/// address it goes to, and else goes to the connection that has it, at the time
/// it was sent and its delay later.
pub proof fn law_where_a_datagram_goes(
    m: CoreModel,
    src: VAddr,
    dst: VAddr,
    len: nat,
    at: u64,
    tail: u64,
)
    ensures
        ({
            let r = netcore::send_answer(m, src, dst, len, at, tail);
            let fate = crate::fault::fate_of(
                m.model,
                src,
                dst,
                netcore::next_seq(m, src, dst),
                len,
                tail,
            );
            &&& r is Dropped <==> fate.dropped
            &&& r is NoReceiver <==> !fate.dropped && !m.bound.contains_key(dst)
            &&& !fate.dropped && m.bound.contains_key(dst) ==> {
                &&& r is Enqueued
                &&& r->to_conn == m.bound[dst]
                &&& r->tie == m.tie
                &&& at + fate.delay_ns <= u64::MAX ==> r->deliv_ns == at + fate.delay_ns
                &&& at + fate.delay_ns > u64::MAX ==> r->deliv_ns == u64::MAX
            }
        }),
{
}

/// A datagram that goes to a connection waits there, once and as it was sent,
/// beside all that waited there; every other queue, every address and the
/// network itself stay as they are.
pub proof fn law_what_a_send_changes(
    m: CoreModel,
    src: VAddr,
    dst: VAddr,
    payload: Seq<u8>,
    at: u64,
    tail: u64,
    other: u64,
)
    requires
        m.sent < u64::MAX,
        m.tie < u64::MAX,
        m.dropped < u64::MAX,
        netcore::next_seq(m, src, dst) < u64::MAX,
    ensures
        ({
            let r = netcore::send_answer(m, src, dst, payload.len(), at, tail);
            let n = netcore::core_send(m, src, dst, payload, at, tail);
            &&& n.model == m.model && n.bound == m.bound && n.sent == m.sent + 1
            &&& netcore::next_seq(n, src, dst) == netcore::next_seq(m, src, dst) + 1
            &&& n.queues.contains_key(other) <==> m.queues.contains_key(other)
            &&& r matches SendResult::Enqueued { to_conn, deliv_ns, tie } ==> {
                let x = PendingView { deliv: deliv_ns, tie, src, dst, payload };
                &&& n.tie == m.tie + 1 && n.dropped == m.dropped
                &&& m.queues.contains_key(to_conn) ==> n.queues[to_conn].to_multiset()
                    == m.queues[to_conn].to_multiset().insert(x)
                &&& other != to_conn && m.queues.contains_key(other) ==> n.queues[other]
                    == m.queues[other]
            }
            &&& r is Dropped ==> n.dropped == m.dropped + 1 && n.queues == m.queues
            &&& r is NoReceiver ==> n.dropped == m.dropped && n.queues == m.queues
        }),
{
    if let SendResult::Enqueued { to_conn, deliv_ns, tie } = netcore::send_answer(
        m,
        src,
        dst,
        payload.len(),
        at,
        tail,
    ) {
        if m.queues.contains_key(to_conn) {
            lemma_enqueue(
                m.queues[to_conn],
                PendingView { deliv: deliv_ns, tie, src, dst, payload },
            );
        }
    }
}

/// A receive hands over the datagram that is due first, if one is due before
/// the bound; and takes away that one alone.
pub proof fn law_what_a_receive_does(m: CoreModel, conn: u64, bound: Option<u64>, other: u64)
    requires
        netcore::core_ok(m),
        m.queues.contains_key(conn),
    ensures
        ({
            let q = m.queues[conn];
            let r = netcore::recv_answer(m, conn, bound);
            let n = netcore::core_recv(m, conn, bound);
            &&& r is Some <==> exists|i: int|
                0 <= i < q.len() && (bound is Some ==> (#[trigger] q[i]).deliv < bound.unwrap())
            &&& r matches Some(x) ==> {
                &&& q.contains(x)
                &&& forall|i: int| 0 <= i < q.len() ==> x.deliv <= (#[trigger] q[i]).deliv
                &&& forall|i: int|
                    0 <= i < q.len() && (#[trigger] q[i]).deliv == x.deliv ==> x.tie <= q[i].tie
                &&& n.queues[conn].to_multiset() == q.to_multiset().remove(x)
                &&& n.queues[conn].len() == q.len() - 1
            }
            &&& r is None ==> n == m
            &&& n.bound == m.bound && n.seq == m.seq && n.tie == m.tie && n.vt == m.vt && n.sent
                == m.sent && n.dropped == m.dropped && n.model == m.model
            &&& other != conn && m.queues.contains_key(other) ==> n.queues.contains_key(other)
                && n.queues[other] == m.queues[other]
        }),
{
    broadcast use vstd::seq_lib::group_to_multiset_ensures;

    let q = m.queues[conn];
    assert(netcore::in_order(q));
    if q.len() > 0 {
        let x = q.last();
        let k = q.len() - 1;
        assert(q[k] == x);
        assert forall|i: int| 0 <= i < q.len() implies x.deliv <= (#[trigger] q[i]).deliv by {
            if i < k {
                assert(netcore::sooner(q[k], q[i]));
            }
        }
        assert forall|i: int| 0 <= i < q.len() && (#[trigger] q[i]).deliv == x.deliv implies x.tie
            <= q[i].tie by {
            if i < k {
                assert(netcore::sooner(q[k], q[i]));
            }
        }
        let p = q.drop_last();
        assert(p.push(x) =~= q);
        assert(p.push(x).to_multiset() == p.to_multiset().insert(x));
        assert(p.to_multiset().insert(x).remove(x) =~= p.to_multiset());
    }
}

/// A connection is told when its first datagram is due.
pub proof fn law_when_the_first_is_due(m: CoreModel, conn: u64)
    requires
        netcore::core_ok(m),
    ensures
        m.queues.contains_key(conn) ==> {
            let q = m.queues[conn];
            &&& q.len() == 0 ==> netcore::due_at(m, conn) == u64::MAX
            &&& q.len() > 0 ==> exists|i: int|
                0 <= i < q.len() && (#[trigger] q[i]).deliv == netcore::due_at(m, conn)
            &&& forall|i: int| 0 <= i < q.len() ==> netcore::due_at(m, conn) <= (#[trigger] q[i]).deliv
        },
        !m.queues.contains_key(conn) ==> netcore::due_at(m, conn) == u64::MAX,
{
    if m.queues.contains_key(conn) && m.queues[conn].len() > 0 {
        let q = m.queues[conn];
        let k = q.len() - 1;
        assert(netcore::in_order(q));
        assert(q[k].deliv == netcore::due_at(m, conn));
        assert forall|i: int| 0 <= i < q.len() implies netcore::due_at(m, conn) <= (
        #[trigger] q[i]).deliv by {
            if i < k {
                assert(netcore::sooner(q[k], q[i]));
            }
        }
    }
}

/// A connection starts with an empty queue, and connecting again loses
/// nothing; an address belongs to the last connection that took it; and one
/// that leaves takes its queue and its addresses with it, and nobody else's.
pub proof fn law_coming_and_going(m: CoreModel, conn: u64, addr: VAddr, other: u64, a: VAddr)
    ensures
        ({
            let n = netcore::core_connect(m, conn);
            &&& n.queues.contains_key(conn)
            &&& !m.queues.contains_key(conn) ==> n.queues[conn].len() == 0
            &&& m.queues.contains_key(other) ==> n.queues.contains_key(other) && n.queues[other]
                == m.queues[other]
            &&& n.bound == m.bound && n.seq == m.seq
        }),
        ({
            let n = netcore::core_bind(m, conn, addr);
            &&& n.bound.contains_key(addr) && n.bound[addr] == conn
            &&& a != addr ==> (n.bound.contains_key(a) <==> m.bound.contains_key(a)) && (
            m.bound.contains_key(a) ==> n.bound[a] == m.bound[a])
            &&& n.queues == m.queues && n.seq == m.seq
        }),
        ({
            let n = netcore::core_disconnect(m, conn);
            &&& !n.queues.contains_key(conn)
            &&& other != conn && m.queues.contains_key(other) ==> n.queues.contains_key(other)
                && n.queues[other] == m.queues[other]
            &&& m.bound.contains_key(a) && m.bound[a] != conn ==> n.bound.contains_key(a)
                && n.bound[a] == m.bound[a]
            &&& m.bound.contains_key(a) && m.bound[a] == conn ==> !n.bound.contains_key(a)
            &&& n.seq == m.seq && n.tie == m.tie && n.sent == m.sent && n.dropped == m.dropped
        }),
{
}

} // verus!
