//! Laws of the core over whole runs: what its counters count, and whom it
//! delivers to.

use vstd::prelude::*;

use crate::fault::ModelView;
use crate::netcore;
use crate::netcore::{CoreModel, SendResult};
use crate::wire::VAddr;

verus! {

/// A call of the core.
pub enum CoreAct {
    Connect { conn: u64 },
    Bind { conn: u64, addr: VAddr },
    Send { src: VAddr, dst: VAddr, payload: Seq<u8>, send_vt: u64, tail: u64 },
    Recv { conn: u64, bound: Option<u64> },
    Disconnect { conn: u64 },
}

/// The core behind a call.
pub open spec fn did(c: CoreModel, a: CoreAct) -> CoreModel {
    match a {
        CoreAct::Connect { conn } => netcore::core_connect(c, conn),
        CoreAct::Bind { conn, addr } => netcore::core_bind(c, conn, addr),
        CoreAct::Send { src, dst, payload, send_vt, tail } => netcore::core_send(
            c,
            src,
            dst,
            payload,
            send_vt,
            tail,
        ),
        CoreAct::Recv { conn, bound } => netcore::core_recv(c, conn, bound),
        CoreAct::Disconnect { conn } => netcore::core_disconnect(c, conn),
    }
}

/// The core behind the first `n` calls.
pub open spec fn behind(m: ModelView, acts: Seq<CoreAct>, n: int) -> CoreModel
    decreases n,
{
    if n <= 0 {
        netcore::core_new(m)
    } else {
        did(behind(m, acts, n - 1), acts[n - 1])
    }
}

/// How many of the first `n` calls sent from `src` to `dst`.
pub open spec fn sends_on(acts: Seq<CoreAct>, src: VAddr, dst: VAddr, n: int) -> nat
    decreases n,
{
    if n <= 0 {
        0
    } else {
        let before = sends_on(acts, src, dst, n - 1);
        match acts[n - 1] {
            CoreAct::Send { src: s, dst: d, .. } => if s == src && d == dst {
                before + 1
            } else {
                before
            },
            _ => before,
        }
    }
}

/// Whether the call at `i` sent a datagram that was scheduled.
pub open spec fn was_scheduled(m: ModelView, acts: Seq<CoreAct>, i: int) -> bool {
    match acts[i] {
        CoreAct::Send { src, dst, payload, send_vt, tail } => netcore::send_answer(
            behind(m, acts, i),
            src,
            dst,
            payload.len(),
            send_vt,
            tail,
        ) is Enqueued,
        _ => false,
    }
}

/// How many of the first `n` calls sent a datagram that was scheduled.
pub open spec fn scheduled_by(m: ModelView, acts: Seq<CoreAct>, n: int) -> nat
    decreases n,
{
    if n <= 0 {
        0
    } else if was_scheduled(m, acts, n - 1) {
        scheduled_by(m, acts, n - 1) + 1
    } else {
        scheduled_by(m, acts, n - 1)
    }
}

/// Who bound `addr` last among the first `n` calls, and did not disconnect
/// since.
pub open spec fn last_binder(acts: Seq<CoreAct>, addr: VAddr, n: int) -> Option<u64>
    decreases n,
{
    if n <= 0 {
        None
    } else {
        let before = last_binder(acts, addr, n - 1);
        match acts[n - 1] {
            CoreAct::Bind { conn, addr: a } => if a == addr {
                Some(conn)
            } else {
                before
            },
            CoreAct::Disconnect { conn } => if before == Some(conn) {
                None
            } else {
                before
            },
            _ => before,
        }
    }
}

proof fn lemma_counted(
    m: ModelView,
    acts: Seq<CoreAct>,
    src: VAddr,
    dst: VAddr,
    n: int,
)
    requires
        0 <= n <= acts.len() <= u64::MAX,
    ensures
        sends_on(acts, src, dst, n) <= n,
        scheduled_by(m, acts, n) <= n,
        netcore::next_seq(behind(m, acts, n), src, dst) == sends_on(acts, src, dst, n),
        behind(m, acts, n).tie == scheduled_by(m, acts, n),
        behind(m, acts, n).bound.contains_key(dst) <==> last_binder(acts, dst, n) is Some,
        last_binder(acts, dst, n) matches Some(conn) ==> behind(m, acts, n).bound[dst] == conn,
    decreases n,
{
    if n > 0 {
        lemma_counted(m, acts, src, dst, n - 1);
    }
}

/// A send carries the number of earlier sends on its channel, lost ones and
/// such without a receiver included. One that is scheduled is told apart by the
/// number of those scheduled before, and goes to whoever bound the destination
/// last; it is not delivered before it was sent, and the time moves up to its
/// delivery. Any other send leaves the time and everything that waits alone.
pub proof fn law_sends_are_numbered(m: ModelView, acts: Seq<CoreAct>, i: int)
    requires
        0 <= i < acts.len() <= u64::MAX,
        acts[i] is Send,
    ensures
        ({
            let c = behind(m, acts, i);
            let n = behind(m, acts, i + 1);
            let src = acts[i]->Send_src;
            let dst = acts[i]->Send_dst;
            let at = acts[i]->Send_send_vt;
            let r = netcore::send_answer(
                c,
                src,
                dst,
                acts[i]->Send_payload.len(),
                at,
                acts[i]->Send_tail,
            );
            &&& netcore::next_seq(c, src, dst) == sends_on(acts, src, dst, i)
            &&& r matches SendResult::Enqueued { to_conn, deliv_ns, tie } ==> {
                &&& tie == scheduled_by(m, acts, i)
                &&& last_binder(acts, dst, i) == Some(to_conn)
                &&& deliv_ns >= at
                &&& n.vt == if c.vt < deliv_ns {
                    deliv_ns
                } else {
                    c.vt
                }
            }
            &&& !(r is Enqueued) ==> n.vt == c.vt && n.queues == c.queues
        }),
{
    lemma_counted(m, acts, acts[i]->Send_src, acts[i]->Send_dst, i);
}

} // verus!
