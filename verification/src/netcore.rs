//! The broker's decision core: a state machine without I/O, locks or a clock.
//! The live broker and the replayer both drive it.
//!
//! Sequence numbers advance on each channel with every send, dropped or not;
//! the global tie counter advances only where a datagram is scheduled; a
//! receive takes the pending datagram with the least delivery time, and the
//! least tie among those; a send to an unbound address is discarded.

use std::collections::HashMap;

use vstd::prelude::*;

use crate::amap;
use crate::amap::{AMap, Key};
use crate::fault;
use crate::fault::{Fate, FaultModel, ModelView, TailSource};
use crate::wire::VAddr;

verus! {

/// A pair of addresses that datagrams go between.
#[derive(Clone, Copy, PartialEq, Eq, Hash, Debug, Structural)]
pub struct Channel {
    pub src: VAddr,
    pub dst: VAddr,
}

impl Key for Channel {
    fn same(&self, other: &Self) -> (b: bool) {
        self.src.ip == other.src.ip && self.src.port == other.src.port && self.dst.ip
            == other.dst.ip && self.dst.port == other.dst.port
    }
}

/// A datagram waiting in a destination queue.
pub struct Pending {
    pub deliv: u64,
    pub tie: u64,
    pub src: VAddr,
    pub dst: VAddr,
    pub payload: Vec<u8>,
}

/// What a [`Pending`] holds, with the payload as a sequence.
pub struct PendingView {
    pub deliv: u64,
    pub tie: u64,
    pub src: VAddr,
    pub dst: VAddr,
    pub payload: Seq<u8>,
}

impl View for Pending {
    type V = PendingView;

    open spec fn view(&self) -> PendingView {
        PendingView {
            deliv: self.deliv,
            tie: self.tie,
            src: self.src,
            dst: self.dst,
            payload: self.payload@,
        }
    }
}

pub open spec fn pending_views(q: Seq<Pending>) -> Seq<PendingView> {
    q.map_values(|p: Pending| p@)
}

/// Whether `a` is delivered before `b`.
pub open spec fn sooner(a: PendingView, b: PendingView) -> bool {
    a.deliv < b.deliv || (a.deliv == b.deliv && a.tie < b.tie)
}

/// `x` put into the delivery order `q`, whose last is delivered first.
pub open spec fn enqueue(q: Seq<PendingView>, x: PendingView) -> Seq<PendingView>
    decreases q.len(),
{
    if q.len() == 0 || sooner(x, q.last()) {
        q.push(x)
    } else {
        enqueue(q.drop_last(), x).push(q.last())
    }
}

/// The last is delivered first, strictly.
pub open spec fn in_order(q: Seq<PendingView>) -> bool {
    forall|i: int, j: int| 0 <= i < j < q.len() ==> sooner(#[trigger] q[j], #[trigger] q[i])
}

/// The core's decision for one send.
#[derive(Clone, Copy, PartialEq, Eq, Debug, Structural)]
pub enum SendResult {
    /// The fault model dropped it.
    Dropped,
    /// No connection has bound the destination address.
    NoReceiver,
    /// Scheduled for `to_conn` at a virtual delivery time.
    Enqueued { to_conn: u64, deliv_ns: u64, tie: u64 },
}

/// The core's answer to one receive that does not wait.
#[derive(Clone, PartialEq, Eq, Debug)]
pub enum RecvResult {
    Empty,
    Delivered { src: VAddr, dst: VAddr, deliv_ns: u64, tie: u64, payload: Vec<u8> },
}

/// What a [`RecvResult`] says: the datagram, where there is one.
pub open spec fn received(r: RecvResult) -> Option<PendingView> {
    match r {
        RecvResult::Empty => None,
        RecvResult::Delivered { src, dst, deliv_ns, tie, payload } => Some(
            PendingView { deliv: deliv_ns, tie, src, dst, payload: payload@ },
        ),
    }
}

/// The mathematical state of a core.
pub struct CoreModel {
    pub model: ModelView,
    /// Which connection receives datagrams for a bound address.
    pub bound: Map<VAddr, u64>,
    /// The datagrams that wait for each connection; the last of a queue is
    /// delivered first.
    pub queues: Map<u64, Seq<PendingView>>,
    /// How many datagrams each channel has seen.
    pub seq: Map<Channel, u64>,
    pub tie: u64,
    /// The largest delivery time scheduled so far.
    pub vt: u64,
    pub sent: u64,
    pub dropped: u64,
}

pub open spec fn core_new(model: ModelView) -> CoreModel {
    CoreModel {
        model,
        bound: Map::empty(),
        queues: Map::empty(),
        seq: Map::empty(),
        tie: 0,
        vt: 0,
        sent: 0,
        dropped: 0,
    }
}

pub open spec fn core_connect(m: CoreModel, conn: u64) -> CoreModel {
    if m.queues.contains_key(conn) {
        m
    } else {
        CoreModel { queues: m.queues.insert(conn, Seq::empty()), ..m }
    }
}

pub open spec fn core_bind(m: CoreModel, conn: u64, addr: VAddr) -> CoreModel {
    CoreModel { bound: m.bound.insert(addr, conn), ..m }
}

/// The number of the next datagram on a channel.
pub open spec fn next_seq(m: CoreModel, src: VAddr, dst: VAddr) -> u64 {
    let ch = Channel { src, dst };
    if m.seq.contains_key(ch) {
        m.seq[ch]
    } else {
        0
    }
}

/// The exponential draw that the next datagram on a channel needs; 0 where it
/// needs none.
pub open spec fn tail_for<T: TailSource>(m: CoreModel, src: VAddr, dst: VAddr, tails: T) -> u64 {
    match fault::draw_of(m.model, src, dst, next_seq(m, src, dst)) {
        Some((mean, k)) => tails.tail_of(mean, k),
        None => 0,
    }
}

/// The fate of the next datagram on a channel.
pub open spec fn next_fate(m: CoreModel, src: VAddr, dst: VAddr, len: nat, tail: u64) -> Fate {
    fault::fate_of(m.model, src, dst, next_seq(m, src, dst), len, tail)
}

pub open spec fn capped(a: u64, b: u64) -> u64 {
    if a + b > u64::MAX {
        u64::MAX
    } else {
        (a + b) as u64
    }
}

/// What a send answers.
pub open spec fn send_answer(
    m: CoreModel,
    src: VAddr,
    dst: VAddr,
    len: nat,
    send_vt: u64,
    tail: u64,
) -> SendResult {
    let fate = next_fate(m, src, dst, len, tail);
    if fate.dropped {
        SendResult::Dropped
    } else if !m.bound.contains_key(dst) {
        SendResult::NoReceiver
    } else {
        SendResult::Enqueued {
            to_conn: m.bound[dst],
            deliv_ns: capped(send_vt, fate.delay_ns),
            tie: m.tie,
        }
    }
}

/// The state after a send.
pub open spec fn core_send(
    m: CoreModel,
    src: VAddr,
    dst: VAddr,
    payload: Seq<u8>,
    send_vt: u64,
    tail: u64,
) -> CoreModel {
    let counted = CoreModel {
        sent: (m.sent + 1) as u64,
        seq: m.seq.insert(Channel { src, dst }, (next_seq(m, src, dst) + 1) as u64),
        ..m
    };
    match send_answer(m, src, dst, payload.len(), send_vt, tail) {
        SendResult::Dropped => CoreModel { dropped: (m.dropped + 1) as u64, ..counted },
        SendResult::NoReceiver => counted,
        SendResult::Enqueued { to_conn, deliv_ns, tie } => CoreModel {
            tie: (m.tie + 1) as u64,
            vt: if m.vt < deliv_ns {
                deliv_ns
            } else {
                m.vt
            },
            queues: if m.queues.contains_key(to_conn) {
                m.queues.insert(
                    to_conn,
                    enqueue(
                        m.queues[to_conn],
                        PendingView { deliv: deliv_ns, tie, src, dst, payload },
                    ),
                )
            } else {
                m.queues
            },
            ..counted
        },
    }
}

/// When the first datagram that waits for a connection is delivered; the end
/// of time where none waits.
pub open spec fn due_at(m: CoreModel, conn: u64) -> u64 {
    if m.queues.contains_key(conn) && m.queues[conn].len() > 0 {
        m.queues[conn].last().deliv
    } else {
        u64::MAX
    }
}

/// The datagram that a receive on `conn` takes, if it is delivered before
/// `bound`; without a bound, whenever there is one.
pub open spec fn recv_answer(m: CoreModel, conn: u64, bound: Option<u64>) -> Option<PendingView> {
    if m.queues.contains_key(conn) && m.queues[conn].len() > 0 && (bound is Some ==> m.queues[conn].last().deliv
        < bound.unwrap()) {
        Some(m.queues[conn].last())
    } else {
        None
    }
}

pub open spec fn core_recv(m: CoreModel, conn: u64, bound: Option<u64>) -> CoreModel {
    if recv_answer(m, conn, bound) is Some {
        CoreModel { queues: m.queues.insert(conn, m.queues[conn].drop_last()), ..m }
    } else {
        m
    }
}

/// The addresses that are bound to other connections than `conn`.
pub open spec fn released(bound: Map<VAddr, u64>, conn: u64) -> Map<VAddr, u64> {
    bound.restrict(Set::new(|a: VAddr| bound.contains_key(a) && bound[a] != conn))
}

pub open spec fn core_disconnect(m: CoreModel, conn: u64) -> CoreModel {
    CoreModel { queues: m.queues.remove(conn), bound: released(m.bound, conn), ..m }
}

/// What always holds: queues are in delivery order and hold only ties that
/// were given out, and no counter runs ahead of the number of sends.
pub open spec fn core_ok(m: CoreModel) -> bool {
    &&& forall|c: u64| #[trigger] m.queues.contains_key(c) ==> in_order(m.queues[c])
    &&& forall|c: u64| #[trigger] m.queues.contains_key(c) ==> ties_below(m.queues[c], m.tie)
    &&& forall|ch: Channel| #[trigger] m.seq.contains_key(ch) ==> m.seq[ch] <= m.sent
    &&& m.tie <= m.sent
    &&& m.dropped <= m.sent
}

pub open spec fn ties_below(q: Seq<PendingView>, tie: u64) -> bool {
    forall|i: int| 0 <= i < q.len() ==> (#[trigger] q[i]).tie < tie
}

/// The broker's decision core.
pub struct Core {
    model: FaultModel,
    bound: AMap<VAddr, u64>,
    queues: HashMap<u64, Vec<Pending>>,
    seq: AMap<Channel, u64>,
    tie: u64,
    vt: u64,
    sent: u64,
    dropped: u64,
}

pub open spec fn queue_views(q: Map<u64, Vec<Pending>>) -> Map<u64, Seq<PendingView>> {
    q.map_values(|v: Vec<Pending>| pending_views(v@))
}

impl View for Core {
    type V = CoreModel;

    closed spec fn view(&self) -> CoreModel {
        CoreModel {
            model: self.model@,
            bound: self.bound@,
            queues: queue_views(self.queues@),
            seq: self.seq@,
            tie: self.tie,
            vt: self.vt,
            sent: self.sent,
            dropped: self.dropped,
        }
    }
}

proof fn lemma_enqueue_at(q: Seq<PendingView>, x: PendingView, pos: int)
    requires
        0 <= pos <= q.len(),
        forall|j: int| pos <= j < q.len() ==> !sooner(x, #[trigger] q[j]),
        pos > 0 ==> sooner(x, q[pos - 1]),
    ensures
        enqueue(q, x) == q.insert(pos, x),
    decreases q.len(),
{
    if pos == q.len() {
        assert(q.insert(pos, x) =~= q.push(x));
    } else {
        assert(!sooner(x, q[q.len() - 1]));
        assert forall|j: int| pos <= j < q.drop_last().len() implies !sooner(
            x,
            #[trigger] q.drop_last()[j],
        ) by {
            assert(!sooner(x, q[j]));
        }
        lemma_enqueue_at(q.drop_last(), x, pos);
        assert(q.insert(pos, x) =~= q.drop_last().insert(pos, x).push(q.last()));
    }
}

/// Enqueueing keeps the order, and adds one datagram.
pub proof fn lemma_enqueue(q: Seq<PendingView>, x: PendingView, tie: u64)
    requires
        in_order(q),
        ties_below(q, tie),
        x.tie == tie,
        tie < u64::MAX,
    ensures
        in_order(enqueue(q, x)),
        ties_below(enqueue(q, x), (tie + 1) as u64),
        enqueue(q, x).len() == q.len() + 1,
        forall|i: int|
            0 <= i < enqueue(q, x).len() ==> (#[trigger] enqueue(q, x)[i] == x || q.contains(
                enqueue(q, x)[i],
            )),
        enqueue(q, x).contains(x),
        forall|y: PendingView| q.contains(y) ==> #[trigger] enqueue(q, x).contains(y),
    decreases q.len(),
{
    let r = enqueue(q, x);
    if q.len() == 0 || sooner(x, q.last()) {
        assert forall|i: int, j: int| 0 <= i < j < r.len() implies sooner(
            #[trigger] r[j],
            #[trigger] r[i],
        ) by {
            if j == q.len() {
                if i < q.len() - 1 {
                    assert(sooner(q[q.len() - 1], q[i]));
                }
            }
        }
        assert forall|i: int| 0 <= i < r.len() implies (#[trigger] r[i] == x || q.contains(
            r[i],
        )) by {
            if i < q.len() {
                assert(q[i] == r[i]);
            }
        }
        assert(r[q.len() as int] == x);
        assert forall|y: PendingView| q.contains(y) implies #[trigger] r.contains(y) by {
            let k = choose|k: int| 0 <= k < q.len() && q[k] == y;
            assert(r[k] == y);
        }
    } else {
        let t = q.drop_last();
        assert forall|i: int, j: int| 0 <= i < j < t.len() implies sooner(
            #[trigger] t[j],
            #[trigger] t[i],
        ) by {
            assert(sooner(q[j], q[i]));
        }
        assert forall|i: int| 0 <= i < t.len() implies (#[trigger] t[i]).tie < tie by {
            assert(q[i].tie < tie);
        }
        lemma_enqueue(t, x, tie);
        let p = enqueue(t, x);
        let last = q[q.len() - 1];
        assert(last.tie < tie);
        assert forall|i: int, j: int| 0 <= i < j < r.len() implies sooner(
            #[trigger] r[j],
            #[trigger] r[i],
        ) by {
            if j < p.len() {
                assert(sooner(p[j], p[i]));
            } else {
                assert(p[i] == x || t.contains(p[i]));
                if p[i] != x {
                    let k = choose|k: int| 0 <= k < t.len() && t[k] == p[i];
                    assert(sooner(q[q.len() - 1], q[k]));
                }
            }
        }
        assert forall|i: int| 0 <= i < r.len() implies (#[trigger] r[i]).tie < tie + 1 by {
            if i < p.len() {
                assert(p[i].tie < tie + 1);
            }
        }
        assert forall|i: int| 0 <= i < r.len() implies (#[trigger] r[i] == x || q.contains(
            r[i],
        )) by {
            if i < p.len() {
                assert(p[i] == x || t.contains(p[i]));
                if p[i] != x {
                    let k = choose|k: int| 0 <= k < t.len() && t[k] == p[i];
                    assert(q[k] == r[i]);
                }
            } else {
                assert(q[q.len() - 1] == r[i]);
            }
        }
        let kx = choose|kx: int| 0 <= kx < p.len() && p[kx] == x;
        assert(r[kx] == x);
        assert forall|y: PendingView| q.contains(y) implies #[trigger] r.contains(y) by {
            let k = choose|k: int| 0 <= k < q.len() && q[k] == y;
            if k < t.len() {
                assert(t[k] == y);
                assert(p.contains(y));
                let m = choose|m: int| 0 <= m < p.len() && p[m] == y;
                assert(r[m] == y);
            } else {
                assert(r[p.len() as int] == y);
            }
        }
    }
}

fn enqueue_pending(q: &mut Vec<Pending>, x: Pending)
    ensures
        pending_views(final(q)@) == enqueue(pending_views(old(q)@), x@),
{
    let mut pos: usize = q.len();
    while pos > 0 && !(x.deliv < q[pos - 1].deliv || (x.deliv == q[pos - 1].deliv && x.tie < q[pos
        - 1].tie))
        invariant
            pos <= q@.len(),
            forall|j: int| pos <= j < q@.len() ==> !sooner(x@, (#[trigger] q@[j])@),
        decreases pos,
    {
        pos = pos - 1;
    }
    proof {
        let s = pending_views(q@);
        assert forall|j: int| pos <= j < s.len() implies !sooner(x@, #[trigger] s[j]) by {
            assert(!sooner(x@, q@[j]@));
        }
        lemma_enqueue_at(s, x@, pos as int);
    }
    q.insert(pos, x);
    assert(pending_views(q@) =~= pending_views(old(q)@).insert(pos as int, x@));
}

/// A copy of `b`.
pub fn copy_bytes(b: &[u8]) -> (r: Vec<u8>)
    ensures
        r@ == b@,
{
    let r = crate::wire::get_range(b, 0, b.len());
    assert(r@ =~= b@);
    r
}

impl Core {
    pub closed spec fn wf(&self) -> bool {
        self.bound.wf() && self.seq.wf() && core_ok(self@)
    }

    /// What [`Core::wf`] gives of the state.
    pub proof fn lemma_wf(&self)
        requires
            self.wf(),
        ensures
            core_ok(self@),
    {
    }

    #[must_use]
    pub fn new(model: FaultModel) -> (r: Self)
        ensures
            r.wf(),
            r@ == core_new(model@),
    {
        let r = Core {
            model,
            bound: AMap::new(),
            queues: HashMap::new(),
            seq: AMap::new(),
            tie: 0,
            vt: 0,
            sent: 0,
            dropped: 0,
        };
        proof {
            assert(r@.queues =~= Map::<u64, Seq<PendingView>>::empty());
        }
        r
    }

    /// Register a connection, with an empty queue unless it has one.
    pub fn connect(&mut self, conn: u64)
        requires
            old(self).wf(),
        ensures
            final(self).wf(),
            final(self)@ == core_connect(old(self)@, conn),
    {
        if !self.queues.contains_key(&conn) {
            let q: Vec<Pending> = Vec::new();
            assert(pending_views(q@) =~= Seq::<PendingView>::empty());
            let _old: Option<Vec<Pending>> = self.queues.insert(conn, q);
            assert(self@.queues =~= old(self)@.queues.insert(conn, Seq::empty()));
        } else {
            assert(old(self)@.queues.contains_key(conn));
        }
    }

    /// Claim `addr` for `conn`: later sends to `addr` land in its queue.
    pub fn bind(&mut self, conn: u64, addr: VAddr)
        requires
            old(self).wf(),
        ensures
            final(self).wf(),
            final(self)@ == core_bind(old(self)@, conn, addr),
    {
        self.bound.insert(addr, conn);
    }

    /// Route one datagram. It is scheduled at `send_vt`, the sender's local
    /// time, plus the sampled delay. Answers the datagram's number on its
    /// channel and the decision.
    pub fn send<T: TailSource>(
        &mut self,
        src: VAddr,
        dst: VAddr,
        payload: &[u8],
        send_vt: u64,
        tails: &T,
    ) -> (r: (u64, SendResult))
        requires
            old(self).wf(),
            old(self)@.sent < u64::MAX,
        ensures
            final(self).wf(),
            r.0 == next_seq(old(self)@, src, dst),
            r.1 == send_answer(
                old(self)@,
                src,
                dst,
                payload@.len(),
                send_vt,
                tail_for(old(self)@, src, dst, *tails),
            ),
            final(self)@ == core_send(
                old(self)@,
                src,
                dst,
                payload@,
                send_vt,
                tail_for(old(self)@, src, dst, *tails),
            ),
    {
        let ghost m = self@;
        let ch = Channel { src, dst };
        let seq: u64 = match self.seq.get(&ch) {
            Some(v) => *v,
            None => 0,
        };
        assert(seq <= m.sent) by {
            if m.seq.contains_key(ch) {
                assert(m.seq[ch] <= m.sent);
            }
        }
        self.sent = self.sent + 1;
        self.seq.insert(ch, seq + 1);
        let tail: u64 = match self.model.tail_draw(src, dst, seq) {
            Some((mean, k)) => tails.tail(mean, k),
            None => 0,
        };
        let fate: Fate = self.model.fate(src, dst, seq, payload.len(), tail);
        if fate.dropped {
            self.dropped = self.dropped + 1;
            return (seq, SendResult::Dropped);
        }
        let conn: u64 = match self.bound.get(&dst) {
            Some(c) => *c,
            None => {
                return (seq, SendResult::NoReceiver);
            },
        };
        let deliv: u64 = send_vt.saturating_add(fate.delay_ns);
        let tie: u64 = self.tie;
        self.tie = self.tie + 1;
        if self.vt < deliv {
            self.vt = deliv;
        }
        let p = Pending { deliv, tie, src, dst, payload: copy_bytes(payload) };
        let ghost pv = p@;
        let ghost before = self.queues@;
        match self.queues.remove(&conn) {
            Some(mut q) => {
                let ghost qv = pending_views(q@);
                enqueue_pending(&mut q, p);
                let _old: Option<Vec<Pending>> = self.queues.insert(conn, q);
                proof {
                    assert(m.queues.contains_key(conn));
                    assert(m.queues[conn] == qv);
                    assert(queue_views(self.queues@) =~= m.queues.insert(conn, enqueue(qv, pv)));
                    lemma_enqueue(qv, pv, tie);
                }
            },
            None => {
                proof {
                    assert(!m.queues.contains_key(conn));
                    assert(self.queues@ =~= before);
                }
            },
        }
        proof {
            let n = self@;
            assert(n.tie == m.tie + 1);
            assert forall|c: u64| #[trigger] n.queues.contains_key(c) implies in_order(
                n.queues[c],
            ) && ties_below(n.queues[c], n.tie) by {
                if c != conn || !m.queues.contains_key(conn) {
                    assert(m.queues.contains_key(c));
                    assert(n.queues[c] == m.queues[c]);
                    assert(ties_below(m.queues[c], m.tie));
                    assert forall|i: int| 0 <= i < n.queues[c].len() implies (
                    #[trigger] n.queues[c][i]).tie < n.tie by {
                        assert(m.queues[c][i].tie < m.tie);
                    }
                }
            }
        }
        (seq, SendResult::Enqueued { to_conn: conn, deliv_ns: deliv, tie })
    }

    /// Take the next datagram for `conn`, if there is one.
    pub fn recv(&mut self, conn: u64) -> (r: RecvResult)
        requires
            old(self).wf(),
        ensures
            final(self).wf(),
            received(r) == recv_answer(old(self)@, conn, None),
            final(self)@ == core_recv(old(self)@, conn, None),
    {
        self.take(conn, None)
    }

    /// Take the next datagram for `conn` that is delivered before `bound`, if
    /// there is one.
    pub fn recv_before(&mut self, conn: u64, bound: u64) -> (r: RecvResult)
        requires
            old(self).wf(),
        ensures
            final(self).wf(),
            received(r) == recv_answer(old(self)@, conn, Some(bound)),
            final(self)@ == core_recv(old(self)@, conn, Some(bound)),
    {
        self.take(conn, Some(bound))
    }

    fn take(&mut self, conn: u64, bound: Option<u64>) -> (r: RecvResult)
        requires
            old(self).wf(),
        ensures
            final(self).wf(),
            received(r) == recv_answer(old(self)@, conn, bound),
            final(self)@ == core_recv(old(self)@, conn, bound),
    {
        let ghost m = self@;
        let ready: bool = match self.queues.get(&conn) {
            Some(q) => {
                assert(m.queues.contains_key(conn));
                assert(m.queues[conn] == pending_views(q@));
                if q.len() == 0 {
                    false
                } else {
                    match bound {
                        Some(b) => q[q.len() - 1].deliv < b,
                        None => true,
                    }
                }
            },
            None => {
                assert(!m.queues.contains_key(conn));
                false
            },
        };
        if !ready {
            return RecvResult::Empty;
        }
        match self.queues.remove(&conn) {
            Some(mut q) => {
                let ghost qv = pending_views(q@);
                let popped = q.pop();
                let _old: Option<Vec<Pending>> = self.queues.insert(conn, q);
                proof {
                    assert(m.queues[conn] == qv);
                    assert(pending_views(q@) =~= qv.drop_last());
                    assert(queue_views(self.queues@) =~= m.queues.insert(conn, qv.drop_last()));
                    let n = self@;
                    assert forall|c: u64| #[trigger] n.queues.contains_key(c) implies in_order(
                        n.queues[c],
                    ) && ties_below(n.queues[c], n.tie) by {
                        assert(m.queues.contains_key(c));
                        assert(in_order(m.queues[c]));
                        assert(ties_below(m.queues[c], m.tie));
                        if c == conn {
                            assert(n.queues[c] =~= qv.drop_last());
                            assert forall|i: int, j: int|
                                0 <= i < j < n.queues[c].len() implies sooner(
                                #[trigger] n.queues[c][j],
                                #[trigger] n.queues[c][i],
                            ) by {
                                assert(sooner(qv[j], qv[i]));
                            }
                            assert forall|i: int| 0 <= i < n.queues[c].len() implies (
                            #[trigger] n.queues[c][i]).tie < n.tie by {
                                assert(qv[i].tie < m.tie);
                            }
                        } else {
                            assert(n.queues[c] == m.queues[c]);
                        }
                    }
                }
                match popped {
                    Some(p) => RecvResult::Delivered {
                        src: p.src,
                        dst: p.dst,
                        deliv_ns: p.deliv,
                        tie: p.tie,
                        payload: p.payload,
                    },
                    None => RecvResult::Empty,
                }
            },
            None => RecvResult::Empty,
        }
    }

    /// Whether a datagram waits for `conn`.
    #[must_use]
    pub fn has_pending(&self, conn: u64) -> (b: bool)
        requires
            self.wf(),
        ensures
            b == (recv_answer(self@, conn, None) is Some),
    {
        match self.queues.get(&conn) {
            Some(q) => {
                assert(self@.queues.contains_key(conn));
                q.len() > 0
            },
            None => {
                assert(!self@.queues.contains_key(conn));
                false
            },
        }
    }

    /// When the first datagram that waits for a connection is delivered; the
    /// end of time where none waits.
    #[must_use]
    pub fn due(&self, conn: u64) -> (t: u64)
        requires
            self.wf(),
        ensures
            t == due_at(self@, conn),
    {
        match self.queues.get(&conn) {
            Some(q) => {
                assert(self@.queues.contains_key(conn));
                assert(self@.queues[conn] == pending_views(q@));
                if q.len() > 0 {
                    q[q.len() - 1].deliv
                } else {
                    u64::MAX
                }
            },
            None => {
                assert(!self@.queues.contains_key(conn));
                u64::MAX
            },
        }
    }

    /// The least delay of a datagram that is not dropped.
    #[must_use]
    pub fn min_delay_ns(&self) -> (r: u64)
        ensures
            r == fault::least_delay(self@.model.latency),
    {
        self.model.min_delay_ns()
    }

    /// Whether any datagram waits for any connection.
    #[must_use]
    pub fn any_queued(&self) -> (b: bool)
        requires
            self.wf(),
        ensures
            b == exists|c: u64| #[trigger]
                self@.queues.contains_key(c) && self@.queues[c].len() > 0,
    {
        for (c, q) in it: self.queues.iter()
            invariant
                self.wf(),
                forall|j: int| 0 <= j < it.index() ==> (#[trigger] it.seq()[j]).1@.len() == 0,
                forall|j: int|
                    0 <= j < it.seq().len() ==> self.queues@.contains_key(*(#[trigger] it.seq()[j]).0)
                        && self.queues@[*it.seq()[j].0] == *it.seq()[j].1,
                forall|k: u64| #[trigger]
                    self.queues@.contains_key(k) ==> it.seq().contains((&k, &self.queues@[k])),
        {
            if q.len() > 0 {
                assert(self@.queues.contains_key(*c));
                return true;
            }
        }
        proof {
            assert forall|c: u64| #[trigger] self@.queues.contains_key(c) implies self@.queues[c].len()
                == 0 by {
                assert(self.queues@.contains_key(c));
            }
        }
        false
    }

    /// Whether `conn` has connected and not disconnected.
    #[must_use]
    pub fn is_connected(&self, conn: u64) -> (b: bool)
        requires
            self.wf(),
        ensures
            b == self@.queues.contains_key(conn),
    {
        self.queues.contains_key(&conn)
    }

    /// Drop the connection, with its queue and every address bound to it.
    pub fn disconnect(&mut self, conn: u64)
        requires
            old(self).wf(),
        ensures
            final(self).wf(),
            final(self)@ == core_disconnect(old(self)@, conn),
    {
        let ghost m = self@;
        let _gone = self.queues.remove(&conn);
        proof {
            assert(queue_views(self.queues@) =~= m.queues.remove(conn));
        }
        let ghost bound0 = self.bound@;
        let mut i: usize = 0;
        while i < self.bound.entries.len()
            invariant
                self.bound.wf(),
                i <= self.bound.entries@.len(),
                self.seq.wf(),
                self@ == (CoreModel {
                    queues: m.queues.remove(conn),
                    bound: self.bound@,
                    ..m
                }),
                forall|j: int| 0 <= j < i ==> (#[trigger] self.bound.entries@[j]).1 != conn,
                forall|a: VAddr| #[trigger]
                    self.bound@.contains_key(a) ==> bound0.contains_key(a) && bound0[a]
                        == self.bound@[a],
                forall|a: VAddr| #[trigger]
                    bound0.contains_key(a) && bound0[a] != conn ==> self.bound@.contains_key(a),
            decreases self.bound.entries@.len() - i,
        {
            let ghost e = self.bound.entries@;
            let ghost b = self.bound@;
            if self.bound.entries[i].1 == conn {
                let gone = self.bound.entries.remove(i);
                proof {
                    amap::lemma_entries_remove(e, i as int);
                    amap::lemma_entries_value(e, i as int);
                    assert(self.bound@ == b.remove(e[i as int].0));
                }
            } else {
                i = i + 1;
            }
        }
        proof {
            let e = self.bound.entries@;
            assert forall|a: VAddr| #[trigger] self.bound@.contains_key(a) implies self.bound@[a]
                != conn by {
                amap::lemma_entries_dom(e, a);
                let j = choose|j: int| 0 <= j < e.len() && (#[trigger] e[j]).0 == a;
                amap::lemma_entries_value(e, j);
            }
            assert(self.bound@ =~= released(bound0, conn));
        }
    }

    /// The largest delivery time scheduled so far, in nanoseconds: the time
    /// to stamp on what is observed now.
    #[must_use]
    pub fn vt(&self) -> (r: u64)
        ensures
            r == self@.vt,
    {
        self.vt
    }

    /// How many datagrams were sent, and how many of them dropped.
    #[must_use]
    pub fn stats(&self) -> (r: (u64, u64))
        ensures
            r == (self@.sent, self@.dropped),
    {
        (self.sent, self.dropped)
    }
}

// ---------------------------------------------------------------------------
// Laws
// ---------------------------------------------------------------------------

/// A receive takes the datagram that comes before all others of its queue.
pub proof fn law_recv_takes_soonest(m: CoreModel, conn: u64, i: int)
    requires
        core_ok(m),
        m.queues.contains_key(conn),
        0 <= i < m.queues[conn].len(),
    ensures
        recv_answer(m, conn, None) is Some,
        recv_answer(m, conn, None) == Some(m.queues[conn][i]) || sooner(
            recv_answer(m, conn, None).unwrap(),
            m.queues[conn][i],
        ),
{
    let q = m.queues[conn];
    assert(in_order(q));
    if i < q.len() - 1 {
        assert(sooner(q[q.len() - 1], q[i]));
    }
}

/// A send counts on its own channel and leaves every other channel's number,
/// and so every other channel's fates, alone.
pub proof fn law_channels_independent(
    m: CoreModel,
    src: VAddr,
    dst: VAddr,
    payload: Seq<u8>,
    send_vt: u64,
    tail: u64,
    a: VAddr,
    b: VAddr,
    len: nat,
    other_tail: u64,
)
    requires
        core_ok(m),
        m.sent < u64::MAX,
        src != a || dst != b,
    ensures
        next_seq(core_send(m, src, dst, payload, send_vt, tail), src, dst) == next_seq(m, src, dst)
            + 1,
        next_seq(core_send(m, src, dst, payload, send_vt, tail), a, b) == next_seq(m, a, b),
        next_fate(core_send(m, src, dst, payload, send_vt, tail), a, b, len, other_tail)
            == next_fate(m, a, b, len, other_tail),
{
    let ch = Channel { src, dst };
    if m.seq.contains_key(ch) {
        assert(m.seq[ch] <= m.sent);
    }
}

/// A tie is used up exactly where a datagram is scheduled, and the time mark
/// never falls and covers what was scheduled.
pub proof fn law_ties_and_time(
    m: CoreModel,
    src: VAddr,
    dst: VAddr,
    payload: Seq<u8>,
    send_vt: u64,
    tail: u64,
)
    requires
        core_ok(m),
        m.sent < u64::MAX,
    ensures
        ({
            let n = core_send(m, src, dst, payload, send_vt, tail);
            let r = send_answer(m, src, dst, payload.len(), send_vt, tail);
            &&& m.vt <= n.vt
            &&& n.sent == m.sent + 1
            &&& r is Enqueued ==> n.tie == m.tie + 1 && r->deliv_ns <= n.vt && send_vt
                <= r->deliv_ns
            &&& !(r is Enqueued) ==> n.tie == m.tie && n.vt == m.vt && n.queues == m.queues
            &&& r is Dropped <==> n.dropped == m.dropped + 1
        }),
{
}

/// What was sent to a connected receiver is delivered: right behind the send
/// to an otherwise empty queue, a receive gives the datagram back.
pub proof fn law_sent_is_received(
    m: CoreModel,
    src: VAddr,
    dst: VAddr,
    payload: Seq<u8>,
    send_vt: u64,
    tail: u64,
)
    requires
        m.bound.contains_key(dst),
        m.queues.contains_key(m.bound[dst]),
        m.queues[m.bound[dst]].len() == 0,
        !next_fate(m, src, dst, payload.len(), tail).dropped,
    ensures
        ({
            let n = core_send(m, src, dst, payload, send_vt, tail);
            let got = recv_answer(n, m.bound[dst], None);
            &&& got is Some
            &&& got.unwrap().src == src && got.unwrap().dst == dst
            &&& got.unwrap().payload == payload
        }),
{
    reveal_with_fuel(enqueue, 1);
}

/// A disconnected connection receives nothing, owns no address, and sends to
/// the addresses it owned find no receiver.
pub proof fn law_disconnect_releases(
    m: CoreModel,
    conn: u64,
    src: VAddr,
    dst: VAddr,
    len: nat,
    send_vt: u64,
    tail: u64,
)
    ensures
        recv_answer(core_disconnect(m, conn), conn, None) is None,
        forall|a: VAddr| #[trigger]
            core_disconnect(m, conn).bound.contains_key(a) ==> core_disconnect(m, conn).bound[a]
                != conn,
        m.bound.contains_key(dst) && m.bound[dst] == conn ==> !(send_answer(
            core_disconnect(m, conn),
            src,
            dst,
            len,
            send_vt,
            tail,
        ) is Enqueued),
{
}

} // verus!
