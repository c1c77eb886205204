//! The windowed sequencer: it buffers sends in whatever order they arrive and
//! hands them out, window by window, in the one order that the sort key
//! `(local_vt, host_id, node_id, conn_seq)` gives.
//!
//! Window `k` covers the virtual times from `k * width` up to, and without,
//! `(k + 1) * width`. It seals once every live connection has promised, by its
//! frontier, to send nothing below its end.

use std::collections::HashMap;

use vstd::prelude::*;

use crate::wire::VAddr;

verus! {

/// A frontier that promises to send nothing further.
pub const INFINITY: u64 = u64::MAX;

/// A connection id, assigned by the broker.
pub type ConnId = u64;

/// A buffered send that waits for its window.
#[derive(Clone, Debug, PartialEq, Eq)]
pub struct SeqSend {
    pub conn: ConnId,
    pub host_id: u32,
    pub node_id: u32,
    /// The index of this send on its connection, in program order.
    pub conn_seq: u64,
    /// The sender's local virtual time at the send.
    pub local_vt: u64,
    pub src: VAddr,
    pub dst: VAddr,
    pub payload: Vec<u8>,
}

/// What a [`SeqSend`] holds, with the payload as a sequence.
pub struct SendView {
    pub conn: u64,
    pub host_id: u32,
    pub node_id: u32,
    pub conn_seq: u64,
    pub local_vt: u64,
    pub src: VAddr,
    pub dst: VAddr,
    pub payload: Seq<u8>,
}

impl View for SeqSend {
    type V = SendView;

    open spec fn view(&self) -> SendView {
        SendView {
            conn: self.conn,
            host_id: self.host_id,
            node_id: self.node_id,
            conn_seq: self.conn_seq,
            local_vt: self.local_vt,
            src: self.src,
            dst: self.dst,
            payload: self.payload@,
        }
    }
}

pub open spec fn send_views(s: Seq<SeqSend>) -> Seq<SendView> {
    s.map_values(|x: SeqSend| x@)
}

/// Whether `a` comes strictly before `b` by the sort key.
pub open spec fn key_lt(a: SendView, b: SendView) -> bool {
    if a.local_vt != b.local_vt {
        a.local_vt < b.local_vt
    } else if a.host_id != b.host_id {
        a.host_id < b.host_id
    } else if a.node_id != b.node_id {
        a.node_id < b.node_id
    } else {
        a.conn_seq < b.conn_seq
    }
}

/// `x` put into `s` behind everything that does not come after it.
pub open spec fn insert_sorted(s: Seq<SendView>, x: SendView) -> Seq<SendView>
    decreases s.len(),
{
    if s.len() == 0 || !key_lt(x, s.last()) {
        s.push(x)
    } else {
        insert_sorted(s.drop_last(), x).push(s.last())
    }
}

/// `s` sorted by key; sends with equal keys keep their order.
pub open spec fn stable_sort(s: Seq<SendView>) -> Seq<SendView>
    decreases s.len(),
{
    if s.len() == 0 {
        s
    } else {
        insert_sorted(stable_sort(s.drop_last()), s.last())
    }
}

/// Why an operation is refused. Each is a protocol violation.
#[derive(Clone, Copy, PartialEq, Eq, Debug, Structural)]
pub enum SeqError {
    /// The connection was never registered.
    UnknownConn(ConnId),
    /// A local time or a frontier went backwards on its connection.
    NonMonotone { conn: ConnId, prev: u64, got: u64 },
    /// A send carries a time in a window that has been sealed.
    LateOp { conn: ConnId, local_vt: u64, horizon: u64 },
}

/// What the sequencer keeps of a connection.
#[derive(Clone, Copy, PartialEq, Eq, Debug, Structural)]
pub struct ConnState {
    pub host_id: u32,
    pub node_id: u32,
    /// The lower bound on the times of this connection's future sends; kept
    /// while it is blocked.
    pub frontier: u64,
    /// Whether the guest waits in a blocking receive.
    pub blocked: bool,
    /// The next index in program order.
    pub next_seq: u64,
    /// Whether the connection still counts for sealing.
    pub live: bool,
}

/// What a connection contributes to sealing: its lower bound, or infinity
/// where it cannot send.
pub open spec fn effective(c: ConnState) -> u64 {
    if c.live && !c.blocked {
        c.frontier
    } else {
        INFINITY
    }
}

impl ConnState {
    fn effective_frontier(&self) -> (r: u64)
        ensures
            r == effective(*self),
    {
        if self.live && !self.blocked {
            self.frontier
        } else {
            INFINITY
        }
    }
}

/// The mathematical state of a sequencer.
pub struct SeqModel {
    pub width: u64,
    pub conns: Map<u64, ConnState>,
    /// Admitted sends that no seal has handed out, in arrival order.
    pub pending: Seq<SendView>,
    /// Every window below this is sealed.
    pub horizon: u64,
}

/// `f` is the least effective frontier, infinity where there is none.
pub open spec fn is_min_frontier(conns: Map<u64, ConnState>, f: u64) -> bool {
    &&& forall|k: u64| #[trigger] conns.contains_key(k) ==> f <= effective(conns[k])
    &&& f == INFINITY || exists|k: u64| #[trigger] conns.contains_key(k) && effective(conns[k]) == f
}

pub open spec fn min_frontier(conns: Map<u64, ConnState>) -> u64 {
    choose|f: u64| is_min_frontier(conns, f)
}

/// There is one least frontier.
pub proof fn lemma_min_frontier(conns: Map<u64, ConnState>, f: u64)
    requires
        is_min_frontier(conns, f),
    ensures
        min_frontier(conns) == f,
{
    let g = min_frontier(conns);
    assert(is_min_frontier(conns, g));
    if g != INFINITY {
        let k = choose|k: u64| #[trigger] conns.contains_key(k) && effective(conns[k]) == g;
        assert(conns.contains_key(k));
    }
    if f != INFINITY {
        let k = choose|k: u64| #[trigger] conns.contains_key(k) && effective(conns[k]) == f;
        assert(conns.contains_key(k));
    }
}

/// `f` is the furthest effective frontier short of infinity, 0 where there is
/// none.
pub open spec fn is_lead(conns: Map<u64, ConnState>, f: u64) -> bool {
    &&& forall|k: u64| #[trigger]
        conns.contains_key(k) && effective(conns[k]) != INFINITY ==> effective(conns[k]) <= f
    &&& f == 0 || exists|k: u64| #[trigger]
        conns.contains_key(k) && effective(conns[k]) != INFINITY && effective(conns[k]) == f
}

pub open spec fn lead(conns: Map<u64, ConnState>) -> u64 {
    choose|f: u64| is_lead(conns, f)
}

/// There is one greatest frontier.
pub proof fn lemma_lead(conns: Map<u64, ConnState>, f: u64)
    requires
        is_lead(conns, f),
    ensures
        lead(conns) == f,
{
    let g = lead(conns);
    assert(is_lead(conns, g));
    if g != 0 {
        let k = choose|k: u64| #[trigger]
            conns.contains_key(k) && effective(conns[k]) != INFINITY && effective(conns[k]) == g;
        assert(conns.contains_key(k));
    }
    if f != 0 {
        let k = choose|k: u64| #[trigger]
            conns.contains_key(k) && effective(conns[k]) != INFINITY && effective(conns[k]) == f;
        assert(conns.contains_key(k));
    }
}

/// How far a connection lies behind the furthest frontier, with its host and
/// its node.
pub open spec fn lag_of(conns: Map<u64, ConnState>, k: u64) -> (u32, u32, u64) {
    (
        conns[k].host_id,
        conns[k].node_id,
        (lead(conns) - effective(conns[k])) as u64,
    )
}

/// `x` is the lag of a connection that sealing waits for.
pub open spec fn is_lag(conns: Map<u64, ConnState>, x: (u32, u32, u64)) -> bool {
    exists|k: u64| #[trigger]
        conns.contains_key(k) && effective(conns[k]) != INFINITY && x == lag_of(conns, k)
}

/// `f` rounded down to a window boundary; infinity stays.
pub open spec fn rounded(width: u64, f: u64) -> u64 {
    if f == INFINITY {
        INFINITY
    } else {
        (f as int / width as int * width as int) as u64
    }
}

/// The horizon that the frontiers allow: the least effective frontier rounded
/// down to a window boundary, or infinity where nobody can send.
pub open spec fn sealable(m: SeqModel) -> u64 {
    rounded(m.width, min_frontier(m.conns))
}

/// Whether the time `vt` lies in a window that the horizon `h` has sealed: all
/// of them are where it is infinite.
pub open spec fn passed(h: u64, vt: u64) -> bool {
    h == INFINITY || vt < h
}

/// Whether a send falls below the horizon `h`.
pub open spec fn below(x: SendView, h: u64) -> bool {
    passed(h, x.local_vt)
}

/// The sends of `s` that fall below `h` (`want`), or those that do not.
pub open spec fn part(s: Seq<SendView>, h: u64, want: bool) -> Seq<SendView>
    decreases s.len(),
{
    if s.len() == 0 {
        s
    } else {
        let r = part(s.drop_last(), h, want);
        if below(s.last(), h) == want {
            r.push(s.last())
        } else {
            r
        }
    }
}

pub open spec fn seq_new(width: u64) -> SeqModel {
    SeqModel { width, conns: Map::empty(), pending: Seq::empty(), horizon: 0 }
}

pub open spec fn seq_register(m: SeqModel, conn: u64, host_id: u32, node_id: u32) -> SeqModel {
    SeqModel {
        conns: m.conns.insert(
            conn,
            ConnState { host_id, node_id, frontier: 0, blocked: false, next_seq: 0, live: true },
        ),
        ..m
    }
}

/// What the admission of a send answers: its index on the connection, or why
/// it is refused.
pub open spec fn admit_answer(m: SeqModel, conn: u64, local_vt: u64) -> Result<u64, SeqError> {
    if passed(m.horizon, local_vt) {
        Err(SeqError::LateOp { conn, local_vt, horizon: m.horizon })
    } else if !m.conns.contains_key(conn) {
        Err(SeqError::UnknownConn(conn))
    } else if local_vt < m.conns[conn].frontier {
        Err(SeqError::NonMonotone { conn, prev: m.conns[conn].frontier, got: local_vt })
    } else {
        Ok(m.conns[conn].next_seq)
    }
}

/// The state after a send was admitted.
pub open spec fn seq_admitted(
    m: SeqModel,
    conn: u64,
    local_vt: u64,
    src: VAddr,
    dst: VAddr,
    payload: Seq<u8>,
) -> SeqModel {
    let c = m.conns[conn];
    SeqModel {
        conns: m.conns.insert(
            conn,
            ConnState { frontier: local_vt, next_seq: (c.next_seq + 1) as u64, ..c },
        ),
        pending: m.pending.push(
            SendView {
                conn,
                host_id: c.host_id,
                node_id: c.node_id,
                conn_seq: c.next_seq,
                local_vt,
                src,
                dst,
                payload,
            },
        ),
        ..m
    }
}

/// Sends of one node in one window.
pub open spec fn together(a: SendView, b: SendView, width: u64) -> bool {
    &&& a.host_id == b.host_id
    &&& a.node_id == b.node_id
    &&& a.local_vt / width == b.local_vt / width
}

/// How many of the first `n` sends are of the node and in the window of `x`.
pub open spec fn crowd(s: Seq<SendView>, x: SendView, width: u64, n: int) -> nat
    decreases n,
{
    if n <= 0 {
        0
    } else {
        crowd(s, x, width, n - 1) + if together(s[n - 1], x, width) {
            1nat
        } else {
            0
        }
    }
}

pub open spec fn frontier_answer(m: SeqModel, conn: u64, f: u64) -> Result<(), SeqError> {
    if !m.conns.contains_key(conn) {
        Err(SeqError::UnknownConn(conn))
    } else if f < m.conns[conn].frontier {
        Err(SeqError::NonMonotone { conn, prev: m.conns[conn].frontier, got: f })
    } else {
        Ok(())
    }
}

pub open spec fn seq_declared(m: SeqModel, conn: u64, f: u64) -> SeqModel {
    SeqModel { conns: m.conns.insert(conn, ConnState { frontier: f, ..m.conns[conn] }), ..m }
}

pub open spec fn later(a: u64, b: u64) -> u64 {
    if a < b {
        b
    } else {
        a
    }
}

/// A frontier that moves up to `vt` where it lies below.
pub open spec fn seq_touched(m: SeqModel, conn: u64, vt: u64) -> SeqModel {
    if m.conns.contains_key(conn) {
        let c = m.conns[conn];
        SeqModel {
            conns: m.conns.insert(conn, ConnState { frontier: later(c.frontier, vt), ..c }),
            ..m
        }
    } else {
        m
    }
}

pub open spec fn seq_blocked(m: SeqModel, conn: u64, at_vt: u64) -> SeqModel {
    if m.conns.contains_key(conn) {
        let c = m.conns[conn];
        SeqModel {
            conns: m.conns.insert(
                conn,
                ConnState { frontier: later(c.frontier, at_vt), blocked: true, ..c },
            ),
            ..m
        }
    } else {
        m
    }
}

pub open spec fn seq_woken(m: SeqModel, conn: u64, deliv_vt: u64) -> SeqModel {
    if m.conns.contains_key(conn) && m.conns[conn].blocked {
        let c = m.conns[conn];
        SeqModel {
            conns: m.conns.insert(
                conn,
                ConnState { frontier: later(c.frontier, deliv_vt), blocked: false, ..c },
            ),
            ..m
        }
    } else {
        m
    }
}

pub open spec fn seq_closed(m: SeqModel, conn: u64) -> SeqModel {
    if m.conns.contains_key(conn) {
        SeqModel { conns: m.conns.insert(conn, ConnState { live: false, ..m.conns[conn] }), ..m }
    } else {
        m
    }
}

/// What moving the horizon up to `h` hands out: the buffered sends below it,
/// sorted. Nothing where it does not move up.
pub open spec fn output_below(m: SeqModel, h: u64) -> Seq<SendView> {
    if h <= m.horizon {
        Seq::empty()
    } else {
        stable_sort(part(m.pending, h, true))
    }
}

pub open spec fn sealed_below(m: SeqModel, h: u64) -> SeqModel {
    if h <= m.horizon {
        m
    } else {
        SeqModel { pending: part(m.pending, h, false), horizon: h, ..m }
    }
}

/// What sealing hands out, and what it leaves.
pub open spec fn seal_output(m: SeqModel) -> Seq<SendView> {
    output_below(m, sealable(m))
}

pub open spec fn seq_sealed(m: SeqModel) -> SeqModel {
    sealed_below(m, sealable(m))
}

/// Nobody can send and nothing is buffered.
pub open spec fn quiescent(m: SeqModel) -> bool {
    &&& m.pending.len() == 0
    &&& forall|k: u64| #[trigger] m.conns.contains_key(k) ==> effective(m.conns[k]) == INFINITY
}

/// No send of `s` lies below the horizon `h`.
pub open spec fn none_late(s: Seq<SendView>, h: u64) -> bool {
    forall|i: int| 0 <= i < s.len() ==> !below(#[trigger] s[i], h)
}

/// Every live connection waits in a blocking receive, there is one, and
/// nothing is buffered.
pub open spec fn stuck(m: SeqModel) -> bool {
    &&& m.pending.len() == 0
    &&& exists|k: u64| #[trigger] m.conns.contains_key(k) && m.conns[k].live
    &&& forall|k: u64| #[trigger]
        m.conns.contains_key(k) && m.conns[k].live ==> m.conns[k].blocked
}

/// What always holds: windows have a width, and no buffered send lies in a
/// sealed window.
pub open spec fn seq_ok(m: SeqModel) -> bool {
    m.width > 0 && none_late(m.pending, m.horizon)
}

/// The windowed sequencer.
pub struct WindowSequencer {
    width: u64,
    conns: HashMap<u64, ConnState>,
    pending: Vec<SeqSend>,
    horizon: u64,
}

impl View for WindowSequencer {
    type V = SeqModel;

    closed spec fn view(&self) -> SeqModel {
        SeqModel {
            width: self.width,
            conns: self.conns@,
            pending: send_views(self.pending@),
            horizon: self.horizon,
        }
    }
}

/// The connections with their states, in whatever order.
fn entries_of(conns: &HashMap<u64, ConnState>) -> (r: Vec<(u64, ConnState)>)
    ensures
        forall|i: int|
            0 <= i < r@.len() ==> conns@.contains_key((#[trigger] r@[i]).0) && conns@[r@[i].0]
                == r@[i].1,
        forall|k: u64| #[trigger] conns@.contains_key(k) ==> r@.contains((k, conns@[k])),
{
    let mut r: Vec<(u64, ConnState)> = Vec::new();
    for (k, c) in it: conns.iter()
        invariant
            r@.len() == it.index(),
            forall|j: int|
                #![trigger r@[j]]
                #![trigger it.seq()[j]]
                0 <= j < r@.len() ==> r@[j] == (*it.seq()[j].0, *it.seq()[j].1),
            forall|k: u64| #[trigger]
                conns@.contains_key(k) ==> it.seq().contains((&k, &conns@[k])),
    {
        r.push((*k, *c));
    }
    r
}

fn before(a: &SeqSend, b: &SeqSend) -> (r: bool)
    ensures
        r == key_lt(a@, b@),
{
    if a.local_vt != b.local_vt {
        a.local_vt < b.local_vt
    } else if a.host_id != b.host_id {
        a.host_id < b.host_id
    } else if a.node_id != b.node_id {
        a.node_id < b.node_id
    } else {
        a.conn_seq < b.conn_seq
    }
}

proof fn lemma_insert_at(s: Seq<SendView>, x: SendView, pos: int)
    requires
        0 <= pos <= s.len(),
        forall|j: int| pos <= j < s.len() ==> key_lt(x, #[trigger] s[j]),
        pos > 0 ==> !key_lt(x, s[pos - 1]),
    ensures
        insert_sorted(s, x) == s.insert(pos, x),
    decreases s.len(),
{
    if pos == s.len() {
        assert(s.insert(pos, x) =~= s.push(x));
    } else {
        assert(key_lt(x, s[s.len() - 1]));
        assert forall|j: int| pos <= j < s.drop_last().len() implies key_lt(
            x,
            #[trigger] s.drop_last()[j],
        ) by {
            assert(key_lt(x, s[j]));
        }
        lemma_insert_at(s.drop_last(), x, pos);
        assert(s.insert(pos, x) =~= s.drop_last().insert(pos, x).push(s.last()));
    }
}

/// Put `x` into the sorted `v`.
fn insert_send(v: &mut Vec<SeqSend>, x: SeqSend)
    ensures
        send_views(final(v)@) == insert_sorted(send_views(old(v)@), x@),
{
    let mut pos: usize = v.len();
    while pos > 0 && before(&x, &v[pos - 1])
        invariant
            pos <= v@.len(),
            forall|j: int| pos <= j < v@.len() ==> key_lt(x@, (#[trigger] v@[j])@),
        decreases pos,
    {
        pos = pos - 1;
    }
    proof {
        let s = send_views(v@);
        assert forall|j: int| pos <= j < s.len() implies key_lt(x@, #[trigger] s[j]) by {
            assert(key_lt(x@, v@[j]@));
        }
        lemma_insert_at(s, x@, pos as int);
    }
    v.insert(pos, x);
    assert(send_views(v@) =~= send_views(old(v)@).insert(pos as int, x@));
}

impl WindowSequencer {
    pub closed spec fn wf(&self) -> bool {
        seq_ok(self@)
    }

    /// Invariants that follow from [`WindowSequencer::wf`].
    pub proof fn lemma_wf(&self)
        requires
            self.wf(),
        ensures
            seq_ok(self@),
    {
    }

    /// A sequencer with windows of `width` nanoseconds.
    #[must_use]
    pub fn new(width: u64) -> (r: Self)
        requires
            width > 0,
        ensures
            r.wf(),
            r@ == seq_new(width),
    {
        let r = WindowSequencer { width, conns: HashMap::new(), pending: Vec::new(), horizon: 0 };
        assert(r@.pending =~= Seq::<SendView>::empty());
        r
    }

    /// Register a live connection at frontier 0. The broker registers each
    /// connection once; another registration starts the connection over.
    pub fn register(&mut self, conn: ConnId, host_id: u32, node_id: u32)
        requires
            old(self).wf(),
        ensures
            final(self).wf(),
            final(self)@ == seq_register(old(self)@, conn, host_id, node_id),
    {
        let _old: Option<ConnState> = self.conns.insert(
            conn,
            ConnState { host_id, node_id, frontier: 0, blocked: false, next_seq: 0, live: true },
        );
    }

    /// The sealed horizon: deliveries below it can be handed out. Infinity
    /// once every live connection has released its frontier.
    #[must_use]
    pub fn horizon(&self) -> (h: u64)
        ensures
            h == self@.horizon,
    {
        self.horizon
    }

    /// Admit one send and answer its index on the connection. The send is
    /// buffered until its window seals, and the connection's frontier moves up
    /// to `local_vt`.
    pub fn admit_send(
        &mut self,
        conn: ConnId,
        local_vt: u64,
        src: VAddr,
        dst: VAddr,
        payload: Vec<u8>,
    ) -> (r: Result<u64, SeqError>)
        requires
            old(self).wf(),
            old(self)@.conns.contains_key(conn) ==> old(self)@.conns[conn].next_seq < u64::MAX,
        ensures
            final(self).wf(),
            r == admit_answer(old(self)@, conn, local_vt),
            final(self)@ == (if r is Ok {
                seq_admitted(old(self)@, conn, local_vt, src, dst, payload@)
            } else {
                old(self)@
            }),
    {
        if self.horizon == INFINITY || local_vt < self.horizon {
            return Err(SeqError::LateOp { conn, local_vt, horizon: self.horizon });
        }
        let c: ConnState = match self.conns.get(&conn) {
            Some(c) => *c,
            None => {
                return Err(SeqError::UnknownConn(conn));
            },
        };
        if local_vt < c.frontier {
            return Err(SeqError::NonMonotone { conn, prev: c.frontier, got: local_vt });
        }
        let conn_seq: u64 = c.next_seq;
        let _old: Option<ConnState> = self.conns.insert(conn, ConnState { frontier: local_vt, next_seq: conn_seq + 1, ..c });
        let op = SeqSend {
            conn,
            host_id: c.host_id,
            node_id: c.node_id,
            conn_seq,
            local_vt,
            src,
            dst,
            payload,
        };
        let ghost opv = op@;
        self.pending.push(op);
        proof {
            assert(send_views(self.pending@) =~= send_views(old(self).pending@).push(opv));
        }
        Ok(conn_seq)
    }

    /// Promise, without a send, to send nothing below `f`.
    pub fn declare_frontier(&mut self, conn: ConnId, f: u64) -> (r: Result<(), SeqError>)
        requires
            old(self).wf(),
        ensures
            final(self).wf(),
            r == frontier_answer(old(self)@, conn, f),
            final(self)@ == (if r is Ok {
                seq_declared(old(self)@, conn, f)
            } else {
                old(self)@
            }),
    {
        let c: ConnState = match self.conns.get(&conn) {
            Some(c) => *c,
            None => {
                return Err(SeqError::UnknownConn(conn));
            },
        };
        if f < c.frontier {
            return Err(SeqError::NonMonotone { conn, prev: c.frontier, got: f });
        }
        let _old: Option<ConnState> = self.conns.insert(conn, ConnState { frontier: f, ..c });
        Ok(())
    }

    /// Move a connection's frontier up to `vt`; one that lies further up
    /// already stays.
    pub fn touch_frontier(&mut self, conn: ConnId, vt: u64)
        requires
            old(self).wf(),
        ensures
            final(self).wf(),
            final(self)@ == seq_touched(old(self)@, conn, vt),
    {
        let c: ConnState = match self.conns.get(&conn) {
            Some(c) => *c,
            None => {
                return ;
            },
        };
        let frontier: u64 = if c.frontier < vt {
            vt
        } else {
            c.frontier
        };
        let _old: Option<ConnState> = self.conns.insert(conn, ConnState { frontier, ..c });
    }

    /// Mark a connection as waiting in a blocking receive at `at_vt`: it
    /// leaves the quorum and keeps its lower bound.
    pub fn block(&mut self, conn: ConnId, at_vt: u64)
        requires
            old(self).wf(),
        ensures
            final(self).wf(),
            final(self)@ == seq_blocked(old(self)@, conn, at_vt),
    {
        let c: ConnState = match self.conns.get(&conn) {
            Some(c) => *c,
            None => {
                return ;
            },
        };
        let frontier: u64 = if c.frontier < at_vt {
            at_vt
        } else {
            c.frontier
        };
        let _old: Option<ConnState> = self.conns.insert(conn, ConnState { frontier, blocked: true, ..c });
    }

    /// Wake a blocked connection by a delivery at `deliv_vt`: it joins the
    /// quorum again, no lower than the delivery. Nothing happens to one that
    /// is not blocked.
    pub fn wake(&mut self, conn: ConnId, deliv_vt: u64)
        requires
            old(self).wf(),
        ensures
            final(self).wf(),
            final(self)@ == seq_woken(old(self)@, conn, deliv_vt),
    {
        let c: ConnState = match self.conns.get(&conn) {
            Some(c) => *c,
            None => {
                return ;
            },
        };
        if c.blocked {
            let frontier: u64 = if c.frontier < deliv_vt {
                deliv_vt
            } else {
                c.frontier
            };
            let _old: Option<ConnState> = self.conns.insert(conn, ConnState { frontier, blocked: false, ..c });
        }
    }

    /// A connection closed: it leaves the quorum for good. What it sent is
    /// still assigned.
    pub fn close(&mut self, conn: ConnId)
        requires
            old(self).wf(),
        ensures
            final(self).wf(),
            final(self)@ == seq_closed(old(self)@, conn),
    {
        let c: ConnState = match self.conns.get(&conn) {
            Some(c) => *c,
            None => {
                return ;
            },
        };
        let _old: Option<ConnState> = self.conns.insert(conn, ConnState { live: false, ..c });
    }

    /// The least effective frontier of the connections.
    fn least_frontier(&self) -> (f: u64)
        requires
            self.wf(),
        ensures
            is_min_frontier(self@.conns, f),
    {
        let entries = entries_of(&self.conns);
        let ghost e = entries@;
        let mut f: u64 = INFINITY;
        let mut i: usize = 0;
        while i < entries.len()
            invariant
                e == entries@,
                i <= e.len(),
                forall|j: int| 0 <= j < i ==> f <= effective((#[trigger] e[j]).1),
                f == INFINITY || exists|j: int|
                    0 <= j < i && effective((#[trigger] e[j]).1) == f,
            decreases e.len() - i,
        {
            let x: u64 = entries[i].1.effective_frontier();
            if x < f {
                f = x;
                assert(effective(e[i as int].1) == f);
            }
            i = i + 1;
        }
        proof {
            assert forall|k: u64| #[trigger] self@.conns.contains_key(k) implies f <= effective(
                self@.conns[k],
            ) by {
                let j = choose|j: int| 0 <= j < e.len() && #[trigger] e[j] == (k, self@.conns[k]);
                assert(e[j].1 == self@.conns[k]);
            }
            if f != INFINITY {
                let j = choose|j: int| 0 <= j < i && effective((#[trigger] e[j]).1) == f;
                assert(self@.conns.contains_key(e[j].0));
            }
        }
        f
    }

    /// Seal every window that can seal now and hand out its sends in assigned
    /// order; nothing where no window seals. Once nobody can send, the horizon
    /// is infinite and everything buffered is handed out.
    pub fn seal(&mut self) -> (r: Vec<SeqSend>)
        requires
            old(self).wf(),
        ensures
            final(self).wf(),
            send_views(r@) == seal_output(old(self)@),
            final(self)@ == seq_sealed(old(self)@),
    {
        let f: u64 = self.least_frontier();
        proof {
            lemma_min_frontier(self@.conns, f);
        }
        self.seal_to(f)
    }

    /// Seal every window that ends at or below `f`, whatever the frontiers say,
    /// and hand out its sends in assigned order.
    pub fn seal_to(&mut self, f: u64) -> (r: Vec<SeqSend>)
        requires
            old(self).wf(),
        ensures
            final(self).wf(),
            send_views(r@) == output_below(old(self)@, rounded(old(self)@.width, f)),
            final(self)@ == sealed_below(old(self)@, rounded(old(self)@.width, f)),
    {
        let width: u64 = self.width;
        let new_horizon: u64 = if f == INFINITY {
            INFINITY
        } else {
            proof {
                let q = f as int / width as int;
                assert(q * width <= f && q >= 0) by (nonlinear_arith)
                    requires
                        q == f as int / width as int,
                        width > 0,
                ;
                assert(0 <= q * width) by (nonlinear_arith)
                    requires
                        q >= 0,
                        width > 0,
                ;
            }
            (f / width) * width
        };
        assert(new_horizon == rounded(self@.width, f));
        if new_horizon <= self.horizon {
            let r: Vec<SeqSend> = Vec::new();
            assert(send_views(r@) =~= Seq::<SendView>::empty());
            return r;
        }
        let ghost all = send_views(self.pending@);
        let mut rest: Vec<SeqSend> = Vec::new();
        std::mem::swap(&mut rest, &mut self.pending);
        let ghost rest0 = rest@;
        let mut ready: Vec<SeqSend> = Vec::new();
        let mut keep: Vec<SeqSend> = Vec::new();
        proof {
            assert(send_views(ready@) =~= stable_sort(part(all.take(0), new_horizon, true)));
            assert(send_views(keep@) =~= part(all.take(0), new_horizon, false));
        }
        for op in it: rest
            invariant
                it.seq() == rest0,
                all == send_views(rest0),
                send_views(ready@) == stable_sort(
                    part(all.take(it.index() as int), new_horizon, true),
                ),
                send_views(keep@) == part(all.take(it.index() as int), new_horizon, false),
        {
            let ghost i = it.index() as int;
            let ghost opv = op@;
            proof {
                assert(all.take(i + 1).drop_last() =~= all.take(i));
                assert(all.take(i + 1).last() == opv);
            }
            if new_horizon == INFINITY || op.local_vt < new_horizon {
                let ghost before_part = part(all.take(i), new_horizon, true);
                insert_send(&mut ready, op);
                proof {
                    let p = part(all.take(i + 1), new_horizon, true);
                    assert(p.drop_last() =~= before_part);
                    assert(p.last() == opv);
                }
            } else {
                let ghost before_keep = send_views(keep@);
                keep.push(op);
                assert(send_views(keep@) =~= before_keep.push(opv));
            }
        }
        proof {
            assert(all.take(all.len() as int) =~= all);
        }
        self.pending = keep;
        self.horizon = new_horizon;
        proof {
            lemma_part_sides(all, new_horizon);
            assert(none_late(part(all, new_horizon, false), new_horizon));
        }
        ready
    }

    /// The connections with their states, in whatever order.
    #[must_use]
    pub fn connections(&self) -> (r: Vec<(u64, ConnState)>)
        ensures
            forall|i: int|
                0 <= i < r@.len() ==> self@.conns.contains_key((#[trigger] r@[i]).0)
                    && self@.conns[r@[i].0] == r@[i].1,
            forall|k: u64| #[trigger]
                self@.conns.contains_key(k) ==> r@.contains((k, self@.conns[k])),
    {
        entries_of(&self.conns)
    }

    /// The least time of a buffered send; infinity where none is buffered.
    #[must_use]
    pub fn first_pending(&self) -> (t: u64)
        ensures
            forall|i: int| 0 <= i < self@.pending.len() ==> t <= (#[trigger] self@.pending[i]).local_vt,
            t == INFINITY || exists|i: int|
                0 <= i < self@.pending.len() && (#[trigger] self@.pending[i]).local_vt == t,
    {
        let ghost s = self@.pending;
        assert(s == send_views(self.pending@));
        let mut t: u64 = INFINITY;
        let mut i: usize = 0;
        while i < self.pending.len()
            invariant
                i <= self.pending@.len(),
                s == send_views(self.pending@),
                s.len() == self.pending@.len(),
                forall|j: int| 0 <= j < i ==> t <= (#[trigger] s[j]).local_vt,
                t == INFINITY || exists|j: int|
                    0 <= j < i && (#[trigger] s[j]).local_vt == t,
            decreases self.pending@.len() - i,
        {
            let x: &SeqSend = &self.pending[i];
            assert(x@ == s[i as int]);
            if x.local_vt < t {
                t = x.local_vt;
                assert(s[i as int].local_vt == t);
            }
            i = i + 1;
        }
        t
    }

    /// Whether no live connection can send and nothing is buffered.
    #[must_use]
    pub fn is_quiescent(&self) -> (b: bool)
        requires
            self.wf(),
        ensures
            b == quiescent(self@),
    {
        let f: u64 = self.least_frontier();
        proof {
            if f != INFINITY {
                let k = choose|k: u64| #[trigger]
                    self@.conns.contains_key(k) && effective(self@.conns[k]) == f;
                assert(self@.conns.contains_key(k));
            }
        }
        self.pending.len() == 0 && f == INFINITY
    }
}

impl WindowSequencer {
    /// The furthest effective frontier short of infinity.
    fn lead_frontier(&self) -> (f: u64)
        requires
            self.wf(),
        ensures
            is_lead(self@.conns, f),
            f == lead(self@.conns),
    {
        let entries = entries_of(&self.conns);
        let ghost e = entries@;
        let mut f: u64 = 0;
        let mut i: usize = 0;
        while i < entries.len()
            invariant
                e == entries@,
                i <= e.len(),
                forall|j: int|
                    0 <= j < i && effective((#[trigger] e[j]).1) != INFINITY ==> effective(e[j].1)
                        <= f,
                f == 0 || exists|j: int|
                    0 <= j < i && effective((#[trigger] e[j]).1) != INFINITY && effective(e[j].1)
                        == f,
            decreases e.len() - i,
        {
            let x: u64 = entries[i].1.effective_frontier();
            if x != INFINITY && x > f {
                f = x;
                assert(effective(e[i as int].1) == f);
            }
            i = i + 1;
        }
        proof {
            assert forall|k: u64| #[trigger]
                self@.conns.contains_key(k) && effective(self@.conns[k])
                    != INFINITY implies effective(self@.conns[k]) <= f by {
                let j = choose|j: int| 0 <= j < e.len() && #[trigger] e[j] == (k, self@.conns[k]);
                assert(e[j].1 == self@.conns[k]);
            }
            if f != 0 {
                let j = choose|j: int|
                    0 <= j < e.len() && effective((#[trigger] e[j]).1) != INFINITY && effective(
                        e[j].1,
                    ) == f;
                assert(self@.conns.contains_key(e[j].0));
            }
            lemma_lead(self@.conns, f);
        }
        f
    }

    /// Host, node and lag of every connection that sealing waits for: how far
    /// its frontier lies behind the furthest of theirs.
    #[must_use]
    pub fn frontier_lags(&self) -> (r: Vec<(u32, u32, u64)>)
        requires
            self.wf(),
        ensures
            forall|x: (u32, u32, u64)| #[trigger] r@.contains(x) <==> is_lag(self@.conns, x),
    {
        let entries = entries_of(&self.conns);
        let ghost e = entries@;
        let ghost conns = self@.conns;
        let f: u64 = self.lead_frontier();
        let mut r: Vec<(u32, u32, u64)> = Vec::new();
        let mut i: usize = 0;
        while i < entries.len()
            invariant
                e == entries@,
                conns == self@.conns,
                i <= e.len(),
                forall|j: int|
                    0 <= j < e.len() ==> conns.contains_key((#[trigger] e[j]).0) && conns[e[j].0]
                        == e[j].1,
                f == lead(conns),
                is_lead(conns, f),
                forall|j: int| 0 <= j < r@.len() ==> is_lag(conns, #[trigger] r@[j]),
                forall|j: int|
                    0 <= j < i && effective((#[trigger] e[j]).1) != INFINITY ==> r@.contains(
                        lag_of(conns, e[j].0),
                    ),
            decreases e.len() - i,
        {
            let c: ConnState = entries[i].1;
            let x: u64 = c.effective_frontier();
            let ghost before = r@;
            if x != INFINITY {
                proof {
                    assert(conns.contains_key(e[i as int].0));
                }
                r.push((c.host_id, c.node_id, f - x));
                assert(r@[r@.len() - 1] == lag_of(conns, e[i as int].0));
            }
            assert forall|j: int|
                0 <= j < i + 1 && effective((#[trigger] e[j]).1) != INFINITY implies r@.contains(
                lag_of(conns, e[j].0),
            ) by {
                if j < i {
                    let y = lag_of(conns, e[j].0);
                    assert(before.contains(y));
                    let n = choose|n: int| 0 <= n < before.len() && before[n] == y;
                    assert(r@[n] == y);
                }
            }
            i = i + 1;
        }
        assert forall|x: (u32, u32, u64)| is_lag(conns, x) implies #[trigger] r@.contains(x) by {
            let k = choose|k: u64| #[trigger]
                conns.contains_key(k) && effective(conns[k]) != INFINITY && x == lag_of(conns, k);
            let j = choose|j: int| 0 <= j < e.len() && #[trigger] e[j] == (k, conns[k]);
            assert(e[j].1 == conns[k]);
        }
        r
    }

    /// How many sends are buffered of the node and in the window of the send
    /// that was admitted last.
    #[must_use]
    pub fn last_crowd(&self) -> (r: u64)
        requires
            self.wf(),
            0 < self@.pending.len() <= u64::MAX,
        ensures
            r == crowd(
                self@.pending,
                self@.pending.last(),
                self@.width,
                self@.pending.len() as int,
            ),
    {
        let ghost s = self@.pending;
        assert(s == send_views(self.pending@));
        let x: &SeqSend = &self.pending[self.pending.len() - 1];
        let at: u64 = x.local_vt / self.width;
        let mut r: u64 = 0;
        let mut i: usize = 0;
        while i < self.pending.len()
            invariant
                i <= self.pending@.len() <= u64::MAX,
                s == send_views(self.pending@),
                s.len() == self.pending@.len(),
                self.width > 0,
                x@ == s.last(),
                at == x@.local_vt / self.width,
                r == crowd(s, s.last(), self.width, i as int),
                r <= i,
            decreases self.pending@.len() - i,
        {
            let o: &SeqSend = &self.pending[i];
            assert(o@ == s[i as int]);
            if o.host_id == x.host_id && o.node_id == x.node_id && o.local_vt / self.width == at {
                r = r + 1;
            }
            i = i + 1;
        }
        r
    }

    /// The host and the node of the send that was admitted last.
    #[must_use]
    pub fn last_sender(&self) -> (r: (u32, u32))
        requires
            self@.pending.len() > 0,
        ensures
            r == (self@.pending.last().host_id, self@.pending.last().node_id),
    {
        let x: &SeqSend = &self.pending[self.pending.len() - 1];
        assert(x@ == self@.pending.last());
        (x.host_id, x.node_id)
    }

    /// Whether every live connection waits in a blocking receive, there is
    /// one, and nothing is buffered.
    #[must_use]
    pub fn deadlocked(&self) -> (b: bool)
        requires
            self.wf(),
        ensures
            b == stuck(self@),
    {
        let entries = entries_of(&self.conns);
        let ghost e = entries@;
        let mut any: bool = false;
        let mut i: usize = 0;
        while i < entries.len()
            invariant
                e == entries@,
                i <= e.len(),
                self@.conns == self.conns@,
                forall|j: int|
                    0 <= j < e.len() ==> self.conns@.contains_key((#[trigger] e[j]).0)
                        && self.conns@[e[j].0] == e[j].1,
                any == exists|j: int| 0 <= j < i && (#[trigger] e[j]).1.live,
                forall|j: int| 0 <= j < i && (#[trigger] e[j]).1.live ==> e[j].1.blocked,
            decreases e.len() - i,
        {
            let c: ConnState = entries[i].1;
            if c.live {
                if !c.blocked {
                    proof {
                        assert(self@.conns.contains_key(e[i as int].0));
                    }
                    return false;
                }
                any = true;
            }
            i = i + 1;
        }
        proof {
            assert forall|k: u64| #[trigger]
                self@.conns.contains_key(k) && self@.conns[k].live implies any
                && self@.conns[k].blocked by {
                let j = choose|j: int| 0 <= j < e.len() && #[trigger] e[j] == (k, self@.conns[k]);
                assert(e[j].1 == self@.conns[k]);
            }
            if any {
                let j = choose|j: int| 0 <= j < i && (#[trigger] e[j]).1.live;
                assert(self@.conns.contains_key(e[j].0));
            }
        }
        any && self.pending.len() == 0
    }
}

/// Each part holds only sends of its side.
pub proof fn lemma_part_sides(s: Seq<SendView>, h: u64)
    ensures
        forall|i: int|
            0 <= i < part(s, h, false).len() ==> !below(#[trigger] part(s, h, false)[i], h),
        forall|i: int| 0 <= i < part(s, h, true).len() ==> below(#[trigger] part(s, h, true)[i], h),
    decreases s.len(),
{
    if s.len() > 0 {
        lemma_part_sides(s.drop_last(), h);
        assert forall|i: int| 0 <= i < part(s, h, false).len() implies !below(
            #[trigger] part(s, h, false)[i],
            h,
        ) by {
            if i < part(s.drop_last(), h, false).len() {
                assert(!below(part(s.drop_last(), h, false)[i], h));
            }
        }
        assert forall|i: int| 0 <= i < part(s, h, true).len() implies below(
            #[trigger] part(s, h, true)[i],
            h,
        ) by {
            if i < part(s.drop_last(), h, true).len() {
                assert(below(part(s.drop_last(), h, true)[i], h));
            }
        }
    }
}

} // verus!
