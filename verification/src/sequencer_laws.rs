//! The laws of the windows: who is admitted, who is waited for, and what a
//! seal hands out.

use vstd::prelude::*;

use crate::window;
use crate::window::{ConnState, SendView, SeqError, SeqModel};
use crate::window_laws;
use crate::wire::VAddr;

verus! {

/// A send is admitted if and only if its window is open, its connection is
/// known and its time does not go back there; it gets the next number. A
/// refusal names the first of these that fails.
pub proof fn law_admission(m: SeqModel, conn: u64, vt: u64)
    ensures
        ({
            let r = window::admit_answer(m, conn, vt);
            let late = m.horizon == u64::MAX || vt < m.horizon;
            let known = m.conns.contains_key(conn);
            &&& r is Ok <==> !late && known && m.conns[conn].frontier <= vt
            &&& r matches Ok(n) ==> n == m.conns[conn].next_seq
            &&& late ==> r == Err::<u64, SeqError>(
                SeqError::LateOp { conn, local_vt: vt, horizon: m.horizon },
            )
            &&& !late && !known ==> r == Err::<u64, SeqError>(SeqError::UnknownConn(conn))
            &&& !late && known && vt < m.conns[conn].frontier ==> r == Err::<u64, SeqError>(
                SeqError::NonMonotone { conn, prev: m.conns[conn].frontier, got: vt },
            )
        }),
{
}

/// The other connections stand where they stood.
pub open spec fn others_stand(m: SeqModel, n: SeqModel, conn: u64) -> bool {
    &&& n.width == m.width
    &&& n.horizon == m.horizon
    &&& forall|k: u64|
        k != conn ==> (#[trigger] n.conns.contains_key(k) <==> m.conns.contains_key(k)) && (
        m.conns.contains_key(k) ==> n.conns[k] == m.conns[k])
}

/// A send that is admitted waits behind those that do, as what it is, with the
/// next number of its connection, which is at the time of the send from then
/// on.
pub proof fn law_admitted(
    m: SeqModel,
    conn: u64,
    vt: u64,
    src: VAddr,
    dst: VAddr,
    payload: Seq<u8>,
)
    requires
        m.conns.contains_key(conn),
        m.conns[conn].next_seq < u64::MAX,
    ensures
        ({
            let n = window::seq_admitted(m, conn, vt, src, dst, payload);
            let c = m.conns[conn];
            let x = n.pending.last();
            &&& others_stand(m, n, conn)
            &&& n.conns.contains_key(conn)
            &&& n.conns[conn].frontier == vt && n.conns[conn].next_seq == c.next_seq + 1
            &&& n.conns[conn].live == c.live && n.conns[conn].blocked == c.blocked
            &&& n.conns[conn].host_id == c.host_id && n.conns[conn].node_id == c.node_id
            &&& n.pending.len() == m.pending.len() + 1 && n.pending.drop_last() == m.pending
            &&& x.conn == conn && x.local_vt == vt && x.conn_seq == c.next_seq
            &&& x.host_id == c.host_id && x.node_id == c.node_id
            &&& x.src == src && x.dst == dst && x.payload == payload
        }),
{
    let n = window::seq_admitted(m, conn, vt, src, dst, payload);
    assert(n.pending.drop_last() =~= m.pending);
}

/// A connection that is registered runs from time zero and has sent nothing.
pub proof fn law_registration(m: SeqModel, conn: u64, host: u32, node: u32)
    ensures
        ({
            let n = window::seq_register(m, conn, host, node);
            &&& others_stand(m, n, conn)
            &&& n.pending == m.pending
            &&& n.conns.contains_key(conn)
            &&& n.conns[conn].host_id == host && n.conns[conn].node_id == node
            &&& n.conns[conn].frontier == 0 && n.conns[conn].next_seq == 0
            &&& n.conns[conn].live && !n.conns[conn].blocked
        }),
{
}

/// A promise is taken from a known connection where it does not go back; and
/// it moves that connection alone.
pub proof fn law_promise(m: SeqModel, conn: u64, f: u64)
    ensures
        window::frontier_answer(m, conn, f) is Ok <==> m.conns.contains_key(conn)
            && m.conns[conn].frontier <= f,
        m.conns.contains_key(conn) ==> {
            let n = window::seq_declared(m, conn, f);
            &&& others_stand(m, n, conn)
            &&& n.pending == m.pending
            &&& n.conns[conn] == (ConnState { frontier: f, ..m.conns[conn] })
        },
{
}

/// The greater of two times.
pub open spec fn at_least(a: u64, b: u64, r: u64) -> bool {
    a <= r && b <= r && (r == a || r == b)
}

/// To wait, to be woken and to leave each move a connection no further back
/// and change nothing else: one that waits is not waited for, one that is
/// woken is again, and one that has left never is.
pub proof fn law_waiting(m: SeqModel, conn: u64, vt: u64)
    requires
        m.conns.contains_key(conn),
    ensures
        ({
            let c = m.conns[conn];
            let b = window::seq_blocked(m, conn, vt);
            let w = window::seq_woken(m, conn, vt);
            let t = window::seq_touched(m, conn, vt);
            let g = window::seq_closed(m, conn);
            &&& others_stand(m, b, conn) && others_stand(m, w, conn) && others_stand(m, t, conn)
                && others_stand(m, g, conn)
            &&& b.pending == m.pending && w.pending == m.pending && t.pending == m.pending
                && g.pending == m.pending
            &&& b.conns[conn].blocked && at_least(c.frontier, vt, b.conns[conn].frontier)
                && b.conns[conn].live == c.live && b.conns[conn].next_seq == c.next_seq
            &&& c.blocked ==> !w.conns[conn].blocked && at_least(
                c.frontier,
                vt,
                w.conns[conn].frontier,
            ) && w.conns[conn].live == c.live && w.conns[conn].next_seq == c.next_seq
            &&& !c.blocked ==> w == m
            &&& t.conns[conn].blocked == c.blocked && at_least(
                c.frontier,
                vt,
                t.conns[conn].frontier,
            ) && t.conns[conn].live == c.live
            &&& !g.conns[conn].live && g.conns[conn].frontier == c.frontier
                && g.conns[conn].blocked == c.blocked
        }),
{
}

/// The connection is waited for: it has not left and does not wait itself.
pub open spec fn runs(m: SeqModel, k: u64) -> bool {
    m.conns.contains_key(k) && m.conns[k].live && !m.conns[k].blocked
}

/// Windows are sealed up to the last whole one that the slowest connection has
/// passed, of those that are waited for; and all of them where none is.
pub proof fn law_slowest_is_waited_for(m: SeqModel, slowest: u64)
    requires
        m.width > 0,
    ensures
        runs(m, slowest) && m.conns[slowest].frontier < u64::MAX && (forall|k: u64| #[trigger]
            m.conns.contains_key(k) && m.conns[k].live && !m.conns[k].blocked
                ==> m.conns[slowest].frontier <= m.conns[k].frontier) ==> {
            let h = window::sealable(m);
            let f = m.conns[slowest].frontier;
            &&& h <= f
            &&& f - h < m.width
            &&& h as int % m.width as int == 0
        },
        (forall|k: u64| #[trigger]
            m.conns.contains_key(k) ==> !m.conns[k].live || m.conns[k].blocked)
            ==> window::sealable(m) == u64::MAX,
{
    let w = m.width as int;
    if runs(m, slowest) && m.conns[slowest].frontier < u64::MAX && (forall|k: u64| #[trigger]
        m.conns.contains_key(k) && m.conns[k].live && !m.conns[k].blocked
            ==> m.conns[slowest].frontier <= m.conns[k].frontier) {
        let f = m.conns[slowest].frontier;
        assert(window::is_min_frontier(m.conns, f)) by {
            assert(window::effective(m.conns[slowest]) == f);
        }
        window::lemma_min_frontier(m.conns, f);
        let q = f as int / w;
        vstd::arithmetic::div_mod::lemma_fundamental_div_mod(f as int, w);
        vstd::arithmetic::div_mod::lemma_mod_multiples_basic(q, w);
        assert(q * w == w * q) by (nonlinear_arith);
        assert(0 <= q * w) by (nonlinear_arith)
            requires
                q >= 0,
                w > 0,
        ;
    }
    if forall|k: u64| #[trigger]
        m.conns.contains_key(k) ==> !m.conns[k].live || m.conns[k].blocked {
        assert(window::is_min_frontier(m.conns, u64::MAX));
        window::lemma_min_frontier(m.conns, u64::MAX);
    }
}

/// A seal hands out exactly what waits below the new horizon, in order, and
/// leaves exactly the rest; nothing is lost, nothing doubled.
pub proof fn law_what_a_seal_hands_out(m: SeqModel, h: u64, x: SendView)
    requires
        m.horizon < h,
    ensures
        ({
            let out = window::output_below(m, h);
            let n = window::sealed_below(m, h);
            let due = h == u64::MAX || x.local_vt < h;
            &&& out.to_multiset().count(x) == if due {
                m.pending.to_multiset().count(x)
            } else {
                0
            }
            &&& n.pending.to_multiset().count(x) == if due {
                0
            } else {
                m.pending.to_multiset().count(x)
            }
            &&& n.horizon == h
            &&& n.conns == m.conns && n.width == m.width
        }),
{
    window_laws::lemma_part_counts(m.pending, h, true, x);
    window_laws::lemma_part_counts(m.pending, h, false, x);
    window_laws::law_sort_sorts(window::part(m.pending, h, true));
}

/// What was handed out is not handed out again, and no horizon goes back.
pub proof fn law_sealed_once(m: SeqModel, h: u64)
    requires
        h <= m.horizon,
    ensures
        window::output_below(m, h).len() == 0,
        window::sealed_below(m, h) == m,
{
}

/// What is handed out is ordered by time, then by host, then by node, then by
/// number.
pub proof fn law_order_of_sends(a: SendView, b: SendView)
    ensures
        a.local_vt < b.local_vt ==> window::key_lt(a, b) && !window::key_lt(b, a),
        a.local_vt == b.local_vt && a.host_id < b.host_id ==> window::key_lt(a, b)
            && !window::key_lt(b, a),
        a.local_vt == b.local_vt && a.host_id == b.host_id && a.node_id < b.node_id
            ==> window::key_lt(a, b) && !window::key_lt(b, a),
        a.local_vt == b.local_vt && a.host_id == b.host_id && a.node_id == b.node_id && a.conn_seq
            < b.conn_seq ==> window::key_lt(a, b) && !window::key_lt(b, a),
        a.local_vt == b.local_vt && a.host_id == b.host_id && a.node_id == b.node_id && a.conn_seq
            == b.conn_seq ==> !window::key_lt(a, b),
{
}

/// Nothing can go on once the last connection that ran waits with nothing on
/// its way; it can again as soon as one is woken, and it can while a send
/// waits for its seal, while a connection runs, or where none is left.
pub proof fn law_standstill(m: SeqModel, k: u64, vt: u64)
    ensures
        m.conns.contains_key(k) && m.conns[k].live && m.pending.len() == 0 && (forall|j: u64|
            #[trigger]
            m.conns.contains_key(j) && m.conns[j].live && j != k ==> m.conns[j].blocked)
            ==> window::stuck(window::seq_blocked(m, k, vt)),
        window::stuck(m) && m.conns.contains_key(k) && m.conns[k].live ==> !window::stuck(
            window::seq_woken(m, k, vt),
        ),
        m.pending.len() > 0 ==> !window::stuck(m),
        runs(m, k) ==> !window::stuck(m),
        (forall|j: u64| #[trigger] m.conns.contains_key(j) ==> !m.conns[j].live)
            ==> !window::stuck(m),
{
    if m.conns.contains_key(k) && m.conns[k].live && m.pending.len() == 0 && (forall|j: u64|
        #[trigger]
        m.conns.contains_key(j) && m.conns[j].live && j != k ==> m.conns[j].blocked) {
        let b = window::seq_blocked(m, k, vt);
        assert(b.conns.contains_key(k) && b.conns[k].live);
    }
    if window::stuck(m) && m.conns.contains_key(k) && m.conns[k].live {
        let w = window::seq_woken(m, k, vt);
        assert(w.conns.contains_key(k) && w.conns[k].live && !w.conns[k].blocked);
    }
}

/// The sends that share a window with `x` are those of the same node on the
/// same host whose times lie in the same window.
pub proof fn law_crowd(s: Seq<SendView>, x: SendView, width: u64, y: SendView)
    requires
        width > 0,
    ensures
        window::crowd(s.push(y), x, width, s.len() as int + 1) == window::crowd(
            s,
            x,
            width,
            s.len() as int,
        ) + if y.host_id == x.host_id && y.node_id == x.node_id && y.local_vt as int / width as int
            == x.local_vt as int / width as int {
            1nat
        } else {
            0nat
        },
        window::crowd(s, x, width, 0) == 0,
{
    lemma_crowd(s, y, x, width, s.len() as int);
}

proof fn lemma_crowd(s: Seq<SendView>, y: SendView, x: SendView, width: u64, n: int)
    requires
        0 <= n <= s.len(),
    ensures
        window::crowd(s.push(y), x, width, n) == window::crowd(s, x, width, n),
    decreases n,
{
    if n > 0 {
        lemma_crowd(s, y, x, width, n - 1);
    }
}

/// How far a connection that is waited for lags is the distance from its time
/// to that of the fastest one, under its own host and node.
pub proof fn law_lags(m: SeqModel, k: u64, fastest: u64)
    requires
        runs(m, k) && m.conns[k].frontier < u64::MAX,
        runs(m, fastest) && m.conns[fastest].frontier < u64::MAX,
        forall|j: u64| #[trigger]
            m.conns.contains_key(j) && m.conns[j].live && !m.conns[j].blocked
                && m.conns[j].frontier < u64::MAX ==> m.conns[j].frontier
                <= m.conns[fastest].frontier,
    ensures
        window::lag_of(m.conns, k).0 == m.conns[k].host_id,
        window::lag_of(m.conns, k).1 == m.conns[k].node_id,
        window::lag_of(m.conns, k).2 == m.conns[fastest].frontier - m.conns[k].frontier,
        window::is_lag(m.conns, window::lag_of(m.conns, k)),
{
    let f = m.conns[fastest].frontier;
    assert(window::effective(m.conns[fastest]) == f);
    assert(window::is_lead(m.conns, f)) by {
        assert forall|j: u64| #[trigger]
            m.conns.contains_key(j) && window::effective(m.conns[j]) != u64::MAX implies
            window::effective(m.conns[j]) <= f by {}
    }
    window::lemma_lead(m.conns, f);
    assert(window::effective(m.conns[k]) == m.conns[k].frontier);
    assert(m.conns[k].frontier <= f);
}

} // verus!
