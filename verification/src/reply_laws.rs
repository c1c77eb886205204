//! The laws of windowed conversation: a node that answers what it received is
//! never late, what it received comes before all that is sealed later, and
//! windows go on moving while anything is under way.

use vstd::prelude::*;

use crate::broker;
use crate::broker::BrokerModel;
use crate::fault;
use crate::fault::TailSource;
use crate::netcore;
use crate::netcore::{CoreModel, PendingView, SendResult};
use crate::run_laws;
use crate::run_laws::Happening;
use crate::window;
use crate::window::{SendView, SeqModel, INFINITY};
use crate::window_laws;
use crate::wire::{FromBrokerView, ToBrokerView};

verus! {

// ---------------------------------------------------------------------------
// What sealing hands out
// ---------------------------------------------------------------------------

proof fn lemma_part_from(s: Seq<SendView>, h: u64, want: bool, i: int)
    requires
        0 <= i < window::part(s, h, want).len(),
    ensures
        s.contains(window::part(s, h, want)[i]),
    decreases s.len(),
{
    let t = s.drop_last();
    let p = window::part(t, h, want);
    if i < p.len() {
        lemma_part_from(t, h, want, i);
        let j = choose|j: int| 0 <= j < t.len() && t[j] == p[i];
        assert(s[j] == p[i]);
    } else {
        assert(s[s.len() - 1] == window::part(s, h, want)[i]);
    }
}

proof fn lemma_part_has(s: Seq<SendView>, h: u64, i: int)
    requires
        0 <= i < s.len(),
        window::below(s[i], h),
    ensures
        window::part(s, h, true).len() > 0,
    decreases s.len(),
{
    if i < s.len() - 1 {
        lemma_part_has(s.drop_last(), h, i);
    }
}

/// What sealing hands out was buffered.
proof fn lemma_output_from(s: SeqModel, h: u64, i: int)
    requires
        0 <= i < window::output_below(s, h).len(),
    ensures
        s.pending.contains(window::output_below(s, h)[i]),
{
    let p = window::part(s.pending, h, true);
    let o = window::output_below(s, h);
    window_laws::law_sort_sorts(p);
    p.to_multiset_ensures();
    o.to_multiset_ensures();
    assert(o.contains(o[i]));
    assert(p.to_multiset().count(o[i]) > 0);
    let j = choose|j: int| 0 <= j < p.len() && p[j] == o[i];
    lemma_part_from(s.pending, h, true, j);
}

proof fn lemma_send_ok(
    c: CoreModel,
    x: SendView,
    tail: u64,
)
    requires
        netcore::core_ok(c),
        c.sent < u64::MAX,
    ensures
        netcore::core_ok(netcore::core_send(c, x.src, x.dst, x.payload, x.local_vt, tail)),
{
    let n = netcore::core_send(c, x.src, x.dst, x.payload, x.local_vt, tail);
    match netcore::send_answer(c, x.src, x.dst, x.payload.len(), x.local_vt, tail) {
        SendResult::Enqueued { to_conn, deliv_ns, tie } => {
            let p = PendingView {
                deliv: deliv_ns,
                tie,
                src: x.src,
                dst: x.dst,
                payload: x.payload,
            };
            if c.queues.contains_key(to_conn) {
                netcore::lemma_enqueue(c.queues[to_conn], p, tie);
            }
            assert forall|k: u64| #[trigger] n.queues.contains_key(k) implies netcore::in_order(
                n.queues[k],
            ) && netcore::ties_below(n.queues[k], n.tie) by {
                assert(c.queues.contains_key(k));
                if k != to_conn {
                    assert(netcore::ties_below(c.queues[k], c.tie));
                }
            }
        },
        _ => {
            assert(n.queues == c.queues);
        },
    }
}

/// What sealing feeds to the core is delivered by the least delay behind the
/// time of its send, and what waited before still does.
#[verifier::spinoff_prover]
proof fn lemma_fed<T: TailSource>(c: CoreModel, ops: Seq<SendView>, tails: T, conn: u64, floor: u64)
    requires
        netcore::core_ok(c),
        c.sent + ops.len() <= u64::MAX,
        forall|i: int| 0 <= i < ops.len() ==> floor <= (#[trigger] ops[i]).local_vt,
    ensures
        ({
            let n = broker::fed(c, ops, tails).0;
            let soonest = netcore::capped(floor, fault::least_delay(c.model.latency));
            &&& netcore::core_ok(n)
            &&& n.model == c.model
            &&& n.sent == c.sent + ops.len()
            &&& n.queues.contains_key(conn) == c.queues.contains_key(conn)
            &&& c.queues.contains_key(conn) ==> {
                &&& forall|i: int|
                    0 <= i < n.queues[conn].len() ==> c.queues[conn].contains(
                        #[trigger] n.queues[conn][i],
                    ) || soonest <= n.queues[conn][i].deliv
                &&& forall|i: int|
                    0 <= i < c.queues[conn].len() ==> n.queues[conn].contains(
                        #[trigger] c.queues[conn][i],
                    )
            }
        }),
    decreases ops.len(),
{
    if ops.len() > 0 {
        lemma_fed(c, ops.drop_last(), tails, conn, floor);
        let k = broker::fed(c, ops.drop_last(), tails).0;
        let x = ops.last();
        assert(floor <= ops[ops.len() - 1].local_vt);
        let tail = netcore::tail_for(k, x.src, x.dst, tails);
        let n = netcore::core_send(k, x.src, x.dst, x.payload, x.local_vt, tail);
        lemma_send_ok(k, x, tail);
        fault::law_lookahead(
            k.model,
            x.src,
            x.dst,
            netcore::next_seq(k, x.src, x.dst),
            x.payload.len(),
            tail,
        );
        if let SendResult::Enqueued { to_conn, deliv_ns, tie } = netcore::send_answer(
            k,
            x.src,
            x.dst,
            x.payload.len(),
            x.local_vt,
            tail,
        ) {
            if to_conn == conn && k.queues.contains_key(conn) {
                let p = PendingView {
                    deliv: deliv_ns,
                    tie,
                    src: x.src,
                    dst: x.dst,
                    payload: x.payload,
                };
                netcore::lemma_enqueue(k.queues[conn], p, tie);
                assert(n.queues[conn] == netcore::enqueue(k.queues[conn], p));
                assert forall|i: int| 0 <= i < n.queues[conn].len() implies c.queues[conn].contains(
                    #[trigger] n.queues[conn][i],
                ) || netcore::capped(floor, fault::least_delay(c.model.latency))
                    <= n.queues[conn][i].deliv by {
                    let y = n.queues[conn][i];
                    if y != p {
                        let j = choose|j: int|
                            0 <= j < k.queues[conn].len() && k.queues[conn][j] == y;
                        assert(c.queues[conn].contains(k.queues[conn][j]) || netcore::capped(
                            floor,
                            fault::least_delay(c.model.latency),
                        ) <= k.queues[conn][j].deliv);
                    }
                }
                assert forall|i: int|
                    0 <= i < c.queues[conn].len() implies n.queues[conn].contains(
                    #[trigger] c.queues[conn][i],
                ) by {
                    assert(k.queues[conn].contains(c.queues[conn][i]));
                }
            }
        }
    } else {
        if c.queues.contains_key(conn) {
            let q = c.queues[conn];
            assert forall|i: int| 0 <= i < q.len() implies q.contains(#[trigger] q[i]) by {}
        }
    }
}

// ---------------------------------------------------------------------------
// Nobody is overtaken
// ---------------------------------------------------------------------------

/// A time short of infinity is not in a sealed window.
pub open spec fn kept(h: u64, t: u64) -> bool {
    t < INFINITY ==> !window::passed(h, t)
}

/// No window is sealed in which the connection can still send: not that of its
/// own clock, and while it waits in a blocking receive, not that of any
/// datagram that can wake it. Holds of a connection that has not joined, or
/// has ended.
pub open spec fn in_time(m: BrokerModel, conn: u64) -> bool {
    m.seq is Some && m.seq.unwrap().conns.contains_key(conn) && m.seq.unwrap().conns[conn].live
        ==> {
        let c = m.seq.unwrap().conns[conn];
        let h = m.seq.unwrap().horizon;
        if c.blocked {
            m.core.queues.contains_key(conn) ==> forall|i: int|
                0 <= i < m.core.queues[conn].len() ==> kept(
                    h,
                    window::later(c.frontier, (#[trigger] m.core.queues[conn][i]).deliv),
                )
        } else {
            kept(h, c.frontier)
        }
    }
}

proof fn lemma_rounded(width: u64, f: u64)
    requires
        width > 0,
    ensures
        f < INFINITY ==> window::rounded(width, f) <= f < window::rounded(width, f) + width,
{
    if f < INFINITY {
        let q = f as int / width as int;
        assert(q * width <= f < q * width + width && 0 <= q * width) by (nonlinear_arith)
            requires
                q == f as int / width as int,
                width > 0,
                f >= 0,
        ;
    }
}

/// Sealing overtakes nobody.
#[verifier::spinoff_prover]
#[verifier::rlimit(40)]
proof fn lemma_seal_in_time<T: TailSource>(m: BrokerModel, tails: T, conn: u64)
    requires
        m.seq is Some,
        broker::broker_ok(m),
        m.core.sent + broker::buffered(m) <= u64::MAX,
        in_time(m, conn),
    ensures
        ({
            let n = broker::sealed_and_fed(m, tails).0;
            &&& n.seq is Some
            &&& n.seq.unwrap().conns == m.seq.unwrap().conns
            &&& n.seq.unwrap().horizon >= m.seq.unwrap().horizon
            &&& n.core.model == m.core.model
            &&& broker::broker_ok(n)
            &&& in_time(n, conn)
        }),
{
    let s = m.seq.unwrap();
    let n = broker::sealed_and_fed(m, tails).0;
    if broker::joined(m) {
        let h = broker::next_horizon(m);
        let stir = broker::stirs_at(m.core, s);
        let bound = broker::seal_bound(m.core, s);
        let ops = window::output_below(s, h);
        broker::lemma_stir_exists(m.core, s);
        broker::lemma_bound_exists(m.core, s);
        broker::lemma_seal_len(s, h);
        lemma_rounded(s.width, bound);
        assert forall|i: int| 0 <= i < ops.len() implies stir <= (#[trigger] ops[i]).local_vt by {
            lemma_output_from(s, h, i);
            let j = choose|j: int| 0 <= j < s.pending.len() && s.pending[j] == ops[i];
            assert(stir <= s.pending[j].local_vt);
        }
        lemma_fed(m.core, ops, tails, conn, stir);
        window::lemma_part_sides(s.pending, h);
        assert(broker::broker_ok(n));
        if h > s.horizon && s.conns.contains_key(conn) && s.conns[conn].live {
            let c = s.conns[conn];
            assert(bound <= broker::speaks_at(m.core, s, conn));
            if c.blocked && m.core.queues.contains_key(conn) {
                let q = m.core.queues[conn];
                let r = n.core.queues[conn];
                assert forall|i: int| 0 <= i < r.len() implies kept(
                    h,
                    window::later(c.frontier, (#[trigger] r[i]).deliv),
                ) by {
                    if q.contains(r[i]) {
                        let j = choose|j: int| 0 <= j < q.len() && q[j] == r[i];
                        assert(netcore::in_order(q));
                        if j < q.len() - 1 {
                            assert(netcore::sooner(q[q.len() - 1], q[j]));
                        }
                        assert(netcore::due_at(m.core, conn) <= q[j].deliv);
                    } else {
                        lemma_new_one(m, tails, conn, i);
                    }
                }
            }
        }
    }
}

/// A datagram that a seal brings lies at or behind what it counted with.
proof fn lemma_new_one<T: TailSource>(m: BrokerModel, tails: T, conn: u64, i: int)
    requires
        m.seq is Some,
        broker::joined(m),
        broker::broker_ok(m),
        m.core.sent + broker::buffered(m) <= u64::MAX,
        m.core.queues.contains_key(conn),
        0 <= i < broker::sealed_and_fed(m, tails).0.core.queues[conn].len(),
        !m.core.queues[conn].contains(broker::sealed_and_fed(m, tails).0.core.queues[conn][i]),
    ensures
        ({
            let s = m.seq.unwrap();
            let stir = broker::stirs_at(m.core, s);
            let d = broker::sealed_and_fed(m, tails).0.core.queues[conn][i].deliv;
            d < INFINITY ==> stir < INFINITY && broker::reached(
                stir,
                fault::least_delay(m.core.model.latency),
            ) <= d
        }),
{
    let s = m.seq.unwrap();
    let h = broker::next_horizon(m);
    let ops = window::output_below(s, h);
    let stir = broker::stirs_at(m.core, s);
    broker::lemma_stir_exists(m.core, s);
    broker::lemma_seal_len(s, h);
    assert forall|j: int| 0 <= j < ops.len() implies stir <= (#[trigger] ops[j]).local_vt by {
        lemma_output_from(s, h, j);
        let l = choose|l: int| 0 <= l < s.pending.len() && s.pending[l] == ops[j];
        assert(stir <= s.pending[l].local_vt);
    }
    lemma_fed(m.core, ops, tails, conn, stir);
    let r = broker::fed(m.core, ops, tails).0.queues[conn];
    assert(netcore::capped(stir, fault::least_delay(m.core.model.latency)) <= r[i].deliv);
}

/// A clock that moves on, a receive that blocks and a queue that shrinks leave
/// a connection in time.
proof fn lemma_forward(m: BrokerModel, n: BrokerModel, conn: u64)
    requires
        in_time(m, conn),
        m.seq is Some,
        n.seq is Some,
        n.seq.unwrap().horizon == m.seq.unwrap().horizon,
        n.seq.unwrap().conns.contains_key(conn) && n.seq.unwrap().conns[conn].live ==> {
            let c = m.seq.unwrap().conns[conn];
            let d = n.seq.unwrap().conns[conn];
            &&& m.seq.unwrap().conns.contains_key(conn)
            &&& c.live
            &&& c.frontier <= d.frontier
            &&& c.blocked ==> d.blocked
            &&& !d.blocked ==> d.frontier == c.frontier || kept(
                n.seq.unwrap().horizon,
                d.frontier,
            )
        },
        n.core.queues.contains_key(conn) ==> {
            ||| n.core.queues[conn].len() == 0
            ||| m.core.queues.contains_key(conn) && n.core.queues[conn] == m.core.queues[conn]
            ||| m.core.queues.contains_key(conn) && m.core.queues[conn].len() > 0
                && n.core.queues[conn] == m.core.queues[conn].drop_last()
        },
    ensures
        in_time(n, conn),
{
    if n.seq.unwrap().conns.contains_key(conn) && n.seq.unwrap().conns[conn].live {
        let c = m.seq.unwrap().conns[conn];
        let d = n.seq.unwrap().conns[conn];
        let h = n.seq.unwrap().horizon;
        if d.blocked && n.core.queues.contains_key(conn) {
            assert forall|i: int| 0 <= i < n.core.queues[conn].len() implies kept(
                h,
                window::later(d.frontier, (#[trigger] n.core.queues[conn][i]).deliv),
            ) by {
                assert(n.core.queues[conn][i] == m.core.queues[conn][i]);
                if c.blocked {
                    assert(kept(h, window::later(c.frontier, m.core.queues[conn][i].deliv)));
                }
            }
        }
    }
}

/// A receive as it stands once its own clock is told: before anything is
/// sealed.
spec fn asked(m: BrokerModel, conn: u64, blocking: bool, local_vt: u64) -> BrokerModel {
    let k = broker::skewed(m, local_vt);
    BrokerModel {
        seq: Some(
            if blocking {
                window::seq_blocked(k.seq.unwrap(), conn, local_vt)
            } else {
                window::seq_touched(k.seq.unwrap(), conn, local_vt)
            },
        ),
        ..k
    }
}

proof fn lemma_asked_in_time(m: BrokerModel, asker: u64, blocking: bool, local_vt: u64, conn: u64)
    requires
        m.seq is Some,
        in_time(m, conn),
    ensures
        in_time(asked(m, asker, blocking, local_vt), conn),
{
    let n = asked(m, asker, blocking, local_vt);
    let s = m.seq.unwrap();
    if conn == asker && s.conns.contains_key(conn) && s.conns[conn].live {
        let c = s.conns[conn];
        assert(!c.blocked ==> kept(s.horizon, c.frontier));
        assert(!c.blocked ==> kept(s.horizon, window::later(c.frontier, local_vt)));
    }
    lemma_forward(m, n, conn);
}

/// A node that is answered in a blocking receive can send from the time of the
/// delivery on: merging that time into its clock, it is never late, whatever
/// was sealed while it waited.
pub proof fn law_reply_is_admitted<T: TailSource>(
    m: BrokerModel,
    conn: u64,
    local_vt: u64,
    tails: T,
    t: u64,
)
    requires
        m.seq is Some,
        broker::broker_ok(m),
        broker::room(m, conn),
        m.seq.unwrap().conns.contains_key(conn),
        m.seq.unwrap().conns[conn].live,
        in_time(m, conn),
        local_vt < INFINITY,
        m.seq.unwrap().conns[conn].frontier < INFINITY,
        broker::on_windowed_recv(m, conn, true, local_vt, tails).1.reply matches Some(
            FromBrokerView::Deliver { vt: d, .. },
        ) && t >= d,
        t >= local_vt,
        t >= m.seq.unwrap().conns[conn].frontier,
    ensures
        window::admit_answer(
            broker::on_windowed_recv(m, conn, true, local_vt, tails).0.seq.unwrap(),
            conn,
            t,
        ) is Ok,
{
    let told = asked(m, conn, true, local_vt);
    lemma_asked_in_time(m, conn, true, local_vt, conn);
    lemma_seal_in_time(told, tails, conn);
    let f = broker::sealed_and_fed(told, tails).0;
    let q = f.core.queues[conn];
    assert(kept(
        f.seq.unwrap().horizon,
        window::later(told.seq.unwrap().conns[conn].frontier, q[q.len() - 1].deliv),
    ));
}

/// A node that does not wait can send from its own clock on.
pub proof fn law_open_node_is_admitted(m: BrokerModel, conn: u64, t: u64)
    requires
        m.seq is Some,
        m.seq.unwrap().conns.contains_key(conn),
        m.seq.unwrap().conns[conn].live,
        !m.seq.unwrap().conns[conn].blocked,
        in_time(m, conn),
        m.seq.unwrap().conns[conn].frontier < INFINITY,
        t >= m.seq.unwrap().conns[conn].frontier,
    ensures
        window::admit_answer(m.seq.unwrap(), conn, t) is Ok,
{
}

/// A connection that joins before anything is sealed is in time.
pub proof fn law_joins_in_time(m: BrokerModel, conn: u64, node_id: u32, host_id: u32)
    requires
        m.seq is Some,
        m.seq.unwrap().horizon == 0,
    ensures
        in_time(broker::on_hello(m, conn, node_id, host_id).0, conn),
{
}

/// Whether something that happens lets a connection join.
pub open spec fn joining(h: Happening, conn: u64) -> bool {
    h matches Happening::Message { conn: c, msg: ToBrokerView::Hello { .. } } && c == conn
}

/// Whatever happens, a connection stays in time, unless it joins anew.
#[verifier::spinoff_prover]
#[verifier::rlimit(60)]
pub proof fn law_stays_in_time<T: TailSource>(m: BrokerModel, h: Happening, tails: T, conn: u64)
    requires
        m.seq is Some,
        broker::broker_ok(m),
        m.core.sent + broker::buffered(m) < u64::MAX,
        in_time(m, conn),
        !joining(h, conn),
    ensures
        run_laws::happened(m, h, tails).0.seq is Some,
        broker::broker_ok(run_laws::happened(m, h, tails).0),
        in_time(run_laws::happened(m, h, tails).0, conn),
{
    let n = run_laws::happened(m, h, tails).0;
    match h {
        Happening::Connect { conn: c } => {
            lemma_forward(m, n, conn);
        },
        Happening::Message { conn: c, msg } => {
            lemma_message_in_time(m, c, msg, tails, conn);
        },
        Happening::Poll { conn: c, .. } => {
            lemma_taken_ok(m.core, c, None);
            lemma_forward(m, n, conn);
        },
        Happening::Disconnect { conn: c } => {
            let gone = netcore::core_disconnect(m.core, c);
            assert(netcore::core_ok(gone)) by {
                assert forall|k: u64| #[trigger] gone.queues.contains_key(k) implies netcore::in_order(
                    gone.queues[k],
                ) && netcore::ties_below(gone.queues[k], gone.tie) by {
                    assert(m.core.queues.contains_key(k));
                }
            }
            let judged = if m.hello.contains(c) && !m.goodbye.contains(c) {
                broker::latched(m, broker::crash_text(c))
            } else {
                m
            };
            let k = BrokerModel {
                core: gone,
                live: if m.live > 0 {
                    (m.live - 1) as u64
                } else {
                    0
                },
                seq: Some(window::seq_closed(m.seq.unwrap(), c)),
                ..judged
            };
            lemma_forward(m, k, conn);
            lemma_seal_in_time(k, tails, conn);
            assert(n == broker::sealed_and_fed(k, tails).0);
        },
    }
}

proof fn lemma_taken_ok(c: CoreModel, conn: u64, bound: Option<u64>)
    requires
        netcore::core_ok(c),
    ensures
        netcore::core_ok(netcore::core_recv(c, conn, bound)),
{
    let n = netcore::core_recv(c, conn, bound);
    assert forall|k: u64| #[trigger] n.queues.contains_key(k) implies netcore::in_order(n.queues[k])
        && netcore::ties_below(n.queues[k], n.tie) by {
        assert(c.queues.contains_key(k));
        assert(netcore::in_order(c.queues[k]));
        assert(netcore::ties_below(c.queues[k], c.tie));
    }
}

#[verifier::spinoff_prover]
#[verifier::rlimit(60)]
proof fn lemma_message_in_time<T: TailSource>(
    m: BrokerModel,
    c: u64,
    msg: ToBrokerView,
    tails: T,
    conn: u64,
)
    requires
        m.seq is Some,
        broker::broker_ok(m),
        m.core.sent + broker::buffered(m) < u64::MAX,
        in_time(m, conn),
        !(msg is Hello && c == conn),
    ensures
        broker::on_message(m, c, msg, tails).0.seq is Some,
        broker::broker_ok(broker::on_message(m, c, msg, tails).0),
        in_time(broker::on_message(m, c, msg, tails).0, conn),
{
    let n = broker::on_message(m, c, msg, tails).0;
    let s = m.seq.unwrap();
    match msg {
        ToBrokerView::Send { src, dst, payload, local_vt } => {
            let k = broker::skewed(m, local_vt);
            if window::admit_answer(s, c, local_vt) is Ok {
                let a = BrokerModel {
                    seq: Some(window::seq_admitted(s, c, local_vt, src, dst, payload)),
                    ..k
                };
                let b = broker::counted(a);
                assert(b.core == m.core && b.seq == a.seq);
                lemma_forward(m, b, conn);
                assert(window::none_late(a.seq.unwrap().pending, s.horizon));
                lemma_seal_in_time(b, tails, conn);
            } else {
                lemma_forward(m, n, conn);
            }
        },
        ToBrokerView::Recv { addr, blocking, local_vt } => {
            lemma_recv_in_time(m, c, blocking, local_vt, tails, conn);
        },
        ToBrokerView::Frontier { local_vt } => {
            let k = broker::skewed(m, local_vt);
            if window::frontier_answer(s, c, local_vt) is Ok {
                let a = BrokerModel { seq: Some(window::seq_declared(s, c, local_vt)), ..k };
                lemma_forward(m, a, conn);
                lemma_seal_in_time(a, tails, conn);
            } else {
                lemma_forward(m, n, conn);
            }
        },
        _ => {
            lemma_forward(m, n, conn);
        },
    }
}

#[verifier::spinoff_prover]
#[verifier::rlimit(60)]
proof fn lemma_recv_in_time<T: TailSource>(
    m: BrokerModel,
    c: u64,
    blocking: bool,
    local_vt: u64,
    tails: T,
    conn: u64,
)
    requires
        m.seq is Some,
        broker::broker_ok(m),
        m.core.sent + broker::buffered(m) < u64::MAX,
        in_time(m, conn),
    ensures
        broker::on_windowed_recv(m, c, blocking, local_vt, tails).0.seq is Some,
        broker::broker_ok(broker::on_windowed_recv(m, c, blocking, local_vt, tails).0),
        in_time(broker::on_windowed_recv(m, c, blocking, local_vt, tails).0, conn),
{
    let n = broker::on_windowed_recv(m, c, blocking, local_vt, tails).0;
    let told = asked(m, c, blocking, local_vt);
    lemma_asked_in_time(m, c, blocking, local_vt, conn);
    lemma_seal_in_time(told, tails, conn);
    let f = broker::sealed_and_fed(told, tails).0;
    let horizon = broker::pop_horizon(f);
    let bound = if blocking || horizon < local_vt {
        horizon
    } else {
        local_vt
    };
    lemma_taken_ok(f.core, c, Some(bound));
    let s = f.seq.unwrap();
    if netcore::recv_answer(f.core, c, Some(bound)) is Some && c == conn && s.conns.contains_key(
        conn,
    ) && s.conns[conn].live && s.conns[conn].blocked {
        let q = f.core.queues[conn];
        assert(kept(s.horizon, window::later(s.conns[conn].frontier, q[q.len() - 1].deliv)));
    } else {
        lemma_forward(f, n, conn);
    }
}

/// The counters have room for one send more all along a run.
pub open spec fn roomy<T: TailSource>(m: BrokerModel, hs: Seq<Happening>, tails: T) -> bool {
    forall|i: int|
        0 <= i < hs.len() ==> {
            let k = (#[trigger] run_laws::ran(m, hs, tails, i)).0;
            k.core.sent + broker::buffered(k) < u64::MAX
        }
}

/// A connection is in time all along a run in which it does not join anew.
pub proof fn law_run_in_time<T: TailSource>(
    m: BrokerModel,
    hs: Seq<Happening>,
    tails: T,
    conn: u64,
    n: int,
)
    requires
        m.seq is Some,
        broker::broker_ok(m),
        roomy(m, hs, tails),
        in_time(m, conn),
        forall|i: int| 0 <= i < hs.len() ==> !joining(#[trigger] hs[i], conn),
        0 <= n <= hs.len(),
    ensures
        run_laws::ran(m, hs, tails, n).0.seq is Some,
        broker::broker_ok(run_laws::ran(m, hs, tails, n).0),
        in_time(run_laws::ran(m, hs, tails, n).0, conn),
    decreases n,
{
    if n > 0 {
        law_run_in_time(m, hs, tails, conn, n - 1);
        law_stays_in_time(run_laws::ran(m, hs, tails, n - 1).0, hs[n - 1], tails, conn);
    }
}

// ---------------------------------------------------------------------------
// Deliveries are final, and there is always a next one
// ---------------------------------------------------------------------------

/// What is not sealed yet is delivered at or behind the pop horizon: nothing
/// that comes later goes before what can be received now.
pub proof fn law_later_comes_later(m: BrokerModel, x: SendView, tail: u64)
    requires
        m.seq is Some,
        !window::below(x, m.seq.unwrap().horizon),
    ensures
        netcore::send_answer(
            m.core,
            x.src,
            x.dst,
            x.payload.len(),
            x.local_vt,
            tail,
        ) matches SendResult::Enqueued { deliv_ns, .. } ==> deliv_ns >= broker::pop_horizon(m),
{
    fault::law_lookahead(
        m.core.model,
        x.src,
        x.dst,
        netcore::next_seq(m.core, x.src, x.dst),
        x.payload.len(),
        tail,
    );
}

/// Sealing puts off no delivery.
proof fn lemma_seal_due<T: TailSource>(m: BrokerModel, tails: T, conn: u64)
    requires
        m.seq is Some,
        broker::broker_ok(m),
        m.core.sent + broker::buffered(m) <= u64::MAX,
    ensures
        netcore::due_at(broker::sealed_and_fed(m, tails).0.core, conn) <= netcore::due_at(
            m.core,
            conn,
        ),
        broker::pop_horizon(broker::sealed_and_fed(m, tails).0) >= broker::pop_horizon(m),
{
    if broker::joined(m) {
        let s = m.seq.unwrap();
        let h = broker::next_horizon(m);
        let ops = window::output_below(s, h);
        broker::lemma_seal_len(s, h);
        lemma_fed(m.core, ops, tails, conn, 0);
        let n = broker::fed(m.core, ops, tails).0;
        if m.core.queues.contains_key(conn) && m.core.queues[conn].len() > 0 {
            let q = m.core.queues[conn];
            let r = n.queues[conn];
            assert(r.contains(q[q.len() - 1]));
            let j = choose|j: int| 0 <= j < r.len() && r[j] == q[q.len() - 1];
            assert(netcore::in_order(r));
            if j < r.len() - 1 {
                assert(netcore::sooner(r[r.len() - 1], r[j]));
            }
        }
    }
}

/// A datagram that is due below the pop horizon is handed out by the next
/// blocking receive.
pub proof fn law_due_is_delivered<T: TailSource>(
    m: BrokerModel,
    conn: u64,
    local_vt: u64,
    tails: T,
)
    requires
        m.seq is Some,
        broker::broker_ok(m),
        broker::room(m, conn),
        netcore::due_at(m.core, conn) < broker::pop_horizon(m),
    ensures
        broker::on_windowed_recv(m, conn, true, local_vt, tails).1.reply matches Some(
            FromBrokerView::Deliver { .. },
        ),
{
    lemma_seal_due(asked(m, conn, true, local_vt), tails, conn);
}

/// While every node waits in a blocking receive, or polls at `t` or later, and
/// something is under way, windows move: with a least delay of a window or
/// more, sealing hands out a send, or leaves a datagram that a node that waits
/// can receive, or makes the answer to a poll at `t` final. (Where no node
/// polls, `t` may be infinite, which leaves the first two.)
#[verifier::spinoff_prover]
#[verifier::rlimit(40)]
pub proof fn law_windows_move<T: TailSource>(m: BrokerModel, tails: T, t: u64)
    requires
        m.seq is Some,
        broker::broker_ok(m),
        m.core.sent + broker::buffered(m) <= u64::MAX,
        broker::joined(m),
        fault::least_delay(m.core.model.latency) >= m.seq.unwrap().width,
        waiting_or_past(m.seq.unwrap(), t),
        broker::stirs_at(m.core, m.seq.unwrap()) + fault::least_delay(m.core.model.latency)
            < INFINITY,
    ensures
        ({
            let (n, events) = broker::sealed_and_fed(m, tails);
            ||| events.len() > 0
            ||| receivable(n)
            ||| broker::pop_horizon(n) > t
        }),
{
    let s = m.seq.unwrap();
    let delay = fault::least_delay(m.core.model.latency);
    let stir = broker::stirs_at(m.core, s);
    let bound = broker::seal_bound(m.core, s);
    let h = broker::next_horizon(m);
    let ops = window::output_below(s, h);
    let (n, events) = broker::sealed_and_fed(m, tails);
    broker::lemma_stir_exists(m.core, s);
    broker::lemma_bound_exists(m.core, s);
    broker::lemma_seal_len(s, h);
    broker::lemma_fed_sent(m.core, ops, tails);
    lemma_rounded(s.width, bound);
    if ops.len() == 0 {
        assert(n.core == m.core);
        assert(n.seq.unwrap().conns == s.conns);
        assert(h <= n.seq.unwrap().horizon);
        if bound != INFINITY {
            let k = choose|k: u64| #[trigger]
                s.conns.contains_key(k) && broker::speaks_at(m.core, s, k) == bound;
            assert(s.conns[k].live);
            if !s.conns[k].blocked {
                assert(bound >= t);
            } else if netcore::due_at(m.core, k) <= bound {
                assert(n.seq.unwrap().conns.contains_key(k));
            } else {
                assert(bound >= stir + delay);
                assert(h > stir);
                lemma_stirred(m, tails, t);
            }
        } else {
            lemma_stirred(m, tails, t);
        }
    }
}

/// Every connection that runs waits in a blocking receive, or its clock is at
/// `t` or later.
pub open spec fn waiting_or_past(s: SeqModel, t: u64) -> bool {
    forall|k: u64| #[trigger]
        s.conns.contains_key(k) && s.conns[k].live ==> s.conns[k].blocked || s.conns[k].frontier
            >= t
}

/// A connection waits for a datagram that can be received.
pub open spec fn receivable(m: BrokerModel) -> bool {
    exists|k: u64| #[trigger]
        m.seq.unwrap().conns.contains_key(k) && m.seq.unwrap().conns[k].live
            && m.seq.unwrap().conns[k].blocked && netcore::due_at(m.core, k)
            < broker::pop_horizon(m)
}

/// Where the horizon moves past the earliest stir, a send is handed out, or the
/// node that it wakes can receive, or it is the clock of a poll.
proof fn lemma_stirred<T: TailSource>(m: BrokerModel, tails: T, t: u64)
    requires
        m.seq is Some,
        broker::broker_ok(m),
        broker::joined(m),
        waiting_or_past(m.seq.unwrap(), t),
        broker::stirs_at(m.core, m.seq.unwrap()) < INFINITY,
        broker::next_horizon(m) > broker::stirs_at(m.core, m.seq.unwrap()),
        window::output_below(m.seq.unwrap(), broker::next_horizon(m)).len() == 0,
    ensures
        receivable(broker::sealed_and_fed(m, tails).0) || broker::pop_horizon(
            broker::sealed_and_fed(m, tails).0,
        ) > t,
{
    let s = m.seq.unwrap();
    let stir = broker::stirs_at(m.core, s);
    let h = broker::next_horizon(m);
    let n = broker::sealed_and_fed(m, tails).0;
    broker::lemma_stir_exists(m.core, s);
    if exists|i: int| 0 <= i < s.pending.len() && (#[trigger] s.pending[i]).local_vt == stir {
        let i = choose|i: int| 0 <= i < s.pending.len() && (#[trigger] s.pending[i]).local_vt == stir;
        assert(!window::below(s.pending[i], s.horizon));
        lemma_part_has(s.pending, h, i);
        window_laws::law_sort_sorts(window::part(s.pending, h, true));
        broker::lemma_seal_len(s, h);
        assert(false);
    } else {
        let k = choose|k: u64| #[trigger]
            s.conns.contains_key(k) && broker::wakes_at(m.core, k, s.conns[k]) == stir;
        assert(s.conns[k].live);
        if s.conns[k].blocked {
            assert(n.seq.unwrap().conns.contains_key(k));
            assert(netcore::due_at(n.core, k) <= stir);
        }
    }
}

} // verus!
