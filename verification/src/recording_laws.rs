//! The laws of the windowed recording: what is recorded of a run are the sends
//! that were admitted, sorted, whatever order they came in and however often
//! windows were sealed.

use vstd::prelude::*;

use crate::broker;
use crate::broker::{BrokerModel, ObservedView};
use crate::fault::{ModelView, TailSource};
use crate::netcore;
use crate::netcore::CoreModel;
use crate::run_laws;
use crate::run_laws::Happening;
use crate::window;
use crate::window::{SendView, SeqModel};
use crate::window_laws;
use crate::wire::{ToBrokerView, VAddr};

verus! {

// ---------------------------------------------------------------------------
// What is recorded of sends
// ---------------------------------------------------------------------------

/// What a recording says of a send, but for its fate.
pub struct Told {
    pub conn: u64,
    pub src: VAddr,
    pub dst: VAddr,
    pub send_vt: u64,
    pub payload: Seq<u8>,
}

pub open spec fn told(x: SendView) -> Told {
    Told { conn: x.conn, src: x.src, dst: x.dst, send_vt: x.local_vt, payload: x.payload }
}

pub open spec fn all_told(s: Seq<SendView>) -> Seq<Told> {
    s.map_values(|x: SendView| told(x))
}

/// The sends among what was observed.
pub open spec fn sends_in(seen: Seq<(u64, ObservedView)>) -> Seq<Told>
    decreases seen.len(),
{
    if seen.len() == 0 {
        Seq::empty()
    } else {
        let r = sends_in(seen.drop_last());
        match seen.last().1 {
            ObservedView::Send { conn, src, dst, send_vt, payload, .. } => r.push(
                Told { conn, src, dst, send_vt, payload },
            ),
            _ => r,
        }
    }
}

/// The send that a happening lets in.
pub open spec fn let_in(m: BrokerModel, h: Happening) -> Option<SendView> {
    match h {
        Happening::Message { conn, msg: ToBrokerView::Send { src, dst, payload, local_vt } } => {
            let s = m.seq.unwrap();
            if m.seq is Some && window::admit_answer(s, conn, local_vt) is Ok {
                Some(window::seq_admitted(s, conn, local_vt, src, dst, payload).pending.last())
            } else {
                None
            }
        },
        _ => None,
    }
}

/// The sends that the first `n` happenings of a run let in, as they came.
pub open spec fn arrivals<T: TailSource>(
    m: BrokerModel,
    hs: Seq<Happening>,
    tails: T,
    n: int,
) -> Seq<SendView>
    decreases n,
{
    if n <= 0 {
        Seq::empty()
    } else {
        let before = arrivals(m, hs, tails, n - 1);
        match let_in(run_laws::ran(m, hs, tails, n - 1).0, hs[n - 1]) {
            Some(x) => before.push(x),
            None => before,
        }
    }
}

proof fn lemma_sends_both(a: Seq<(u64, ObservedView)>, b: Seq<(u64, ObservedView)>)
    ensures
        sends_in(a + b) == sends_in(a) + sends_in(b),
    decreases b.len(),
{
    if b.len() == 0 {
        assert(a + b =~= a);
        assert(sends_in(a) + sends_in(b) =~= sends_in(a));
    } else {
        lemma_sends_both(a, b.drop_last());
        assert((a + b).drop_last() =~= a + b.drop_last());
        assert(sends_in(a + b) =~= sends_in(a) + sends_in(b));
    }
}

/// What is fed is observed, one by one.
proof fn lemma_fed_told<T: TailSource>(c: CoreModel, ops: Seq<SendView>, tails: T)
    ensures
        sends_in(broker::fed(c, ops, tails).1) == all_told(ops),
    decreases ops.len(),
{
    if ops.len() == 0 {
        assert(all_told(ops) =~= Seq::<Told>::empty());
    } else {
        lemma_fed_told(c, ops.drop_last(), tails);
        let seen = broker::fed(c, ops, tails).1;
        assert(seen.drop_last() =~= broker::fed(c, ops.drop_last(), tails).1);
        assert(all_told(ops) =~= all_told(ops.drop_last()).push(told(ops.last())));
    }
}

// ---------------------------------------------------------------------------
// One happening
// ---------------------------------------------------------------------------

/// `n` is `m` with `more` buffered and everything below `g` sealed, of which
/// `seen` tells.
#[verifier::opaque]
spec fn moved(
    m: SeqModel,
    more: Option<SendView>,
    g: u64,
    n: SeqModel,
    seen: Seq<(u64, ObservedView)>,
) -> bool {
    let p = match more {
        Some(x) => m.pending.push(x),
        None => m.pending,
    };
    let b = SeqModel { pending: p, ..m };
    &&& n.pending == window::sealed_below(b, g).pending
    &&& n.horizon == window::sealed_below(b, g).horizon
    &&& sends_in(seen) == all_told(window::output_below(b, g))
}

/// A seal from `k`, whose buffer is that of `m` and `more`.
proof fn lemma_seal_moves<T: TailSource>(
    m: SeqModel,
    more: Option<SendView>,
    k: BrokerModel,
    tails: T,
) -> (g: u64)
    requires
        k.seq is Some,
        k.seq.unwrap().horizon == m.horizon,
        k.seq.unwrap().pending == (match more {
            Some(x) => m.pending.push(x),
            None => m.pending,
        }),
    ensures
        broker::sealed_and_fed(k, tails).0.seq is Some,
        moved(
            m,
            more,
            g,
            broker::sealed_and_fed(k, tails).0.seq.unwrap(),
            broker::sealed_and_fed(k, tails).1,
        ),
{
    reveal(moved);
    let s = k.seq.unwrap();
    if broker::joined(k) {
        let g = broker::next_horizon(k);
        lemma_fed_told(k.core, window::output_below(s, g), tails);
        g
    } else {
        assert(all_told(Seq::<SendView>::empty()) =~= Seq::<Told>::empty());
        0
    }
}

proof fn lemma_send_moves<T: TailSource>(
    m: BrokerModel,
    conn: u64,
    src: VAddr,
    dst: VAddr,
    payload: Seq<u8>,
    local_vt: u64,
    tails: T,
) -> (g: u64)
    requires
        m.seq is Some,
    ensures
        ({
            let msg = ToBrokerView::Send { src, dst, payload, local_vt };
            let (n, step) = broker::on_admitted(m, conn, src, dst, payload, local_vt, tails);
            &&& n.seq is Some
            &&& moved(
                m.seq.unwrap(),
                let_in(m, Happening::Message { conn, msg }),
                g,
                n.seq.unwrap(),
                step.events,
            )
        }),
{
    let s = m.seq.unwrap();
    let k = broker::skewed(m, local_vt);
    if window::admit_answer(s, conn, local_vt) is Ok {
        let a = BrokerModel {
            seq: Some(window::seq_admitted(s, conn, local_vt, src, dst, payload)),
            ..k
        };
        let x = a.seq.unwrap().pending.last();
        lemma_seal_moves(s, Some(x), broker::counted(a), tails)
    } else {
        lemma_still(s);
        0
    }
}

/// Nothing is sealed and nothing told.
proof fn lemma_still(s: SeqModel)
    ensures
        moved(s, None, 0, s, Seq::empty()),
{
    reveal(moved);
    assert(all_told(Seq::<SendView>::empty()) =~= Seq::<Told>::empty());
}

proof fn lemma_frontier_moves<T: TailSource>(m: BrokerModel, conn: u64, local_vt: u64, tails: T) -> (g:
    u64)
    requires
        m.seq is Some,
    ensures
        ({
            let (n, step) = broker::on_frontier(m, conn, local_vt, tails);
            &&& n.seq is Some
            &&& moved(m.seq.unwrap(), None, g, n.seq.unwrap(), step.events)
        }),
{
    let s = m.seq.unwrap();
    let k = broker::skewed(m, local_vt);
    if window::frontier_answer(s, conn, local_vt) is Ok {
        let a = BrokerModel { seq: Some(window::seq_declared(s, conn, local_vt)), ..k };
        lemma_seal_moves(s, None, a, tails)
    } else {
        lemma_still(s);
        0
    }
}

proof fn lemma_recv_moves<T: TailSource>(
    m: BrokerModel,
    conn: u64,
    blocking: bool,
    local_vt: u64,
    tails: T,
) -> (g: u64)
    requires
        m.seq is Some,
    ensures
        ({
            let (n, step) = broker::on_windowed_recv(m, conn, blocking, local_vt, tails);
            &&& n.seq is Some
            &&& moved(m.seq.unwrap(), None, g, n.seq.unwrap(), step.events)
        }),
{
    reveal(moved);
    let s = m.seq.unwrap();
    let k = broker::skewed(m, local_vt);
    let a = BrokerModel {
        seq: Some(
            if blocking {
                window::seq_blocked(s, conn, local_vt)
            } else {
                window::seq_touched(s, conn, local_vt)
            },
        ),
        ..k
    };
    let g = lemma_seal_moves(s, None, a, tails);
    let (n, step) = broker::on_windowed_recv(m, conn, blocking, local_vt, tails);
    let before = broker::sealed_and_fed(a, tails).1;
    assert(step.events.drop_last() =~= before);
    assert(sends_in(step.events) == sends_in(before));
    g
}

proof fn lemma_end_moves<T: TailSource>(m: BrokerModel, conn: u64, tails: T) -> (g: u64)
    requires
        m.seq is Some,
    ensures
        ({
            let (n, seen) = broker::on_disconnect(m, conn, tails);
            &&& n.seq is Some
            &&& moved(m.seq.unwrap(), None, g, n.seq.unwrap(), seen)
        }),
{
    reveal(moved);
    let s = m.seq.unwrap();
    let (n, seen) = broker::on_disconnect(m, conn, tails);
    let gone = BrokerModel {
        core: netcore::core_disconnect(m.core, conn),
        live: if m.live > 0 {
            (m.live - 1) as u64
        } else {
            0
        },
        ..m
    };
    let judged = if m.hello.contains(conn) && !m.goodbye.contains(conn) {
        broker::latched(gone, broker::crash_text(conn))
    } else {
        gone
    };
    let a = BrokerModel { seq: Some(window::seq_closed(s, conn)), ..judged };
    let g = lemma_seal_moves(s, None, a, tails);
    let before = broker::sealed_and_fed(a, tails).1;
    assert(seen.drop_last() =~= before);
    assert(sends_in(seen) == sends_in(before));
    g
}

proof fn lemma_quiet_moves(s: SeqModel, n: SeqModel, seen: Seq<(u64, ObservedView)>)
    requires
        seen.len() <= 1,
        seen.len() == 1 ==> !(seen[0].1 is Send),
        n.pending == s.pending,
        n.horizon == s.horizon,
    ensures
        moved(s, None, 0, n, seen),
{
    reveal(moved);
    lemma_one_not_sent(seen);
    assert(all_told(Seq::<SendView>::empty()) =~= Seq::<Told>::empty());
}

proof fn lemma_moved<T: TailSource>(m: BrokerModel, h: Happening, tails: T) -> (g: u64)
    requires
        m.seq is Some,
    ensures
        run_laws::happened(m, h, tails).0.seq is Some,
        moved(
            m.seq.unwrap(),
            let_in(m, h),
            g,
            run_laws::happened(m, h, tails).0.seq.unwrap(),
            run_laws::happened(m, h, tails).1,
        ),
{
    let (n, seen) = run_laws::happened(m, h, tails);
    match h {
        Happening::Message { conn, msg } => match msg {
            ToBrokerView::Send { src, dst, payload, local_vt } => {
                lemma_send_moves(m, conn, src, dst, payload, local_vt, tails)
            },
            ToBrokerView::Frontier { local_vt } => lemma_frontier_moves(m, conn, local_vt, tails),
            ToBrokerView::Recv { addr, blocking, local_vt } => {
                lemma_recv_moves(m, conn, blocking, local_vt, tails)
            },
            _ => {
                lemma_quiet_moves(m.seq.unwrap(), n.seq.unwrap(), seen);
                0
            },
        },
        Happening::Disconnect { conn } => lemma_end_moves(m, conn, tails),
        _ => {
            lemma_quiet_moves(m.seq.unwrap(), n.seq.unwrap(), seen);
            0
        },
    }
}

/// Where at most one thing was observed, and it is no send, none was.
proof fn lemma_one_not_sent(seen: Seq<(u64, ObservedView)>)
    requires
        seen.len() <= 1,
        seen.len() == 1 ==> !(seen[0].1 is Send),
    ensures
        sends_in(seen) == Seq::<Told>::empty(),
{
    if seen.len() == 1 {
        assert(seen.drop_last() =~= Seq::<(u64, ObservedView)>::empty());
        assert(sends_in(seen.drop_last()) =~= Seq::<Told>::empty());
    }
}

// ---------------------------------------------------------------------------
// A run
// ---------------------------------------------------------------------------

/// At every point of a windowed run the recording tells of the sends that came
/// and lie below the horizon, sorted, and the rest is still buffered.
pub proof fn law_recording_is_sorted<T: TailSource>(
    model: ModelView,
    window_ns: u64,
    hs: Seq<Happening>,
    tails: T,
    n: int,
)
    requires
        window_ns > 0,
        0 <= n <= hs.len(),
    ensures
        ({
            let m = broker::broker_new(model, window_ns);
            let (k, seen) = run_laws::ran(m, hs, tails, n);
            let came = arrivals(m, hs, tails, n);
            let s = k.seq.unwrap();
            &&& k.seq is Some
            &&& sends_in(seen) == all_told(window::stable_sort(window::part(came, s.horizon, true)))
            &&& s.pending == window::part(came, s.horizon, false)
        }),
    decreases n,
{
    let m = broker::broker_new(model, window_ns);
    if n == 0 {
        let none = Seq::<SendView>::empty();
        assert(window::part(none, 0, true) =~= none);
        assert(window::part(none, 0, false) =~= none);
        assert(all_told(window::stable_sort(none)) =~= Seq::<Told>::empty());
    } else {
        law_recording_is_sorted(model, window_ns, hs, tails, n - 1);
        let (k, seen) = run_laws::ran(m, hs, tails, n - 1);
        let (t, new) = run_laws::happened(k, hs[n - 1], tails);
        let came = arrivals(m, hs, tails, n - 1);
        let more = let_in(k, hs[n - 1]);
        let g = lemma_moved(k, hs[n - 1], tails);
        lemma_sends_both(seen, new);
        lemma_one_more(came, more, k.seq.unwrap(), g, t.seq.unwrap(), seen, new);
    }
}

proof fn lemma_one_more(
    came: Seq<SendView>,
    more: Option<SendView>,
    s: SeqModel,
    g: u64,
    t: SeqModel,
    seen: Seq<(u64, ObservedView)>,
    new: Seq<(u64, ObservedView)>,
)
    requires
        moved(s, more, g, t, new),
        more is Some ==> !window::below(more.unwrap(), s.horizon),
        sends_in(seen) == all_told(window::stable_sort(window::part(came, s.horizon, true))),
        s.pending == window::part(came, s.horizon, false),
    ensures
        ({
            let now = match more {
                Some(x) => came.push(x),
                None => came,
            };
            &&& sends_in(seen) + sends_in(new) == all_told(
                window::stable_sort(window::part(now, t.horizon, true)),
            )
            &&& t.pending == window::part(now, t.horizon, false)
        }),
{
    reveal(moved);
    let h = s.horizon;
    let now = match more {
        Some(x) => came.push(x),
        None => came,
    };
    if let Some(x) = more {
        window_laws::lemma_part_step(came, x, h, true);
        window_laws::lemma_part_step(came, x, h, false);
    }
    let lo = window::stable_sort(window::part(now, h, true));
    let p = window::part(now, h, false);
    assert(sends_in(seen) == all_told(lo));
    if g <= h {
        assert(all_told(Seq::<SendView>::empty()) =~= Seq::<Told>::empty());
        assert(sends_in(seen) + sends_in(new) =~= sends_in(seen));
    } else {
        window_laws::lemma_sort_in_two(now, h, g);
        window_laws::lemma_part_twice(now, h, g, false);
        let mid = window::stable_sort(window::part(p, g, true));
        assert(all_told(lo) + all_told(mid) =~= all_told(lo + mid));
    }
}

// ---------------------------------------------------------------------------
// Keys
// ---------------------------------------------------------------------------

/// Every connection is a node of its own, and the sends that came are numbered
/// on their connections.
pub open spec fn numbered(came: Seq<SendView>, m: BrokerModel) -> bool {
    let conns = m.seq.unwrap().conns;
    &&& m.seq is Some
    &&& forall|k: u64| #[trigger]
        conns.contains_key(k) ==> m.hello.contains(k) && m.nodes.contains(conns[k].node_id)
    &&& forall|k: u64, l: u64|
        #![trigger conns.contains_key(k), conns.contains_key(l)]
        conns.contains_key(k) && conns.contains_key(l) && k != l ==> conns[k].node_id
            != conns[l].node_id
    &&& forall|i: int|
        0 <= i < came.len() ==> {
            let x = #[trigger] came[i];
            &&& conns.contains_key(x.conn)
            &&& x.host_id == conns[x.conn].host_id
            &&& x.node_id == conns[x.conn].node_id
            &&& x.conn_seq < conns[x.conn].next_seq
        }
    &&& forall|i: int, j: int|
        0 <= i < j < came.len() && (#[trigger] came[i]).conn == (#[trigger] came[j]).conn
            ==> came[i].conn_seq < came[j].conn_seq
}

proof fn lemma_numbered_keys(came: Seq<SendView>, m: BrokerModel)
    requires
        numbered(came, m),
    ensures
        window_laws::keys_differ(came),
{
    let conns = m.seq.unwrap().conns;
    assert forall|i: int, j: int|
        0 <= i < came.len() && 0 <= j < came.len() && i != j implies window::key_lt(
        #[trigger] came[i],
        #[trigger] came[j],
    ) || window::key_lt(came[j], came[i]) by {
        assert(conns.contains_key(came[i].conn) && conns.contains_key(came[j].conn));
        if came[i].conn != came[j].conn {
            assert(came[i].node_id != came[j].node_id);
        } else if i < j {
            assert(came[i].conn_seq < came[j].conn_seq);
        } else {
            assert(came[j].conn_seq < came[i].conn_seq);
        }
    }
}

/// `n` has the connections of `m`, which keep what tells them apart.
spec fn same_nodes(m: BrokerModel, n: BrokerModel) -> bool {
    let a = m.seq.unwrap().conns;
    let b = n.seq.unwrap().conns;
    &&& m.seq is Some
    &&& n.seq is Some
    &&& n.hello == m.hello
    &&& n.nodes == m.nodes
    &&& forall|k: u64|
        #![trigger a.contains_key(k)]
        #![trigger b.contains_key(k)]
        a.contains_key(k) == b.contains_key(k)
    &&& forall|k: u64|
        #![trigger a.contains_key(k)]
        #![trigger b[k]]
        a.contains_key(k) ==> b[k].host_id == a[k].host_id && b[k].node_id == a[k].node_id
            && b[k].next_seq == a[k].next_seq
}

proof fn lemma_same_numbers(came: Seq<SendView>, m: BrokerModel, n: BrokerModel)
    requires
        numbered(came, m),
        same_nodes(m, n),
    ensures
        numbered(came, n),
{
}

/// Sealing leaves the connections alone.
proof fn lemma_seal_same<T: TailSource>(m: BrokerModel, k: BrokerModel, tails: T)
    requires
        same_nodes(m, k),
    ensures
        same_nodes(m, broker::sealed_and_fed(k, tails).0),
{
}

/// A message, but for a send that is let in and a hello, changes nothing that
/// tells connections apart.
#[verifier::spinoff_prover]
proof fn lemma_message_same<T: TailSource>(m: BrokerModel, conn: u64, msg: ToBrokerView, tails: T)
    requires
        m.seq is Some,
        let_in(m, Happening::Message { conn, msg }) is None,
        !(msg is Hello),
    ensures
        same_nodes(m, broker::on_message(m, conn, msg, tails).0),
{
    let s = m.seq.unwrap();
    match msg {
        ToBrokerView::Frontier { local_vt } => {
            let k = broker::skewed(m, local_vt);
            if window::frontier_answer(s, conn, local_vt) is Ok {
                let a = BrokerModel { seq: Some(window::seq_declared(s, conn, local_vt)), ..k };
                assert(same_nodes(m, a));
                lemma_seal_same(m, a, tails);
            }
        },
        ToBrokerView::Recv { addr, blocking, local_vt } => {
            let k = broker::skewed(m, local_vt);
            let a = BrokerModel {
                seq: Some(
                    if blocking {
                        window::seq_blocked(s, conn, local_vt)
                    } else {
                        window::seq_touched(s, conn, local_vt)
                    },
                ),
                ..k
            };
            assert(same_nodes(m, a));
            lemma_seal_same(m, a, tails);
        },
        _ => {},
    }
}

#[verifier::spinoff_prover]
proof fn lemma_end_same<T: TailSource>(m: BrokerModel, conn: u64, tails: T)
    requires
        m.seq is Some,
    ensures
        same_nodes(m, broker::on_disconnect(m, conn, tails).0),
{
    let gone = BrokerModel {
        core: netcore::core_disconnect(m.core, conn),
        live: if m.live > 0 {
            (m.live - 1) as u64
        } else {
            0
        },
        ..m
    };
    let judged = if m.hello.contains(conn) && !m.goodbye.contains(conn) {
        broker::latched(gone, broker::crash_text(conn))
    } else {
        gone
    };
    let a = BrokerModel { seq: Some(window::seq_closed(m.seq.unwrap(), conn)), ..judged };
    assert(same_nodes(m, a));
    lemma_seal_same(m, a, tails);
}

#[verifier::spinoff_prover]
#[verifier::rlimit(60)]
proof fn lemma_numbered_step<T: TailSource>(
    came: Seq<SendView>,
    m: BrokerModel,
    h: Happening,
    tails: T,
)
    requires
        m.seq is Some,
        numbered(came, m),
        run_laws::happened(m, h, tails).0.violation is None,
        h matches Happening::Message { conn, .. } ==> broker::room(m, conn),
    ensures
        numbered(
            match let_in(m, h) {
                Some(x) => came.push(x),
                None => came,
            },
            run_laws::happened(m, h, tails).0,
        ),
{
    let n = run_laws::happened(m, h, tails).0;
    let a = m.seq.unwrap().conns;
    let b = n.seq.unwrap().conns;
    if let Some(x) = let_in(m, h) {
        let more = came.push(x);
        assert(b == a.insert(x.conn, b[x.conn]));
        assert(b[x.conn].next_seq == a[x.conn].next_seq + 1);
        assert(n.hello == m.hello && n.nodes == m.nodes);
        assert(numbered(more, n));
    } else if let Happening::Message { conn, msg: ToBrokerView::Hello { node_id, host_id } } = h {
        assert(!broker::spliced(m, conn, node_id));
        assert(!a.contains_key(conn));
        assert(numbered(came, n));
    } else {
        match h {
            Happening::Message { conn, msg } => {
                lemma_message_same(m, conn, msg, tails);
            },
            Happening::Disconnect { conn } => {
                lemma_end_same(m, conn, tails);
            },
            _ => {
                assert(same_nodes(m, n));
            },
        }
        lemma_same_numbers(came, m, n);
    }
}

/// Every message of a run finds room.
pub open spec fn roomed<T: TailSource>(m: BrokerModel, hs: Seq<Happening>, tails: T) -> bool {
    forall|i: int|
        0 <= i < hs.len() && (#[trigger] hs[i]) is Message ==> broker::room(
            run_laws::ran(m, hs, tails, i).0,
            hs[i]->Message_conn,
        )
}

/// In a windowed run without a violation no two sends have the same key.
pub proof fn law_keys_differ<T: TailSource>(
    model: ModelView,
    window_ns: u64,
    hs: Seq<Happening>,
    tails: T,
    n: int,
)
    requires
        window_ns > 0,
        0 <= n <= hs.len(),
        roomed(broker::broker_new(model, window_ns), hs, tails),
        run_laws::ran(broker::broker_new(model, window_ns), hs, tails, n).0.violation is None,
    ensures
        numbered(
            arrivals(broker::broker_new(model, window_ns), hs, tails, n),
            run_laws::ran(broker::broker_new(model, window_ns), hs, tails, n).0,
        ),
        window_laws::keys_differ(arrivals(broker::broker_new(model, window_ns), hs, tails, n)),
    decreases n,
{
    let m = broker::broker_new(model, window_ns);
    let t = run_laws::ran(m, hs, tails, n).0;
    if n > 0 {
        let k = run_laws::ran(m, hs, tails, n - 1).0;
        if k.violation is Some {
            match hs[n - 1] {
                Happening::Message { conn, msg } => {
                    broker::law_violation_stays(k, conn, msg, tails);
                },
                Happening::Disconnect { conn } => {
                    broker::law_violation_stays(k, conn, ToBrokerView::Goodbye, tails);
                },
                _ => {},
            }
        }
        law_keys_differ(model, window_ns, hs, tails, n - 1);
        assert(hs[n - 1] is Message ==> broker::room(k, hs[n - 1]->Message_conn));
        lemma_numbered_step(arrivals(m, hs, tails, n - 1), k, hs[n - 1], tails);
    }
    lemma_numbered_keys(arrivals(m, hs, tails, n), t);
}

proof fn lemma_none_left(s: Seq<SendView>, h: u64)
    requires
        window::part(s, h, false).len() == 0,
    ensures
        window::part(s, h, true) == s,
    decreases s.len(),
{
    if s.len() > 0 {
        lemma_none_left(s.drop_last(), h);
        assert(s =~= s.drop_last().push(s.last()));
    }
}

/// Two windowed runs in which the same sends came record them in the same
/// order, once all are sealed: whatever order they came in, whenever nodes
/// waited, polled or left, and however often windows were sealed.
pub proof fn law_same_sends_same_recording<T: TailSource>(
    model: ModelView,
    window_ns: u64,
    hs: Seq<Happening>,
    gs: Seq<Happening>,
    tails: T,
)
    requires
        window_ns > 0,
        roomed(broker::broker_new(model, window_ns), hs, tails),
        ({
            let m = broker::broker_new(model, window_ns);
            let a = run_laws::ran(m, hs, tails, hs.len() as int).0;
            let b = run_laws::ran(m, gs, tails, gs.len() as int).0;
            &&& a.violation is None
            &&& broker::buffered(a) == 0
            &&& broker::buffered(b) == 0
            &&& arrivals(m, hs, tails, hs.len() as int).to_multiset() == arrivals(
                m,
                gs,
                tails,
                gs.len() as int,
            ).to_multiset()
        }),
    ensures
        ({
            let m = broker::broker_new(model, window_ns);
            sends_in(run_laws::ran(m, hs, tails, hs.len() as int).1) == sends_in(
                run_laws::ran(m, gs, tails, gs.len() as int).1,
            )
        }),
{
    let m = broker::broker_new(model, window_ns);
    let x = arrivals(m, hs, tails, hs.len() as int);
    let y = arrivals(m, gs, tails, gs.len() as int);
    let a = run_laws::ran(m, hs, tails, hs.len() as int).0;
    let b = run_laws::ran(m, gs, tails, gs.len() as int).0;
    law_recording_is_sorted(model, window_ns, hs, tails, hs.len() as int);
    law_recording_is_sorted(model, window_ns, gs, tails, gs.len() as int);
    law_keys_differ(model, window_ns, hs, tails, hs.len() as int);
    lemma_none_left(x, a.seq.unwrap().horizon);
    lemma_none_left(y, b.seq.unwrap().horizon);
    window_laws::law_sort_ignores_order(x, y);
}

} // verus!
