//! Without variance there is no reordering: where every datagram takes the
//! same time, the rule on delivery order finds nothing.

use vstd::prelude::*;

use crate::fault::{Latency, ModelView, TailSource};
use crate::input;
use crate::input::OpView;
use crate::log;
use crate::log::{EventView, RecvOutcomeView, SendOutcome};
use crate::monitor;
use crate::monitor::Seen;
use crate::netcore;
use crate::netcore::{Channel, CoreModel, PendingView, SendResult};
use crate::wire::VAddr;

verus! {

/// Every datagram takes the time `d`, whatever its length.
pub open spec fn even(m: ModelView, d: u64) -> bool {
    m.latency == Latency::Fixed(d) && m.bandwidth_bps == 0
}

/// Each address is bound by one connection alone.
pub open spec fn settled(ops: Seq<OpView>, home: spec_fn(VAddr) -> u64) -> bool {
    forall|i: int|
        0 <= i < ops.len() ==> (#[trigger] ops[i] matches OpView::Bind { conn, addr } ==> conn
            == home(addr))
}

/// A datagram that waits for `a`: it came there by its address, its number is
/// known, and nothing later of its channel was delivered.
pub open spec fn due(
    c: CoreModel,
    p: PendingView,
    a: u64,
    h: Seq<Seen>,
    d: u64,
    home: spec_fn(VAddr) -> u64,
) -> bool {
    let ch = Channel { src: p.src, dst: p.dst };
    &&& p.deliv == d
    &&& home(p.dst) == a
    &&& p.tie < c.tie
    &&& monitor::scheduled(h).contains_key(p.tie)
    &&& monitor::scheduled(h)[p.tie] < netcore::next_seq(c, p.src, p.dst)
    &&& monitor::highest(h).contains_key(ch) ==> monitor::highest(h)[ch]
        < monitor::scheduled(h)[p.tie]
}

/// The first to be delivered is the first that was sent.
pub open spec fn lined_up(q: Seq<PendingView>, h: Seq<Seen>) -> bool {
    forall|i: int, j: int|
        0 <= i < j < q.len() ==> (#[trigger] q[j]).tie < (#[trigger] q[i]).tie && (q[i].src
            == q[j].src && q[i].dst == q[j].dst ==> monitor::scheduled(h)[q[j].tie]
            < monitor::scheduled(h)[q[i].tie])
}

pub open spec fn all_due(
    c: CoreModel,
    q: Seq<PendingView>,
    a: u64,
    h: Seq<Seen>,
    d: u64,
    home: spec_fn(VAddr) -> u64,
) -> bool {
    forall|i: int| 0 <= i < q.len() ==> due(c, #[trigger] q[i], a, h, d, home)
}

/// What waits is in the order of the sends.
pub open spec fn orderly(c: CoreModel, h: Seq<Seen>, d: u64, home: spec_fn(VAddr) -> u64) -> bool {
    &&& even(c.model, d)
    &&& forall|x: VAddr| #[trigger] c.bound.contains_key(x) ==> c.bound[x] == home(x)
    &&& forall|a: u64| #[trigger]
        c.queues.contains_key(a) ==> lined_up(c.queues[a], h) && all_due(
            c,
            c.queues[a],
            a,
            h,
            d,
            home,
        )
    &&& forall|t: u64| #[trigger] monitor::scheduled(h).contains_key(t) ==> t < c.tie
    &&& forall|s: VAddr, t: VAddr|
        monitor::highest(h).contains_key(Channel { src: s, dst: t }) ==> monitor::highest(
            h,
        )[Channel { src: s, dst: t }] < #[trigger] netcore::next_seq(c, s, t)
}

proof fn lemma_goes_last(q: Seq<PendingView>, x: PendingView)
    requires
        forall|i: int|
            0 <= i < q.len() ==> (#[trigger] q[i]).deliv == x.deliv && q[i].tie < x.tie,
    ensures
        netcore::enqueue(q, x) == seq![x] + q,
    decreases q.len(),
{
    if q.len() == 0 {
        assert(q.push(x) =~= seq![x] + q);
    } else {
        assert(q[q.len() - 1].tie < x.tie);
        lemma_goes_last(q.drop_last(), x);
        assert((seq![x] + q.drop_last()).push(q.last()) =~= seq![x] + q);
    }
}

/// An event that schedules nothing and delivers nothing.
pub open spec fn idle(e: EventView) -> bool {
    match e {
        EventView::Send { outcome: SendOutcome::Enqueued { .. }, .. } => false,
        EventView::Recv { outcome: RecvOutcomeView::Delivered { .. }, .. } => false,
        _ => true,
    }
}

proof fn lemma_idle(h: Seq<Seen>, now: Seen)
    requires
        idle(now.e),
    ensures
        monitor::scheduled(h.push(now)) == monitor::scheduled(h),
        monitor::highest(h.push(now)) == monitor::highest(h),
{
    assert(h.push(now).drop_last() =~= h);
}

/// What waits stays due while the numbers go on and nothing is delivered.
proof fn lemma_due_on(
    c: CoreModel,
    n: CoreModel,
    q: Seq<PendingView>,
    a: u64,
    h: Seq<Seen>,
    g: Seq<Seen>,
    d: u64,
    home: spec_fn(VAddr) -> u64,
)
    requires
        all_due(c, q, a, h, d, home),
        lined_up(q, h),
        c.tie <= n.tie,
        monitor::highest(g) == monitor::highest(h),
        forall|t: u64|
            t < c.tie && #[trigger] monitor::scheduled(h).contains_key(t)
                ==> monitor::scheduled(g).contains_key(t) && monitor::scheduled(g)[t]
                == monitor::scheduled(h)[t],
        forall|s: VAddr, t: VAddr|
            netcore::next_seq(c, s, t) <= #[trigger] netcore::next_seq(n, s, t),
    ensures
        all_due(n, q, a, g, d, home),
        lined_up(q, g),
{
    assert forall|i: int| 0 <= i < q.len() implies due(n, #[trigger] q[i], a, g, d, home) by {
        assert(due(c, q[i], a, h, d, home));
        assert(monitor::scheduled(h).contains_key(q[i].tie));
        assert(netcore::next_seq(c, q[i].src, q[i].dst) <= netcore::next_seq(
            n,
            q[i].src,
            q[i].dst,
        ));
    }
    assert forall|i: int, j: int| 0 <= i < j < q.len() implies (#[trigger] q[j]).tie < (
    #[trigger] q[i]).tie && (q[i].src == q[j].src && q[i].dst == q[j].dst ==> monitor::scheduled(
        g,
    )[q[j].tie] < monitor::scheduled(g)[q[i].tie]) by {
        assert(due(c, q[i], a, h, d, home));
        assert(due(c, q[j], a, h, d, home));
        assert(monitor::scheduled(h).contains_key(q[i].tie));
        assert(monitor::scheduled(h).contains_key(q[j].tie));
    }
}

/// The numbers of the channels after a send.
proof fn lemma_numbers(c: CoreModel, src: VAddr, dst: VAddr, payload: Seq<u8>, tail: u64)
    requires
        netcore::next_seq(c, src, dst) < u64::MAX,
    ensures
        ({
            let n = netcore::core_send(c, src, dst, payload, 0, tail);
            &&& netcore::next_seq(n, src, dst) == netcore::next_seq(c, src, dst) + 1
            &&& forall|s: VAddr, t: VAddr|
                netcore::next_seq(c, s, t) <= #[trigger] netcore::next_seq(n, s, t)
        }),
{
    let n = netcore::core_send(c, src, dst, payload, 0, tail);
    assert forall|s: VAddr, t: VAddr| netcore::next_seq(c, s, t) <= #[trigger] netcore::next_seq(
        n,
        s,
        t,
    ) by {
        if s == src && t == dst {
        } else {
            assert(Channel { src: s, dst: t } != Channel { src, dst });
        }
    }
}

#[verifier::rlimit(40)]
#[verifier::spinoff_prover]
proof fn lemma_orderly_send<T: TailSource>(
    c: CoreModel,
    h: Seq<Seen>,
    o: OpView,
    now: Seen,
    d: u64,
    home: spec_fn(VAddr) -> u64,
    tails: T,
)
    requires
        orderly(c, h, d, home),
        c.tie < u64::MAX,
        o is Send,
        netcore::next_seq(c, o->Send_src, o->Send_dst) < u64::MAX,
        now.e == input::applied(c, o, tails).1,
    ensures
        orderly(input::applied(c, o, tails).0, h.push(now), d, home),
{
    let n = input::applied(c, o, tails).0;
    let g = h.push(now);
    let (src, dst, payload) = (o->Send_src, o->Send_dst, o->Send_payload);
    let tail = netcore::tail_for(c, src, dst, tails);
    assert(g.drop_last() =~= h);
    lemma_numbers(c, src, dst, payload, tail);
    match netcore::send_answer(c, src, dst, payload.len(), 0, tail) {
        SendResult::Enqueued { to_conn, deliv_ns, tie } => {
            let number = netcore::next_seq(c, src, dst);
            assert(monitor::scheduled(g) == monitor::scheduled(h).insert(tie, number));
            assert(monitor::highest(g) == monitor::highest(h));
            assert(!monitor::scheduled(h).contains_key(tie));
            assert(deliv_ns == d);
            let x = PendingView { deliv: deliv_ns, tie, src, dst, payload };
            assert forall|a: u64| #[trigger] n.queues.contains_key(a) implies lined_up(
                n.queues[a],
                g,
            ) && all_due(n, n.queues[a], a, g, d, home) by {
                assert(c.queues.contains_key(a));
                let q = c.queues[a];
                assert(all_due(c, q, a, h, d, home) && lined_up(q, h));
                lemma_due_on(c, n, q, a, h, g, d, home);
                if a == to_conn {
                    lemma_new_last(c, n, q, a, x, h, g, d, home);
                }
            }
        },
        SendResult::Dropped => {
            lemma_idle(h, now);
            lemma_same_queues(c, n, h, g, d, home);
        },
        SendResult::NoReceiver => {
            lemma_idle(h, now);
            lemma_same_queues(c, n, h, g, d, home);
        },
    }
}

proof fn lemma_same_queues(
    c: CoreModel,
    n: CoreModel,
    h: Seq<Seen>,
    g: Seq<Seen>,
    d: u64,
    home: spec_fn(VAddr) -> u64,
)
    requires
        orderly(c, h, d, home),
        n.model == c.model,
        n.bound == c.bound,
        n.queues == c.queues,
        n.tie == c.tie,
        monitor::scheduled(g) == monitor::scheduled(h),
        monitor::highest(g) == monitor::highest(h),
        forall|s: VAddr, t: VAddr|
            netcore::next_seq(c, s, t) <= #[trigger] netcore::next_seq(n, s, t),
    ensures
        orderly(n, g, d, home),
{
    assert forall|a: u64| #[trigger] n.queues.contains_key(a) implies lined_up(n.queues[a], g)
        && all_due(n, n.queues[a], a, g, d, home) by {
        assert(c.queues.contains_key(a));
        lemma_due_on(c, n, c.queues[a], a, h, g, d, home);
    }
}

proof fn lemma_new_last(
    c: CoreModel,
    n: CoreModel,
    q: Seq<PendingView>,
    a: u64,
    x: PendingView,
    h: Seq<Seen>,
    g: Seq<Seen>,
    d: u64,
    home: spec_fn(VAddr) -> u64,
)
    requires
        orderly(c, h, d, home),
        all_due(c, q, a, h, d, home),
        all_due(n, q, a, g, d, home),
        lined_up(q, g),
        x.tie == c.tie,
        x.deliv == d,
        home(x.dst) == a,
        n.tie == c.tie + 1,
        monitor::highest(g) == monitor::highest(h),
        monitor::scheduled(g) == monitor::scheduled(h).insert(
            x.tie,
            netcore::next_seq(c, x.src, x.dst),
        ),
        netcore::next_seq(n, x.src, x.dst) == netcore::next_seq(c, x.src, x.dst) + 1,
    ensures
        lined_up(netcore::enqueue(q, x), g),
        all_due(n, netcore::enqueue(q, x), a, g, d, home),
{
    assert forall|i: int| 0 <= i < q.len() implies (#[trigger] q[i]).deliv == x.deliv && q[i].tie
        < x.tie by {
        assert(due(c, q[i], a, h, d, home));
    }
    lemma_goes_last(q, x);
    let r = seq![x] + q;
    assert forall|i: int| 0 <= i < r.len() implies due(n, #[trigger] r[i], a, g, d, home) by {
        if i > 0 {
            assert(r[i] == q[i - 1]);
        } else {
            assert(netcore::next_seq(c, x.src, x.dst) < netcore::next_seq(n, x.src, x.dst));
        }
    }
    assert forall|i: int, j: int| 0 <= i < j < r.len() implies (#[trigger] r[j]).tie < (
    #[trigger] r[i]).tie && (r[i].src == r[j].src && r[i].dst == r[j].dst ==> monitor::scheduled(
        g,
    )[r[j].tie] < monitor::scheduled(g)[r[i].tie]) by {
        assert(r[j] == q[j - 1]);
        assert(due(c, q[j - 1], a, h, d, home));
        if i > 0 {
            assert(r[i] == q[i - 1]);
        }
    }
}

#[verifier::rlimit(40)]
#[verifier::spinoff_prover]
proof fn lemma_orderly_recv<T: TailSource>(
    c: CoreModel,
    h: Seq<Seen>,
    o: OpView,
    now: Seen,
    d: u64,
    home: spec_fn(VAddr) -> u64,
    tails: T,
)
    requires
        orderly(c, h, d, home),
        o is Recv,
        now.e == input::applied(c, o, tails).1,
    ensures
        orderly(input::applied(c, o, tails).0, h.push(now), d, home),
        monitor::fifo_verdict(h, now.e) is None,
{
    let n = input::applied(c, o, tails).0;
    let conn = o->Recv_conn;
    let g = h.push(now);
    assert(g.drop_last() =~= h);
    if netcore::recv_answer(c, conn, None) is Some {
        let q = c.queues[conn];
        let p = q.last();
        let ch = Channel { src: p.src, dst: p.dst };
        let number = monitor::scheduled(h)[p.tie];
        assert(all_due(c, q, conn, h, d, home) && lined_up(q, h));
        assert(due(c, q[q.len() - 1], conn, h, d, home));
        assert(log::to_vaddr(log::to_addr(p.src)) == p.src);
        assert(log::to_vaddr(log::to_addr(p.dst)) == p.dst);
        assert(monitor::channel_of(log::to_addr(p.src), log::to_addr(p.dst)) == ch);
        assert(monitor::scheduled(g) == monitor::scheduled(h));
        assert(monitor::highest(g) == monitor::highest(h).insert(ch, number));
        assert forall|a: u64| #[trigger] n.queues.contains_key(a) implies lined_up(n.queues[a], g)
            && all_due(n, n.queues[a], a, g, d, home) by {
            assert(c.queues.contains_key(a));
            let old_q = c.queues[a];
            let s = n.queues[a];
            assert(all_due(c, old_q, a, h, d, home) && lined_up(old_q, h));
            assert forall|i: int| 0 <= i < s.len() implies due(
                n,
                #[trigger] s[i],
                a,
                g,
                d,
                home,
            ) by {
                assert(s[i] == old_q[i]);
                assert(due(c, old_q[i], a, h, d, home));
                assert(netcore::next_seq(n, s[i].src, s[i].dst) == netcore::next_seq(
                    c,
                    s[i].src,
                    s[i].dst,
                ));
                if s[i].src == p.src && s[i].dst == p.dst {
                    assert(a == conn);
                    assert(q[q.len() - 1].tie < q[i].tie);
                }
            }
            assert forall|i: int, j: int| 0 <= i < j < s.len() implies (#[trigger] s[j]).tie < (
            #[trigger] s[i]).tie && (s[i].src == s[j].src && s[i].dst == s[j].dst
                ==> monitor::scheduled(g)[s[j].tie] < monitor::scheduled(g)[s[i].tie]) by {
                assert(s[i] == old_q[i] && s[j] == old_q[j]);
            }
        }
        assert forall|s: VAddr, t: VAddr|
            monitor::highest(g).contains_key(Channel { src: s, dst: t }) implies monitor::highest(
            g,
        )[Channel { src: s, dst: t }] < #[trigger] netcore::next_seq(n, s, t) by {
            assert(netcore::next_seq(n, s, t) == netcore::next_seq(c, s, t));
        }
    } else {
        lemma_idle(h, now);
        lemma_same_queues(c, n, h, g, d, home);
    }
}

proof fn lemma_orderly_other<T: TailSource>(
    c: CoreModel,
    h: Seq<Seen>,
    o: OpView,
    now: Seen,
    d: u64,
    home: spec_fn(VAddr) -> u64,
    tails: T,
)
    requires
        orderly(c, h, d, home),
        !(o is Send),
        !(o is Recv),
        o matches OpView::Bind { conn, addr } ==> conn == home(addr),
        now.e == input::applied(c, o, tails).1,
    ensures
        orderly(input::applied(c, o, tails).0, h.push(now), d, home),
{
    let n = input::applied(c, o, tails).0;
    let g = h.push(now);
    lemma_idle(h, now);
    assert forall|s: VAddr, t: VAddr| netcore::next_seq(c, s, t) == #[trigger] netcore::next_seq(
        n,
        s,
        t,
    ) by {}
    assert forall|a: u64| #[trigger] n.queues.contains_key(a) implies lined_up(n.queues[a], g)
        && all_due(n, n.queues[a], a, g, d, home) by {
        if n.queues[a].len() > 0 {
            assert(c.queues.contains_key(a) && n.queues[a] == c.queues[a]);
            lemma_due_on(c, n, c.queues[a], a, h, g, d, home);
        }
    }
}

proof fn lemma_orderly_at<T: TailSource>(
    m: ModelView,
    ops: Seq<OpView>,
    d: u64,
    home: spec_fn(VAddr) -> u64,
    tails: T,
    n: int,
)
    requires
        0 <= n <= ops.len(),
        ops.len() < u64::MAX,
        even(m, d),
        settled(ops, home),
    ensures
        orderly(
            input::core_at(netcore::core_new(m), ops, tails, n),
            input::events_at(netcore::core_new(m), ops, tails, n),
            d,
            home,
        ),
        input::core_at(netcore::core_new(m), ops, tails, n).tie <= n,
        forall|s: VAddr, t: VAddr| #[trigger]
            netcore::next_seq(input::core_at(netcore::core_new(m), ops, tails, n), s, t) <= n,
    decreases n,
{
    let start = netcore::core_new(m);
    if n == 0 {
        assert(input::events_at(start, ops, tails, 0) =~= Seq::<Seen>::empty());
    } else {
        lemma_orderly_at(m, ops, d, home, tails, n - 1);
        let c = input::core_at(start, ops, tails, n - 1);
        let h = input::events_at(start, ops, tails, n - 1);
        let now = input::event_at(start, ops, tails, n - 1);
        let o = ops[n - 1];
        let t = input::core_at(start, ops, tails, n);
        assert(input::events_at(start, ops, tails, n) =~= h.push(now));
        if o is Send {
            assert(netcore::next_seq(c, o->Send_src, o->Send_dst) <= n - 1);
            lemma_orderly_send(c, h, o, now, d, home, tails);
        } else if o is Recv {
            lemma_orderly_recv(c, h, o, now, d, home, tails);
        } else {
            lemma_orderly_other(c, h, o, now, d, home, tails);
        }
        assert forall|x: VAddr, y: VAddr| #[trigger] netcore::next_seq(t, x, y) <= n by {
            assert(netcore::next_seq(c, x, y) <= n - 1);
        }
    }
}

/// A network without variance does not reorder: where every datagram takes
/// the same time and each address belongs to one connection, no delivery comes
/// behind a later datagram of its channel, whatever the seed and whatever is
/// lost.
pub proof fn law_no_variance_no_reordering<T: TailSource>(
    m: ModelView,
    ops: Seq<OpView>,
    d: u64,
    home: spec_fn(VAddr) -> u64,
    tails: T,
    n: int,
)
    requires
        0 <= n < ops.len() < u64::MAX,
        even(m, d),
        settled(ops, home),
    ensures
        monitor::fifo_verdict(
            input::events_at(netcore::core_new(m), ops, tails, n),
            input::event_at(netcore::core_new(m), ops, tails, n).e,
        ) is None,
{
    let start = netcore::core_new(m);
    lemma_orderly_at(m, ops, d, home, tails, n);
    if ops[n] is Recv {
        lemma_orderly_recv(
            input::core_at(start, ops, tails, n),
            input::events_at(start, ops, tails, n),
            ops[n],
            input::event_at(start, ops, tails, n),
            d,
            home,
            tails,
        );
    }
}

// ---------------------------------------------------------------------------
// What the rule finds
// ---------------------------------------------------------------------------

/// The number of the datagram that the event at `i` delivers on the channel.
pub open spec fn number_at(h: Seq<Seen>, i: int, ch: Channel) -> Option<u64> {
    match h[i].e {
        EventView::Recv { outcome: RecvOutcomeView::Delivered { src, dst, tie, .. }, .. } => {
            if monitor::channel_of(src, dst) == ch && monitor::scheduled(h.take(i)).contains_key(
                tie,
            ) {
                Some(monitor::scheduled(h.take(i))[tie])
            } else {
                None
            }
        },
        _ => None,
    }
}

proof fn lemma_highest(h: Seq<Seen>, ch: Channel)
    ensures
        monitor::highest(h).contains_key(ch) ==> exists|i: int|
            0 <= i < h.len() && #[trigger] number_at(h, i, ch) == Some(monitor::highest(h)[ch]),
        forall|i: int|
            0 <= i < h.len() && (#[trigger] number_at(h, i, ch)) is Some
                ==> monitor::highest(h).contains_key(ch) && number_at(h, i, ch).unwrap()
                <= monitor::highest(h)[ch],
    decreases h.len(),
{
    if h.len() > 0 {
        let p = h.drop_last();
        let k = h.len() - 1;
        lemma_highest(p, ch);
        assert(h.take(k) =~= p);
        assert forall|i: int| 0 <= i < k implies #[trigger] number_at(h, i, ch) == number_at(
            p,
            i,
            ch,
        ) by {
            assert(h.take(i) =~= p.take(i));
        }
        if monitor::highest(p).contains_key(ch) {
            let i = choose|i: int|
                0 <= i < p.len() && #[trigger] number_at(p, i, ch) == Some(
                    monitor::highest(p)[ch],
                );
            assert(number_at(h, i, ch) == number_at(p, i, ch));
        }
        assert(number_at(h, k, ch) is Some || monitor::highest(h).contains_key(ch)
            == monitor::highest(p).contains_key(ch));
        if number_at(h, k, ch) is Some && monitor::highest(h)[ch] == number_at(h, k, ch).unwrap() {
            assert(number_at(h, k, ch) == Some(monitor::highest(h)[ch]));
        }
    }
}

/// The rule on delivery order speaks exactly at a datagram behind which a
/// later one of its channel was already delivered.
pub proof fn law_fifo_finds_overtaking(h: Seq<Seen>, now: Seen)
    ensures
        monitor::fifo_verdict(h, now.e) is Some <==> match now.e {
            EventView::Recv { outcome: RecvOutcomeView::Delivered { src, dst, tie, .. }, .. } => {
                &&& monitor::scheduled(h).contains_key(tie)
                &&& exists|i: int|
                    0 <= i < h.len() && (#[trigger] number_at(h, i, monitor::channel_of(src, dst)))
                        is Some && number_at(h, i, monitor::channel_of(src, dst)).unwrap()
                        > monitor::scheduled(h)[tie]
            },
            _ => false,
        },
{
    if let EventView::Recv { outcome: RecvOutcomeView::Delivered { src, dst, tie, .. }, .. } =
        now.e {
        lemma_highest(h, monitor::channel_of(src, dst));
    }
}

} // verus!
