//! No datagram is delivered twice: whatever operations a core executes, the
//! rule against duplicates finds nothing.

use vstd::prelude::*;

use crate::fault::{ModelView, TailSource};
use crate::input;
use crate::input::OpView;
use crate::log::{EventView, RecvOutcomeView};
use crate::monitor;
use crate::monitor::Seen;
use crate::netcore;
use crate::netcore::{CoreModel, PendingView, SendResult};

verus! {

/// The datagrams of a queue carry different ties.
pub open spec fn apart(q: Seq<PendingView>) -> bool {
    forall|i: int, j: int| 0 <= i < j < q.len() ==> (#[trigger] q[i]).tie != (#[trigger] q[j]).tie
}

/// Two queues share no tie.
pub open spec fn disjoint(a: Seq<PendingView>, b: Seq<PendingView>) -> bool {
    forall|i: int, j: int|
        0 <= i < a.len() && 0 <= j < b.len() ==> (#[trigger] a[i]).tie != (#[trigger] b[j]).tie
}

/// The datagrams of a queue carry ties below `tie` that were not delivered.
pub open spec fn undelivered(q: Seq<PendingView>, tie: u64, h: Seq<Seen>) -> bool {
    forall|i: int|
        0 <= i < q.len() ==> (#[trigger] q[i]).tie < tie && !monitor::delivered_at(
            h,
        ).contains_key(q[i].tie)
}

/// What waits was not delivered, and waits once.
pub open spec fn clean(c: CoreModel, h: Seq<Seen>) -> bool {
    &&& forall|a: u64| #[trigger] c.queues.contains_key(a) ==> apart(c.queues[a])
    &&& forall|a: u64| #[trigger] c.queues.contains_key(a) ==> undelivered(c.queues[a], c.tie, h)
    &&& forall|a: u64, b: u64|
        #![trigger c.queues.contains_key(a), c.queues.contains_key(b)]
        a != b && c.queues.contains_key(a) && c.queues.contains_key(b) ==> disjoint(
            c.queues[a],
            c.queues[b],
        )
    &&& forall|t: u64| #[trigger] monitor::delivered_at(h).contains_key(t) ==> t < c.tie
}

proof fn lemma_enqueued_at(q: Seq<PendingView>, x: PendingView) -> (pos: int)
    ensures
        0 <= pos <= q.len(),
        netcore::enqueue(q, x) == q.insert(pos, x),
    decreases q.len(),
{
    if q.len() == 0 || netcore::sooner(x, q.last()) {
        assert(q.insert(q.len() as int, x) =~= q.push(x));
        q.len() as int
    } else {
        let p = lemma_enqueued_at(q.drop_last(), x);
        assert(q.insert(p, x) =~= q.drop_last().insert(p, x).push(q.last()));
        p
    }
}

proof fn lemma_not_delivery(h: Seq<Seen>, now: Seen)
    requires
        !(now.e matches EventView::Recv { outcome: RecvOutcomeView::Delivered { .. }, .. }),
    ensures
        monitor::delivered_at(h.push(now)) == monitor::delivered_at(h),
{
    assert(h.push(now).drop_last() =~= h);
}

proof fn lemma_clean_send<T: TailSource>(c: CoreModel, h: Seq<Seen>, o: OpView, now: Seen, tails: T)
    requires
        clean(c, h),
        c.tie < u64::MAX,
        o is Send,
        now.e == input::applied(c, o, tails).1,
    ensures
        clean(input::applied(c, o, tails).0, h.push(now)),
{
    let n = input::applied(c, o, tails).0;
    let (src, dst, payload) = (o->Send_src, o->Send_dst, o->Send_payload);
    let tail = netcore::tail_for(c, src, dst, tails);
    lemma_not_delivery(h, now);
    match netcore::send_answer(c, src, dst, payload.len(), 0, tail) {
        SendResult::Enqueued { to_conn, deliv_ns, tie } => {
            if c.queues.contains_key(to_conn) {
                let x = PendingView { deliv: deliv_ns, tie, src, dst, payload };
                let q = c.queues[to_conn];
                let pos = lemma_enqueued_at(q, x);
                let r = q.insert(pos, x);
                assert(n.queues == c.queues.insert(to_conn, r));
                assert(undelivered(q, c.tie, h));
                assert(apart(q));
                assert(!monitor::delivered_at(h).contains_key(tie));
                assert(apart(r)) by {
                    assert forall|i: int, j: int| 0 <= i < j < r.len() implies (
                    #[trigger] r[i]).tie != (#[trigger] r[j]).tie by {
                        let a = if i < pos {
                            i
                        } else {
                            i - 1
                        };
                        let b = if j < pos {
                            j
                        } else {
                            j - 1
                        };
                        if i != pos {
                            assert(r[i] == q[a]);
                        }
                        if j != pos {
                            assert(r[j] == q[b]);
                        }
                        if i != pos && j != pos {
                            assert(q[a].tie != q[b].tie);
                        }
                    }
                }
                assert(undelivered(r, n.tie, h)) by {
                    assert forall|i: int| 0 <= i < r.len() implies (#[trigger] r[i]).tie < n.tie
                        && !monitor::delivered_at(h).contains_key(r[i].tie) by {
                        if i < pos {
                            assert(r[i] == q[i]);
                        } else if i > pos {
                            assert(r[i] == q[i - 1]);
                        }
                    }
                }
                assert forall|a: u64| #[trigger] n.queues.contains_key(a) implies apart(
                    n.queues[a],
                ) && undelivered(n.queues[a], n.tie, h) by {
                    if a != to_conn {
                        assert(c.queues.contains_key(a));
                        assert(undelivered(c.queues[a], c.tie, h));
                        lemma_later(c.queues[a], c.tie, n.tie, h);
                    }
                }
                assert forall|a: u64, b: u64|
                    #![trigger n.queues.contains_key(a), n.queues.contains_key(b)]
                    a != b && n.queues.contains_key(a) && n.queues.contains_key(
                        b,
                    ) implies disjoint(n.queues[a], n.queues[b]) by {
                    assert(c.queues.contains_key(a) && c.queues.contains_key(b));
                    assert(disjoint(c.queues[a], c.queues[b]));
                    assert(undelivered(c.queues[a], c.tie, h));
                    assert(undelivered(c.queues[b], c.tie, h));
                    if a == to_conn {
                        lemma_disjoint_insert(q, c.queues[b], x, pos);
                    } else if b == to_conn {
                        lemma_disjoint_swap(c.queues[a], q);
                        lemma_disjoint_insert(q, c.queues[a], x, pos);
                        lemma_disjoint_swap(r, c.queues[a]);
                    }
                }
            } else {
                assert(n.queues == c.queues);
                assert forall|a: u64| #[trigger] n.queues.contains_key(a) implies undelivered(
                    n.queues[a],
                    n.tie,
                    h,
                ) by {
                    assert(undelivered(c.queues[a], c.tie, h));
                    lemma_later(c.queues[a], c.tie, n.tie, h);
                }
            }
        },
        _ => {
            assert(n.queues == c.queues && n.tie == c.tie);
        },
    }
}

proof fn lemma_later(q: Seq<PendingView>, a: u64, b: u64, h: Seq<Seen>)
    requires
        undelivered(q, a, h),
        a <= b,
    ensures
        undelivered(q, b, h),
{
    assert forall|i: int| 0 <= i < q.len() implies (#[trigger] q[i]).tie < b
        && !monitor::delivered_at(h).contains_key(q[i].tie) by {
        assert(q[i].tie < a);
    }
}

proof fn lemma_disjoint_swap(a: Seq<PendingView>, b: Seq<PendingView>)
    requires
        disjoint(a, b),
    ensures
        disjoint(b, a),
{
    assert forall|i: int, j: int| 0 <= i < b.len() && 0 <= j < a.len() implies (
    #[trigger] b[i]).tie != (#[trigger] a[j]).tie by {
        assert(a[j].tie != b[i].tie);
    }
}

proof fn lemma_disjoint_insert(a: Seq<PendingView>, b: Seq<PendingView>, x: PendingView, pos: int)
    requires
        disjoint(a, b),
        0 <= pos <= a.len(),
        forall|j: int| 0 <= j < b.len() ==> (#[trigger] b[j]).tie < x.tie,
    ensures
        disjoint(a.insert(pos, x), b),
{
    let r = a.insert(pos, x);
    assert forall|i: int, j: int| 0 <= i < r.len() && 0 <= j < b.len() implies (
    #[trigger] r[i]).tie != (#[trigger] b[j]).tie by {
        if i < pos {
            assert(r[i] == a[i]);
        } else if i > pos {
            assert(r[i] == a[i - 1]);
        }
    }
}

proof fn lemma_clean_recv<T: TailSource>(c: CoreModel, h: Seq<Seen>, o: OpView, now: Seen, tails: T)
    requires
        clean(c, h),
        o is Recv,
        now.e == input::applied(c, o, tails).1,
    ensures
        clean(input::applied(c, o, tails).0, h.push(now)),
        monitor::duplicate_verdict(h, now.e) is None,
{
    let n = input::applied(c, o, tails).0;
    let conn = o->Recv_conn;
    let g = h.push(now);
    assert(g.drop_last() =~= h);
    if netcore::recv_answer(c, conn, None) is Some {
        let q = c.queues[conn];
        let r = q.drop_last();
        let t = q.last().tie;
        assert(undelivered(q, c.tie, h));
        assert(apart(q));
        assert(q[q.len() - 1].tie < c.tie);
        assert(monitor::delivered_at(g) == monitor::delivered_at(h).insert(t, now.op));
        assert(n.queues == c.queues.insert(conn, r));
        assert forall|a: u64| #[trigger] n.queues.contains_key(a) implies apart(n.queues[a])
            && undelivered(n.queues[a], n.tie, g) by {
            assert(c.queues.contains_key(a));
            assert(undelivered(c.queues[a], c.tie, h));
            assert(apart(c.queues[a]));
            let s = n.queues[a];
            if a == conn {
                assert forall|i: int, j: int| 0 <= i < j < s.len() implies (
                #[trigger] s[i]).tie != (#[trigger] s[j]).tie by {
                    assert(q[i].tie != q[j].tie);
                }
                assert forall|i: int| 0 <= i < s.len() implies (#[trigger] s[i]).tie < n.tie
                    && !monitor::delivered_at(g).contains_key(s[i].tie) by {
                    assert(s[i] == q[i]);
                    assert(q[i].tie != q[q.len() - 1].tie);
                }
            } else {
                assert(disjoint(c.queues[a], c.queues[conn]));
                assert forall|i: int| 0 <= i < s.len() implies (#[trigger] s[i]).tie < n.tie
                    && !monitor::delivered_at(g).contains_key(s[i].tie) by {
                    assert(s[i].tie != q[q.len() - 1].tie);
                }
            }
        }
        assert forall|a: u64, b: u64|
            #![trigger n.queues.contains_key(a), n.queues.contains_key(b)]
            a != b && n.queues.contains_key(a) && n.queues.contains_key(b) implies disjoint(
            n.queues[a],
            n.queues[b],
        ) by {
            assert(c.queues.contains_key(a) && c.queues.contains_key(b));
            assert(disjoint(c.queues[a], c.queues[b]));
            assert forall|i: int, j: int|
                0 <= i < n.queues[a].len() && 0 <= j < n.queues[b].len() implies (
            #[trigger] n.queues[a][i]).tie != (#[trigger] n.queues[b][j]).tie by {
                assert(n.queues[a][i] == c.queues[a][i]);
                assert(n.queues[b][j] == c.queues[b][j]);
            }
        }
    } else {
        lemma_not_delivery(h, now);
    }
}

proof fn lemma_clean_other<T: TailSource>(
    c: CoreModel,
    h: Seq<Seen>,
    o: OpView,
    now: Seen,
    tails: T,
)
    requires
        clean(c, h),
        !(o is Send),
        !(o is Recv),
        now.e == input::applied(c, o, tails).1,
    ensures
        clean(input::applied(c, o, tails).0, h.push(now)),
{
    let n = input::applied(c, o, tails).0;
    lemma_not_delivery(h, now);
    assert(n.tie == c.tie);
    assert forall|a: u64| #[trigger] n.queues.contains_key(a) implies n.queues[a].len() == 0 || (
    c.queues.contains_key(a) && n.queues[a] == c.queues[a]) by {}
    assert forall|a: u64| #[trigger] n.queues.contains_key(a) implies apart(n.queues[a])
        && undelivered(n.queues[a], n.tie, h) by {
        if n.queues[a].len() > 0 {
            assert(c.queues.contains_key(a));
        }
    }
    assert forall|a: u64, b: u64|
        #![trigger n.queues.contains_key(a), n.queues.contains_key(b)]
        a != b && n.queues.contains_key(a) && n.queues.contains_key(b) implies disjoint(
        n.queues[a],
        n.queues[b],
    ) by {
        if n.queues[a].len() > 0 && n.queues[b].len() > 0 {
            assert(c.queues.contains_key(a) && c.queues.contains_key(b));
        }
    }
}

proof fn lemma_clean_at<T: TailSource>(m: ModelView, ops: Seq<OpView>, tails: T, n: int)
    requires
        0 <= n <= ops.len(),
        ops.len() < u64::MAX,
    ensures
        clean(
            input::core_at(netcore::core_new(m), ops, tails, n),
            input::events_at(netcore::core_new(m), ops, tails, n),
        ),
        input::core_at(netcore::core_new(m), ops, tails, n).tie <= n,
    decreases n,
{
    let start = netcore::core_new(m);
    if n == 0 {
        assert(input::events_at(start, ops, tails, 0) =~= Seq::<Seen>::empty());
    } else {
        lemma_clean_at(m, ops, tails, n - 1);
        let c = input::core_at(start, ops, tails, n - 1);
        let h = input::events_at(start, ops, tails, n - 1);
        let now = input::event_at(start, ops, tails, n - 1);
        let o = ops[n - 1];
        assert(input::events_at(start, ops, tails, n) =~= h.push(now));
        if o is Send {
            lemma_clean_send(c, h, o, now, tails);
        } else if o is Recv {
            lemma_clean_recv(c, h, o, now, tails);
        } else {
            lemma_clean_other(c, h, o, now, tails);
        }
    }
}

/// Whatever is executed, no delivery repeats an earlier one.
pub proof fn law_no_delivery_twice<T: TailSource>(m: ModelView, ops: Seq<OpView>, tails: T, n: int)
    requires
        0 <= n < ops.len() < u64::MAX,
    ensures
        monitor::duplicate_verdict(
            input::events_at(netcore::core_new(m), ops, tails, n),
            input::event_at(netcore::core_new(m), ops, tails, n).e,
        ) is None,
{
    let start = netcore::core_new(m);
    lemma_clean_at(m, ops, tails, n);
    let c = input::core_at(start, ops, tails, n);
    let h = input::events_at(start, ops, tails, n);
    let now = input::event_at(start, ops, tails, n);
    if ops[n] is Recv {
        lemma_clean_recv(c, h, ops[n], now, tails);
    }
}

} // verus!
