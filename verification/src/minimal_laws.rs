//! Laws of minimality: nothing can be left out of what shrinking returns.

use vstd::prelude::*;

use crate::config;
use crate::delivery_laws;
use crate::fault::{ModelView, TailSource};
use crate::input;
use crate::input::OpView;
use crate::input_laws;
use crate::log::{EventView, RecvOutcomeView};
use crate::monitor;
use crate::monitor::{BuiltIn, Invariant, Seen, ViolationView};
use crate::netcore;
use crate::netcore::{CoreModel, PendingView};
use crate::reproducer_laws;
use crate::shrink;
use crate::shrink::KeyView;
use crate::shrink_laws;

verus! {

// ---------------------------------------------------------------------------
// Payloads
// ---------------------------------------------------------------------------

/// The same operation, whatever it carries.
pub open spec fn same_op(a: OpView, b: OpView) -> bool {
    match (a, b) {
        (
            OpView::Send { conn, src, dst, payload },
            OpView::Send { conn: c, src: s, dst: d, payload: p },
        ) => conn == c && src == s && dst == d,
        _ => a == b,
    }
}

pub open spec fn same_ops(a: Seq<OpView>, b: Seq<OpView>) -> bool {
    a.len() == b.len() && forall|i: int| 0 <= i < a.len() ==> same_op(#[trigger] a[i], b[i])
}

/// The same datagram, whatever it carries.
spec fn same_pending(a: PendingView, b: PendingView) -> bool {
    a == PendingView { payload: a.payload, ..b }
}

spec fn same_queue(a: Seq<PendingView>, b: Seq<PendingView>) -> bool {
    a.len() == b.len() && forall|i: int| 0 <= i < a.len() ==> same_pending(#[trigger] a[i], b[i])
}

spec fn same_core(c: CoreModel, g: CoreModel) -> bool {
    &&& c == CoreModel { queues: c.queues, ..g }
    &&& forall|k: u64| #[trigger] c.queues.contains_key(k) <==> g.queues.contains_key(k)
    &&& forall|k: u64| #[trigger]
        c.queues.contains_key(k) ==> same_queue(c.queues[k], g.queues[k])
}

/// The same event, whatever was carried.
spec fn same_event(a: EventView, b: EventView) -> bool {
    match (a, b) {
        (
            EventView::Send { conn, src, dst, chan_seq, send_vt, payload, outcome },
            EventView::Send {
                conn: c,
                src: s,
                dst: d,
                chan_seq: q,
                send_vt: v,
                payload: p,
                outcome: o,
            },
        ) => conn == c && src == s && dst == d && chan_seq == q && send_vt == v && outcome == o,
        (
            EventView::Recv { conn, blocking, outcome },
            EventView::Recv { conn: c, blocking: w, outcome: o },
        ) => conn == c && blocking == w && match (outcome, o) {
            (
                RecvOutcomeView::Delivered { src, dst, deliv_ns, tie, payload },
                RecvOutcomeView::Delivered {
                    src: s,
                    dst: d,
                    deliv_ns: n,
                    tie: t,
                    payload: p,
                },
            ) => src == s && dst == d && deliv_ns == n && tie == t,
            _ => outcome == o,
        },
        _ => a == b,
    }
}

proof fn lemma_same_enqueue(
    a: Seq<PendingView>,
    b: Seq<PendingView>,
    x: PendingView,
    y: PendingView,
)
    requires
        same_queue(a, b),
        same_pending(x, y),
    ensures
        same_queue(netcore::enqueue(a, x), netcore::enqueue(b, y)),
    decreases a.len(),
{
    if a.len() > 0 {
        assert(same_pending(a[a.len() - 1], b[b.len() - 1]));
        let p = a.drop_last();
        let q = b.drop_last();
        assert forall|i: int| 0 <= i < p.len() implies same_pending(#[trigger] p[i], q[i]) by {
            assert(same_pending(a[i], b[i]));
        }
        lemma_same_enqueue(p, q, x, y);
    }
    let r = netcore::enqueue(a, x);
    let s = netcore::enqueue(b, y);
    assert forall|i: int| 0 <= i < r.len() implies same_pending(#[trigger] r[i], s[i]) by {
        if a.len() == 0 || netcore::sooner(x, a.last()) {
            if i < a.len() {
                assert(same_pending(a[i], b[i]));
            }
        } else if i < r.len() - 1 {
            let t = netcore::enqueue(a.drop_last(), x);
            assert(r[i] == t[i]);
        }
    }
}

proof fn lemma_same_fate(c: CoreModel, o: OpView, p: OpView, tail: u64)
    requires
        c.model.bandwidth_bps == 0,
        o is Send,
        same_op(o, p),
    ensures
        netcore::next_fate(c, o->Send_src, o->Send_dst, o->Send_payload.len(), tail)
            == netcore::next_fate(c, o->Send_src, o->Send_dst, p->Send_payload.len(), tail),
{
}

proof fn lemma_same_step<T: TailSource>(
    c: CoreModel,
    g: CoreModel,
    o: OpView,
    p: OpView,
    tails: T,
)
    requires
        same_core(c, g),
        same_op(o, p),
        c.model.bandwidth_bps == 0,
    ensures
        same_core(input::applied(c, o, tails).0, input::applied(g, p, tails).0),
        same_event(input::applied(c, o, tails).1, input::applied(g, p, tails).1),
        input::applied(c, o, tails).0.model == c.model,
{
    match o {
        OpView::Send { conn, src, dst, payload } => {
            lemma_same_fate(c, o, p, netcore::tail_for(c, src, dst, tails));
            let tail = netcore::tail_for(c, src, dst, tails);
            assert(tail == netcore::tail_for(g, src, dst, tails));
            let q = p->Send_payload;
            let r = netcore::send_answer(c, src, dst, payload.len(), 0, tail);
            assert(r == netcore::send_answer(g, src, dst, q.len(), 0, tail));
            if let netcore::SendResult::Enqueued { to_conn, deliv_ns, tie } = r {
                if c.queues.contains_key(to_conn) {
                    lemma_same_enqueue(
                        c.queues[to_conn],
                        g.queues[to_conn],
                        PendingView { deliv: deliv_ns, tie, src, dst, payload },
                        PendingView { deliv: deliv_ns, tie, src, dst, payload: q },
                    );
                }
            }
        },
        OpView::Recv { conn, blocking } => {
            if c.queues.contains_key(conn) {
                let a = c.queues[conn];
                let b = g.queues[conn];
                assert(same_queue(a, b));
                if a.len() > 0 {
                    assert(same_pending(a[a.len() - 1], b[b.len() - 1]));
                    assert(same_queue(a.drop_last(), b.drop_last())) by {
                        assert forall|i: int| 0 <= i < a.drop_last().len() implies same_pending(
                            #[trigger] a.drop_last()[i],
                            b.drop_last()[i],
                        ) by {
                            assert(same_pending(a[i], b[i]));
                        }
                    }
                }
            }
        },
        _ => {},
    }
}

/// The same events, whatever was carried.
spec fn same_seen(a: Seq<Seen>, b: Seq<Seen>) -> bool {
    a.len() == b.len() && forall|i: int|
        0 <= i < a.len() ==> same_event((#[trigger] a[i]).e, b[i].e)
}

proof fn lemma_same_order(a: Seq<Seen>, b: Seq<Seen>)
    requires
        same_seen(a, b),
    ensures
        monitor::scheduled(a) == monitor::scheduled(b),
        monitor::highest(a) == monitor::highest(b),
    decreases a.len(),
{
    if a.len() > 0 {
        let p = a.drop_last();
        let q = b.drop_last();
        assert forall|i: int| 0 <= i < p.len() implies same_event((#[trigger] p[i]).e, q[i].e) by {
            assert(same_event(a[i].e, b[i].e));
        }
        lemma_same_order(p, q);
        assert(same_event(a[a.len() - 1].e, b[b.len() - 1].e));
    }
}

/// Findings of the same failures in the same order.
pub open spec fn same_failures(a: Seq<ViolationView>, b: Seq<ViolationView>) -> bool {
    a.len() == b.len() && forall|i: int|
        0 <= i < a.len() ==> shrink::key_of(#[trigger] a[i]) == shrink::key_of(b[i])
}

proof fn lemma_raised_same(
    rules: Seq<BuiltIn>,
    a: Seq<Seen>,
    b: Seq<Seen>,
    x: Seen,
    y: Seen,
    n: int,
)
    requires
        shrink::unused(rules),
        same_seen(a, b),
        same_event(x.e, y.e),
        monitor::duplicate_verdict(a, x.e) is None,
        monitor::duplicate_verdict(b, y.e) is None,
        0 <= n <= rules.len(),
    ensures
        same_failures(monitor::raised(rules, a, x, n), monitor::raised(rules, b, y, n)),
    decreases n,
{
    if n > 0 {
        lemma_raised_same(rules, a, b, x, y, n - 1);
        lemma_same_order(a, b);
        let rule = rules[n - 1];
        assert(rule.history() + a =~= a);
        assert(rule.history() + b =~= b);
        assert(rule.verdict(a, x) == rule.verdict(b, y)) by {
            match rule {
                BuiltIn::Fifo(r) => {},
                BuiltIn::Dup(r) => {
                    assert(r.verdict(a, x) is None);
                    assert(r.verdict(b, y) is None);
                },
            }
        }
        assert(shrink::subject_of(x.e) == shrink::subject_of(y.e));
    }
}

proof fn lemma_same_run<T: TailSource>(
    m: ModelView,
    s: Seq<OpView>,
    t: Seq<OpView>,
    rules: Seq<BuiltIn>,
    tails: T,
    n: int,
)
    requires
        m.bandwidth_bps == 0,
        same_ops(s, t),
        0 <= n <= s.len() < u64::MAX,
        shrink::unused(rules),
    ensures
        ({
            let start = netcore::core_new(m);
            let a = input::events_at(start, s, tails, n);
            let b = input::events_at(start, t, tails, n);
            let c = input::core_at(start, s, tails, n);
            &&& c.model == m
            &&& same_core(c, input::core_at(start, t, tails, n))
            &&& same_seen(a, b)
            &&& same_failures(
                monitor::all_raised(rules, a, n),
                monitor::all_raised(rules, b, n),
            )
        }),
    decreases n,
{
    let start = netcore::core_new(m);
    if n > 0 {
        lemma_same_run(m, s, t, rules, tails, n - 1);
        let c = input::core_at(start, s, tails, n - 1);
        let g = input::core_at(start, t, tails, n - 1);
        assert(same_op(s[n - 1], t[n - 1]));
        lemma_same_step(c, g, s[n - 1], t[n - 1], tails);
        let a = input::events_at(start, s, tails, n - 1);
        let b = input::events_at(start, t, tails, n - 1);
        let x = input::event_at(start, s, tails, n - 1);
        let y = input::event_at(start, t, tails, n - 1);
        assert(input::events_at(start, s, tails, n) =~= a.push(x));
        assert(input::events_at(start, t, tails, n) =~= b.push(y));
        assert(same_seen(a.push(x), b.push(y))) by {
            assert forall|i: int| 0 <= i < a.push(x).len() implies same_event(
                (#[trigger] a.push(x)[i]).e,
                b.push(y)[i].e,
            ) by {
                if i < a.len() {
                    assert(same_event(a[i].e, b[i].e));
                }
            }
        }
        delivery_laws::law_no_delivery_twice(m, s, tails, n - 1);
        delivery_laws::law_no_delivery_twice(m, t, tails, n - 1);
        lemma_raised_same(rules, a, b, x, y, rules.len() as int);
        input_laws::lemma_raised_push(rules, a, x);
        input_laws::lemma_raised_push(rules, b, y);
        let p = monitor::all_raised(rules, a, n - 1);
        let q = monitor::all_raised(rules, b, n - 1);
        let pn = monitor::raised(rules, a, x, rules.len() as int);
        let qn = monitor::raised(rules, b, y, rules.len() as int);
        assert forall|i: int| 0 <= i < (p + pn).len() implies shrink::key_of(
            #[trigger] (p + pn)[i],
        ) == shrink::key_of((q + qn)[i]) by {
            if i < p.len() {
                assert(shrink::key_of(p[i]) == shrink::key_of(q[i]));
            } else {
                assert(shrink::key_of(pn[i - p.len()]) == shrink::key_of(qn[i - p.len()]));
            }
        }
    }
}

/// Without a limit on bandwidth, what the datagrams carry has no part in a
/// failure: to the built-in rules, operations that differ in payloads alone show
/// the same failures.
pub proof fn law_payloads_show_nothing<T: TailSource>(
    m: ModelView,
    s: Seq<OpView>,
    t: Seq<OpView>,
    rules: Seq<BuiltIn>,
    tails: T,
)
    requires
        m.bandwidth_bps == 0,
        same_ops(s, t),
        s.len() < u64::MAX,
        shrink::unused(rules),
    ensures
        same_failures(
            input::executed(netcore::core_new(m), s, rules, tails).violations,
            input::executed(netcore::core_new(m), t, rules, tails).violations,
        ),
{
    lemma_same_run(m, s, t, rules, tails, s.len() as int);
}

// ---------------------------------------------------------------------------
// Leaving out
// ---------------------------------------------------------------------------

proof fn lemma_same_key(a: Seq<ViolationView>, b: Seq<ViolationView>, key: KeyView)
    requires
        same_failures(a, b),
        shrink::find_key(a, key, 0) < a.len(),
    ensures
        shrink::find_key(b, key, 0) < b.len(),
{
    shrink::lemma_find_key(a, key, 0);
    let i = shrink::find_key(a, key, 0);
    assert(shrink::key_of(a[i]) == shrink::key_of(b[i]));
    shrink_laws::lemma_finds(b, key, i, 0);
}

/// The operations that `collected` keeps.
spec fn keeps(ops: Seq<OpView>) -> spec_fn(OpView) -> bool {
    |o: OpView| shrink::removable(o) || shrink::acts(ops, input::conn_of(o))
}

proof fn lemma_collected(ops: Seq<OpView>, n: int)
    requires
        0 <= n <= ops.len(),
    ensures
        shrink::collected(ops, n) == ops.take(n).filter(keeps(ops)),
    decreases n,
{
    reveal(Seq::filter);
    if n > 0 {
        lemma_collected(ops, n - 1);
        assert(ops.take(n).drop_last() =~= ops.take(n - 1));
        assert(ops.take(n).last() == ops[n - 1]);
    } else {
        assert(ops.take(0).filter(keeps(ops)) =~= Seq::<OpView>::empty());
    }
}

/// Leaving out of what was kept is keeping of what is left.
proof fn lemma_remove_kept(s: Seq<OpView>, p: spec_fn(OpView) -> bool, i: int) -> (j: int)
    requires
        0 <= i < s.filter(p).len(),
    ensures
        0 <= j < s.len(),
        s[j] == s.filter(p)[i],
        s.filter(p).remove(i) == s.remove(j).filter(p),
    decreases s.len(),
{
    reveal(Seq::filter);
    let n = s.len() as int;
    if n == 0 {
        assert(s.filter(p) =~= Seq::<OpView>::empty());
        0
    } else {
        let r = s.drop_last();
        let x = s.last();
        if p(x) && i == r.filter(p).len() {
            assert(s.filter(p).remove(i) =~= r.filter(p));
            assert(s.remove(n - 1) =~= r);
            n - 1
        } else {
            let j = lemma_remove_kept(r, p, i);
            assert(s.remove(j) =~= r.remove(j).push(x));
            assert(s.remove(j).drop_last() =~= r.remove(j));
            if p(x) {
                assert(s.filter(p).remove(i) =~= r.filter(p).remove(i).push(x));
            }
            j
        }
    }
}

proof fn lemma_filter_twice(
    s: Seq<OpView>,
    p: spec_fn(OpView) -> bool,
    q: spec_fn(OpView) -> bool,
    r: spec_fn(OpView) -> bool,
)
    requires
        forall|i: int| 0 <= i < s.len() ==> (p(#[trigger] s[i]) && q(s[i]) <==> r(s[i])),
    ensures
        s.filter(p).filter(q) == s.filter(r),
    decreases s.len(),
{
    reveal(Seq::filter);
    if s.len() == 0 {
        assert(s.filter(p).filter(q) =~= s.filter(r));
    } else {
        let t = s.drop_last();
        assert forall|i: int| 0 <= i < t.len() implies (p(#[trigger] t[i]) && q(t[i]) <==> r(
            t[i],
        )) by {
            assert(t[i] == s[i]);
        }
        lemma_filter_twice(t, p, q, r);
        let x = s.last();
        assert(x == s[s.len() - 1]);
        if p(x) {
            let f = t.filter(p);
            assert(f.push(x).drop_last() =~= f);
            assert(f.push(x).last() == x);
        }
    }
}

/// Who acts in a sequence acts in what was kept of it.
proof fn lemma_acts_kept(s: Seq<OpView>, p: spec_fn(OpView) -> bool, conn: u64)
    requires
        forall|o: OpView| shrink::removable(o) ==> #[trigger] p(o),
    ensures
        shrink::acts(s.filter(p), conn) <==> shrink::acts(s, conn),
{
    broadcast use Seq::lemma_filter_contains, Seq::lemma_filter_contains_rev;

    let f = s.filter(p);
    if shrink::acts(f, conn) {
        let i = choose|i: int|
            0 <= i < f.len() && shrink::removable(#[trigger] f[i]) && input::conn_of(f[i]) == conn;
        assert(f.contains(f[i]));
        assert(s.contains(f[i]));
        let j = choose|j: int| 0 <= j < s.len() && s[j] == f[i];
        assert(shrink::removable(s[j]));
    }
    if shrink::acts(s, conn) {
        let i = choose|i: int|
            0 <= i < s.len() && shrink::removable(#[trigger] s[i]) && input::conn_of(s[i]) == conn;
        assert(p(s[i]));
        assert(f.contains(s[i]));
        let j = choose|j: int| 0 <= j < f.len() && f[j] == s[i];
        assert(shrink::removable(f[j]));
    }
}

proof fn lemma_acts_less(s: Seq<OpView>, j: int, conn: u64)
    requires
        0 <= j < s.len(),
        shrink::acts(s.remove(j), conn),
    ensures
        shrink::acts(s, conn),
{
    let e = s.remove(j);
    let i = choose|i: int|
        0 <= i < e.len() && shrink::removable(#[trigger] e[i]) && input::conn_of(e[i]) == conn;
    if i < j {
        assert(s[i] == e[i]);
    } else {
        assert(s[i + 1] == e[i]);
    }
}

/// Leaving an operation out of what `collected` kept, and leaving it out
/// before, come to the same once idle `Connect`s are dropped.
proof fn lemma_collected_less(d: Seq<OpView>, i: int) -> (j: int)
    requires
        0 <= i < shrink::collected(d, d.len() as int).len(),
    ensures
        0 <= j < d.len(),
        d[j] == shrink::collected(d, d.len() as int)[i],
        ({
            let x = shrink::collected(d, d.len() as int).remove(i);
            let e = d.remove(j);
            shrink::collected(x, x.len() as int) == shrink::collected(e, e.len() as int)
        }),
{
    let kd = keeps(d);
    lemma_collected(d, d.len() as int);
    assert(d.take(d.len() as int) =~= d);
    let j = lemma_remove_kept(d, kd, i);
    let e = d.remove(j);
    let x = shrink::collected(d, d.len() as int).remove(i);
    assert(x == e.filter(kd));
    lemma_collected(x, x.len() as int);
    assert(x.take(x.len() as int) =~= x);
    lemma_collected(e, e.len() as int);
    assert(e.take(e.len() as int) =~= e);
    assert forall|k: int| 0 <= k < e.len() implies (kd(#[trigger] e[k]) && keeps(x)(e[k])
        <==> keeps(e)(e[k])) by {
        let conn = input::conn_of(e[k]);
        lemma_acts_kept(e, kd, conn);
        if shrink::acts(e, conn) {
            lemma_acts_less(d, j, conn);
        }
    }
    lemma_filter_twice(e, kd, keeps(x), keeps(e));
    j
}

proof fn lemma_cuts_same(
    bad: spec_fn(Seq<OpView>) -> bool,
    ops: Seq<OpView>,
    i: int,
    count: nat,
)
    ensures
        same_ops(ops, shrink::cuts(bad, ops, i, count).0),
    decreases ops.len() - i,
{
    if i < 0 || i >= ops.len() || count >= shrink::MAX_EXECUTIONS {
    } else if !shrink::is_long(ops[i]) {
        lemma_cuts_same(bad, ops, i + 1, count);
    } else {
        let candidate = ops.update(i, shrink::cut(ops[i]));
        if bad(candidate) {
            lemma_cuts_same(bad, candidate, i + 1, count + 1);
            let r = shrink::cuts(bad, candidate, i + 1, count + 1).0;
            assert forall|k: int| 0 <= k < ops.len() implies same_op(#[trigger] ops[k], r[k]) by {
                assert(same_op(candidate[k], r[k]));
            }
        } else {
            lemma_cuts_same(bad, ops, i + 1, count + 1);
        }
    }
}

/// What shrinking returns under the built-in rules, without a limit on
/// bandwidth and within the bound on executions, is minimal: it still shows the
/// failure, and without any one of its operations but a `Connect` it does not.
/// Operations were only left out, and payloads cut.
pub proof fn law_shrunk_is_one_minimal<T: TailSource>(
    seed: u64,
    net: Seq<char>,
    readings: Seq<Option<u64>>,
    ops: Seq<OpView>,
    rules: Seq<BuiltIn>,
    tails: T,
    key: KeyView,
)
    requires
        ops.len() < u64::MAX,
        shrink::unused(rules),
        shrink::shows(seed, net, readings, rules, tails, key)(ops),
        config::model_of(
            seed,
            config::clauses_of(net),
            readings,
            readings.len() as int,
        )->Ok_0.bandwidth_bps == 0,
        ({
            let bad = shrink::shows(seed, net, readings, rules, tails, key);
            let first = shrink::first_failure(
                input::execution_of(seed, net, readings, ops, rules, tails),
                key,
            );
            !shrink::shrunk(bad, ops, first).1.budget_exhausted
        }),
    ensures
        ({
            let bad = shrink::shows(seed, net, readings, rules, tails, key);
            let first = shrink::first_failure(
                input::execution_of(seed, net, readings, ops, rules, tails),
                key,
            );
            let (small, stats) = shrink::shrunk(bad, ops, first);
            &&& bad(small)
            &&& shrink_laws::one_minimal(bad, small)
            &&& shrink_laws::pared(small, ops)
            &&& ops.len() <= usize::MAX ==> stats.ops_after == small.len()
        }),
{
    let bad = shrink::shows(seed, net, readings, rules, tails, key);
    let first = shrink::first_failure(
        input::execution_of(seed, net, readings, ops, rules, tails),
        key,
    );
    let k = first.unwrap();
    let m = config::model_of(
        seed,
        config::clauses_of(net),
        readings,
        readings.len() as int,
    )->Ok_0;
    let start = netcore::core_new(m);
    reproducer_laws::law_shrunk_fails_alike(seed, net, readings, ops, rules, tails, key);
    shrink_laws::law_cut_still_fails(seed, net, readings, ops, rules, tails, key);
    shrink_laws::law_shrunk_is_minimal(bad, ops, k);
    let (a, c1) = shrink::ddmin(bad, ops.take(k + 1), 2, 1);
    let (b, c2) = shrink::sweeps(bad, a, c1);
    let d = shrink::minimized(bad, ops, k as int).0;
    let small = shrink::collected(d, d.len() as int);
    reproducer_laws::lemma_shrunk_collected(seed, net, readings, ops, rules, tails, key);
    shrink_laws::lemma_minimized_pared(bad, ops, k as int);
    shrink_laws::lemma_pared_len(d, ops);
    shrink_laws::lemma_pared_len(small, ops);
    lemma_cuts_same(bad, b, 0, c2);
    assert forall|i: int| 0 <= i < small.len() && shrink::removable(
        #[trigger] small[i],
    ) implies !bad(small.remove(i)) by {
        let j = lemma_collected_less(d, i);
        let x = small.remove(i);
        let e = d.remove(j);
        let f = b.remove(j);
        assert(same_op(b[j], d[j]));
        assert(!bad(f));
        assert(same_ops(e, f)) by {
            assert forall|n: int| 0 <= n < e.len() implies same_op(#[trigger] e[n], f[n]) by {
                if n < j {
                    assert(same_op(b[n], d[n]));
                } else {
                    assert(same_op(b[n + 1], d[n + 1]));
                }
            }
        }
        if bad(x) {
            let y = shrink::collected(x, x.len() as int);
            reproducer_laws::law_idle_connects_show_nothing(m, x, rules, tails);
            reproducer_laws::law_idle_connects_show_nothing(m, e, rules, tails);
            let vx = input::executed(start, x, rules, tails).violations;
            let vy = input::executed(start, y, rules, tails).violations;
            let ve = input::executed(start, e, rules, tails).violations;
            let vf = input::executed(start, f, rules, tails).violations;
            lemma_findings_failures(vx, vy);
            lemma_same_key(vx, vy, key);
            lemma_findings_failures(ve, vy);
            lemma_failures_back(ve, vy);
            lemma_same_key(vy, ve, key);
            law_payloads_show_nothing(m, e, f, rules, tails);
            lemma_same_key(ve, vf, key);
            assert(bad(f));
        }
    }
}

proof fn lemma_findings_failures(a: Seq<ViolationView>, b: Seq<ViolationView>)
    requires
        input_laws::same_findings(a, b),
    ensures
        same_failures(a, b),
{
    assert forall|i: int| 0 <= i < a.len() implies shrink::key_of(#[trigger] a[i])
        == shrink::key_of(b[i]) by {
        assert(input_laws::same_finding(a[i], b[i]));
    }
}

proof fn lemma_failures_back(a: Seq<ViolationView>, b: Seq<ViolationView>)
    requires
        same_failures(a, b),
    ensures
        same_failures(b, a),
{
    assert forall|i: int| 0 <= i < b.len() implies shrink::key_of(#[trigger] b[i])
        == shrink::key_of(a[i]) by {
        assert(shrink::key_of(a[i]) == shrink::key_of(b[i]));
    }
}

} // verus!
