//! Laws of reproducers: what a shrunk failure's log says when it is replayed.

use vstd::prelude::*;

use crate::config;
use crate::delivery_laws;
use crate::fault::{ModelView, TailSource};
use crate::fuzz;
use crate::fuzz::HitView;
use crate::fuzz_config::ConfigView;
use crate::input;
use crate::input::OpView;
use crate::input_laws;
use crate::log::LogView;
use crate::monitor;
use crate::monitor::{BuiltIn, Invariant, Seen, ViolationView};
use crate::netcore;
use crate::netcore::CoreModel;
use crate::replay;
use crate::shrink;
use crate::shrink::KeyView;
use crate::shrink_laws;
use crate::wire::VAddr;

verus! {

// ---------------------------------------------------------------------------
// Idle connections
// ---------------------------------------------------------------------------

/// `g` is `c` without what idle connections of `ops` left in it.
pub open spec fn without_idle(c: CoreModel, g: CoreModel, ops: Seq<OpView>) -> bool {
    &&& g == CoreModel { queues: g.queues, ..c }
    &&& forall|x: u64|
        shrink::acts(ops, x) ==> (c.queues.contains_key(x) <==> #[trigger] g.queues.contains_key(x))
    &&& forall|x: u64|
        shrink::acts(ops, x) && c.queues.contains_key(x) ==> c.queues[x] == #[trigger] g.queues[x]
    &&& forall|a: VAddr|
        #[trigger] c.bound.contains_key(a) ==> shrink::acts(ops, c.bound[a])
}

/// Whether the operation at `i` is the `Connect` of an idle connection.
pub open spec fn idle(ops: Seq<OpView>, i: int) -> bool {
    !shrink::removable(ops[i]) && !shrink::acts(ops, input::conn_of(ops[i]))
}

proof fn lemma_same_step<T: TailSource>(
    c: CoreModel,
    g: CoreModel,
    ops: Seq<OpView>,
    i: int,
    tails: T,
)
    requires
        0 <= i < ops.len(),
        without_idle(c, g, ops),
        !idle(ops, i),
    ensures
        input::applied(c, ops[i], tails).1 == input::applied(g, ops[i], tails).1,
        without_idle(
            input::applied(c, ops[i], tails).0,
            input::applied(g, ops[i], tails).0,
            ops,
        ),
{
    let o = ops[i];
    assert(shrink::acts(ops, input::conn_of(o)));
    match o {
        OpView::Connect { conn } => {
            assert(c.queues.contains_key(conn) <==> g.queues.contains_key(conn));
        },
        OpView::Recv { conn, blocking } => {
            assert(c.queues.contains_key(conn) <==> g.queues.contains_key(conn));
            if c.queues.contains_key(conn) {
                assert(c.queues[conn] == g.queues[conn]);
            }
        },
        OpView::Send { conn, src, dst, payload } => {
            if c.bound.contains_key(dst) {
                let x = c.bound[dst];
                assert(shrink::acts(ops, x));
                assert(c.queues.contains_key(x) <==> g.queues.contains_key(x));
                if c.queues.contains_key(x) {
                    assert(c.queues[x] == g.queues[x]);
                }
            }
        },
        _ => {},
    }
}

proof fn lemma_idle_step<T: TailSource>(
    c: CoreModel,
    g: CoreModel,
    ops: Seq<OpView>,
    i: int,
    tails: T,
)
    requires
        0 <= i < ops.len(),
        without_idle(c, g, ops),
        idle(ops, i),
    ensures
        without_idle(input::applied(c, ops[i], tails).0, g, ops),
        input::applied(c, ops[i], tails).0.vt == c.vt,
        input::applied(c, ops[i], tails).1 is Connect,
{
}

// ---------------------------------------------------------------------------
// What the rules find
// ---------------------------------------------------------------------------

/// The rule on delivery order has learnt the same.
pub open spec fn same_order(a: Seq<Seen>, b: Seq<Seen>) -> bool {
    monitor::scheduled(a) == monitor::scheduled(b) && monitor::highest(a) == monitor::highest(b)
}

proof fn lemma_order_push(a: Seq<Seen>, b: Seq<Seen>, x: Seen, y: Seen)
    requires
        same_order(a, b),
        x.e == y.e,
    ensures
        same_order(a.push(x), b.push(y)),
{
    assert(a.push(x).drop_last() =~= a);
    assert(b.push(y).drop_last() =~= b);
}

proof fn lemma_order_idle(a: Seq<Seen>, b: Seq<Seen>, x: Seen)
    requires
        same_order(a, b),
        x.e is Connect,
    ensures
        same_order(a.push(x), b),
{
    assert(a.push(x).drop_last() =~= a);
}

proof fn lemma_raised_same(
    rules: Seq<BuiltIn>,
    a: Seq<Seen>,
    b: Seq<Seen>,
    x: Seen,
    y: Seen,
    n: int,
)
    requires
        shrink::unused(rules),
        same_order(a, b),
        input_laws::like(x, y),
        monitor::duplicate_verdict(a, x.e) is None,
        monitor::duplicate_verdict(b, y.e) is None,
        0 <= n <= rules.len(),
    ensures
        input_laws::same_findings(
            monitor::raised(rules, a, x, n),
            monitor::raised(rules, b, y, n),
        ),
    decreases n,
{
    if n > 0 {
        lemma_raised_same(rules, a, b, x, y, n - 1);
        let rule = rules[n - 1];
        assert(rule.history() + a =~= a);
        assert(rule.history() + b =~= b);
        assert(rule.verdict(a, x) == rule.verdict(b, y)) by {
            match rule {
                BuiltIn::Fifo(r) => {},
                BuiltIn::Dup(r) => {
                    assert(r.verdict(a, x) is None);
                    assert(r.verdict(b, y) is None);
                },
            }
        }
    }
}

proof fn lemma_raised_idle(rules: Seq<BuiltIn>, a: Seq<Seen>, x: Seen, n: int)
    requires
        x.e is Connect,
        0 <= n <= rules.len(),
    ensures
        monitor::raised(rules, a, x, n) == Seq::<ViolationView>::empty(),
    decreases n,
{
    if n > 0 {
        lemma_raised_idle(rules, a, x, n - 1);
        let rule = rules[n - 1];
        let h = rule.history() + a;
        assert(rule.verdict(h, x) is None) by {
            match rule {
                BuiltIn::Fifo(r) => {
                    assert(r.verdict(h, x) is None);
                },
                BuiltIn::Dup(r) => {
                    assert(r.verdict(h, x) is None);
                },
            }
        }
    }
}

/// Executing the first `n` operations of `ops` goes as executing what is left
/// of them without the idle `Connect`s.
pub open spec fn goes_alike<T: TailSource>(
    m: ModelView,
    ops: Seq<OpView>,
    rules: Seq<BuiltIn>,
    tails: T,
    n: int,
) -> bool {
    let start = netcore::core_new(m);
    let left = shrink::collected(ops, n);
    let k = left.len() as int;
    let a = input::events_at(start, ops, tails, n);
    let b = input::events_at(start, left, tails, k);
    &&& k <= n
    &&& without_idle(
        input::core_at(start, ops, tails, n),
        input::core_at(start, left, tails, k),
        ops,
    )
    &&& same_order(a, b)
    &&& input_laws::same_findings(
        monitor::all_raised(rules, a, n),
        monitor::all_raised(rules, b, k),
    )
}

proof fn lemma_goes_alike<T: TailSource>(
    m: ModelView,
    ops: Seq<OpView>,
    rules: Seq<BuiltIn>,
    tails: T,
    n: int,
)
    requires
        0 <= n <= ops.len() < u64::MAX,
        shrink::unused(rules),
    ensures
        goes_alike(m, ops, rules, tails, n),
    decreases n,
{
    let start = netcore::core_new(m);
    if n == 0 {
        let left = shrink::collected(ops, 0);
        assert(input::events_at(start, ops, tails, 0) =~= Seq::<Seen>::empty());
        assert(input::events_at(start, left, tails, 0) =~= Seq::<Seen>::empty());
    } else {
        lemma_goes_alike(m, ops, rules, tails, n - 1);
        let c = input::core_at(start, ops, tails, n - 1);
        let a = input::events_at(start, ops, tails, n - 1);
        let x = input::event_at(start, ops, tails, n - 1);
        assert(input::events_at(start, ops, tails, n) =~= a.push(x));
        input_laws::lemma_raised_push(rules, a, x);
        let left = shrink::collected(ops, n - 1);
        let k = left.len() as int;
        let g = input::core_at(start, left, tails, k);
        let b = input::events_at(start, left, tails, k);
        if idle(ops, n - 1) {
            lemma_idle_step(c, g, ops, n - 1, tails);
            lemma_order_idle(a, b, x);
            lemma_raised_idle(rules, a, x, rules.len() as int);
        } else {
            let more = left.push(ops[n - 1]);
            let y = input::event_at(start, more, tails, k);
            assert(more.take(k) =~= left);
            shrink_laws::lemma_events_prefix(start, more, tails, k);
            shrink_laws::lemma_core_prefix(start, more, left, tails, k);
            assert(input::events_at(start, more, tails, k + 1) =~= b.push(y));
            lemma_same_step(c, g, ops, n - 1, tails);
            delivery_laws::law_no_delivery_twice(m, ops, tails, n - 1);
            delivery_laws::law_no_delivery_twice(m, more, tails, k);
            lemma_order_push(a, b, x, y);
            lemma_raised_same(rules, a, b, x, y, rules.len() as int);
            input_laws::lemma_findings_grow(
                rules,
                monitor::all_raised(rules, a, n - 1),
                monitor::raised(rules, a, x, rules.len() as int),
                b,
                y,
            );
        }
    }
}

/// A `Connect` whose connection does nothing else has no part in a failure: to
/// the built-in rules, an execution without such `Connect`s shows the same.
pub proof fn law_idle_connects_show_nothing<T: TailSource>(
    m: ModelView,
    ops: Seq<OpView>,
    rules: Seq<BuiltIn>,
    tails: T,
)
    requires
        ops.len() < u64::MAX,
        shrink::unused(rules),
    ensures
        input_laws::same_findings(
            input::executed(netcore::core_new(m), ops, rules, tails).violations,
            input::executed(
                netcore::core_new(m),
                shrink::collected(ops, ops.len() as int),
                rules,
                tails,
            ).violations,
        ),
{
    lemma_goes_alike(m, ops, rules, tails, ops.len() as int);
}

/// The same findings show the same failures.
proof fn lemma_same_key(a: Seq<ViolationView>, b: Seq<ViolationView>, key: KeyView)
    requires
        input_laws::same_findings(a, b),
        shrink::find_key(a, key, 0) < a.len(),
    ensures
        shrink::find_key(b, key, 0) < b.len(),
{
    shrink::lemma_find_key(a, key, 0);
    let i = shrink::find_key(a, key, 0);
    assert(input_laws::same_finding(a[i], b[i]));
    shrink_laws::lemma_finds(b, key, i, 0);
}

/// Under the built-in rules the last pass never loses the failure, so its result
/// is what shrinking returns.
pub proof fn lemma_shrunk_collected<T: TailSource>(
    seed: u64,
    net: Seq<char>,
    readings: Seq<Option<u64>>,
    ops: Seq<OpView>,
    rules: Seq<BuiltIn>,
    tails: T,
    key: KeyView,
)
    requires
        ops.len() < u64::MAX,
        shrink::unused(rules),
        shrink::shows(seed, net, readings, rules, tails, key)(ops),
    ensures
        ({
            let bad = shrink::shows(seed, net, readings, rules, tails, key);
            let first = shrink::first_failure(
                input::execution_of(seed, net, readings, ops, rules, tails),
                key,
            );
            let d = shrink::minimized(bad, ops, first.unwrap() as int).0;
            let e = shrink::collected(d, d.len() as int);
            &&& first is Some && first.unwrap() < ops.len()
            &&& bad(e)
            &&& shrink::shrunk(bad, ops, first).0 == e
        }),
{
    let bad = shrink::shows(seed, net, readings, rules, tails, key);
    let first = shrink::first_failure(
        input::execution_of(seed, net, readings, ops, rules, tails),
        key,
    );
    let k = first.unwrap();
    shrink_laws::law_cut_still_fails(seed, net, readings, ops, rules, tails, key);
    shrink_laws::law_shrunk_still_fails(bad, ops, k);
    let d = shrink::minimized(bad, ops, k as int).0;
    let e = shrink::collected(d, d.len() as int);
    shrink_laws::lemma_minimized_pared(bad, ops, k as int);
    shrink_laws::lemma_pared_len(d, ops);
    let m = config::model_of(
        seed,
        config::clauses_of(net),
        readings,
        readings.len() as int,
    )->Ok_0;
    law_idle_connects_show_nothing(m, d, rules, tails);
    lemma_same_key(
        input::executed(netcore::core_new(m), d, rules, tails).violations,
        input::executed(netcore::core_new(m), e, rules, tails).violations,
        key,
    );
    assert(bad(e));
}

/// Under the built-in rules what is shrunk still fails as `ops` did, and only
/// leaves out operations and cuts payloads.
pub proof fn law_shrunk_fails_alike<T: TailSource>(
    seed: u64,
    net: Seq<char>,
    readings: Seq<Option<u64>>,
    ops: Seq<OpView>,
    rules: Seq<BuiltIn>,
    tails: T,
    key: KeyView,
)
    requires
        ops.len() < u64::MAX,
        shrink::unused(rules),
        shrink::shows(seed, net, readings, rules, tails, key)(ops),
    ensures
        ({
            let bad = shrink::shows(seed, net, readings, rules, tails, key);
            let first = shrink::first_failure(
                input::execution_of(seed, net, readings, ops, rules, tails),
                key,
            );
            let small = shrink::shrunk(bad, ops, first).0;
            bad(small) && shrink_laws::pared(small, ops)
        }),
{
    let bad = shrink::shows(seed, net, readings, rules, tails, key);
    let first = shrink::first_failure(
        input::execution_of(seed, net, readings, ops, rules, tails),
        key,
    );
    lemma_shrunk_collected(seed, net, readings, ops, rules, tails, key);
    shrink_laws::law_shrinking_only_pares(bad, ops, first);
}

// ---------------------------------------------------------------------------
// Replaying a reproducer
// ---------------------------------------------------------------------------

/// The log that the reproducer of a failure is written as.
pub open spec fn reproducer_log<T: TailSource>(
    c: ConfigView,
    readings: Seq<Option<u64>>,
    ops: Seq<OpView>,
    h: HitView,
    tails: T,
) -> LogView {
    let seed = h.seeds[0];
    let (small, stats) = fuzz::repro_ops(c, readings, ops, h, tails);
    let head = input::exec_header(seed, c.net, fuzz::repro_label(seed, h.key, stats));
    let m = config::model_of(
        seed,
        config::clauses_of(c.net),
        readings,
        readings.len() as int,
    )->Ok_0;
    let events = input::recording(
        head,
        netcore::core_new(m),
        small,
        fuzz::rules_of(c.invariants),
        tails,
    );
    LogView { header: head, records: input_laws::records_of(head, events) }
}

/// The reproducer of a failure replays identically and fails as the seed did;
/// its inputs are those that were generated, with operations left out and
/// payloads cut.
pub proof fn law_reproducer_replays<T: TailSource>(
    c: ConfigView,
    readings: Seq<Option<u64>>,
    ops: Seq<OpView>,
    h: HitView,
    tails: T,
)
    requires
        ops.len() < u64::MAX,
        shrink::unused(fuzz::rules_of(c.invariants)),
        shrink::shows(
            h.seeds[0],
            c.net,
            readings,
            fuzz::rules_of(c.invariants),
            tails,
            h.key,
        )(ops),
    ensures
        ({
            let log = reproducer_log(c, readings, ops, h, tails);
            let rules = fuzz::rules_of(c.invariants);
            let r = replay::replay_of(log, readings, rules, None, tails);
            &&& r is Ok
            &&& r->Ok_0.identical
            &&& shrink::find_key(r->Ok_0.violations, h.key, 0) < r->Ok_0.violations.len()
            &&& shrink_laws::pared(
                input::inputs_of(log.records, log.records.len() as int),
                ops,
            )
        }),
{
    let seed = h.seeds[0];
    let rules = fuzz::rules_of(c.invariants);
    let (small, stats) = fuzz::repro_ops(c, readings, ops, h, tails);
    let head = input::exec_header(seed, c.net, fuzz::repro_label(seed, h.key, stats));
    let m = config::model_of(
        seed,
        config::clauses_of(c.net),
        readings,
        readings.len() as int,
    )->Ok_0;
    if c.shrink {
        law_shrunk_fails_alike(seed, c.net, readings, ops, rules, tails, h.key);
    } else {
        shrink_laws::lemma_pared_same(ops);
    }
    shrink_laws::lemma_pared_len(small, ops);
    input_laws::law_recorded_execution_checks_built_in(head, m, small, rules, tails);
    input_laws::law_inputs_round_trip(head, m, small, rules, tails);
    let log = reproducer_log(c, readings, ops, h, tails);
    let found = replay::replay_of(log, readings, rules, None, tails)->Ok_0.violations;
    let shown = input::executed(netcore::core_new(m), small, rules, tails).violations;
    assert(input_laws::same_findings(shown, found)) by {
        assert forall|i: int| 0 <= i < shown.len() implies input_laws::same_finding(
            #[trigger] shown[i],
            found[i],
        ) by {
            assert(input_laws::same_finding(found[i], shown[i]));
        }
    }
    lemma_same_key(shown, found, h.key);
}

} // verus!
