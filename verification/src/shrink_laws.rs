//! Laws of shrinking: the result still fails, nothing is added or reordered,
//! and no single operation could have been left out as well.

use vstd::prelude::*;

use crate::config;
use crate::fault::TailSource;
use crate::input;
use crate::input::OpView;
use crate::monitor;
use crate::monitor::{Invariant, Seen};
use crate::netcore;
use crate::netcore::CoreModel;
use crate::shrink;
use crate::shrink::{KeyView, MAX_EXECUTIONS};

verus! {

// ---------------------------------------------------------------------------
// Only leaving out
// ---------------------------------------------------------------------------

/// The same operation, or one with its payload cut.
pub open spec fn lighter(a: OpView, b: OpView) -> bool {
    a == b || (shrink::is_long(b) && a == shrink::cut(b))
}

/// `a` is `b` with operations left out and payloads cut.
pub open spec fn pared(a: Seq<OpView>, b: Seq<OpView>) -> bool
    decreases b.len(),
{
    ||| a.len() == 0
    ||| b.len() > 0 && lighter(a.last(), b.last()) && pared(a.drop_last(), b.drop_last())
    ||| b.len() > 0 && pared(a, b.drop_last())
}

pub proof fn lemma_pared_same(a: Seq<OpView>)
    ensures
        pared(a, a),
    decreases a.len(),
{
    if a.len() > 0 {
        lemma_pared_same(a.drop_last());
    }
}

pub proof fn lemma_pared_push(a: Seq<OpView>, b: Seq<OpView>, x: OpView, y: OpView)
    requires
        pared(a, b),
    ensures
        pared(a, b.push(y)),
        lighter(x, y) ==> pared(a.push(x), b.push(y)),
{
    assert(b.push(y).drop_last() =~= b);
    assert(a.push(x).drop_last() =~= a);
}

pub proof fn lemma_pared_through(a: Seq<OpView>, b: Seq<OpView>, c: Seq<OpView>)
    requires
        pared(a, b),
        pared(b, c),
    ensures
        pared(a, c),
    decreases c.len(),
{
    if a.len() > 0 {
        if b.len() > 0 && c.len() > 0 && lighter(b.last(), c.last()) && pared(
            b.drop_last(),
            c.drop_last(),
        ) {
            if lighter(a.last(), b.last()) && pared(a.drop_last(), b.drop_last()) {
                lemma_pared_through(a.drop_last(), b.drop_last(), c.drop_last());
                lemma_lighter(a.last(), b.last(), c.last());
            } else {
                lemma_pared_through(a, b.drop_last(), c.drop_last());
            }
        } else {
            lemma_pared_through(a, b, c.drop_last());
        }
    }
}

proof fn lemma_lighter(a: OpView, b: OpView, c: OpView)
    requires
        lighter(a, b),
        lighter(b, c),
    ensures
        lighter(a, c),
{
}

pub proof fn lemma_pared_take(b: Seq<OpView>, k: int)
    requires
        0 <= k <= b.len(),
    ensures
        pared(b.take(k), b),
    decreases b.len() - k,
{
    if k == b.len() {
        assert(b.take(k) =~= b);
        lemma_pared_same(b);
    } else {
        let p = b.drop_last();
        assert(b.take(k) =~= p.take(k));
        lemma_pared_take(p, k);
    }
}

pub proof fn lemma_pared_without(ops: Seq<OpView>, lo: nat, hi: nat)
    ensures
        pared(shrink::without(ops, lo, hi), ops),
    decreases ops.len(),
{
    if ops.len() > 0 {
        let rest = ops.drop_last();
        lemma_pared_without(rest, lo, hi);
        lemma_pared_push(shrink::without(rest, lo, hi), rest, ops.last(), ops.last());
        assert(rest.push(ops.last()) =~= ops);
    }
}

pub proof fn lemma_pared_remove(ops: Seq<OpView>, i: int)
    requires
        0 <= i < ops.len(),
    ensures
        pared(ops.remove(i), ops),
    decreases ops.len(),
{
    let rest = ops.drop_last();
    assert(rest.push(ops.last()) =~= ops);
    if i == ops.len() - 1 {
        assert(ops.remove(i) =~= rest);
        lemma_pared_same(rest);
        lemma_pared_push(rest, rest, ops.last(), ops.last());
    } else {
        lemma_pared_remove(rest, i);
        assert(ops.remove(i) =~= rest.remove(i).push(ops.last()));
        lemma_pared_push(rest.remove(i), rest, ops.last(), ops.last());
    }
}

pub proof fn lemma_pared_cut(ops: Seq<OpView>, i: int)
    requires
        0 <= i < ops.len(),
        shrink::is_long(ops[i]),
    ensures
        pared(ops.update(i, shrink::cut(ops[i])), ops),
    decreases ops.len(),
{
    let rest = ops.drop_last();
    let x = shrink::cut(ops[i]);
    assert(rest.push(ops.last()) =~= ops);
    if i == ops.len() - 1 {
        assert(ops.update(i, x) =~= rest.push(x));
        lemma_pared_same(rest);
        lemma_pared_push(rest, rest, x, ops.last());
    } else {
        lemma_pared_cut(rest, i);
        assert(ops.update(i, x) =~= rest.update(i, x).push(ops.last()));
        lemma_pared_push(rest.update(i, x), rest, ops.last(), ops.last());
    }
}

proof fn lemma_pared_collected(ops: Seq<OpView>, n: int)
    requires
        0 <= n <= ops.len(),
    ensures
        pared(shrink::collected(ops, n), ops.take(n)),
    decreases n,
{
    if n > 0 {
        lemma_pared_collected(ops, n - 1);
        lemma_pared_push(
            shrink::collected(ops, n - 1),
            ops.take(n - 1),
            ops[n - 1],
            ops[n - 1],
        );
        assert(ops.take(n) =~= ops.take(n - 1).push(ops[n - 1]));
    }
}

proof fn lemma_tried_pared(
    bad: spec_fn(Seq<OpView>) -> bool,
    ops: Seq<OpView>,
    size: nat,
    k: nat,
    count: nat,
)
    ensures
        shrink::tried(bad, ops, size, k, count).0 matches Some(s) ==> pared(s, ops) && bad(s),
    decreases k,
{
    if k > 0 {
        lemma_tried_pared(bad, ops, size, (k - 1) as nat, count);
        lemma_pared_without(ops, ((k - 1) * size) as nat, (k * size) as nat);
    }
}

/// The second pass leaves out, and what fails keeps failing.
pub proof fn lemma_ddmin(
    bad: spec_fn(Seq<OpView>) -> bool,
    ops: Seq<OpView>,
    n: nat,
    count: nat,
)
    ensures
        pared(shrink::ddmin(bad, ops, n, count).0, ops),
        bad(ops) ==> bad(shrink::ddmin(bad, ops, n, count).0),
    decreases shrink::removables(ops), shrink::removables(ops) - n,
{
    let r = shrink::removables(ops);
    if r < 2 || n > r || n < 2 || count >= MAX_EXECUTIONS {
        lemma_pared_same(ops);
    } else {
        shrink::lemma_round(bad, ops, n, count);
        let size = shrink::div_up(r, n);
        lemma_tried_pared(bad, ops, size, shrink::div_up(r, size), count);
        match shrink::round(bad, ops, n, count) {
            (Some(s), c) => {
                let m = if n > 2 {
                    (n - 1) as nat
                } else {
                    2
                };
                lemma_ddmin(bad, s, m, c);
                lemma_pared_through(shrink::ddmin(bad, s, m, c).0, s, ops);
            },
            (None, c) => {
                if n >= r {
                    lemma_pared_same(ops);
                } else {
                    lemma_ddmin(
                        bad,
                        ops,
                        if n * 2 < r {
                            n * 2
                        } else {
                            r
                        },
                        c,
                    );
                }
            },
        }
    }
}

proof fn lemma_sweep_pared(
    bad: spec_fn(Seq<OpView>) -> bool,
    ops: Seq<OpView>,
    i: int,
    count: nat,
)
    requires
        0 <= i,
    ensures
        pared(shrink::sweep(bad, ops, i, count).0, ops),
    decreases ops.len() - i,
{
    if i >= ops.len() {
        lemma_pared_same(ops);
    } else if !shrink::removable(ops[i]) {
        lemma_sweep_pared(bad, ops, i + 1, count);
    } else if bad(ops.remove(i)) {
        lemma_sweep_pared(bad, ops.remove(i), i, count + 1);
        lemma_pared_remove(ops, i);
        lemma_pared_through(
            shrink::sweep(bad, ops.remove(i), i, count + 1).0,
            ops.remove(i),
            ops,
        );
    } else {
        lemma_sweep_pared(bad, ops, i + 1, count + 1);
    }
}

/// The third pass leaves out, and what fails keeps failing.
pub proof fn lemma_sweeps(bad: spec_fn(Seq<OpView>) -> bool, ops: Seq<OpView>, count: nat)
    ensures
        pared(shrink::sweeps(bad, ops, count).0, ops),
        bad(ops) ==> bad(shrink::sweeps(bad, ops, count).0),
        count <= shrink::sweeps(bad, ops, count).1,
    decreases ops.len(),
{
    if count >= MAX_EXECUTIONS {
        lemma_pared_same(ops);
    } else {
        let (s, c) = shrink::sweep(bad, ops, 0, count);
        shrink::lemma_sweep(bad, ops, 0, count);
        lemma_sweep_pared(bad, ops, 0, count);
        if s.len() < ops.len() {
            lemma_sweeps(bad, s, c);
            lemma_pared_through(shrink::sweeps(bad, s, c).0, s, ops);
        }
    }
}

/// The fourth pass only cuts payloads, and what fails keeps failing.
pub proof fn lemma_cuts(
    bad: spec_fn(Seq<OpView>) -> bool,
    ops: Seq<OpView>,
    i: int,
    count: nat,
)
    ensures
        pared(shrink::cuts(bad, ops, i, count).0, ops),
        bad(ops) ==> bad(shrink::cuts(bad, ops, i, count).0),
        count <= shrink::cuts(bad, ops, i, count).1,
    decreases ops.len() - i,
{
    if i < 0 || i >= ops.len() || count >= MAX_EXECUTIONS {
        lemma_pared_same(ops);
    } else if !shrink::is_long(ops[i]) {
        lemma_cuts(bad, ops, i + 1, count);
    } else {
        let candidate = ops.update(i, shrink::cut(ops[i]));
        lemma_pared_cut(ops, i);
        if bad(candidate) {
            lemma_cuts(bad, candidate, i + 1, count + 1);
            lemma_pared_through(
                shrink::cuts(bad, candidate, i + 1, count + 1).0,
                candidate,
                ops,
            );
        } else {
            lemma_cuts(bad, ops, i + 1, count + 1);
        }
    }
}

/// The first four passes only leave out operations and cut payloads.
pub proof fn lemma_minimized_pared(
    bad: spec_fn(Seq<OpView>) -> bool,
    ops: Seq<OpView>,
    k: int,
)
    requires
        0 <= k < ops.len(),
    ensures
        pared(shrink::minimized(bad, ops, k).0, ops),
{
    let top = ops.take(k + 1);
    let (a, c1) = shrink::ddmin(bad, top, 2, 1);
    let (b, c2) = shrink::sweeps(bad, a, c1);
    let (d, c3) = shrink::cuts(bad, b, 0, c2);
    lemma_pared_take(ops, k + 1);
    lemma_ddmin(bad, top, 2, 1);
    lemma_sweeps(bad, a, c1);
    lemma_cuts(bad, b, 0, c2);
    lemma_pared_through(a, top, ops);
    lemma_pared_through(b, a, ops);
    lemma_pared_through(d, b, ops);
}

/// Shrinking only leaves out operations and cuts payloads: it reorders nothing
/// and changes nothing else. The one exception is a result without its idle
/// `Connect`s that does not fail any more.
pub proof fn law_shrinking_only_pares(
    bad: spec_fn(Seq<OpView>) -> bool,
    ops: Seq<OpView>,
    first: Option<u64>,
)
    requires
        first matches Some(k) ==> k < ops.len(),
        ({
            let d = shrink::minimized(bad, ops, first.unwrap() as int).0;
            first is Some ==> bad(shrink::collected(d, d.len() as int))
        }),
    ensures
        pared(shrink::shrunk(bad, ops, first).0, ops),
{
    match first {
        None => {
            lemma_pared_same(ops);
        },
        Some(k) => {
            let d = shrink::minimized(bad, ops, k as int).0;
            let e = shrink::collected(d, d.len() as int);
            lemma_minimized_pared(bad, ops, k as int);
            lemma_pared_collected(d, d.len() as int);
            assert(d.take(d.len() as int) =~= d);
            lemma_pared_through(e, d, ops);
        },
    }
}

/// What is shrunk still fails, except where a sequence fails with its idle
/// `Connect`s and does not fail without them.
pub proof fn law_shrunk_still_fails(
    bad: spec_fn(Seq<OpView>) -> bool,
    ops: Seq<OpView>,
    k: u64,
)
    requires
        k < ops.len(),
        bad(ops.take(k + 1)),
    ensures
        ({
            let d = shrink::minimized(bad, ops, k as int).0;
            &&& bad(d)
            &&& bad(shrink::shrunk(bad, ops, Some(k)).0) || !bad(
                shrink::collected(d, d.len() as int),
            )
        }),
{
    let (a, c1) = shrink::ddmin(bad, ops.take(k + 1), 2, 1);
    let (b, c2) = shrink::sweeps(bad, a, c1);
    lemma_ddmin(bad, ops.take(k + 1), 2, 1);
    lemma_sweeps(bad, a, c1);
    lemma_cuts(bad, b, 0, c2);
}

pub proof fn lemma_pared_len(a: Seq<OpView>, b: Seq<OpView>)
    requires
        pared(a, b),
    ensures
        a.len() <= b.len(),
    decreases b.len(),
{
    if a.len() > 0 && b.len() > 0 {
        if lighter(a.last(), b.last()) && pared(a.drop_last(), b.drop_last()) {
            lemma_pared_len(a.drop_last(), b.drop_last());
        } else {
            lemma_pared_len(a, b.drop_last());
        }
    }
}

proof fn lemma_reconnected_len(ops: Seq<OpView>, all: Seq<OpView>, n: int)
    requires
        0 <= n,
    ensures
        shrink::reconnected(ops, all, n).len() <= ops.len() + n,
    decreases n,
{
    if n > 0 {
        lemma_reconnected_len(ops, all, n - 1);
    }
}

/// What is shrunk is at most twice as long as before.
pub proof fn lemma_shrunk_len(
    bad: spec_fn(Seq<OpView>) -> bool,
    ops: Seq<OpView>,
    first: Option<u64>,
)
    requires
        first matches Some(k) ==> k < ops.len(),
    ensures
        shrink::shrunk(bad, ops, first).0.len() <= 2 * ops.len(),
{
    if first is Some {
        let k = first.unwrap();
        let top = ops.take(k + 1);
        let (a, c1) = shrink::ddmin(bad, top, 2, 1);
        let (b, c2) = shrink::sweeps(bad, a, c1);
        let (d, c3) = shrink::cuts(bad, b, 0, c2);
        let e = shrink::collected(d, d.len() as int);
        lemma_ddmin(bad, top, 2, 1);
        lemma_sweeps(bad, a, c1);
        lemma_cuts(bad, b, 0, c2);
        lemma_pared_collected(d, d.len() as int);
        lemma_pared_len(a, top);
        lemma_pared_len(b, a);
        lemma_pared_len(d, b);
        lemma_pared_len(e, d.take(d.len() as int));
        lemma_reconnected_len(e, ops, ops.len() as int);
    }
}

// ---------------------------------------------------------------------------
// Minimality
// ---------------------------------------------------------------------------

/// No single operation can be left out.
pub open spec fn one_minimal(bad: spec_fn(Seq<OpView>) -> bool, ops: Seq<OpView>) -> bool {
    forall|i: int|
        0 <= i < ops.len() && shrink::removable(#[trigger] ops[i]) ==> !bad(ops.remove(i))
}

proof fn lemma_sweep_minimal(
    bad: spec_fn(Seq<OpView>) -> bool,
    ops: Seq<OpView>,
    i: int,
    count: nat,
)
    requires
        0 <= i <= ops.len(),
        shrink::sweep(bad, ops, i, count).0.len() == ops.len(),
    ensures
        forall|j: int|
            i <= j < ops.len() && shrink::removable(#[trigger] ops[j]) ==> !bad(ops.remove(j)),
    decreases ops.len() - i,
{
    if i < ops.len() {
        if !shrink::removable(ops[i]) {
            lemma_sweep_minimal(bad, ops, i + 1, count);
        } else if bad(ops.remove(i)) {
            shrink::lemma_sweep(bad, ops.remove(i), i, count + 1);
        } else {
            lemma_sweep_minimal(bad, ops, i + 1, count + 1);
        }
    }
}

/// Where the executions were not used up, the sequence behind the third pass
/// is minimal: no single operation can be left out without losing the
/// failure.
pub proof fn law_sweeps_are_minimal(
    bad: spec_fn(Seq<OpView>) -> bool,
    ops: Seq<OpView>,
    count: nat,
)
    requires
        shrink::sweeps(bad, ops, count).1 < MAX_EXECUTIONS,
    ensures
        one_minimal(bad, shrink::sweeps(bad, ops, count).0),
    decreases ops.len(),
{
    let (s, c) = shrink::sweep(bad, ops, 0, count);
    shrink::lemma_sweep(bad, ops, 0, count);
    if count < MAX_EXECUTIONS {
        if s.len() < ops.len() {
            law_sweeps_are_minimal(bad, s, c);
        } else {
            lemma_sweep_minimal(bad, ops, 0, count);
        }
    }
}

/// A result that was found within the bound on executions comes from a
/// minimal sequence by cutting payloads and dropping idle `Connect`s alone.
pub proof fn law_shrunk_is_minimal(
    bad: spec_fn(Seq<OpView>) -> bool,
    ops: Seq<OpView>,
    k: u64,
)
    requires
        !shrink::shrunk(bad, ops, Some(k)).1.budget_exhausted,
    ensures
        ({
            let (a, c1) = shrink::ddmin(bad, ops.take(k + 1), 2, 1);
            let (b, c2) = shrink::sweeps(bad, a, c1);
            &&& one_minimal(bad, b)
            &&& shrink::minimized(bad, ops, k as int) == shrink::cuts(bad, b, 0, c2)
        }),
{
    let (a, c1) = shrink::ddmin(bad, ops.take(k + 1), 2, 1);
    let (b, c2) = shrink::sweeps(bad, a, c1);
    lemma_cuts(bad, b, 0, c2);
    law_sweeps_are_minimal(bad, a, c1);
}

// ---------------------------------------------------------------------------
// Cutting behind the failure
// ---------------------------------------------------------------------------

pub proof fn lemma_core_prefix<T: TailSource>(
    start: CoreModel,
    a: Seq<OpView>,
    b: Seq<OpView>,
    tails: T,
    n: int,
)
    requires
        0 <= n <= a.len(),
        n <= b.len(),
        forall|i: int| 0 <= i < n ==> a[i] == b[i],
    ensures
        input::core_at(start, a, tails, n) == input::core_at(start, b, tails, n),
    decreases n,
{
    if n > 0 {
        lemma_core_prefix(start, a, b, tails, n - 1);
    }
}

/// Executing the beginning of a sequence gives the beginning of its events.
pub proof fn lemma_events_prefix<T: TailSource>(
    start: CoreModel,
    ops: Seq<OpView>,
    tails: T,
    n: int,
)
    requires
        0 <= n <= ops.len(),
    ensures
        input::events_at(start, ops.take(n), tails, n) == input::events_at(start, ops, tails, n),
{
    let a = ops.take(n);
    assert forall|i: int| 0 <= i < n implies input::event_at(start, a, tails, i)
        == #[trigger] input::event_at(start, ops, tails, i) by {
        lemma_core_prefix(start, a, ops, tails, i);
        lemma_core_prefix(start, a, ops, tails, i + 1);
    }
    assert(input::events_at(start, a, tails, n) =~= input::events_at(start, ops, tails, n));
}

proof fn lemma_raised_more<I: Invariant>(rules: Seq<I>, seen: Seq<Seen>, k: int, n: int)
    requires
        0 <= k <= n <= seen.len(),
        forall|i: int| 0 <= i < seen.len() ==> (#[trigger] seen[i]).op == i,
    ensures
        ({
            let a = monitor::all_raised(rules, seen.take(k), k);
            let b = monitor::all_raised(rules, seen, n);
            &&& a.len() <= b.len()
            &&& forall|i: int| 0 <= i < a.len() ==> a[i] == b[i]
            &&& forall|i: int| a.len() <= i < b.len() ==> (#[trigger] b[i]).op >= k
        }),
    decreases n,
{
    if k == n {
        lemma_raised_cut(rules, seen, k, k);
    } else {
        lemma_raised_more(rules, seen, k, n - 1);
        shrink::lemma_raised_place(rules, seen.take(n - 1), seen[n - 1], rules.len() as int);
    }
}

proof fn lemma_raised_cut<I: Invariant>(rules: Seq<I>, seen: Seq<Seen>, k: int, n: int)
    requires
        0 <= n <= k <= seen.len(),
    ensures
        monitor::all_raised(rules, seen.take(k), n) == monitor::all_raised(rules, seen, n),
    decreases n,
{
    if n > 0 {
        lemma_raised_cut(rules, seen, k, n - 1);
        assert(seen.take(k).take(n - 1) =~= seen.take(n - 1));
    }
}

/// A sequence that is cut right behind the operation at which it first shows
/// a failure still shows it.
pub proof fn law_cut_still_fails<I: Invariant, T: TailSource>(
    seed: u64,
    net: Seq<char>,
    readings: Seq<Option<u64>>,
    ops: Seq<OpView>,
    rules: Seq<I>,
    tails: T,
    key: KeyView,
)
    requires
        ops.len() <= u64::MAX,
    ensures
        shrink::first_failure(
            input::execution_of(seed, net, readings, ops, rules, tails),
            key,
        ) matches Some(k) ==> k < ops.len() && shrink::shows(
            seed,
            net,
            readings,
            rules,
            tails,
            key,
        )(ops.take(k + 1)),
{
    let x = input::execution_of(seed, net, readings, ops, rules, tails);
    let first = shrink::first_failure(x, key);
    shrink::lemma_first_failure(seed, net, readings, ops, rules, tails, key);
    if first is Some {
        let k = first.unwrap();
        let m = config::model_of(
            seed,
            config::clauses_of(net),
            readings,
            readings.len() as int,
        )->Ok_0;
        let start = netcore::core_new(m);
        let n = ops.len() as int;
        let seen = input::events_at(start, ops, tails, n);
        let top = ops.take(k + 1);
        let y = input::execution_of(seed, net, readings, top, rules, tails);
        lemma_events_prefix(start, ops, tails, k + 1);
        assert(input::events_at(start, ops, tails, k + 1) =~= seen.take(k + 1));
        lemma_raised_more(rules, seen, k + 1, n);
        let a = monitor::all_raised(rules, seen.take(k + 1), k + 1);
        let b = monitor::all_raised(rules, seen, n);
        assert(y->Ok_0.violations == a);
        shrink::lemma_find_key(b, key, 0);
        let i = shrink::find_key(b, key, 0);
        assert(b[i].op == k);
        assert(i < a.len());
        assert(shrink::key_of(a[i]) == key);
        lemma_finds(a, key, i, 0);
    }
}

pub proof fn lemma_finds(v: Seq<monitor::ViolationView>, key: KeyView, i: int, from: int)
    requires
        0 <= from <= i < v.len(),
        shrink::key_of(v[i]) == key,
    ensures
        shrink::find_key(v, key, from) < v.len(),
    decreases i - from,
{
    if shrink::key_of(v[from]) != key {
        lemma_finds(v, key, i, from + 1);
    }
}

} // verus!
