//! Laws of execution: what is executed and recorded replays identically, and
//! the inputs can be read back from the log.

use vstd::prelude::*;

use crate::delivery_laws;
use crate::fault::{ModelView, TailSource};
use crate::hash;
use crate::input;
use crate::input::OpView;
use crate::log;
use crate::log::{EventView, HeaderView, RecordView};
use crate::monitor;
use crate::monitor::{BuiltIn, Invariant, Seen, ViolationView};
use crate::netcore;
use crate::netcore::CoreModel;
use crate::recorder;
use crate::replay;
use crate::replay::{Progress, ReplayModel};
use crate::shrink;

verus! {

/// The records of a log that was written from `events`.
pub open spec fn records_of(h: HeaderView, events: Seq<(u64, EventView)>) -> Seq<RecordView> {
    Seq::new(events.len(), |i: int| log::written_record(h, events, i))
}

/// The same event at the same time, at whatever place.
pub open spec fn like(a: Seen, b: Seen) -> bool {
    a.vt == b.vt && a.e == b.e
}

pub open spec fn alike(a: Seq<Seen>, b: Seq<Seen>) -> bool {
    a.len() == b.len() && forall|i: int| 0 <= i < a.len() ==> like(#[trigger] a[i], b[i])
}

/// What the rule says of `now` behind `past` does not depend on the places of
/// the events.
pub open spec fn steady<I: Invariant>(rule: I, past: Seq<Seen>, now: Seen) -> bool {
    forall|q: Seq<Seen>, n: Seen|
        alike(q, past) && like(n, now) ==> #[trigger] rule.verdict(q, n) == rule.verdict(past, now)
}

/// The rules are steady at every operation of an execution.
pub open spec fn steady_run<I: Invariant, T: TailSource>(
    rules: Seq<I>,
    start: CoreModel,
    ops: Seq<OpView>,
    tails: T,
) -> bool {
    forall|i: int, k: int|
        0 <= i < rules.len() && 0 <= k < ops.len() ==> steady(
            #[trigger] rules[i],
            rules[i].history() + input::events_at(start, ops, tails, k),
            #[trigger] input::event_at(start, ops, tails, k),
        )
}

/// The same finding, at whatever place.
pub open spec fn same_finding(a: ViolationView, b: ViolationView) -> bool {
    a == (ViolationView { op: a.op, ..b })
}

/// The same findings in the same order, at whatever places.
pub open spec fn same_findings(a: Seq<ViolationView>, b: Seq<ViolationView>) -> bool {
    a.len() == b.len() && forall|i: int|
        0 <= i < a.len() ==> same_finding(#[trigger] a[i], b[i])
}

/// An executed operation is what a replay of its event does again.
pub proof fn lemma_applied_redone<T: TailSource>(c: CoreModel, o: OpView, tails: T)
    ensures
        replay::redone(c, input::applied(c, o, tails).1, tails) == Some(
            input::applied(c, o, tails),
        ),
        replay::is_shown(input::applied(c, o, tails).1),
        input::input_of(input::applied(c, o, tails).1) == Some(o),
{
    match o {
        OpView::Send { conn, src, dst, payload } => {
            hash::law_hex_round_trip(payload);
            assert(log::to_vaddr(log::to_addr(src)) == src);
            assert(log::to_vaddr(log::to_addr(dst)) == dst);
        },
        OpView::Bind { conn, addr } => {
            assert(log::to_vaddr(log::to_addr(addr)) == addr);
        },
        _ => {},
    }
}

/// What was recorded of some operations begins what is recorded of more.
proof fn lemma_recorded_prefix<I: Invariant, T: TailSource>(
    start: CoreModel,
    ops: Seq<OpView>,
    rules: Seq<I>,
    tails: T,
    k: int,
    n: int,
)
    requires
        0 <= k <= n,
    ensures
        ({
            let a = input::recorded_events(start, ops, rules, tails, k);
            let b = input::recorded_events(start, ops, rules, tails, n);
            a.len() <= b.len() && forall|i: int| 0 <= i < a.len() ==> #[trigger] b[i] == a[i]
        }),
    decreases n,
{
    if k < n {
        lemma_recorded_prefix(start, ops, rules, tails, k, n - 1);
        let a = input::recorded_events(start, ops, rules, tails, k);
        let p = input::recorded_events(start, ops, rules, tails, n - 1);
        let b = input::recorded_events(start, ops, rules, tails, n);
        assert forall|i: int| 0 <= i < a.len() implies #[trigger] b[i] == a[i] by {
            assert(p[i] == a[i]);
        }
    }
}

proof fn lemma_raised_alike<I: Invariant>(
    rules: Seq<I>,
    p: Seq<Seen>,
    q: Seq<Seen>,
    m: Seen,
    n: Seen,
    k: int,
)
    requires
        forall|i: int|
            0 <= i < rules.len() ==> steady(#[trigger] rules[i], rules[i].history() + q, n),
        alike(p, q),
        like(m, n),
        0 <= k <= rules.len(),
    ensures
        same_findings(monitor::raised(rules, p, m, k), monitor::raised(rules, q, n, k)),
    decreases k,
{
    if k > 0 {
        lemma_raised_alike(rules, p, q, m, n, k - 1);
        let rule = rules[k - 1];
        assert(steady(rule, rule.history() + q, n));
        let hp = rule.history() + p;
        let hq = rule.history() + q;
        assert(alike(hp, hq)) by {
            assert forall|i: int| 0 <= i < hp.len() implies like(#[trigger] hp[i], hq[i]) by {
                if i >= rule.history().len() {
                    let j = i - rule.history().len();
                    assert(like(p[j], q[j]));
                }
            }
        }
        assert(rule.verdict(hp, m) == rule.verdict(hq, n));
    }
}

/// One event more adds what the rules raise on it.
pub proof fn lemma_raised_push<I: Invariant>(rules: Seq<I>, seen: Seq<Seen>, now: Seen)
    ensures
        monitor::all_raised(rules, seen.push(now), seen.len() as int + 1) == monitor::all_raised(
            rules,
            seen,
            seen.len() as int,
        ) + monitor::raised(rules, seen, now, rules.len() as int),
{
    let n = seen.len() as int;
    let more = seen.push(now);
    monitor::lemma_raised_prefix(rules, more, seen, n);
    assert(more.take(n) =~= seen);
}

/// Findings that agreed and agree on one event more.
pub proof fn lemma_findings_grow<I: Invariant>(
    rules: Seq<I>,
    old_found: Seq<ViolationView>,
    got: Seq<ViolationView>,
    seen: Seq<Seen>,
    now: Seen,
)
    requires
        same_findings(old_found, monitor::all_raised(rules, seen, seen.len() as int)),
        same_findings(got, monitor::raised(rules, seen, now, rules.len() as int)),
    ensures
        same_findings(
            old_found + got,
            monitor::all_raised(rules, seen.push(now), seen.len() as int + 1),
        ),
{
    let a = monitor::all_raised(rules, seen, seen.len() as int);
    let b = monitor::raised(rules, seen, now, rules.len() as int);
    lemma_raised_push(rules, seen, now);
    assert forall|i: int| 0 <= i < (old_found + got).len() implies same_finding(
        #[trigger] (old_found + got)[i],
        (a + b)[i],
    ) by {
        if i < old_found.len() {
            assert(same_finding(old_found[i], a[i]));
        } else {
            assert(same_finding(got[i - old_found.len()], b[i - old_found.len()]));
        }
    }
}

/// The state that a replay has reached behind the first `k` operations.
pub open spec fn caught_up<I: Invariant, T: TailSource>(
    s: ReplayModel,
    start: CoreModel,
    ops: Seq<OpView>,
    rules: Seq<I>,
    checks: Seq<I>,
    tails: T,
    k: int,
) -> bool {
    &&& s.core == input::core_at(start, ops, tails, k)
    &&& checks.len() > 0 ==> {
        &&& alike(s.shown, input::events_at(start, ops, tails, k))
        &&& s.matched == s.raised.len()
        &&& same_findings(
            s.raised,
            monitor::all_raised(rules, input::events_at(start, ops, tails, k), k),
        )
    }
}

pub proof fn lemma_replay_marks<I: Invariant, T: TailSource>(
    start: CoreModel,
    records: Seq<RecordView>,
    checks: Seq<I>,
    tails: T,
    at: int,
    s: ReplayModel,
    new: Seq<ViolationView>,
    j: int,
)
    requires
        0 <= at,
        0 <= j <= new.len(),
        replay::replayed(start, records, checks, None, tails, at) == Progress::Running(s),
        marked(records, at, s.core.vt, new),
        checks.len() > 0 ==> 0 <= s.matched && s.raised.len() == s.matched + new.len(),
        checks.len() > 0 ==> forall|i: int|
            0 <= i < new.len() ==> recorder::violation_event(s.raised[s.matched + i])
                == recorder::violation_event(#[trigger] new[i]),
    ensures
        replay::replayed(start, records, checks, None, tails, at + j) is Running,
        ({
            let t = replay::replayed(start, records, checks, None, tails, at + j)->Running_0;
            &&& t.core == s.core
            &&& t.shown == s.shown
            &&& t.raised == s.raised
            &&& t.matched == if checks.len() > 0 {
                s.matched + j
            } else {
                s.matched
            }
        }),
    decreases j,
{
    if j > 0 {
        lemma_replay_marks(start, records, checks, tails, at, s, new, j - 1);
        let t = replay::replayed(start, records, checks, None, tails, at + j - 1)->Running_0;
        let r = records[at + (j - 1)];
        let v = new[j - 1];
        assert(r.e == recorder::violation_event(v));
        if checks.len() > 0 {
            assert(recorder::violation_event(s.raised[s.matched + (j - 1)])
                == recorder::violation_event(v));
        }
        assert(replay::replayed(start, records, checks, None, tails, at + j)
            == replay::replay_step(t, r, checks, None, tails));
    }
}

/// `events` begins with what is recorded of all operations.
pub open spec fn begins_with(events: Seq<(u64, EventView)>, all: Seq<(u64, EventView)>) -> bool {
    all.len() <= events.len() && forall|i: int| 0 <= i < all.len() ==> #[trigger] events[i] == all[i]
}

/// The records that the operation at `k - 1` left: its event at `n`, and the
/// violations behind it.
pub open spec fn op_records(
    records: Seq<RecordView>,
    n: int,
    now: Seen,
    new: Seq<ViolationView>,
) -> bool {
    &&& records[n].e == now.e
    &&& records[n].vt == now.vt
    &&& marked(records, n + 1, now.vt, new)
}

/// The records from `at` on say `new`, at time `vt`.
pub open spec fn marked(records: Seq<RecordView>, at: int, vt: u64, new: Seq<ViolationView>)
    -> bool {
    forall|i: int|
        0 <= i < new.len() ==> records[at + i].e == recorder::violation_event(#[trigger] new[i])
            && records[at + i].vt == vt
}

proof fn lemma_op_records<I: Invariant, T: TailSource>(
    h: HeaderView,
    start: CoreModel,
    ops: Seq<OpView>,
    rules: Seq<I>,
    tails: T,
    events: Seq<(u64, EventView)>,
    k: int,
)
    requires
        0 < k <= ops.len(),
        begins_with(
            events,
            input::recorded_events(start, ops, rules, tails, ops.len() as int),
        ),
    ensures
        ({
            let n = input::recorded_events(start, ops, rules, tails, k - 1).len() as int;
            let now = input::event_at(start, ops, tails, k - 1);
            let seen = input::events_at(start, ops, tails, k - 1);
            let new = monitor::raised(rules, seen, now, rules.len() as int);
            &&& op_records(records_of(h, events), n, now, new)
            &&& input::recorded_events(start, ops, rules, tails, k).len() == n + 1 + new.len()
        }),
{
    let records = records_of(h, events);
    let all = input::recorded_events(start, ops, rules, tails, ops.len() as int);
    let here = input::recorded_events(start, ops, rules, tails, k);
    let past = input::recorded_events(start, ops, rules, tails, k - 1);
    let n = past.len() as int;
    let now = input::event_at(start, ops, tails, k - 1);
    let seen = input::events_at(start, ops, tails, k - 1);
    let new = monitor::raised(rules, seen, now, rules.len() as int);
    lemma_recorded_prefix(start, ops, rules, tails, k, ops.len() as int);
    assert(here == past.push((now.vt, now.e)) + input::marks(now.vt, new));
    assert(all[n] == here[n]);
    assert(events[n] == all[n]);
    assert forall|i: int| 0 <= i < new.len() implies records[n + 1 + i].e
        == recorder::violation_event(#[trigger] new[i]) && records[n + 1 + i].vt == now.vt by {
        let j = n + 1 + i;
        assert(here[j] == input::marks(now.vt, new)[i]);
        assert(all[j] == here[j]);
        assert(events[j] == all[j]);
    }
}

/// The replay of a record whose event comes out again.
pub proof fn lemma_replay_one<I: Invariant, T: TailSource>(
    s: ReplayModel,
    r: RecordView,
    c: CoreModel,
    checks: Seq<I>,
    tails: T,
)
    requires
        replay::redone(s.core, r.e, tails) == Some((c, r.e)),
        replay::is_shown(r.e),
        c.vt == r.vt,
    ensures
        replay::replay_step(s, r, checks, None, tails) is Running,
        ({
            let t = replay::replay_step(s, r, checks, None, tails)->Running_0;
            let now = Seen { op: r.op, vt: r.vt, e: r.e };
            &&& t.core == c
            &&& t.matched == s.matched
            &&& checks.len() > 0 ==> t.shown == s.shown.push(now) && t.raised == s.raised
                + monitor::raised(checks, s.shown, now, checks.len() as int)
        }),
{
}

proof fn lemma_replay_ops<I: Invariant, T: TailSource>(
    h: HeaderView,
    start: CoreModel,
    ops: Seq<OpView>,
    rules: Seq<I>,
    checks: Seq<I>,
    tails: T,
    events: Seq<(u64, EventView)>,
    k: int,
)
    requires
        0 <= k <= ops.len(),
        checks.len() == 0 || (checks == rules && steady_run(rules, start, ops, tails)),
        begins_with(
            events,
            input::recorded_events(start, ops, rules, tails, ops.len() as int),
        ),
    ensures
        ({
            let n = input::recorded_events(start, ops, rules, tails, k).len() as int;
            let p = replay::replayed(start, records_of(h, events), checks, None, tails, n);
            p is Running && caught_up(p->Running_0, start, ops, rules, checks, tails, k)
        }),
    decreases k,
{
    let records = records_of(h, events);
    if k == 0 {
        assert(input::events_at(start, ops, tails, 0) =~= Seq::<Seen>::empty());
    } else {
        lemma_replay_ops(h, start, ops, rules, checks, tails, events, k - 1);
        lemma_op_records(h, start, ops, rules, tails, events, k);
        let n = input::recorded_events(start, ops, rules, tails, k - 1).len() as int;
        let s = replay::replayed(start, records, checks, None, tails, n)->Running_0;
        let now = input::event_at(start, ops, tails, k - 1);
        let seen = input::events_at(start, ops, tails, k - 1);
        let new = monitor::raised(rules, seen, now, rules.len() as int);
        assert(input::events_at(start, ops, tails, k) =~= seen.push(now));
        lemma_replay_op(start, ops, rules, checks, tails, records, n, s, k);
    }
}

#[verifier::rlimit(80)]
#[verifier::spinoff_prover]
proof fn lemma_replay_op<I: Invariant, T: TailSource>(
    start: CoreModel,
    ops: Seq<OpView>,
    rules: Seq<I>,
    checks: Seq<I>,
    tails: T,
    records: Seq<RecordView>,
    n: int,
    s: ReplayModel,
    k: int,
)
    requires
        0 < k <= ops.len(),
        0 <= n,
        checks.len() == 0 || (checks == rules && steady_run(rules, start, ops, tails)),
        replay::replayed(start, records, checks, None, tails, n) == Progress::Running(s),
        caught_up(s, start, ops, rules, checks, tails, k - 1),
        op_records(
            records,
            n,
            input::event_at(start, ops, tails, k - 1),
            monitor::raised(
                rules,
                input::events_at(start, ops, tails, k - 1),
                input::event_at(start, ops, tails, k - 1),
                rules.len() as int,
            ),
        ),
    ensures
        ({
            let now = input::event_at(start, ops, tails, k - 1);
            let seen = input::events_at(start, ops, tails, k - 1);
            let new = monitor::raised(rules, seen, now, rules.len() as int);
            let p = replay::replayed(start, records, checks, None, tails, n + 1 + new.len());
            p is Running && caught_up(p->Running_0, start, ops, rules, checks, tails, k)
        }),
{
    let now = input::event_at(start, ops, tails, k - 1);
    let seen = input::events_at(start, ops, tails, k - 1);
    let new = monitor::raised(rules, seen, now, rules.len() as int);
    let r = records[n];
    let c = input::core_at(start, ops, tails, k);
    lemma_applied_redone(s.core, ops[k - 1], tails);
    assert(input::applied(s.core, ops[k - 1], tails) == (c, r.e));
    lemma_replay_one(s, r, c, checks, tails);
    let p = replay::replayed(start, records, checks, None, tails, n + 1);
    assert(p == replay::replay_step(s, r, checks, None, tails));
    let t = p->Running_0;
    assert(input::events_at(start, ops, tails, k) =~= seen.push(now));
    if checks.len() > 0 {
        let now2 = Seen { op: r.op, vt: r.vt, e: r.e };
        assert forall|i: int| 0 <= i < rules.len() implies steady(
            #[trigger] rules[i],
            rules[i].history() + seen,
            now,
        ) by {
            assert(now == input::event_at(start, ops, tails, k - 1));
        }
        lemma_raised_alike(rules, s.shown, seen, now2, now, rules.len() as int);
        let got = monitor::raised(rules, s.shown, now2, rules.len() as int);
        assert(same_findings(got, new));
        assert forall|i: int| 0 <= i < new.len() implies recorder::violation_event(
            t.raised[t.matched + i],
        ) == recorder::violation_event(#[trigger] new[i]) by {
            assert(t.raised[t.matched + i] == got[i]);
            assert(same_finding(got[i], new[i]));
        }
        lemma_findings_grow(rules, s.raised, got, seen, now);
        assert(alike(t.shown, seen.push(now))) by {
            assert forall|i: int| 0 <= i < t.shown.len() implies like(
                #[trigger] t.shown[i],
                seen.push(now)[i],
            ) by {
                if i < s.shown.len() {
                    assert(like(s.shown[i], seen[i]));
                }
            }
        }
    }
    lemma_replay_marks(start, records, checks, tails, n + 1, t, new, new.len() as int);
}

/// A writer counts the sends and the drops that the core counts.
proof fn lemma_counts<I: Invariant, T: TailSource>(
    h: HeaderView,
    m: ModelView,
    ops: Seq<OpView>,
    rules: Seq<I>,
    tails: T,
    k: int,
)
    requires
        0 <= k,
    ensures
        ({
            let start = netcore::core_new(m);
            let e = input::recorded_events(start, ops, rules, tails, k);
            let w = log::written(h, e, e.len() as int);
            let c = input::core_at(start, ops, tails, k);
            w.sent == c.sent && w.dropped == c.dropped
        }),
    decreases k,
{
    let start = netcore::core_new(m);
    if k > 0 {
        lemma_counts(h, m, ops, rules, tails, k - 1);
        let past = input::recorded_events(start, ops, rules, tails, k - 1);
        let now = input::event_at(start, ops, tails, k - 1);
        let seen = input::events_at(start, ops, tails, k - 1);
        let new = monitor::raised(rules, seen, now, rules.len() as int);
        let one = past.push((now.vt, now.e));
        input::lemma_written_prefix(h, past, one, past.len() as int);
        input::lemma_written_marks(h, one, now.vt, new, new.len() as int);
        lemma_marks_count(log::written(h, one, one.len() as int), now.vt, new, new.len() as int);
    }
}

pub proof fn lemma_marks_count(w: log::WriterModel, vt: u64, v: Seq<ViolationView>, n: int)
    requires
        0 <= n,
    ensures
        recorder::with_violations(w, vt, v, n).sent == w.sent,
        recorder::with_violations(w, vt, v, n).dropped == w.dropped,
    decreases n,
{
    if n > 0 {
        lemma_marks_count(w, vt, v, n - 1);
    }
}

proof fn lemma_recording_replays<I: Invariant, T: TailSource>(
    h: HeaderView,
    m: ModelView,
    ops: Seq<OpView>,
    rules: Seq<I>,
    checks: Seq<I>,
    tails: T,
)
    requires
        checks.len() == 0 || (checks == rules && steady_run(rules, netcore::core_new(m), ops, tails)),
    ensures
        ({
            let start = netcore::core_new(m);
            let records = records_of(h, input::recording(h, start, ops, rules, tails));
            let p = replay::replayed(start, records, checks, None, tails, records.len() as int);
            &&& p is Running
            &&& p->Running_0.core == input::core_at(start, ops, tails, ops.len() as int)
            &&& checks.len() > 0 ==> same_findings(
                p->Running_0.raised,
                input::executed(start, ops, rules, tails).violations,
            )
        }),
{
    let start = netcore::core_new(m);
    let all = input::recorded_events(start, ops, rules, tails, ops.len() as int);
    let events = input::recording(h, start, ops, rules, tails);
    let records = records_of(h, events);
    let n = all.len() as int;
    lemma_replay_ops(h, start, ops, rules, checks, tails, events, ops.len() as int);
    lemma_counts(h, m, ops, rules, tails, ops.len() as int);
    input::lemma_written_prefix(h, all, events, n);
    let s = replay::replayed(start, records, checks, None, tails, n)->Running_0;
    assert(replay::replayed(start, records, checks, None, tails, n + 1) == replay::replay_step(
        s,
        records[n],
        checks,
        None,
        tails,
    ));
}

/// No rules raise nothing.
proof fn lemma_nothing_raised<I: Invariant>(rules: Seq<I>, seen: Seq<Seen>, n: int)
    requires
        rules.len() == 0,
    ensures
        monitor::all_raised(rules, seen, n).len() == 0,
    decreases n,
{
    if n > 0 {
        lemma_nothing_raised(rules, seen, n - 1);
    }
}

proof fn lemma_nothing_found<I: Invariant, T: TailSource>(
    start: CoreModel,
    records: Seq<RecordView>,
    rules: Seq<I>,
    tails: T,
    n: int,
)
    requires
        rules.len() == 0,
    ensures
        replay::replayed(start, records, rules, None, tails, n) matches Progress::Running(s)
            ==> s.raised.len() == 0,
    decreases n,
{
    if n > 0 {
        lemma_nothing_found(start, records, rules, tails, n - 1);
    }
}

/// What is executed and recorded replays identically, without rules: every
/// record comes out again, and the core ends where the execution ended.
pub proof fn law_recorded_execution_replays<I: Invariant, T: TailSource>(
    h: HeaderView,
    m: ModelView,
    ops: Seq<OpView>,
    rules: Seq<I>,
    tails: T,
)
    ensures
        ({
            let start = netcore::core_new(m);
            let records = records_of(h, input::recording(h, start, ops, rules, tails));
            let p = replay::replayed(
                start,
                records,
                Seq::<I>::empty(),
                None,
                tails,
                records.len() as int,
            );
            &&& p is Running
            &&& p->Running_0.core == input::core_at(start, ops, tails, ops.len() as int)
            &&& replay::outcome_at(p) is Ok
            &&& replay::outcome_at(p)->Ok_0.identical
        }),
{
    lemma_recording_replays(h, m, ops, rules, Seq::<I>::empty(), tails);
}

/// It replays identically under the rules it was recorded with, too, and finds
/// the same, where what they say does not depend on the places of events. (A recording counts
/// places among the inputs, a replay among the records.)
pub proof fn law_recorded_execution_checks<I: Invariant, T: TailSource>(
    h: HeaderView,
    m: ModelView,
    ops: Seq<OpView>,
    rules: Seq<I>,
    tails: T,
)
    requires
        steady_run(rules, netcore::core_new(m), ops, tails),
    ensures
        ({
            let start = netcore::core_new(m);
            let records = records_of(h, input::recording(h, start, ops, rules, tails));
            let p = replay::replayed(start, records, rules, None, tails, records.len() as int);
            &&& p is Running
            &&& p->Running_0.core == input::core_at(start, ops, tails, ops.len() as int)
            &&& replay::outcome_at(p) is Ok
            &&& replay::outcome_at(p)->Ok_0.identical
            &&& same_findings(
                replay::outcome_at(p)->Ok_0.violations,
                input::executed(start, ops, rules, tails).violations,
            )
        }),
{
    lemma_recording_replays(h, m, ops, rules, rules, tails);
    if rules.len() == 0 {
        let start = netcore::core_new(m);
        let n = ops.len() as int;
        let records = records_of(h, input::recording(h, start, ops, rules, tails));
        lemma_nothing_raised(rules, input::events_at(start, ops, tails, n), n);
        lemma_nothing_found(start, records, rules, tails, records.len() as int);
    }
}

/// With the built-in rules a recorded execution replays identically, and the
/// same is found: what the
/// rule on delivery order says does not depend on places, and the rule against
/// duplicates says nothing.
pub proof fn law_recorded_execution_checks_built_in<T: TailSource>(
    h: HeaderView,
    m: ModelView,
    ops: Seq<OpView>,
    rules: Seq<BuiltIn>,
    tails: T,
)
    requires
        ops.len() < u64::MAX,
        shrink::unused(rules),
    ensures
        ({
            let start = netcore::core_new(m);
            let records = records_of(h, input::recording(h, start, ops, rules, tails));
            let p = replay::replayed(start, records, rules, None, tails, records.len() as int);
            &&& p is Running
            &&& replay::outcome_at(p)->Ok_0.identical
            &&& same_findings(
                replay::outcome_at(p)->Ok_0.violations,
                input::executed(start, ops, rules, tails).violations,
            )
        }),
{
    let start = netcore::core_new(m);
    assert forall|i: int, k: int| 0 <= i < rules.len() && 0 <= k < ops.len() implies steady(
        #[trigger] rules[i],
        rules[i].history() + input::events_at(start, ops, tails, k),
        #[trigger] input::event_at(start, ops, tails, k),
    ) by {
        let past = input::events_at(start, ops, tails, k);
        let now = input::event_at(start, ops, tails, k);
        let rule = rules[i];
        assert(rule.history() + past =~= past);
        delivery_laws::law_no_delivery_twice(m, ops, tails, k);
        assert forall|q: Seq<Seen>, n: Seen| alike(q, past) && like(n, now) implies
            #[trigger] rule.verdict(q, n) == rule.verdict(past, now) by {
            lemma_fifo_alike(q, past);
            lemma_delivered_alike(q, past);
            match rule {
                BuiltIn::Fifo(r) => {},
                BuiltIn::Dup(r) => {
                    assert(r.verdict(past, now) is None);
                    assert(r.verdict(q, n) is None);
                },
            }
        }
    }
    law_recorded_execution_checks(h, m, ops, rules, tails);
}

/// The same datagrams were delivered, at whatever places.
proof fn lemma_delivered_alike(p: Seq<Seen>, q: Seq<Seen>)
    requires
        alike(p, q),
    ensures
        monitor::delivered_at(p).dom() == monitor::delivered_at(q).dom(),
    decreases p.len(),
{
    if p.len() > 0 {
        let a = p.drop_last();
        let b = q.drop_last();
        assert forall|i: int| 0 <= i < a.len() implies like(#[trigger] a[i], b[i]) by {
            assert(like(p[i], q[i]));
        }
        lemma_delivered_alike(a, b);
        assert(like(p[p.len() - 1], q[q.len() - 1]));
        assert(monitor::delivered_at(p).dom() =~= monitor::delivered_at(q).dom());
    }
}

proof fn lemma_inputs_marks(records: Seq<RecordView>, at: int, j: int)
    requires
        0 <= at,
        0 <= j,
        forall|i: int| 0 <= i < j ==> (#[trigger] records[at + i]).e is Violation,
    ensures
        input::inputs_of(records, at + j) == input::inputs_of(records, at),
    decreases j,
{
    if j > 0 {
        lemma_inputs_marks(records, at, j - 1);
        assert(records[at + (j - 1)].e is Violation);
    }
}

#[verifier::rlimit(80)]
#[verifier::spinoff_prover]
proof fn lemma_inputs_back<I: Invariant, T: TailSource>(
    h: HeaderView,
    start: CoreModel,
    ops: Seq<OpView>,
    rules: Seq<I>,
    tails: T,
    events: Seq<(u64, EventView)>,
    k: int,
)
    requires
        0 <= k <= ops.len(),
        begins_with(
            events,
            input::recorded_events(start, ops, rules, tails, ops.len() as int),
        ),
    ensures
        input::inputs_of(
            records_of(h, events),
            input::recorded_events(start, ops, rules, tails, k).len() as int,
        ) == ops.take(k),
    decreases k,
{
    let records = records_of(h, events);
    if k > 0 {
        lemma_inputs_back(h, start, ops, rules, tails, events, k - 1);
        lemma_op_records(h, start, ops, rules, tails, events, k);
        let n = input::recorded_events(start, ops, rules, tails, k - 1).len() as int;
        let now = input::event_at(start, ops, tails, k - 1);
        let seen = input::events_at(start, ops, tails, k - 1);
        let new = monitor::raised(rules, seen, now, rules.len() as int);
        lemma_applied_redone(input::core_at(start, ops, tails, k - 1), ops[k - 1], tails);
        assert(ops.take(k) =~= ops.take(k - 1).push(ops[k - 1]));
        assert(input::inputs_of(records, n + 1) == ops.take(k));
        assert forall|i: int| 0 <= i < new.len() implies (
        #[trigger] records[n + 1 + i]).e is Violation by {
            assert(records[n + 1 + i].e == recorder::violation_event(new[i]));
        }
        lemma_inputs_marks(records, n + 1, new.len() as int);
    } else {
        assert(ops.take(0) =~= Seq::<OpView>::empty());
    }
}

/// The inputs that are read from a recorded execution are those that were
/// executed.
pub proof fn law_inputs_round_trip<I: Invariant, T: TailSource>(
    h: HeaderView,
    m: ModelView,
    ops: Seq<OpView>,
    rules: Seq<I>,
    tails: T,
)
    ensures
        ({
            let start = netcore::core_new(m);
            let records = records_of(h, input::recording(h, start, ops, rules, tails));
            input::inputs_of(records, records.len() as int) == ops
        }),
{
    let start = netcore::core_new(m);
    let events = input::recording(h, start, ops, rules, tails);
    lemma_inputs_back(h, start, ops, rules, tails, events, ops.len() as int);
    assert(ops.take(ops.len() as int) =~= ops);
}

proof fn lemma_fifo_alike(p: Seq<Seen>, q: Seq<Seen>)
    requires
        alike(p, q),
    ensures
        monitor::scheduled(p) == monitor::scheduled(q),
        monitor::highest(p) == monitor::highest(q),
    decreases p.len(),
{
    if p.len() > 0 {
        let a = p.drop_last();
        let b = q.drop_last();
        assert forall|i: int| 0 <= i < a.len() implies like(#[trigger] a[i], b[i]) by {
            assert(like(p[i], q[i]));
        }
        lemma_fifo_alike(a, b);
        assert(like(p[p.len() - 1], q[q.len() - 1]));
    }
}

} // verus!
