//! Rules over the event stream. A rule sees every event and may say that one
//! completes a violation; the same rule gives the same answers on a live
//! recording and on a finished log.

use std::collections::HashMap;

use vstd::prelude::*;

use crate::amap::AMap;
use crate::broker;
use crate::log;
use crate::log::{Addr, Event, EventView, Log, RecvOutcome, RecvOutcomeView, SendOutcome};
use crate::netcore::Channel;
use crate::text;
use crate::text::{copy_text, push_dec, push_text};
use crate::wire;
use crate::wire::{push_addr_text, VAddr};

verus! {

/// One event as a rule sees it: its position, its virtual time, and itself.
pub struct Seen {
    pub op: u64,
    pub vt: u64,
    pub e: EventView,
}

/// A violation, with its place on the timeline.
#[derive(Clone, Debug, PartialEq)]
pub struct ViolationRecord {
    /// The name of the violated rule.
    pub rule: String,
    /// The position of the event that completed the violation.
    pub op: u64,
    /// The virtual time of that event.
    pub vt: u64,
    pub message: String,
    /// That event.
    pub event: Event,
}

pub struct ViolationView {
    pub rule: Seq<char>,
    pub op: u64,
    pub vt: u64,
    pub message: Seq<char>,
    pub event: EventView,
}

impl View for ViolationRecord {
    type V = ViolationView;

    open spec fn view(&self) -> ViolationView {
        ViolationView {
            rule: self.rule@,
            op: self.op,
            vt: self.vt,
            message: self.message@,
            event: self.event@,
        }
    }
}

pub open spec fn violation_views(v: Seq<ViolationRecord>) -> Seq<ViolationView> {
    v.map_values(|x: ViolationRecord| x@)
}

impl ViolationRecord {
    /// A copy.
    pub fn copy(&self) -> (r: Self)
        ensures
            r@ == self@,
    {
        ViolationRecord {
            rule: copy_text(self.rule.as_str()),
            op: self.op,
            vt: self.vt,
            message: copy_text(self.message.as_str()),
            event: self.event.copy(),
        }
    }
}

/// Copies of the records from the `lo`-th on.
pub fn copy_violations(v: &Vec<ViolationRecord>, lo: usize) -> (r: Vec<ViolationRecord>)
    requires
        lo <= v@.len(),
    ensures
        violation_views(r@) == violation_views(v@).skip(lo as int),
{
    let mut r: Vec<ViolationRecord> = Vec::new();
    let mut i: usize = lo;
    assert(violation_views(r@) =~= violation_views(v@).subrange(lo as int, lo as int));
    while i < v.len()
        invariant
            lo <= i <= v@.len(),
            violation_views(r@) == violation_views(v@).subrange(lo as int, i as int),
        decreases v@.len() - i,
    {
        let x = v[i].copy();
        let ghost before = violation_views(r@);
        let ghost xv = x@;
        r.push(x);
        proof {
            assert(violation_views(r@) =~= before.push(xv));
            assert(violation_views(v@).subrange(lo as int, i as int + 1) =~= before.push(xv));
        }
        i = i + 1;
    }
    assert(violation_views(r@) =~= violation_views(v@).skip(lo as int));
    r
}

/// A rule over the event stream. What it says of an event depends on the
/// events it was shown before.
pub trait Invariant: Sized {
    /// The state is in order.
    spec fn ok(&self) -> bool;

    /// The name.
    spec fn title(&self) -> Seq<char>;

    /// The events it was shown.
    spec fn history(&self) -> Seq<Seen>;

    /// What it says of `now` behind `past`: a message where `now` completes a
    /// violation.
    spec fn verdict(&self, past: Seq<Seen>, now: Seen) -> Option<Seq<char>>;

    fn name(&self) -> (s: &str)
        ensures
            s@ == self.title(),
    ;

    fn on_event(&mut self, op: u64, vt: u64, e: &Event) -> (r: Option<String>)
        requires
            old(self).ok(),
        ensures
            final(self).ok(),
            final(self).title() == old(self).title(),
            final(self).history() == old(self).history().push(Seen { op, vt, e: e@ }),
            forall|p: Seq<Seen>, n: Seen| #[trigger]
                final(self).verdict(p, n) == old(self).verdict(p, n),
            broker::text_view(r) == old(self).verdict(
                old(self).history(),
                Seen { op, vt, e: e@ },
            ),
    ;
}

/// Whether the function answers `r` for an event that says `e`.
pub open spec fn says<F: Fn(u64, u64, &Event) -> Option<String>>(
    f: F,
    op: u64,
    vt: u64,
    e: EventView,
    r: Option<Seq<char>>,
) -> bool {
    exists|ev: Event, s: Option<String>|
        ev@ == e && #[trigger] call_ensures(f, (op, vt, &ev), s) && broker::text_view(s) == r
}

/// A rule made of a function that looks at one event at a time.
pub struct FnInvariant<F> {
    name: String,
    f: F,
    seen: Ghost<Seq<Seen>>,
}

impl<F: Fn(u64, u64, &Event) -> Option<String>> FnInvariant<F> {
    /// The function.
    pub closed spec fn function(&self) -> F {
        self.f
    }

    /// A rule with the given name. The function can be called on anything and
    /// answers by what the event says.
    pub fn new(name: &str, f: F) -> (r: Self)
        requires
            forall|op: u64, vt: u64, e: &Event| #[trigger] call_requires(f, (op, vt, e)),
            forall|op: u64, vt: u64, e: EventView, a: Option<Seq<char>>, b: Option<Seq<char>>|
                #[trigger] says(f, op, vt, e, a) && #[trigger] says(f, op, vt, e, b) ==> a == b,
        ensures
            r.ok(),
            r.title() == name@,
            r.history() == Seq::<Seen>::empty(),
            r.function() == f,
    {
        FnInvariant { name: copy_text(name), f, seen: Ghost(Seq::empty()) }
    }

    /// The same rule, as if it had seen nothing.
    pub(crate) fn restart(&self) -> (r: Self) where F: Copy
        requires
            self.ok(),
        ensures
            r.ok(),
            r.title() == self.title(),
            r.history() == Seq::<Seen>::empty(),
            r.function() == self.function(),
    {
        FnInvariant::new(self.name.as_str(), self.f)
    }
}

impl<F: Fn(u64, u64, &Event) -> Option<String>> Invariant for FnInvariant<F> {
    closed spec fn ok(&self) -> bool {
        &&& forall|op: u64, vt: u64, e: &Event| #[trigger] call_requires(self.f, (op, vt, e))
        &&& forall|op: u64, vt: u64, e: EventView, a: Option<Seq<char>>, b: Option<Seq<char>>|
            #[trigger] says(self.f, op, vt, e, a) && #[trigger] says(self.f, op, vt, e, b) ==> a
                == b
    }

    closed spec fn title(&self) -> Seq<char> {
        self.name@
    }

    closed spec fn history(&self) -> Seq<Seen> {
        self.seen@
    }

    /// What the function says of the event.
    open spec fn verdict(&self, past: Seq<Seen>, now: Seen) -> Option<Seq<char>> {
        choose|r: Option<Seq<char>>| says(self.function(), now.op, now.vt, now.e, r)
    }

    fn name(&self) -> (s: &str) {
        self.name.as_str()
    }

    fn on_event(&mut self, op: u64, vt: u64, e: &Event) -> (r: Option<String>) {
        let ghost before = self.seen@;
        let r = (self.f)(op, vt, e);
        proof {
            assert(says(self.f, op, vt, e@, broker::text_view(r)));
        }
        self.seen = Ghost(before.push(Seen { op, vt, e: e@ }));
        r
    }
}

/// Whether the function takes the state `s` to `t` and answers `r` at an event
/// that says `e`.
pub open spec fn moves<S, F: Fn(S, u64, u64, &Event) -> (S, Option<String>)>(
    f: F,
    s: S,
    op: u64,
    vt: u64,
    e: EventView,
    t: S,
    r: Option<Seq<char>>,
) -> bool {
    exists|ev: Event, m: Option<String>|
        ev@ == e && #[trigger] call_ensures(f, (s, op, vt, &ev), (t, m)) && broker::text_view(m)
            == r
}

/// The function can be called on anything, and what it gives depends on the
/// state and on what the event says.
pub open spec fn settled<S, F: Fn(S, u64, u64, &Event) -> (S, Option<String>)>(f: F) -> bool {
    &&& forall|s: S, op: u64, vt: u64, e: &Event| #[trigger] call_requires(f, (s, op, vt, e))
    &&& forall|
        s: S,
        op: u64,
        vt: u64,
        e: EventView,
        t: S,
        u: S,
        a: Option<Seq<char>>,
        b: Option<Seq<char>>,
    | #[trigger]
        moves(f, s, op, vt, e, t, a) && #[trigger] moves(f, s, op, vt, e, u, b) ==> t == u && a
            == b
}

/// The state and the answer behind one event.
pub open spec fn moved<S, F: Fn(S, u64, u64, &Event) -> (S, Option<String>)>(
    f: F,
    s: S,
    now: Seen,
) -> (S, Option<Seq<char>>) {
    choose|p: (S, Option<Seq<char>>)| #[trigger] moves(f, s, now.op, now.vt, now.e, p.0, p.1)
}

/// The state behind a number of events.
pub open spec fn state_after<S, F: Fn(S, u64, u64, &Event) -> (S, Option<String>)>(
    f: F,
    first: S,
    past: Seq<Seen>,
) -> S
    decreases past.len(),
{
    if past.len() == 0 {
        first
    } else {
        moved(f, state_after(f, first, past.drop_last()), past.last()).0
    }
}

/// A rule made of a state and a function that looks at the state and one event
/// at a time, and gives the next state.
pub struct StatefulInvariant<S, F> {
    name: String,
    first: S,
    now: S,
    f: F,
    seen: Ghost<Seq<Seen>>,
}

impl<S: Copy, F: Fn(S, u64, u64, &Event) -> (S, Option<String>)> StatefulInvariant<S, F> {
    /// The function.
    pub closed spec fn function(&self) -> F {
        self.f
    }

    /// The state before any event.
    pub closed spec fn start(&self) -> S {
        self.first
    }

    /// A rule with the given name, which starts in the state `first`.
    pub fn new(name: &str, first: S, f: F) -> (r: Self)
        requires
            settled::<S, F>(f),
        ensures
            r.ok(),
            r.title() == name@,
            r.history() == Seq::<Seen>::empty(),
            r.function() == f,
            r.start() == first,
    {
        StatefulInvariant { name: copy_text(name), first, now: first, f, seen: Ghost(Seq::empty()) }
    }

    /// The same rule, as if it had seen nothing.
    pub(crate) fn restart(&self) -> (r: Self) where F: Copy
        requires
            self.ok(),
        ensures
            r.ok(),
            r.title() == self.title(),
            r.history() == Seq::<Seen>::empty(),
            r.function() == self.function(),
            r.start() == self.start(),
    {
        StatefulInvariant::new(self.name.as_str(), self.first, self.f)
    }
}

impl<S: Copy, F: Fn(S, u64, u64, &Event) -> (S, Option<String>)> Invariant for StatefulInvariant<
    S,
    F,
> {
    closed spec fn ok(&self) -> bool {
        &&& settled::<S, F>(self.f)
        &&& self.now == state_after(self.f, self.first, self.seen@)
    }

    closed spec fn title(&self) -> Seq<char> {
        self.name@
    }

    closed spec fn history(&self) -> Seq<Seen> {
        self.seen@
    }

    /// What the function says of the event in the state behind the past.
    open spec fn verdict(&self, past: Seq<Seen>, now: Seen) -> Option<Seq<char>> {
        moved(self.function(), state_after(self.function(), self.start(), past), now).1
    }

    fn name(&self) -> (s: &str) {
        self.name.as_str()
    }

    fn on_event(&mut self, op: u64, vt: u64, e: &Event) -> (r: Option<String>) {
        let ghost before = self.seen@;
        let (next, r) = (self.f)(self.now, op, vt, e);
        proof {
            let x = Seen { op, vt, e: e@ };
            assert(moves(self.f, self.now, op, vt, e@, next, broker::text_view(r)));
            let p = (next, broker::text_view(r));
            assert(moves(self.f, self.now, x.op, x.vt, x.e, p.0, p.1));
            let q = moved(self.f, self.now, x);
            assert(moves(self.f, self.now, x.op, x.vt, x.e, q.0, q.1));
            assert(before.push(x).drop_last() =~= before);
        }
        self.now = next;
        self.seen = Ghost(before.push(Seen { op, vt, e: e@ }));
        r
    }
}

// ---------------------------------------------------------------------------
// The monitor
// ---------------------------------------------------------------------------

/// What the first `n` rules raise at `now`, each behind its own history and
/// `extra`.
pub open spec fn raised<I: Invariant>(rules: Seq<I>, extra: Seq<Seen>, now: Seen, n: int) -> Seq<
    ViolationView,
>
    decreases n,
{
    if n <= 0 {
        Seq::empty()
    } else {
        let r = raised(rules, extra, now, n - 1);
        let rule = rules[n - 1];
        match rule.verdict(rule.history() + extra, now) {
            Some(message) => r.push(
                ViolationView {
                    rule: rule.title(),
                    op: now.op,
                    vt: now.vt,
                    message,
                    event: now.e,
                },
            ),
            None => r,
        }
    }
}

/// What the rules raise over the first `n` events of `seen`.
pub open spec fn all_raised<I: Invariant>(rules: Seq<I>, seen: Seq<Seen>, n: int) -> Seq<
    ViolationView,
>
    decreases n,
{
    if n <= 0 {
        Seq::empty()
    } else {
        all_raised(rules, seen, n - 1) + raised(
            rules,
            seen.take(n - 1),
            seen[n - 1],
            rules.len() as int,
        )
    }
}

/// `b` is a rule `a` that was shown `events`.
pub open spec fn shown<I: Invariant>(a: I, b: I, events: Seq<Seen>) -> bool {
    &&& b.ok()
    &&& b.title() == a.title()
    &&& b.history() == a.history() + events
    &&& forall|p: Seq<Seen>, n: Seen| #[trigger] b.verdict(p, n) == a.verdict(p, n)
}

/// The rules `b` are the rules `a` that were shown `events`.
pub open spec fn all_shown<I: Invariant>(a: Seq<I>, b: Seq<I>, events: Seq<Seen>) -> bool {
    &&& a.len() == b.len()
    &&& forall|i: int| 0 <= i < a.len() ==> shown(#[trigger] a[i], b[i], events)
}

pub proof fn lemma_raised_shown<I: Invariant>(
    a: Seq<I>,
    b: Seq<I>,
    events: Seq<Seen>,
    extra: Seq<Seen>,
    now: Seen,
    n: int,
)
    requires
        all_shown(a, b, events),
        0 <= n <= a.len(),
    ensures
        raised(b, extra, now, n) == raised(a, events + extra, now, n),
    decreases n,
{
    if n > 0 {
        lemma_raised_shown(a, b, events, extra, now, n - 1);
        assert(shown(a[n - 1], b[n - 1], events));
        assert(b[n - 1].history() + extra =~= a[n - 1].history() + (events + extra));
    }
}

pub proof fn lemma_shown_again<I: Invariant>(
    a: Seq<I>,
    b: Seq<I>,
    c: Seq<I>,
    x: Seq<Seen>,
    y: Seq<Seen>,
)
    requires
        all_shown(a, b, x),
        all_shown(b, c, y),
    ensures
        all_shown(a, c, x + y),
{
    assert forall|i: int| 0 <= i < a.len() implies shown(#[trigger] a[i], c[i], x + y) by {
        assert(shown(a[i], b[i], x));
        assert(shown(b[i], c[i], y));
        assert(c[i].history() =~= a[i].history() + (x + y));
        assert forall|p: Seq<Seen>, n: Seen| #[trigger]
            c[i].verdict(p, n) == a[i].verdict(p, n) by {
            assert(b[i].verdict(p, n) == a[i].verdict(p, n));
        }
    }
}

/// The rules are in order.
pub open spec fn all_ok<I: Invariant>(rules: Seq<I>) -> bool {
    forall|i: int| 0 <= i < rules.len() ==> (#[trigger] rules[i]).ok()
}

/// Runs rules over an event stream and collects what they raise.
pub struct Monitor<I> {
    pub rules: Vec<I>,
    pub raised: Vec<ViolationRecord>,
}

impl<I: Invariant> Monitor<I> {
    pub open spec fn wf(&self) -> bool {
        all_ok(self.rules@)
    }

    /// A monitor without rules.
    #[must_use]
    pub fn new() -> (r: Self)
        ensures
            r.wf(),
            r.rules@.len() == 0,
            violation_views(r.raised@) == Seq::<ViolationView>::empty(),
    {
        let r = Monitor { rules: Vec::new(), raised: Vec::new() };
        assert(violation_views(r.raised@) =~= Seq::<ViolationView>::empty());
        r
    }

    /// Add a rule.
    pub fn register(&mut self, rule: I)
        requires
            old(self).wf(),
            rule.ok(),
        ensures
            final(self).wf(),
            final(self).rules@ == old(self).rules@.push(rule),
            final(self).raised == old(self).raised,
    {
        self.rules.push(rule);
    }

    /// Show one event to every rule; answers how many violations it raised.
    pub fn observe(&mut self, op: u64, vt: u64, e: &Event) -> (n: usize)
        requires
            old(self).wf(),
        ensures
            final(self).wf(),
            all_shown(old(self).rules@, final(self).rules@, seq![Seen { op, vt, e: e@ }]),
            violation_views(final(self).raised@) == violation_views(old(self).raised@) + raised(
                old(self).rules@,
                Seq::empty(),
                Seen { op, vt, e: e@ },
                old(self).rules@.len() as int,
            ),
            n == final(self).raised@.len() - old(self).raised@.len(),
    {
        let ghost now = Seen { op, vt, e: e@ };
        let ghost rules0 = self.rules@;
        let ghost raised0 = violation_views(self.raised@);
        let before: usize = self.raised.len();
        let mut i: usize = 0;
        proof {
            assert(violation_views(self.raised@) =~= raised0 + raised(
                rules0,
                Seq::empty(),
                now,
                0,
            ));
        }
        while i < self.rules.len()
            invariant
                i <= rules0.len(),
                self.rules@.len() == rules0.len(),
                now == (Seen { op, vt, e: e@ }),
                all_ok(rules0),
                forall|j: int|
                    0 <= j < i ==> shown(#[trigger] rules0[j], self.rules@[j], seq![now]),
                forall|j: int| i <= j < rules0.len() ==> self.rules@[j] == #[trigger] rules0[j],
                violation_views(self.raised@) == raised0 + raised(
                    rules0,
                    Seq::empty(),
                    now,
                    i as int,
                ),
                self.raised@.len() >= before,
            decreases rules0.len() - i,
        {
            let ghost rule0 = rules0[i as int];
            assert(self.rules@[i as int] == rule0);
            assert(rule0.ok());
            let said = self.rules[i].on_event(op, vt, e);
            proof {
                let rule1 = self.rules@[i as int];
                assert(rule1.history() =~= rule0.history() + seq![now]);
                assert(shown(rule0, rule1, seq![now]));
                assert(rule0.history() + Seq::<Seen>::empty() =~= rule0.history());
            }
            let ghost sofar = violation_views(self.raised@);
            if let Some(message) = said {
                let v = ViolationRecord {
                    rule: copy_text(self.rules[i].name()),
                    op,
                    vt,
                    message,
                    event: e.copy(),
                };
                let ghost vv = v@;
                self.raised.push(v);
                proof {
                    assert(violation_views(self.raised@) =~= sofar.push(vv));
                    assert(violation_views(self.raised@) =~= raised0 + raised(
                        rules0,
                        Seq::empty(),
                        now,
                        i as int + 1,
                    ));
                }
            }
            i = i + 1;
        }
        proof {
            assert(all_ok(self.rules@)) by {
                assert forall|j: int| 0 <= j < self.rules@.len() implies (
                #[trigger] self.rules@[j]).ok() by {
                    assert(shown(rules0[j], self.rules@[j], seq![now]));
                }
            }
        }
        self.raised.len() - before
    }

    /// What was raised so far.
    #[must_use]
    pub fn violations(&self) -> (r: &Vec<ViolationRecord>)
        ensures
            *r == self.raised,
    {
        &self.raised
    }

    /// Run the rules over a log and answer everything they raise.
    #[must_use]
    pub fn check_log(self, log: &Log) -> (r: Vec<ViolationRecord>)
        requires
            self.wf(),
        ensures
            violation_views(r@) == violation_views(self.raised@) + all_raised(
                self.rules@,
                seen_of(log@.records),
                log@.records.len() as int,
            ),
    {
        let ghost rules0 = self.rules@;
        let ghost raised0 = violation_views(self.raised@);
        let ghost seen = seen_of(log@.records);
        let mut m = self;
        let mut i: usize = 0;
        proof {
            assert(seen.take(0) =~= Seq::<Seen>::empty());
            assert forall|j: int| 0 <= j < rules0.len() implies shown(
                #[trigger] rules0[j],
                m.rules@[j],
                seen.take(0),
            ) by {
                assert(rules0[j].history() + seen.take(0) =~= rules0[j].history());
            }
            assert(raised0 + all_raised(rules0, seen, 0) =~= raised0);
        }
        while i < log.records.len()
            invariant
                i <= log.records@.len(),
                m.wf(),
                seen == seen_of(log@.records),
                all_shown(rules0, m.rules@, seen.take(i as int)),
                violation_views(m.raised@) == raised0 + all_raised(rules0, seen, i as int),
            decreases log.records@.len() - i,
        {
            let r = &log.records[i];
            let ghost before = m.rules@;
            assert(log@.records[i as int] == r@);
            let _n: usize = m.observe(r.op, r.vt, &r.e);
            proof {
                let now = seen[i as int];
                assert(now == (Seen { op: r.op, vt: r.vt, e: r.e@ }));
                lemma_raised_shown(
                    rules0,
                    before,
                    seen.take(i as int),
                    Seq::empty(),
                    now,
                    rules0.len() as int,
                );
                assert(seen.take(i as int) + Seq::<Seen>::empty() =~= seen.take(i as int));
                lemma_shown_again(rules0, before, m.rules@, seen.take(i as int), seq![now]);
                assert(seen.take(i as int + 1) =~= seen.take(i as int) + seq![now]);
                assert(violation_views(m.raised@) =~= raised0 + all_raised(
                    rules0,
                    seen,
                    i as int + 1,
                ));
            }
            i = i + 1;
        }
        m.raised
    }
}

/// The records of a log as rules see them.
pub open spec fn seen_of(records: Seq<log::RecordView>) -> Seq<Seen> {
    records.map_values(|r: log::RecordView| Seen { op: r.op, vt: r.vt, e: r.e })
}

/// A live monitor and a later check of the log agree: what checking raises
/// over some events and one more is what it raises over those events, and
/// then what a monitor that was shown them raises at the last.
pub proof fn law_live_and_later_agree<I: Invariant>(
    rules: Seq<I>,
    live: Seq<I>,
    seen: Seq<Seen>,
    now: Seen,
)
    requires
        all_shown(rules, live, seen),
    ensures
        all_raised(rules, seen.push(now), seen.len() as int + 1) == all_raised(
            rules,
            seen,
            seen.len() as int,
        ) + raised(live, Seq::empty(), now, live.len() as int),
{
    let n = seen.len() as int;
    assert(seen.push(now).take(n) =~= seen);
    lemma_raised_prefix(rules, seen.push(now), seen, n);
    lemma_raised_shown(rules, live, seen, Seq::empty(), now, rules.len() as int);
    assert(seen + Seq::<Seen>::empty() =~= seen);
}

pub proof fn lemma_raised_prefix<I: Invariant>(rules: Seq<I>, a: Seq<Seen>, b: Seq<Seen>, n: int)
    requires
        0 <= n <= a.len(),
        n <= b.len(),
        forall|i: int| 0 <= i < n ==> a[i] == b[i],
    ensures
        all_raised(rules, a, n) == all_raised(rules, b, n),
    decreases n,
{
    if n > 0 {
        lemma_raised_prefix(rules, a, b, n - 1);
        assert(a.take(n - 1) =~= b.take(n - 1));
    }
}

// ---------------------------------------------------------------------------
// Deliveries in send order
// ---------------------------------------------------------------------------

pub open spec fn channel_of(src: Addr, dst: Addr) -> Channel {
    Channel { src: log::to_vaddr(src), dst: log::to_vaddr(dst) }
}

/// The number on its channel of the datagram that was scheduled with each tie.
pub open spec fn scheduled(h: Seq<Seen>) -> Map<u64, u64>
    decreases h.len(),
{
    if h.len() == 0 {
        Map::empty()
    } else {
        let m = scheduled(h.drop_last());
        match h.last().e {
            EventView::Send { chan_seq, outcome: SendOutcome::Enqueued { tie, .. }, .. } =>
                m.insert(tie, chan_seq),
            _ => m,
        }
    }
}

/// The highest number delivered on each channel.
pub open spec fn highest(h: Seq<Seen>) -> Map<Channel, u64>
    decreases h.len(),
{
    if h.len() == 0 {
        Map::empty()
    } else {
        let m = highest(h.drop_last());
        let sent = scheduled(h.drop_last());
        match h.last().e {
            EventView::Recv { outcome: RecvOutcomeView::Delivered { src, dst, tie, .. }, .. } => {
                let ch = channel_of(src, dst);
                if !sent.contains_key(tie) || (m.contains_key(ch) && sent[tie] < m[ch]) {
                    m
                } else {
                    m.insert(ch, sent[tie])
                }
            },
            _ => m,
        }
    }
}

/// `channel <src> -> <dst>: datagram with send order <seq> delivered after
/// send order <max> (reordered)`, with an arrow.
pub open spec fn reorder_text(src: Addr, dst: Addr, seq: u64, max: u64) -> Seq<char> {
    "channel "@ + wire::addr_text(src.ip, src.port) + seq![' ', '\u{2192}', ' '] + wire::addr_text(
        dst.ip,
        dst.port,
    ) + ": datagram with send order "@ + text::dec(seq as nat) + " delivered after send order "@
        + text::dec(max as nat) + " (reordered)"@
}

/// A delivery that comes behind a later datagram of its channel.
pub open spec fn fifo_verdict(past: Seq<Seen>, e: EventView) -> Option<Seq<char>> {
    match e {
        EventView::Recv { outcome: RecvOutcomeView::Delivered { src, dst, tie, .. }, .. } => {
            let ch = channel_of(src, dst);
            let sent = scheduled(past);
            let max = highest(past);
            if sent.contains_key(tie) && max.contains_key(ch) && sent[tie] < max[ch] {
                Some(reorder_text(src, dst, sent[tie], max[ch]))
            } else {
                None
            }
        },
        _ => None,
    }
}

/// Deliveries on each channel come in the order of the sends. Any latency
/// with variance violates this by design.
pub struct PerChannelFifo {
    enqueued: HashMap<u64, u64>,
    delivered_max: AMap<Channel, u64>,
    seen: Ghost<Seq<Seen>>,
}

impl PerChannelFifo {
    #[must_use]
    pub fn new() -> (r: Self)
        ensures
            r.ok(),
            r.history() == Seq::<Seen>::empty(),
    {
        PerChannelFifo {
            enqueued: HashMap::new(),
            delivered_max: AMap::new(),
            seen: Ghost(Seq::empty()),
        }
    }
}

fn reorder_message(src: &Addr, dst: &Addr, seq: u64, max: u64) -> (s: String)
    ensures
        s@ == reorder_text(*src, *dst, seq, max),
{
    let mut s = copy_text("channel ");
    push_addr_text(&mut s, src.ip, src.port);
    s.push(' ');
    s.push('\u{2192}');
    s.push(' ');
    push_addr_text(&mut s, dst.ip, dst.port);
    push_text(&mut s, ": datagram with send order ");
    push_dec(&mut s, seq);
    push_text(&mut s, " delivered after send order ");
    push_dec(&mut s, max);
    push_text(&mut s, " (reordered)");
    assert(s@ =~= reorder_text(*src, *dst, seq, max));
    s
}

impl Invariant for PerChannelFifo {
    closed spec fn ok(&self) -> bool {
        &&& self.delivered_max.wf()
        &&& self.enqueued@ == scheduled(self.seen@)
        &&& self.delivered_max@ == highest(self.seen@)
    }

    open spec fn title(&self) -> Seq<char> {
        "per-channel-fifo"@
    }

    closed spec fn history(&self) -> Seq<Seen> {
        self.seen@
    }

    open spec fn verdict(&self, past: Seq<Seen>, now: Seen) -> Option<Seq<char>> {
        fifo_verdict(past, now.e)
    }

    fn name(&self) -> (s: &str) {
        "per-channel-fifo"
    }

    fn on_event(&mut self, op: u64, vt: u64, e: &Event) -> (r: Option<String>) {
        let ghost past = self.seen@;
        let ghost now = Seen { op, vt, e: e@ };
        self.seen = Ghost(past.push(now));
        proof {
            assert(past.push(now).drop_last() =~= past);
            assert(past.push(now).last() == now);
        }
        match e {
            Event::Send { chan_seq, outcome, .. } => {
                if let SendOutcome::Enqueued { tie, .. } = outcome {
                    let _old: Option<u64> = self.enqueued.insert(*tie, *chan_seq);
                }
                None
            },
            Event::Recv { outcome, .. } => {
                match outcome {
                    RecvOutcome::Delivered { src, dst, tie, .. } => {
                        let seq: u64 = match self.enqueued.get(tie) {
                            Some(s) => *s,
                            None => {
                                return None;
                            },
                        };
                        let ch = Channel {
                            src: VAddr { ip: src.ip, port: src.port },
                            dst: VAddr { ip: dst.ip, port: dst.port },
                        };
                        if let Some(max) = self.delivered_max.get(&ch) {
                            if seq < *max {
                                return Some(reorder_message(src, dst, seq, *max));
                            }
                        }
                        self.delivered_max.insert(ch, seq);
                        None
                    },
                    RecvOutcome::Empty => None,
                }
            },
            _ => None,
        }
    }
}

// ---------------------------------------------------------------------------
// No delivery twice
// ---------------------------------------------------------------------------

/// The position of the first delivery of each datagram, by its tie.
pub open spec fn delivered_at(h: Seq<Seen>) -> Map<u64, u64>
    decreases h.len(),
{
    if h.len() == 0 {
        Map::empty()
    } else {
        let m = delivered_at(h.drop_last());
        match h.last().e {
            EventView::Recv { outcome: RecvOutcomeView::Delivered { tie, .. }, .. } =>
                if m.contains_key(tie) {
                    m
                } else {
                    m.insert(tie, h.last().op)
                },
            _ => m,
        }
    }
}

pub open spec fn twice_text(tie: u64, first: u64) -> Seq<char> {
    "datagram tie="@ + text::dec(tie as nat) + " delivered twice (first at op "@ + text::dec(
        first as nat,
    ) + ")"@
}

/// A delivery of what was delivered before.
pub open spec fn duplicate_verdict(past: Seq<Seen>, e: EventView) -> Option<Seq<char>> {
    match e {
        EventView::Recv { outcome: RecvOutcomeView::Delivered { tie, .. }, .. } =>
            if delivered_at(past).contains_key(tie) {
                Some(twice_text(tie, delivered_at(past)[tie]))
            } else {
                None
            },
        _ => None,
    }
}

/// No datagram, told by its tie, is delivered twice.
pub struct NoDuplicateDelivery {
    at: HashMap<u64, u64>,
    seen: Ghost<Seq<Seen>>,
}

impl NoDuplicateDelivery {
    #[must_use]
    pub fn new() -> (r: Self)
        ensures
            r.ok(),
            r.history() == Seq::<Seen>::empty(),
    {
        NoDuplicateDelivery { at: HashMap::new(), seen: Ghost(Seq::empty()) }
    }
}

impl Invariant for NoDuplicateDelivery {
    closed spec fn ok(&self) -> bool {
        self.at@ == delivered_at(self.seen@)
    }

    open spec fn title(&self) -> Seq<char> {
        "no-duplicate-delivery"@
    }

    closed spec fn history(&self) -> Seq<Seen> {
        self.seen@
    }

    open spec fn verdict(&self, past: Seq<Seen>, now: Seen) -> Option<Seq<char>> {
        duplicate_verdict(past, now.e)
    }

    fn name(&self) -> (s: &str) {
        "no-duplicate-delivery"
    }

    fn on_event(&mut self, op: u64, vt: u64, e: &Event) -> (r: Option<String>) {
        let ghost past = self.seen@;
        let ghost now = Seen { op, vt, e: e@ };
        self.seen = Ghost(past.push(now));
        proof {
            assert(past.push(now).drop_last() =~= past);
            assert(past.push(now).last() == now);
        }
        match e {
            Event::Recv { outcome, .. } => {
                match outcome {
                    RecvOutcome::Delivered { tie, .. } => {
                        let first: Option<u64> = match self.at.get(tie) {
                            Some(f) => Some(*f),
                            None => None,
                        };
                        match first {
                            Some(f) => {
                                let mut s = copy_text("datagram tie=");
                                push_dec(&mut s, *tie);
                                push_text(&mut s, " delivered twice (first at op ");
                                push_dec(&mut s, f);
                                push_text(&mut s, ")");
                                assert(s@ =~= twice_text(*tie, f));
                                Some(s)
                            },
                            None => {
                                let _old: Option<u64> = self.at.insert(*tie, op);
                                None
                            },
                        }
                    },
                    RecvOutcome::Empty => None,
                }
            },
            _ => None,
        }
    }
}

// ---------------------------------------------------------------------------
// Built-in rules by name
// ---------------------------------------------------------------------------

/// A built-in rule.
pub enum BuiltIn {
    Fifo(PerChannelFifo),
    Dup(NoDuplicateDelivery),
}

impl Invariant for BuiltIn {
    open spec fn ok(&self) -> bool {
        match *self {
            BuiltIn::Fifo(r) => r.ok(),
            BuiltIn::Dup(r) => r.ok(),
        }
    }

    open spec fn title(&self) -> Seq<char> {
        match *self {
            BuiltIn::Fifo(r) => r.title(),
            BuiltIn::Dup(r) => r.title(),
        }
    }

    open spec fn history(&self) -> Seq<Seen> {
        match *self {
            BuiltIn::Fifo(r) => r.history(),
            BuiltIn::Dup(r) => r.history(),
        }
    }

    open spec fn verdict(&self, past: Seq<Seen>, now: Seen) -> Option<Seq<char>> {
        match *self {
            BuiltIn::Fifo(r) => r.verdict(past, now),
            BuiltIn::Dup(r) => r.verdict(past, now),
        }
    }

    fn name(&self) -> (s: &str) {
        match self {
            BuiltIn::Fifo(r) => r.name(),
            BuiltIn::Dup(r) => r.name(),
        }
    }

    fn on_event(&mut self, op: u64, vt: u64, e: &Event) -> (r: Option<String>) {
        match self {
            BuiltIn::Fifo(r) => r.on_event(op, vt, e),
            BuiltIn::Dup(r) => r.on_event(op, vt, e),
        }
    }
}

} // verus!
