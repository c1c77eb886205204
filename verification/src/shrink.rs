//! Delta debugging: reduce a sequence of operations to a locally minimal one
//! that still shows the same failure.
//!
//! The same failure means the same rule on the same channel: removing a send
//! shifts the numbers of all later ones on its channel, so that messages which
//! quote them change. Seed and network text are never varied.
//!
//! The passes, in order:
//! 1. cut everything behind the first such violation;
//! 2. remove chunks of operations, in ever finer divisions;
//! 3. remove single operations until none can go;
//! 4. cut each payload that is left to one byte;
//! 5. drop the `Connect`s of connections that do nothing else.
//!
//! A `Connect` is kept up to the last pass: it is cheap and tells a reader who
//! takes part.

use vstd::prelude::*;

use crate::config;
use crate::fault::TailSource;
use crate::input;
use crate::input::{copy_ops, execute, ExecView, OpInput, OpView};
use crate::log::{Event, EventView, RecvOutcome, RecvOutcomeView};
use crate::monitor;
use crate::monitor::{
    BuiltIn, FnInvariant, Invariant, NoDuplicateDelivery, PerChannelFifo, Seen, StatefulInvariant,
    ViolationRecord, ViolationView,
};
use crate::report;
use crate::report::push_channel;
use crate::text::{copy_text, push_text, same_text};

verus! {

// ---------------------------------------------------------------------------
// What a failure is
// ---------------------------------------------------------------------------

/// The identity of a failure.
#[derive(Clone, PartialEq, Eq, Hash, Debug)]
pub struct ViolationKey {
    /// The name of the violated rule.
    pub rule: String,
    /// The channel of the violating event, or nothing where it has none.
    pub subject: String,
}

pub struct KeyView {
    pub rule: Seq<char>,
    pub subject: Seq<char>,
}

impl View for ViolationKey {
    type V = KeyView;

    open spec fn view(&self) -> KeyView {
        KeyView { rule: self.rule@, subject: self.subject@ }
    }
}

/// The channel that an event belongs to, as text; nothing where it has none.
pub open spec fn subject_of(e: EventView) -> Seq<char> {
    match e {
        EventView::Recv { outcome: RecvOutcomeView::Delivered { src, dst, .. }, .. } =>
            report::channel_text(src, dst),
        EventView::Send { src, dst, .. } => report::channel_text(src, dst),
        _ => Seq::empty(),
    }
}

/// The failure that a violation belongs to.
pub open spec fn key_of(v: ViolationView) -> KeyView {
    KeyView { rule: v.rule, subject: subject_of(v.event) }
}

/// A key as text.
pub open spec fn key_text(k: KeyView) -> Seq<char> {
    if k.subject.len() == 0 {
        k.rule
    } else {
        k.rule + " on "@ + k.subject
    }
}

impl ViolationKey {
    /// The failure that a violation belongs to.
    #[must_use]
    pub fn of(v: &ViolationRecord) -> (k: Self)
        ensures
            k@ == key_of(v@),
    {
        let mut subject = String::new();
        match &v.event {
            Event::Recv { outcome, .. } => {
                if let RecvOutcome::Delivered { src, dst, .. } = outcome {
                    push_channel(&mut subject, src, dst);
                }
            },
            Event::Send { src, dst, .. } => {
                push_channel(&mut subject, src, dst);
            },
            _ => {},
        }
        assert(subject@ =~= subject_of(v.event@));
        ViolationKey { rule: copy_text(v.rule.as_str()), subject }
    }

    /// The key as text: the rule, and the channel where there is one.
    #[must_use]
    pub fn text(&self) -> (s: String)
        ensures
            s@ == key_text(self@),
    {
        let mut s = copy_text(self.rule.as_str());
        if !self.subject.as_str().is_empty() {
            push_text(&mut s, " on ");
            push_text(&mut s, self.subject.as_str());
        }
        s
    }

    /// A copy.
    pub fn copy(&self) -> (r: Self)
        ensures
            r@ == self@,
    {
        ViolationKey {
            rule: copy_text(self.rule.as_str()),
            subject: copy_text(self.subject.as_str()),
        }
    }

    /// Whether two keys name the same failure.
    pub fn same(&self, other: &Self) -> (b: bool)
        ensures
            b == (self@ == other@),
    {
        same_text(self.rule.as_str(), other.rule.as_str()) && same_text(
            self.subject.as_str(),
            other.subject.as_str(),
        )
    }
}

/// A rule that can be made anew, as if it had seen nothing. Rules keep state,
/// so every execution needs its own.
pub trait Renew: Invariant {
    fn renew(&self) -> (r: Self)
        requires
            self.ok(),
        ensures
            r.ok(),
            r.title() == self.title(),
            r.history() == Seq::<Seen>::empty(),
            forall|p: Seq<Seen>, n: Seen| #[trigger] r.verdict(p, n) == self.verdict(p, n),
    ;
}

impl Renew for PerChannelFifo {
    fn renew(&self) -> (r: Self) {
        PerChannelFifo::new()
    }
}

impl Renew for NoDuplicateDelivery {
    fn renew(&self) -> (r: Self) {
        NoDuplicateDelivery::new()
    }
}

impl Renew for BuiltIn {
    fn renew(&self) -> (r: Self) {
        match self {
            BuiltIn::Fifo(r) => BuiltIn::Fifo(r.renew()),
            BuiltIn::Dup(r) => BuiltIn::Dup(r.renew()),
        }
    }
}

impl<F: Fn(u64, u64, &Event) -> Option<String> + Copy> Renew for FnInvariant<F> {
    fn renew(&self) -> (r: Self) {
        self.restart()
    }
}

impl<S: Copy, F: Fn(S, u64, u64, &Event) -> (S, Option<String>) + Copy> Renew for StatefulInvariant<
    S,
    F,
> {
    fn renew(&self) -> (r: Self) {
        self.restart()
    }
}

/// The rules have seen nothing.
pub open spec fn unused<I: Invariant>(rules: Seq<I>) -> bool {
    forall|i: int|
        0 <= i < rules.len() ==> (#[trigger] rules[i]).history() == Seq::<Seen>::empty()
}

/// The rules anew.
pub fn renew_all<I: Renew>(rules: &Vec<I>) -> (r: Vec<I>)
    requires
        monitor::all_ok(rules@),
        unused(rules@),
    ensures
        monitor::all_ok(r@),
        monitor::all_shown(rules@, r@, Seq::empty()),
{
    let mut r: Vec<I> = Vec::new();
    let mut i: usize = 0;
    while i < rules.len()
        invariant
            i <= rules@.len(),
            r@.len() == i,
            monitor::all_ok(rules@),
            unused(rules@),
            forall|j: int|
                0 <= j < i ==> monitor::shown(#[trigger] rules@[j], r@[j], Seq::empty()),
        decreases rules@.len() - i,
    {
        let x = rules[i].renew();
        assert(rules@[i as int].history() + Seq::<Seen>::empty() =~= Seq::<Seen>::empty());
        assert(monitor::shown(rules@[i as int], x, Seq::empty()));
        r.push(x);
        i = i + 1;
    }
    assert forall|j: int| 0 <= j < r@.len() implies (#[trigger] r@[j]).ok() by {
        assert(monitor::shown(rules@[j], r@[j], Seq::empty()));
    }
    r
}

/// Rules made anew raise the same.
pub proof fn lemma_renewed<I: Invariant>(a: Seq<I>, b: Seq<I>, seen: Seq<Seen>, n: int)
    requires
        monitor::all_shown(a, b, Seq::empty()),
    ensures
        monitor::all_raised(b, seen, n) == monitor::all_raised(a, seen, n),
    decreases n,
{
    if n > 0 {
        lemma_renewed(a, b, seen, n - 1);
        let extra = seen.take(n - 1);
        monitor::lemma_raised_shown(a, b, Seq::empty(), extra, seen[n - 1], a.len() as int);
        assert(Seq::<Seen>::empty() + extra =~= extra);
    }
}

/// The first violation of the failure `key` among the first `n`, or `n`.
pub open spec fn find_key(v: Seq<ViolationView>, key: KeyView, i: int) -> int
    decreases v.len() - i,
{
    if i < 0 || i >= v.len() {
        v.len() as int
    } else if key_of(v[i]) == key {
        i
    } else {
        find_key(v, key, i + 1)
    }
}

/// The place of the operation at which an execution first shows the failure.
pub open spec fn first_failure(x: Result<ExecView, Seq<char>>, key: KeyView) -> Option<u64> {
    match x {
        Err(_) => None,
        Ok(o) => {
            let i = find_key(o.violations, key, 0);
            if i < o.violations.len() {
                Some(o.violations[i].op)
            } else {
                None
            }
        },
    }
}

/// Whether a sequence of operations shows the failure `key`.
pub open spec fn shows<I: Invariant, T: TailSource>(
    seed: u64,
    net: Seq<char>,
    readings: Seq<Option<u64>>,
    rules: Seq<I>,
    tails: T,
    key: KeyView,
) -> spec_fn(Seq<OpView>) -> bool {
    |ops: Seq<OpView>|
        first_failure(
            input::execution_of(seed, net, readings, ops, rules, tails),
            key,
        ) is Some
}

fn find_violation(v: &Vec<ViolationRecord>, key: &ViolationKey) -> (r: Option<usize>)
    ensures
        ({
            let vv = monitor::violation_views(v@);
            let i = find_key(vv, key@, 0);
            match r {
                Some(k) => k == i && k < v@.len(),
                None => i >= vv.len(),
            }
        }),
{
    let ghost vv = monitor::violation_views(v@);
    let mut i: usize = 0;
    while i < v.len()
        invariant
            i <= v@.len(),
            vv == monitor::violation_views(v@),
            find_key(vv, key@, 0) == find_key(vv, key@, i as int),
        decreases v@.len() - i,
    {
        assert(vv[i as int] == v@[i as int]@);
        let k = ViolationKey::of(&v[i]);
        if k.same(key) {
            return Some(i);
        }
        i = i + 1;
    }
    None
}

// ---------------------------------------------------------------------------
// The search
// ---------------------------------------------------------------------------

/// No more executions are begun once this many were made, except to finish a
/// sweep. The result is a failing sequence still, but may not be minimal.
pub const MAX_EXECUTIONS: usize = 4000;

/// What the search did.
#[derive(Clone, Copy, PartialEq, Eq, Debug, Structural)]
pub struct ShrinkStats {
    pub ops_before: usize,
    pub ops_after: usize,
    pub executions: usize,
    /// Whether the bound on executions was reached.
    pub budget_exhausted: bool,
}

impl Default for ShrinkStats {
    fn default() -> (r: Self)
        ensures
            r == (ShrinkStats {
                ops_before: 0,
                ops_after: 0,
                executions: 0,
                budget_exhausted: false,
            }),
    {
        ShrinkStats { ops_before: 0, ops_after: 0, executions: 0, budget_exhausted: false }
    }
}

/// Whether the passes that remove operations may remove this one.
pub open spec fn removable(o: OpView) -> bool {
    !(o is Connect)
}

/// How many operations may be removed.
pub open spec fn removables(ops: Seq<OpView>) -> nat
    decreases ops.len(),
{
    if ops.len() == 0 {
        0
    } else {
        removables(ops.drop_last()) + if removable(ops.last()) {
            1nat
        } else {
            0nat
        }
    }
}

/// The operations without the removable ones that are numbered from `lo` up
/// to `hi`.
pub open spec fn without(ops: Seq<OpView>, lo: nat, hi: nat) -> Seq<OpView>
    decreases ops.len(),
{
    if ops.len() == 0 {
        ops
    } else {
        let rest = ops.drop_last();
        if removable(ops.last()) && lo <= removables(rest) < hi {
            without(rest, lo, hi)
        } else {
            without(rest, lo, hi).push(ops.last())
        }
    }
}

/// `a / b`, rounded up.
pub open spec fn div_up(a: nat, b: nat) -> nat {
    if b == 0 {
        0
    } else {
        ((a + b - 1) / b as int) as nat
    }
}

/// The first of the first `k` candidates that still fails, each without one
/// chunk of `size` removable operations; and the executions made so far.
pub open spec fn tried(
    bad: spec_fn(Seq<OpView>) -> bool,
    ops: Seq<OpView>,
    size: nat,
    k: nat,
    count: nat,
) -> (Option<Seq<OpView>>, nat)
    decreases k,
{
    if k == 0 {
        (None, count)
    } else {
        let (won, c) = tried(bad, ops, size, (k - 1) as nat, count);
        if c >= MAX_EXECUTIONS {
            (won, c)
        } else {
            let candidate = without(ops, ((k - 1) * size) as nat, (k * size) as nat);
            (
                if won is None && bad(candidate) {
                    Some(candidate)
                } else {
                    won
                },
                c + 1,
            )
        }
    }
}

/// One round: the removable operations in `n` chunks, each left out in turn.
pub open spec fn round(
    bad: spec_fn(Seq<OpView>) -> bool,
    ops: Seq<OpView>,
    n: nat,
    count: nat,
) -> (Option<Seq<OpView>>, nat) {
    let r = removables(ops);
    let size = div_up(r, n);
    tried(bad, ops, size, div_up(r, size), count)
}

pub proof fn lemma_removables(ops: Seq<OpView>)
    ensures
        removables(ops) <= ops.len(),
    decreases ops.len(),
{
    if ops.len() > 0 {
        lemma_removables(ops.drop_last());
    }
}

pub proof fn lemma_div_up(a: nat, b: nat)
    requires
        b > 0,
    ensures
        div_up(a, b) * b >= a,
        a > 0 ==> (div_up(a, b) - 1) * b < a,
        a > 0 ==> div_up(a, b) >= 1,
        div_up(a, b) <= a,
{
    let q = (a + b - 1) / b as int;
    vstd::arithmetic::div_mod::lemma_fundamental_div_mod(a + b - 1, b as int);
    let m = (a + b - 1) % (b as int);
    assert(0 <= m < b);
    assert(a + b - 1 == b * q + m);
    assert(q * b == b * q) by (nonlinear_arith);
    assert((q - 1) * b == b * q - b) by (nonlinear_arith);
    if a > 0 {
        assert(q >= 1) by (nonlinear_arith)
            requires
                b * q + m == a + b - 1,
                a > 0,
                0 <= m < b,
        ;
        assert(q <= a) by (nonlinear_arith)
            requires
                b * q <= a + b - 1,
                a >= 1,
                b >= 1,
        ;
    } else {
        assert(q == 0) by (nonlinear_arith)
            requires
                b * q + m == b - 1,
                0 <= m < b,
                b > 0,
        ;
    }
}

/// Leaving out a chunk leaves out as many removable operations as are in it.
pub proof fn lemma_without(ops: Seq<OpView>, lo: nat, hi: nat)
    requires
        lo <= hi,
    ensures
        ({
            let r = removables(ops);
            let gone: int = if r <= lo {
                0
            } else if r <= hi {
                r - lo
            } else {
                hi - lo
            };
            &&& removables(without(ops, lo, hi)) == r - gone
            &&& without(ops, lo, hi).len() == ops.len() - gone
        }),
    decreases ops.len(),
{
    if ops.len() > 0 {
        let rest = ops.drop_last();
        lemma_without(rest, lo, hi);
        let w = without(rest, lo, hi);
        assert(w.push(ops.last()).drop_last() =~= w);
    }
}

/// What a round finds has fewer removable operations, and still fails.
pub proof fn lemma_tried(
    bad: spec_fn(Seq<OpView>) -> bool,
    ops: Seq<OpView>,
    size: nat,
    k: nat,
    count: nat,
)
    requires
        size > 0,
        k > 0 ==> (k - 1) * size < removables(ops),
    ensures
        tried(bad, ops, size, k, count).0 matches Some(s) ==> removables(s) < removables(ops)
            && s.len() < ops.len() && bad(s),
        count <= tried(bad, ops, size, k, count).1,
        tried(bad, ops, size, k, count).1 <= if count < MAX_EXECUTIONS {
            MAX_EXECUTIONS as nat
        } else {
            count
        },
    decreases k,
{
    if k > 0 {
        let lo = ((k - 1) * size) as nat;
        let hi = (k * size) as nat;
        assert(hi == lo + size) by (nonlinear_arith)
            requires
                hi == k * size,
                lo == (k - 1) * size,
        ;
        if k > 1 {
            assert((k - 2) * size < removables(ops)) by (nonlinear_arith)
                requires
                    (k - 1) * size < removables(ops),
            ;
        }
        lemma_tried(bad, ops, size, (k - 1) as nat, count);
        lemma_without(ops, lo, hi);
    }
}

pub proof fn lemma_round(
    bad: spec_fn(Seq<OpView>) -> bool,
    ops: Seq<OpView>,
    n: nat,
    count: nat,
)
    requires
        n >= 1,
        removables(ops) > 0,
    ensures
        round(bad, ops, n, count).0 matches Some(s) ==> removables(s) < removables(ops) && s.len()
            < ops.len() && bad(s),
        count <= round(bad, ops, n, count).1,
        round(bad, ops, n, count).1 <= if count < MAX_EXECUTIONS {
            MAX_EXECUTIONS as nat
        } else {
            count
        },
{
    let r = removables(ops);
    lemma_div_up(r, n);
    let size = div_up(r, n);
    lemma_div_up(r, size);
    lemma_tried(bad, ops, size, div_up(r, size), count);
}

/// The second pass from `n` chunks on: where a chunk can go, go on without it
/// and with a coarser division, else with a division twice as fine, until
/// single operations were tried or the executions are used up.
pub open spec fn ddmin(
    bad: spec_fn(Seq<OpView>) -> bool,
    ops: Seq<OpView>,
    n: nat,
    count: nat,
) -> (Seq<OpView>, nat)
    decreases removables(ops), removables(ops) - n,
{
    let r = removables(ops);
    if r < 2 || n > r || n < 2 || count >= MAX_EXECUTIONS {
        (ops, count)
    } else {
        proof {
            lemma_round(bad, ops, n, count);
        }
        match round(bad, ops, n, count) {
            (Some(s), c) => ddmin(
                bad,
                s,
                if n > 2 {
                    (n - 1) as nat
                } else {
                    2
                },
                c,
            ),
            (None, c) => if n >= r {
                (ops, c)
            } else {
                ddmin(
                    bad,
                    ops,
                    if n * 2 < r {
                        n * 2
                    } else {
                        r
                    },
                    c,
                )
            },
        }
    }
}

/// One sweep from the operation at `i` on: each that can go goes.
pub open spec fn sweep(
    bad: spec_fn(Seq<OpView>) -> bool,
    ops: Seq<OpView>,
    i: int,
    count: nat,
) -> (Seq<OpView>, nat)
    decreases ops.len() - i,
{
    if i < 0 || i >= ops.len() {
        (ops, count)
    } else if !removable(ops[i]) {
        sweep(bad, ops, i + 1, count)
    } else if bad(ops.remove(i)) {
        sweep(bad, ops.remove(i), i, count + 1)
    } else {
        sweep(bad, ops, i + 1, count + 1)
    }
}

/// A sweep keeps or shortens, and makes one execution for each operation that
/// may be removed.
pub proof fn lemma_sweep(
    bad: spec_fn(Seq<OpView>) -> bool,
    ops: Seq<OpView>,
    i: int,
    count: nat,
)
    requires
        0 <= i <= ops.len(),
    ensures
        ({
            let (s, c) = sweep(bad, ops, i, count);
            &&& s.len() <= ops.len()
            &&& s.len() == ops.len() ==> s == ops
            &&& bad(ops) ==> bad(s)
            &&& count <= c <= count + (ops.len() - i)
        }),
    decreases ops.len() - i,
{
    if i < ops.len() {
        if !removable(ops[i]) {
            lemma_sweep(bad, ops, i + 1, count);
        } else if bad(ops.remove(i)) {
            lemma_sweep(bad, ops.remove(i), i, count + 1);
        } else {
            lemma_sweep(bad, ops, i + 1, count + 1);
        }
    }
}

/// The third pass: sweeps until one removes nothing or the executions are used
/// up.
pub open spec fn sweeps(bad: spec_fn(Seq<OpView>) -> bool, ops: Seq<OpView>, count: nat) -> (
    Seq<OpView>,
    nat,
)
    decreases ops.len(),
{
    if count >= MAX_EXECUTIONS {
        (ops, count)
    } else {
        let (s, c) = sweep(bad, ops, 0, count);
        proof {
            lemma_sweep(bad, ops, 0, count);
        }
        if s.len() < ops.len() {
            sweeps(bad, s, c)
        } else {
            (s, c)
        }
    }
}

/// A send with only the first byte of its payload.
pub open spec fn cut(o: OpView) -> OpView {
    match o {
        OpView::Send { conn, src, dst, payload } => OpView::Send {
            conn,
            src,
            dst,
            payload: payload.take(1),
        },
        _ => o,
    }
}

pub open spec fn is_long(o: OpView) -> bool {
    o is Send && o->Send_payload.len() > 1
}

/// The fourth pass from the operation at `i` on.
pub open spec fn cuts(
    bad: spec_fn(Seq<OpView>) -> bool,
    ops: Seq<OpView>,
    i: int,
    count: nat,
) -> (Seq<OpView>, nat)
    decreases ops.len() - i,
{
    if i < 0 || i >= ops.len() || count >= MAX_EXECUTIONS {
        (ops, count)
    } else if !is_long(ops[i]) {
        cuts(bad, ops, i + 1, count)
    } else {
        let candidate = ops.update(i, cut(ops[i]));
        cuts(
            bad,
            if bad(candidate) {
                candidate
            } else {
                ops
            },
            i + 1,
            count + 1,
        )
    }
}

/// Whether `conn` does anything but connect.
pub open spec fn acts(ops: Seq<OpView>, conn: u64) -> bool {
    exists|i: int|
        0 <= i < ops.len() && removable(#[trigger] ops[i]) && input::conn_of(ops[i]) == conn
}

/// The fifth pass over the first `n` operations of `ops`: without the
/// `Connect`s of connections that do nothing else.
pub open spec fn collected(ops: Seq<OpView>, n: int) -> Seq<OpView>
    decreases n,
{
    if n <= 0 {
        Seq::empty()
    } else {
        let o = ops[n - 1];
        if removable(o) || acts(ops, input::conn_of(o)) {
            collected(ops, n - 1).push(o)
        } else {
            collected(ops, n - 1)
        }
    }
}

/// `ops` with those `Connect`s of the first `n` of `all` that are missing put
/// in front.
pub open spec fn reconnected(ops: Seq<OpView>, all: Seq<OpView>, n: int) -> Seq<OpView>
    decreases n,
{
    if n <= 0 {
        ops
    } else {
        let s = reconnected(ops, all, n - 1);
        if all[n - 1] is Connect && !s.contains(all[n - 1]) {
            s.insert(0, all[n - 1])
        } else {
            s
        }
    }
}

/// The result of the first four passes over what fails first at `k`.
pub open spec fn minimized(bad: spec_fn(Seq<OpView>) -> bool, ops: Seq<OpView>, k: int) -> (
    Seq<OpView>,
    nat,
) {
    let (a, c1) = ddmin(bad, ops.take(k + 1), 2, 1);
    let (b, c2) = sweeps(bad, a, c1);
    cuts(bad, b, 0, c2)
}

/// What shrinking gives. `first` is the place at which `ops` first fails;
/// without one `ops` come back as they are.
pub open spec fn shrunk(
    bad: spec_fn(Seq<OpView>) -> bool,
    ops: Seq<OpView>,
    first: Option<u64>,
) -> (Seq<OpView>, ShrinkStats) {
    match first {
        None => (
            ops,
            ShrinkStats {
                ops_before: ops.len() as usize,
                ops_after: ops.len() as usize,
                executions: 1,
                budget_exhausted: false,
            },
        ),
        Some(k) => {
            let (d, c) = minimized(bad, ops, k as int);
            let e = collected(d, d.len() as int);
            let r = if bad(e) {
                e
            } else {
                reconnected(e, ops, ops.len() as int)
            };
            (
                r,
                ShrinkStats {
                    ops_before: ops.len() as usize,
                    ops_after: r.len() as usize,
                    executions: (c + 1) as usize,
                    budget_exhausted: c + 1 >= MAX_EXECUTIONS,
                },
            )
        },
    }
}

// ---------------------------------------------------------------------------
// Doing it
// ---------------------------------------------------------------------------

/// The failure to keep, and how to look for it.
struct Checker<'a, I, T> {
    seed: u64,
    net: &'a str,
    readings: &'a Vec<Option<u64>>,
    rules: &'a Vec<I>,
    target: &'a ViolationKey,
    tails: &'a T,
    executions: usize,
}

impl<'a, I: Renew, T: TailSource> Checker<'a, I, T> {
    spec fn wf(&self) -> bool {
        &&& self.readings@.len() == config::clauses_of(self.net@).len()
        &&& monitor::all_ok(self.rules@)
        &&& unused(self.rules@)
    }

    spec fn bad(&self) -> spec_fn(Seq<OpView>) -> bool {
        shows(
            self.seed,
            self.net@,
            self.readings@,
            self.rules@,
            *self.tails,
            self.target@,
        )
    }

    /// The same failure, with another count of executions.
    spec fn follows(&self, before: &Self) -> bool {
        &&& self.wf()
        &&& self.seed == before.seed
        &&& self.net == before.net
        &&& self.readings == before.readings
        &&& self.rules == before.rules
        &&& self.target == before.target
        &&& self.tails == before.tails
    }

    /// Execute `ops` and look for the failure: the place where it first shows.
    fn first_failure_op(&mut self, ops: &Vec<OpInput>) -> (r: Option<u64>)
        requires
            old(self).wf(),
            old(self).executions < usize::MAX,
        ensures
            final(self).follows(old(self)),
            final(self).executions == old(self).executions + 1,
            r == first_failure(
                input::execution_of(
                    old(self).seed,
                    old(self).net@,
                    old(self).readings@,
                    input::op_views(ops@),
                    old(self).rules@,
                    *old(self).tails,
                ),
                old(self).target@,
            ),
            r is Some <==> old(self).bad()(input::op_views(ops@)),
    {
        self.executions = self.executions + 1;
        let rules = renew_all(self.rules);
        let ghost fresh = rules@;
        match execute(self.seed, self.net, self.readings, ops, rules, self.tails) {
            Ok(out) => {
                proof {
                    let m = config::model_of(
                        self.seed,
                        config::clauses_of(self.net@),
                        self.readings@,
                        self.readings@.len() as int,
                    )->Ok_0;
                    let ov = input::op_views(ops@);
                    let events = input::events_at(
                        crate::netcore::core_new(m),
                        ov,
                        *self.tails,
                        ov.len() as int,
                    );
                    lemma_renewed(self.rules@, fresh, events, ov.len() as int);
                }
                match find_violation(&out.violations, self.target) {
                    Some(i) => Some(out.violations[i].op),
                    None => None,
                }
            },
            Err(_) => None,
        }
    }

    /// Whether `ops` still show the failure.
    fn fails(&mut self, ops: &Vec<OpInput>) -> (b: bool)
        requires
            old(self).wf(),
            old(self).executions < usize::MAX,
        ensures
            final(self).follows(old(self)),
            final(self).executions == old(self).executions + 1,
            b == old(self).bad()(input::op_views(ops@)),
    {
        self.first_failure_op(ops).is_some()
    }

    fn exhausted(&self) -> (b: bool)
        ensures
            b == (self.executions >= MAX_EXECUTIONS),
    {
        self.executions >= MAX_EXECUTIONS
    }
}

fn may_go(o: &OpInput) -> (b: bool)
    ensures
        b == removable(o@),
{
    match o {
        OpInput::Connect { .. } => false,
        _ => true,
    }
}

fn count_removable(ops: &Vec<OpInput>) -> (n: usize)
    ensures
        n == removables(input::op_views(ops@)),
{
    let ghost ov = input::op_views(ops@);
    let mut n: usize = 0;
    let mut i: usize = 0;
    assert(ov.take(0) =~= Seq::<OpView>::empty());
    while i < ops.len()
        invariant
            i <= ops@.len(),
            ov == input::op_views(ops@),
            n == removables(ov.take(i as int)),
            n <= i,
        decreases ops@.len() - i,
    {
        proof {
            assert(ov.take(i as int + 1).drop_last() =~= ov.take(i as int));
            assert(ov.take(i as int + 1).last() == ops@[i as int]@);
        }
        if may_go(&ops[i]) {
            n = n + 1;
        }
        i = i + 1;
    }
    assert(ov.take(ov.len() as int) =~= ov);
    n
}

/// The operations without the removable ones numbered from `lo` up to `hi`.
fn leave_out(ops: &Vec<OpInput>, lo: usize, hi: usize) -> (r: Vec<OpInput>)
    ensures
        input::op_views(r@) == without(input::op_views(ops@), lo as nat, hi as nat),
{
    let ghost ov = input::op_views(ops@);
    let mut r: Vec<OpInput> = Vec::new();
    let mut n: usize = 0;
    let mut i: usize = 0;
    assert(ov.take(0) =~= Seq::<OpView>::empty());
    assert(input::op_views(r@) =~= Seq::<OpView>::empty());
    while i < ops.len()
        invariant
            i <= ops@.len(),
            ov == input::op_views(ops@),
            n == removables(ov.take(i as int)),
            n <= i,
            input::op_views(r@) == without(ov.take(i as int), lo as nat, hi as nat),
        decreases ops@.len() - i,
    {
        proof {
            assert(ov.take(i as int + 1).drop_last() =~= ov.take(i as int));
            assert(ov.take(i as int + 1).last() == ops@[i as int]@);
        }
        if may_go(&ops[i]) {
            if !(lo <= n && n < hi) {
                push_copy(&mut r, &ops[i]);
            }
            n = n + 1;
        } else {
            push_copy(&mut r, &ops[i]);
        }
        i = i + 1;
    }
    assert(ov.take(ov.len() as int) =~= ov);
    r
}

fn push_copy(r: &mut Vec<OpInput>, o: &OpInput)
    ensures
        input::op_views(final(r)@) == input::op_views(old(r)@).push(o@),
{
    r.push(o.copy());
    assert(input::op_views(r@) =~= input::op_views(old(r)@).push(o@));
}

fn divide_up(a: usize, b: usize) -> (q: usize)
    requires
        b > 0,
    ensures
        q == div_up(a as nat, b as nat),
{
    proof {
        lemma_div_up(a as nat, b as nat);
        vstd::arithmetic::div_mod::lemma_fundamental_div_mod(a as int, b as int);
        vstd::arithmetic::div_mod::lemma_fundamental_div_mod(a + b - 1, b as int);
    }
    let q: usize = a / b;
    let m: usize = a % b;
    proof {
        let p = div_up(a as nat, b as nat) as int;
        let n = (a + b - 1) % (b as int);
        assert(a + b - 1 == b * p + n);
        assert(a == b * q + m);
        if m == 0 {
            assert(p == q) by (nonlinear_arith)
                requires
                    a + b - 1 == b * p + n,
                    a == b * q,
                    0 <= n < b,
            ;
        } else {
            assert(p == q + 1) by (nonlinear_arith)
                requires
                    a + b - 1 == b * p + n,
                    a == b * q + m,
                    0 < m < b,
                    0 <= n < b,
            ;
        }
    }
    if m == 0 {
        q
    } else {
        q + 1
    }
}

/// One round: leave out each of the chunks in turn; the first that can go
/// wins.
#[verifier::rlimit(40)]
#[verifier::spinoff_prover]
fn ddmin_round<'a, I: Renew, T: TailSource>(
    ops: &Vec<OpInput>,
    n: usize,
    checker: &mut Checker<'a, I, T>,
) -> (r: Option<Vec<OpInput>>)
    requires
        old(checker).wf(),
        n >= 1,
        removables(input::op_views(ops@)) >= 2,
        old(checker).executions < MAX_EXECUTIONS,
    ensures
        final(checker).follows(old(checker)),
        match r {
            Some(s) => round(
                old(checker).bad(),
                input::op_views(ops@),
                n as nat,
                old(checker).executions as nat,
            ) == (Some(input::op_views(s@)), final(checker).executions as nat),
            None => round(
                old(checker).bad(),
                input::op_views(ops@),
                n as nat,
                old(checker).executions as nat,
            ) == (None::<Seq<OpView>>, final(checker).executions as nat),
        },
{
    let ghost ov = input::op_views(ops@);
    let ghost bad = checker.bad();
    let ghost start = checker.executions as nat;
    let ghost first = *checker;
    let total: usize = count_removable(ops);
    proof {
        lemma_div_up(total as nat, n as nat);
    }
    let size: usize = divide_up(total, n);
    proof {
        lemma_div_up(total as nat, size as nat);
    }
    let chunks: usize = divide_up(total, size);
    let mut won: Option<Vec<OpInput>> = None;
    let mut k: usize = 0;
    let mut lo: usize = 0;
    while k < chunks
        invariant
            k <= chunks,
            checker.follows(&first),
            bad == checker.bad(),
            ov == input::op_views(ops@),
            total == removables(ov),
            size > 0,
            (chunks - 1) * size < total,
            k < chunks ==> lo == k * size,
            checker.executions <= MAX_EXECUTIONS,
            tried(bad, ov, size as nat, k as nat, start).1 == checker.executions,
            match won {
                Some(s) => tried(bad, ov, size as nat, k as nat, start).0 == Some(
                    input::op_views(s@),
                ),
                None => tried(bad, ov, size as nat, k as nat, start).0 is None,
            },
        decreases chunks - k,
    {
        proof {
            lemma_chunk(k as int, size as int, chunks as int, total as int);
        }
        let rest: usize = total - lo;
        let hi: usize = if rest < size {
            total
        } else {
            lo + size
        };
        if !checker.exhausted() {
            let candidate = leave_out(ops, lo, hi);
            proof {
                if rest < size {
                    lemma_without_beyond(ov, lo as nat, hi as nat, (lo + size) as nat);
                }
                assert(input::op_views(candidate@) == without(
                    ov,
                    (k * size) as nat,
                    ((k + 1) * size) as nat,
                ));
            }
            if checker.fails(&candidate) {
                if won.is_none() {
                    won = Some(candidate);
                }
            }
        }
        k = k + 1;
        lo = hi;
    }
    won
}

proof fn lemma_chunk(k: int, size: int, chunks: int, total: int)
    requires
        0 <= k < chunks,
        size > 0,
        (chunks - 1) * size < total,
    ensures
        k * size < total,
        (k + 1) * size == k * size + size,
        k + 1 < chunks ==> (k + 1) * size < total,
{
    assert(k * size <= (chunks - 1) * size) by (nonlinear_arith)
        requires
            k <= chunks - 1,
            size > 0,
    ;
    assert((k + 1) * size == k * size + size) by (nonlinear_arith);
    if k + 1 < chunks {
        assert((k + 1) * size <= (chunks - 1) * size) by (nonlinear_arith)
            requires
                k + 1 <= chunks - 1,
                size > 0,
        ;
    }
}

/// A chunk that reaches beyond the end is as one that ends there.
proof fn lemma_without_beyond(ops: Seq<OpView>, lo: nat, a: nat, b: nat)
    requires
        removables(ops) <= a,
        removables(ops) <= b,
    ensures
        without(ops, lo, a) == without(ops, lo, b),
    decreases ops.len(),
{
    if ops.len() > 0 {
        lemma_without_beyond(ops.drop_last(), lo, a, b);
    }
}

/// The second pass.
fn remove_chunks<'a, I: Renew, T: TailSource>(
    ops: Vec<OpInput>,
    checker: &mut Checker<'a, I, T>,
) -> (r: Vec<OpInput>)
    requires
        old(checker).wf(),
        old(checker).executions <= MAX_EXECUTIONS,
    ensures
        final(checker).follows(old(checker)),
        final(checker).executions <= MAX_EXECUTIONS,
        (input::op_views(r@), final(checker).executions as nat) == ddmin(
            old(checker).bad(),
            input::op_views(ops@),
            2,
            old(checker).executions as nat,
        ),
        r@.len() <= ops@.len(),
{
    let ghost bad = checker.bad();
    let ghost first = *checker;
    let ghost want = ddmin(bad, input::op_views(ops@), 2, checker.executions as nat);
    let ghost len0 = ops@.len();
    let mut cur = ops;
    let mut n: usize = 2;
    let mut done: bool = false;
    while !done
        invariant
            checker.follows(&first),
            bad == checker.bad(),
            checker.executions <= MAX_EXECUTIONS,
            n >= 2,
            cur@.len() <= len0,
            !done ==> want == ddmin(
                bad,
                input::op_views(cur@),
                n as nat,
                checker.executions as nat,
            ),
            done ==> want == (input::op_views(cur@), checker.executions as nat),
        decreases
                if done {
                    0int
                } else {
                    1int
                },
                removables(input::op_views(cur@)),
                removables(input::op_views(cur@)) - n,
    {
        let now: usize = count_removable(&cur);
        if now < 2 || n > now || checker.exhausted() {
            done = true;
        } else {
            let ghost cv = input::op_views(cur@);
            proof {
                lemma_round(bad, cv, n as nat, checker.executions as nat);
            }
            match ddmin_round(&cur, n, checker) {
                Some(smaller) => {
                    cur = smaller;
                    n = if n > 2 {
                        n - 1
                    } else {
                        2
                    };
                },
                None => {
                    if n >= now {
                        done = true;
                    } else {
                        n = if n < now - n {
                            n * 2
                        } else {
                            now
                        };
                    }
                },
            }
        }
    }
    cur
}

/// The operations without the one at `i`.
fn drop_at(ops: &Vec<OpInput>, i: usize) -> (r: Vec<OpInput>)
    requires
        i < ops@.len(),
    ensures
        input::op_views(r@) == input::op_views(ops@).remove(i as int),
{
    let total: usize = ops.len();
    let mut r = copy_ops(ops, 0, i);
    let mut tail = copy_ops(ops, i + 1, total);
    let ghost a = input::op_views(r@);
    let ghost b = input::op_views(tail@);
    r.append(&mut tail);
    proof {
        assert(input::op_views(r@) =~= a + b);
        assert(a + b =~= input::op_views(ops@).remove(i as int));
    }
    r
}

/// The third pass.
fn remove_singles<'a, I: Renew, T: TailSource>(
    ops: Vec<OpInput>,
    checker: &mut Checker<'a, I, T>,
) -> (r: Vec<OpInput>)
    requires
        old(checker).wf(),
        old(checker).executions <= MAX_EXECUTIONS,
        ops@.len() + MAX_EXECUTIONS < usize::MAX,
    ensures
        final(checker).follows(old(checker)),
        final(checker).executions <= MAX_EXECUTIONS + ops@.len(),
        (input::op_views(r@), final(checker).executions as nat) == sweeps(
            old(checker).bad(),
            input::op_views(ops@),
            old(checker).executions as nat,
        ),
        r@.len() <= ops@.len(),
{
    let ghost bad = checker.bad();
    let ghost first = *checker;
    let ghost want = sweeps(bad, input::op_views(ops@), checker.executions as nat);
    let ghost len0 = ops@.len();
    let mut cur = ops;
    let mut changed: bool = true;
    while changed && !checker.exhausted()
        invariant
            checker.follows(&first),
            bad == checker.bad(),
            len0 + MAX_EXECUTIONS < usize::MAX,
            checker.executions <= MAX_EXECUTIONS + len0,
            cur@.len() <= len0,
            changed ==> want == sweeps(
                bad,
                input::op_views(cur@),
                checker.executions as nat,
            ),
            !changed ==> want == (input::op_views(cur@), checker.executions as nat),
        decreases
                cur@.len(),
                if changed {
                    1int
                } else {
                    0int
                },
    {
        changed = false;
        let ghost cv = input::op_views(cur@);
        let ghost count = checker.executions as nat;
        let ghost end = sweep(bad, cv, 0, count);
        proof {
            lemma_sweep(bad, cv, 0, count);
        }
        let mut i: usize = 0;
        while i < cur.len()
            invariant
                checker.follows(&first),
                bad == checker.bad(),
                i <= cur@.len(),
                len0 + MAX_EXECUTIONS < usize::MAX,
                cur@.len() <= cv.len() <= len0,
                changed <==> cur@.len() < cv.len(),
                checker.executions + (cur@.len() - i) <= MAX_EXECUTIONS + len0,
                end == sweep(
                    bad,
                    input::op_views(cur@),
                    i as int,
                    checker.executions as nat,
                ),
            decreases cur@.len() - i,
        {
            assert(input::op_views(cur@)[i as int] == cur@[i as int]@);
            let mut gone: bool = false;
            if may_go(&cur[i]) {
                let candidate = drop_at(&cur, i);
                assert(input::op_views(candidate@).len() == candidate@.len());
                if checker.fails(&candidate) {
                    cur = candidate;
                    changed = true;
                    gone = true;
                }
            }
            if !gone {
                i = i + 1;
            }
        }
    }
    cur
}

/// The operations with the payload at `i` cut.
fn cut_at(ops: &Vec<OpInput>, i: usize) -> (r: Vec<OpInput>)
    requires
        i < ops@.len(),
        is_long(ops@[i as int]@),
    ensures
        input::op_views(r@) == input::op_views(ops@).update(i as int, cut(ops@[i as int]@)),
{
    let total: usize = ops.len();
    let mut r = copy_ops(ops, 0, i);
    let mut tail = copy_ops(ops, i + 1, total);
    let ghost a = input::op_views(r@);
    let ghost b = input::op_views(tail@);
    let o = match &ops[i] {
        OpInput::Send { conn, src, dst, payload } => {
            let mut short: Vec<u8> = Vec::new();
            short.push(payload[0]);
            assert(short@ =~= payload@.take(1));
            OpInput::Send { conn: *conn, src: *src, dst: *dst, payload: short }
        },
        other => other.copy(),
    };
    let ghost ov = o@;
    r.push(o);
    r.append(&mut tail);
    proof {
        assert(input::op_views(r@) =~= a.push(ov) + b);
        assert(a.push(ov) + b =~= input::op_views(ops@).update(i as int, ov));
    }
    r
}

fn long_payload(o: &OpInput) -> (b: bool)
    ensures
        b == is_long(o@),
{
    match o {
        OpInput::Send { payload, .. } => payload.len() > 1,
        _ => false,
    }
}

/// The fourth pass.
fn cut_payloads<'a, I: Renew, T: TailSource>(
    ops: Vec<OpInput>,
    checker: &mut Checker<'a, I, T>,
) -> (r: Vec<OpInput>)
    requires
        old(checker).wf(),
        old(checker).executions + 1 < usize::MAX,
    ensures
        final(checker).follows(old(checker)),
        final(checker).executions + 1 < usize::MAX,
        (input::op_views(r@), final(checker).executions as nat) == cuts(
            old(checker).bad(),
            input::op_views(ops@),
            0,
            old(checker).executions as nat,
        ),
{
    let ghost bad = checker.bad();
    let ghost first = *checker;
    let ghost want = cuts(bad, input::op_views(ops@), 0, checker.executions as nat);
    let mut cur = ops;
    let mut i: usize = 0;
    while i < cur.len() && !checker.exhausted()
        invariant
            checker.follows(&first),
            bad == checker.bad(),
            i <= cur@.len(),
            checker.executions + 1 < usize::MAX,
            want == cuts(
                bad,
                input::op_views(cur@),
                i as int,
                checker.executions as nat,
            ),
        decreases cur@.len() - i,
    {
        assert(input::op_views(cur@)[i as int] == cur@[i as int]@);
        if long_payload(&cur[i]) {
            let candidate = cut_at(&cur, i);
            assert(input::op_views(candidate@).len() == candidate@.len());
            if checker.fails(&candidate) {
                cur = candidate;
            }
        }
        i = i + 1;
    }
    cur
}

fn does_act(ops: &Vec<OpInput>, conn: u64) -> (b: bool)
    ensures
        b == acts(input::op_views(ops@), conn),
{
    let ghost ov = input::op_views(ops@);
    let mut i: usize = 0;
    while i < ops.len()
        invariant
            i <= ops@.len(),
            ov == input::op_views(ops@),
            forall|j: int|
                0 <= j < i ==> !(removable(#[trigger] ov[j]) && input::conn_of(ov[j]) == conn),
        decreases ops@.len() - i,
    {
        assert(ov[i as int] == ops@[i as int]@);
        if may_go(&ops[i]) && ops[i].conn() == conn {
            return true;
        }
        i = i + 1;
    }
    false
}

/// The fifth pass.
fn collect(ops: &Vec<OpInput>) -> (r: Vec<OpInput>)
    ensures
        input::op_views(r@) == collected(input::op_views(ops@), ops@.len() as int),
{
    let ghost ov = input::op_views(ops@);
    let mut r: Vec<OpInput> = Vec::new();
    let mut i: usize = 0;
    assert(input::op_views(r@) =~= Seq::<OpView>::empty());
    while i < ops.len()
        invariant
            i <= ops@.len(),
            ov == input::op_views(ops@),
            input::op_views(r@) == collected(ov, i as int),
        decreases ops@.len() - i,
    {
        assert(ov[i as int] == ops@[i as int]@);
        if may_go(&ops[i]) || does_act(ops, ops[i].conn()) {
            push_copy(&mut r, &ops[i]);
        }
        i = i + 1;
    }
    r
}

fn holds(ops: &Vec<OpInput>, o: &OpInput) -> (b: bool)
    ensures
        b == input::op_views(ops@).contains(o@),
{
    let ghost ov = input::op_views(ops@);
    let mut i: usize = 0;
    while i < ops.len()
        invariant
            i <= ops@.len(),
            ov == input::op_views(ops@),
            forall|j: int| 0 <= j < i ==> #[trigger] ov[j] != o@,
        decreases ops@.len() - i,
    {
        assert(ov[i as int] == ops@[i as int]@);
        if ops[i].same(o) {
            return true;
        }
        i = i + 1;
    }
    false
}

/// Put back, in front, the `Connect`s that are missing.
fn reconnect(ops: Vec<OpInput>, all: &Vec<OpInput>) -> (r: Vec<OpInput>)
    ensures
        input::op_views(r@) == reconnected(
            input::op_views(ops@),
            input::op_views(all@),
            all@.len() as int,
        ),
{
    let ghost start = input::op_views(ops@);
    let ghost av = input::op_views(all@);
    let mut r = ops;
    let mut i: usize = 0;
    while i < all.len()
        invariant
            i <= all@.len(),
            av == input::op_views(all@),
            input::op_views(r@) == reconnected(start, av, i as int),
        decreases all@.len() - i,
    {
        assert(av[i as int] == all@[i as int]@);
        if !may_go(&all[i]) && !holds(&r, &all[i]) {
            let ghost before = input::op_views(r@);
            r.insert(0, all[i].copy());
            assert(input::op_views(r@) =~= before.insert(0, av[i as int]));
        }
        i = i + 1;
    }
    r
}

/// Every violation is raised at an operation.
pub proof fn lemma_raised_places<I: Invariant>(rules: Seq<I>, seen: Seq<Seen>, n: int)
    requires
        0 <= n <= seen.len(),
        forall|i: int| 0 <= i < seen.len() ==> (#[trigger] seen[i]).op == i,
    ensures
        forall|i: int|
            0 <= i < monitor::all_raised(rules, seen, n).len() ==> (
            #[trigger] monitor::all_raised(rules, seen, n)[i]).op < n,
    decreases n,
{
    if n > 0 {
        lemma_raised_places(rules, seen, n - 1);
        lemma_raised_place(rules, seen.take(n - 1), seen[n - 1], rules.len() as int);
    }
}

pub proof fn lemma_raised_place<I: Invariant>(rules: Seq<I>, extra: Seq<Seen>, now: Seen, n: int)
    ensures
        forall|i: int|
            0 <= i < monitor::raised(rules, extra, now, n).len() ==> (
            #[trigger] monitor::raised(rules, extra, now, n)[i]).op == now.op,
    decreases n,
{
    if n > 0 {
        lemma_raised_place(rules, extra, now, n - 1);
    }
}

/// The place of a failure is one of the operations.
pub proof fn lemma_first_failure<I: Invariant, T: TailSource>(
    seed: u64,
    net: Seq<char>,
    readings: Seq<Option<u64>>,
    ops: Seq<OpView>,
    rules: Seq<I>,
    tails: T,
    key: KeyView,
)
    requires
        ops.len() <= u64::MAX,
    ensures
        first_failure(
            input::execution_of(seed, net, readings, ops, rules, tails),
            key,
        ) matches Some(k) ==> k < ops.len(),
{
    let x = input::execution_of(seed, net, readings, ops, rules, tails);
    if x is Ok {
        let m = config::model_of(
            seed,
            config::clauses_of(net),
            readings,
            readings.len() as int,
        )->Ok_0;
        let seen = input::events_at(crate::netcore::core_new(m), ops, tails, ops.len() as int);
        lemma_raised_places(rules, seen, ops.len() as int);
        lemma_find_key(x->Ok_0.violations, key, 0);
    }
}

pub proof fn lemma_find_key(v: Seq<ViolationView>, key: KeyView, i: int)
    requires
        0 <= i,
    ensures
        i <= v.len() ==> i <= find_key(v, key, i) <= v.len(),
        find_key(v, key, i) < v.len() ==> key_of(v[find_key(v, key, i)]) == key,
    decreases v.len() - i,
{
    if i < v.len() {
        lemma_find_key(v, key, i + 1);
    }
}

/// Shrink `ops` to a sequence that still shows the failure `target` under the
/// same seed and network text. Operations are only left out, never reordered,
/// and keep their connections and addresses.
#[must_use]
pub fn shrink<I: Renew, T: TailSource>(
    seed: u64,
    net: &str,
    readings: &Vec<Option<u64>>,
    ops: &Vec<OpInput>,
    rules: &Vec<I>,
    target: &ViolationKey,
    tails: &T,
) -> (r: (Vec<OpInput>, ShrinkStats))
    requires
        readings@.len() == config::clauses_of(net@).len(),
        monitor::all_ok(rules@),
        unused(rules@),
        ops@.len() + MAX_EXECUTIONS + 2 < usize::MAX,
    ensures
        (input::op_views(r.0@), r.1) == shrunk(
            shows(seed, net@, readings@, rules@, *tails, target@),
            input::op_views(ops@),
            first_failure(
                input::execution_of(
                    seed,
                    net@,
                    readings@,
                    input::op_views(ops@),
                    rules@,
                    *tails,
                ),
                target@,
            ),
        ),
{
    let ghost bad = shows(seed, net@, readings@, rules@, *tails, target@);
    let ghost ov = input::op_views(ops@);
    let mut checker = Checker { seed, net, readings, rules, target, tails, executions: 0 };
    let before: usize = ops.len();
    let k: usize = match checker.first_failure_op(ops) {
        Some(k) => {
            proof {
                lemma_first_failure(seed, net@, readings@, ov, rules@, *tails, target@);
            }
            k as usize
        },
        None => {
            let stats = ShrinkStats {
                ops_before: before,
                ops_after: before,
                executions: 1,
                budget_exhausted: false,
            };
            let same = copy_ops(ops, 0, before);
            assert(input::op_views(same@) =~= ov);
            return (same, stats);
        },
    };
    let cur = copy_ops(ops, 0, k + 1);
    assert(input::op_views(cur@) =~= ov.take(k + 1));
    assert(cur@.len() == input::op_views(cur@).len());
    let cur = remove_chunks(cur, &mut checker);
    let cur = remove_singles(cur, &mut checker);
    let cur = cut_payloads(cur, &mut checker);
    let cur = collect(&cur);
    let still: bool = checker.fails(&cur);
    let r = if still {
        cur
    } else {
        reconnect(cur, ops)
    };
    assert(r@.len() == input::op_views(r@).len());
    let stats = ShrinkStats {
        ops_before: before,
        ops_after: r.len(),
        executions: checker.executions,
        budget_exhausted: checker.exhausted(),
    };
    (r, stats)
}

} // verus!
