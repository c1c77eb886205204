//! Fuzzing: every fault seed of a range runs against the same workload; each
//! distinct failure is shrunk from its smallest seed, and a reproducer is
//! written for it.
//!
//! [`run_fuzz`] does all of it in turn. A caller that runs workers or watches
//! the clock takes the pieces: [`seeds`] for what is to be tried and in which
//! order, [`try_seed`] for one seed, [`Sweep`] to gather what was found, and
//! [`reproduce`] for each distinct failure.

use vstd::prelude::*;

use crate::bytes;
use crate::config;
use crate::fault::TailSource;
use crate::fuzz_config;
use crate::fuzz_config::{is_fifo_name, ConfigView, FuzzConfig};
use crate::input;
use crate::input::{copy_ops, execute, execute_and_record, OpInput, OpView};
use crate::json::push_num;
use crate::log;
use crate::monitor;
use crate::monitor::{
    BuiltIn, Invariant, NoDuplicateDelivery, PerChannelFifo, Seen, ViolationRecord, ViolationView,
};
use crate::netcore;
use crate::shrink;
use crate::shrink::{shrink, KeyView, ShrinkStats, ViolationKey};
use crate::text;
use crate::text::{chars_of, copy_text, push_dec, push_text};
use crate::workload;
use crate::workload::generate;

verus! {

// ---------------------------------------------------------------------------
// Seeds and rules
// ---------------------------------------------------------------------------

/// The end of the range of seeds.
pub open spec fn last_seed(c: ConfigView) -> u64 {
    if c.seed_start + c.seed_count > u64::MAX {
        u64::MAX
    } else {
        (c.seed_start + c.seed_count) as u64
    }
}

/// The seeds in the order in which they are tried: those that failed before,
/// then the range.
pub open spec fn queue_of(c: ConfigView) -> Seq<u64> {
    c.regression_seeds + Seq::new(
        (last_seed(c) - c.seed_start) as nat,
        |i: int| (c.seed_start + i) as u64,
    )
}

/// The seeds in the order in which they are tried.
#[must_use]
pub fn seeds(cfg: &FuzzConfig) -> (r: Vec<u64>)
    ensures
        r@ == queue_of(cfg@),
{
    let mut r: Vec<u64> = Vec::new();
    let mut i: usize = 0;
    while i < cfg.regression_seeds.len()
        invariant
            i <= cfg.regression_seeds@.len(),
            r@ == cfg.regression_seeds@.take(i as int),
        decreases cfg.regression_seeds@.len() - i,
    {
        r.push(cfg.regression_seeds[i]);
        i = i + 1;
        assert(r@ =~= cfg.regression_seeds@.take(i as int));
    }
    let end: u64 = cfg.seed_start.saturating_add(cfg.seed_count);
    let mut s: u64 = cfg.seed_start;
    let ghost start = s;
    let ghost head = cfg.regression_seeds@;
    assert(r@ =~= head + Seq::new(0, |j: int| (start + j) as u64));
    while s < end
        invariant
            start <= s <= end,
            r@ == head + Seq::new((s - start) as nat, |j: int| (start + j) as u64),
        decreases end - s,
    {
        r.push(s);
        s = s + 1;
        assert(r@ =~= head + Seq::new((s - start) as nat, |j: int| (start + j) as u64));
    }
    r
}

/// The seed to try at place `i` of the queue, whose first `regressions` seeds
/// failed before. `None` where there is none, or the time is up; that does not
/// keep a seed from being tried that failed before.
pub open spec fn next_of(queue: Seq<u64>, regressions: int, i: int, late: bool) -> Option<u64> {
    if i >= queue.len() || (late && i >= regressions) {
        None
    } else {
        Some(queue[i])
    }
}

/// The seed to try at place `i` of the queue, if any.
#[must_use]
pub fn next_seed(queue: &Vec<u64>, regressions: usize, i: usize, late: bool) -> (r: Option<u64>)
    ensures
        r == next_of(queue@, regressions as int, i as int, late),
{
    if i >= queue.len() || (late && i >= regressions) {
        None
    } else {
        Some(queue[i])
    }
}

/// Whether the time that a description allows is up; 0 allows any.
pub open spec fn over_budget(c: ConfigView, secs: u64) -> bool {
    c.time_budget_secs > 0 && secs >= c.time_budget_secs
}

/// Whether the time is up after `secs` seconds.
#[must_use]
pub fn time_is_up(cfg: &FuzzConfig, secs: u64) -> (b: bool)
    ensures
        b == over_budget(cfg@, secs),
{
    cfg.time_budget_secs > 0 && secs >= cfg.time_budget_secs
}

/// A rule by its name, as if it had seen nothing.
pub open spec fn rule_of(name: Seq<char>) -> BuiltIn {
    if fuzz_config::is_fifo(name) {
        BuiltIn::Fifo(
            choose|r: PerChannelFifo| r.ok() && r.history() == Seq::<Seen>::empty(),
        )
    } else {
        BuiltIn::Dup(
            choose|r: NoDuplicateDelivery| r.ok() && r.history() == Seq::<Seen>::empty(),
        )
    }
}

pub open spec fn rules_of(names: Seq<Seq<char>>) -> Seq<BuiltIn> {
    names.map_values(|n: Seq<char>| rule_of(n))
}

/// Every name is one that a rule goes by.
pub open spec fn all_known(names: Seq<Seq<char>>) -> bool {
    forall|i: int| 0 <= i < names.len() ==> fuzz_config::known(#[trigger] names[i])
}

/// What a run needs of its description: the network conditions make sense, and
/// every rule is known. An accepted description has both, whatever numbers are
/// put over its own afterwards.
pub open spec fn runnable(c: ConfigView, readings: Seq<Option<u64>>) -> bool {
    &&& config::model_of(
        0,
        config::clauses_of(c.net),
        readings,
        readings.len() as int,
    ) is Ok
    &&& all_known(c.invariants)
}

/// The rules by their names.
#[must_use]
pub fn invariant_set(names: &Vec<String>) -> (r: Vec<BuiltIn>)
    requires
        all_known(bytes::text_views(names@)),
    ensures
        monitor::all_ok(r@),
        shrink::unused(r@),
        shrink::unused(rules_of(bytes::text_views(names@))),
        monitor::all_shown(rules_of(bytes::text_views(names@)), r@, Seq::empty()),
{
    let ghost nv = bytes::text_views(names@);
    let ghost want = rules_of(nv);
    let mut r: Vec<BuiltIn> = Vec::new();
    let mut i: usize = 0;
    while i < names.len()
        invariant
            i <= names@.len(),
            nv == bytes::text_views(names@),
            want == rules_of(nv),
            r@.len() == i,
            forall|j: int| 0 <= j < i ==> #[trigger] anew(want[j], r@[j]),
        decreases names@.len() - i,
    {
        assert(nv[i as int] == names@[i as int]@);
        let x = if is_fifo_name(names[i].as_str()) {
            BuiltIn::Fifo(PerChannelFifo::new())
        } else {
            BuiltIn::Dup(NoDuplicateDelivery::new())
        };
        proof {
            let w = want[i as int];
            assert(w == rule_of(nv[i as int]));
            assert(w.history() == Seq::<Seen>::empty());
            assert(w.history() + Seq::<Seen>::empty() =~= Seq::<Seen>::empty());
            assert(x.history() == Seq::<Seen>::empty());
            assert(anew(w, x));
        }
        r.push(x);
        i = i + 1;
    }
    assert forall|j: int| 0 <= j < r@.len() implies monitor::shown(
        #[trigger] want[j],
        r@[j],
        Seq::empty(),
    ) by {
        assert(anew(want[j], r@[j]));
    }
    assert forall|j: int| 0 <= j < r@.len() implies (#[trigger] r@[j]).ok() by {
        assert(anew(want[j], r@[j]));
    }
    assert forall|j: int| 0 <= j < r@.len() implies (#[trigger] r@[j]).history() == Seq::<
        Seen,
    >::empty() by {
        assert(anew(want[j], r@[j]));
    }
    assert forall|j: int| 0 <= j < want.len() implies (#[trigger] want[j]).history() == Seq::<
        Seen,
    >::empty() by {
        assert(anew(want[j], r@[j]));
    }
    r
}

/// Two rules that have seen nothing and always say the same.
spec fn anew(a: BuiltIn, b: BuiltIn) -> bool {
    &&& monitor::shown(a, b, Seq::empty())
    &&& a.history() == Seq::<Seen>::empty()
    &&& b.history() == Seq::<Seen>::empty()
}

/// Rules made anew give the same executions.
pub proof fn lemma_same_execution<T: TailSource>(
    seed: u64,
    net: Seq<char>,
    readings: Seq<Option<u64>>,
    a: Seq<BuiltIn>,
    b: Seq<BuiltIn>,
    tails: T,
    ops: Seq<OpView>,
)
    requires
        monitor::all_shown(a, b, Seq::empty()),
    ensures
        input::execution_of(seed, net, readings, ops, b, tails) == input::execution_of(
            seed,
            net,
            readings,
            ops,
            a,
            tails,
        ),
{
    match config::model_of(seed, config::clauses_of(net), readings, readings.len() as int) {
        Ok(m) => {
            let n = ops.len() as int;
            shrink::lemma_renewed(
                a,
                b,
                input::events_at(netcore::core_new(m), ops, tails, n),
                n,
            );
        },
        Err(_) => {},
    }
}

pub proof fn lemma_same_shows<T: TailSource>(
    seed: u64,
    net: Seq<char>,
    readings: Seq<Option<u64>>,
    a: Seq<BuiltIn>,
    b: Seq<BuiltIn>,
    tails: T,
    key: KeyView,
)
    requires
        monitor::all_shown(a, b, Seq::empty()),
    ensures
        shrink::shows(seed, net, readings, b, tails, key) == shrink::shows(
            seed,
            net,
            readings,
            a,
            tails,
            key,
        ),
{
    let f = shrink::shows(seed, net, readings, b, tails, key);
    let g = shrink::shows(seed, net, readings, a, tails, key);
    assert forall|ops: Seq<OpView>| #[trigger] f(ops) == g(ops) by {
        lemma_same_execution(seed, net, readings, a, b, tails, ops);
    }
    assert(f =~= g);
}

proof fn lemma_same_recording<T: TailSource>(
    start: netcore::CoreModel,
    ops: Seq<OpView>,
    a: Seq<BuiltIn>,
    b: Seq<BuiltIn>,
    tails: T,
    n: int,
)
    requires
        monitor::all_shown(a, b, Seq::empty()),
    ensures
        input::recorded_events(start, ops, b, tails, n) == input::recorded_events(
            start,
            ops,
            a,
            tails,
            n,
        ),
    decreases n,
{
    if n > 0 {
        lemma_same_recording(start, ops, a, b, tails, n - 1);
        let seen = input::events_at(start, ops, tails, n - 1);
        let now = input::event_at(start, ops, tails, n - 1);
        monitor::lemma_raised_shown(a, b, Seq::empty(), seen, now, a.len() as int);
        assert(Seq::<Seen>::empty() + seen =~= seen);
    }
}

// ---------------------------------------------------------------------------
// Gathering
// ---------------------------------------------------------------------------

/// What a seed raises.
pub open spec fn raised_by<T: TailSource>(
    c: ConfigView,
    readings: Seq<Option<u64>>,
    ops: Seq<OpView>,
    tails: T,
    seed: u64,
) -> Seq<ViolationView> {
    match input::execution_of(seed, c.net, readings, ops, rules_of(c.invariants), tails) {
        Ok(x) => x.violations,
        Err(_) => Seq::empty(),
    }
}

/// Run the workload under one seed: what the rules raise.
#[must_use]
pub fn try_seed<T: TailSource>(
    cfg: &FuzzConfig,
    readings: &Vec<Option<u64>>,
    ops: &Vec<OpInput>,
    seed: u64,
    tails: &T,
) -> (r: Vec<ViolationRecord>)
    requires
        readings@.len() == config::clauses_of(cfg@.net).len(),
        all_known(cfg@.invariants),
    ensures
        monitor::violation_views(r@) == raised_by(
            cfg@,
            readings@,
            input::op_views(ops@),
            *tails,
            seed,
        ),
{
    let rules = invariant_set(&cfg.invariants);
    proof {
        lemma_same_execution(
            seed,
            cfg@.net,
            readings@,
            rules_of(cfg@.invariants),
            rules@,
            *tails,
            input::op_views(ops@),
        );
    }
    match execute(seed, cfg.net.as_str(), readings, ops, rules, tails) {
        Ok(out) => out.violations,
        Err(_) => {
            let r: Vec<ViolationRecord> = Vec::new();
            assert(monitor::violation_views(r@) =~= Seq::<ViolationView>::empty());
            r
        },
    }
}

/// A distinct failure: the message of its first occurrence and every seed that
/// showed it.
#[derive(Clone, PartialEq, Debug)]
pub struct Hit {
    pub key: ViolationKey,
    pub message: String,
    pub seeds: Vec<u64>,
}

pub struct HitView {
    pub key: KeyView,
    pub message: Seq<char>,
    pub seeds: Seq<u64>,
}

impl View for Hit {
    type V = HitView;

    open spec fn view(&self) -> HitView {
        HitView { key: self.key@, message: self.message@, seeds: self.seeds@ }
    }
}

pub open spec fn hit_views(h: Seq<Hit>) -> Seq<HitView> {
    h.map_values(|x: Hit| x@)
}

/// The place of a failure among `hits` from `i` on, or their number.
pub open spec fn find_hit(hits: Seq<HitView>, key: KeyView, i: int) -> int
    decreases hits.len() - i,
{
    if i < 0 || i >= hits.len() {
        hits.len() as int
    } else if hits[i].key == key {
        i
    } else {
        find_hit(hits, key, i + 1)
    }
}

/// The failures behind one more violation, shown by `seed`.
pub open spec fn noted_one(hits: Seq<HitView>, seed: u64, v: ViolationView) -> Seq<HitView> {
    let key = shrink::key_of(v);
    let i = find_hit(hits, key, 0);
    if i < hits.len() {
        let h = hits[i];
        if h.seeds.contains(seed) {
            hits
        } else {
            hits.update(i, HitView { seeds: h.seeds.push(seed), ..h })
        }
    } else {
        hits.push(HitView { key, message: v.message, seeds: seq![seed] })
    }
}

/// The failures behind the first `n` violations that `seed` showed.
pub open spec fn noted(hits: Seq<HitView>, seed: u64, v: Seq<ViolationView>, n: int) -> Seq<
    HitView,
>
    decreases n,
{
    if n <= 0 {
        hits
    } else {
        noted_one(noted(hits, seed, v, n - 1), seed, v[n - 1])
    }
}

/// What was gathered so far.
pub struct SweepModel {
    pub tested: nat,
    pub failed: nat,
    pub hits: Seq<HitView>,
}

/// What is gathered behind the first `n` seeds, where `finds` tells what each
/// raises.
pub open spec fn swept(finds: spec_fn(u64) -> Seq<ViolationView>, seeds: Seq<u64>, n: int)
    -> SweepModel
    decreases n,
{
    if n <= 0 {
        SweepModel { tested: 0, failed: 0, hits: Seq::empty() }
    } else {
        let m = swept(finds, seeds, n - 1);
        let v = finds(seeds[n - 1]);
        SweepModel {
            tested: m.tested + 1,
            failed: if v.len() > 0 {
                m.failed + 1
            } else {
                m.failed
            },
            hits: noted(m.hits, seeds[n - 1], v, v.len() as int),
        }
    }
}

/// What a sweep has gathered.
#[derive(Clone, PartialEq, Debug)]
pub struct Sweep {
    pub tested: u64,
    pub failed: u64,
    pub hits: Vec<Hit>,
}

impl View for Sweep {
    type V = SweepModel;

    open spec fn view(&self) -> SweepModel {
        SweepModel {
            tested: self.tested as nat,
            failed: self.failed as nat,
            hits: hit_views(self.hits@),
        }
    }
}

fn has_seed(v: &Vec<u64>, x: u64) -> (b: bool)
    ensures
        b == v@.contains(x),
{
    let mut i: usize = 0;
    while i < v.len()
        invariant
            i <= v@.len(),
            forall|j: int| 0 <= j < i ==> v@[j] != x,
        decreases v@.len() - i,
    {
        if v[i] == x {
            return true;
        }
        i = i + 1;
    }
    false
}

impl Sweep {
    /// Nothing gathered.
    #[must_use]
    pub fn new() -> (r: Self)
        ensures
            r@ == (SweepModel { tested: 0, failed: 0, hits: Seq::empty() }),
    {
        let r = Sweep { tested: 0, failed: 0, hits: Vec::new() };
        assert(hit_views(r.hits@) =~= Seq::<HitView>::empty());
        r
    }

    fn find(&self, key: &ViolationKey) -> (i: usize)
        ensures
            i == find_hit(hit_views(self.hits@), key@, 0),
            i <= self.hits@.len(),
    {
        let ghost hv = hit_views(self.hits@);
        let mut i: usize = 0;
        while i < self.hits.len()
            invariant
                i <= self.hits@.len(),
                hv == hit_views(self.hits@),
                find_hit(hv, key@, 0) == find_hit(hv, key@, i as int),
            decreases self.hits@.len() - i,
        {
            assert(hv[i as int] == self.hits@[i as int]@);
            if self.hits[i].key.same(key) {
                return i;
            }
            i = i + 1;
        }
        i
    }

    fn note_one(&mut self, seed: u64, v: &ViolationRecord)
        ensures
            final(self).tested == old(self).tested,
            final(self).failed == old(self).failed,
            hit_views(final(self).hits@) == noted_one(hit_views(old(self).hits@), seed, v@),
    {
        let ghost hv = hit_views(self.hits@);
        let key = ViolationKey::of(v);
        let i: usize = self.find(&key);
        if i < self.hits.len() {
            assert(hv[i as int] == self.hits@[i as int]@);
            if !has_seed(&self.hits[i].seeds, seed) {
                self.hits[i].seeds.push(seed);
                assert(hit_views(self.hits@) =~= noted_one(hv, seed, v@));
            }
        } else {
            let mut seeds: Vec<u64> = Vec::new();
            seeds.push(seed);
            assert(seeds@ =~= seq![seed]);
            let h = Hit { key, message: copy_text(v.message.as_str()), seeds };
            let ghost x = h@;
            self.hits.push(h);
            assert(hit_views(self.hits@) =~= hv.push(x));
        }
    }

    /// Note what one more seed raised.
    pub fn note(&mut self, seed: u64, v: &Vec<ViolationRecord>)
        requires
            old(self)@.tested < u64::MAX,
            old(self)@.failed <= old(self)@.tested,
        ensures
            final(self)@ == (SweepModel {
                tested: old(self)@.tested + 1,
                failed: if v@.len() > 0 {
                    old(self)@.failed + 1
                } else {
                    old(self)@.failed
                },
                hits: noted(
                    old(self)@.hits,
                    seed,
                    monitor::violation_views(v@),
                    v@.len() as int,
                ),
            }),
    {
        let ghost hv = hit_views(self.hits@);
        let ghost vv = monitor::violation_views(v@);
        self.tested = self.tested + 1;
        if v.len() > 0 {
            self.failed = self.failed + 1;
        }
        let ghost tested = self.tested;
        let ghost failed = self.failed;
        let mut i: usize = 0;
        while i < v.len()
            invariant
                i <= v@.len(),
                vv == monitor::violation_views(v@),
                self.tested == tested,
                self.failed == failed,
                hit_views(self.hits@) == noted(hv, seed, vv, i as int),
            decreases v@.len() - i,
        {
            assert(vv[i as int] == v@[i as int]@);
            self.note_one(seed, &v[i]);
            i = i + 1;
        }
    }
}

// ---------------------------------------------------------------------------
// Order
// ---------------------------------------------------------------------------

/// `x` put into `s` behind everything that it does not come before.
pub open spec fn put<A>(s: Seq<A>, x: A, before: spec_fn(A, A) -> bool) -> Seq<A>
    decreases s.len(),
{
    if s.len() == 0 || !before(x, s.last()) {
        s.push(x)
    } else {
        put(s.drop_last(), x, before).push(s.last())
    }
}

/// `s` in order; what comes in no order keeps its own.
pub open spec fn arranged<A>(s: Seq<A>, before: spec_fn(A, A) -> bool) -> Seq<A>
    decreases s.len(),
{
    if s.len() == 0 {
        s
    } else {
        put(arranged(s.drop_last(), before), s.last(), before)
    }
}

proof fn lemma_put_at<A>(s: Seq<A>, x: A, before: spec_fn(A, A) -> bool, pos: int)
    requires
        0 <= pos <= s.len(),
        forall|j: int| pos <= j < s.len() ==> before(x, #[trigger] s[j]),
        pos > 0 ==> !before(x, s[pos - 1]),
    ensures
        put(s, x, before) == s.insert(pos, x),
    decreases s.len(),
{
    if pos == s.len() {
        assert(s.insert(pos, x) =~= s.push(x));
    } else {
        assert(before(x, s[s.len() - 1]));
        lemma_put_at(s.drop_last(), x, before, pos);
        assert(s.insert(pos, x) =~= s.drop_last().insert(pos, x).push(s.last()));
    }
}

pub open spec fn by_value() -> spec_fn(u64, u64) -> bool {
    |a: u64, b: u64| a < b
}

/// Whether `a` comes before `b` in the order of texts.
pub open spec fn text_lt(a: Seq<char>, b: Seq<char>) -> bool
    decreases a.len(),
{
    if b.len() == 0 {
        false
    } else if a.len() == 0 {
        true
    } else if a[0] != b[0] {
        a[0] < b[0]
    } else {
        text_lt(a.drop_first(), b.drop_first())
    }
}

pub open spec fn by_key() -> spec_fn(HitView, HitView) -> bool {
    |a: HitView, b: HitView| text_lt(shrink::key_text(a.key), shrink::key_text(b.key))
}

fn text_less(a: &str, b: &str) -> (r: bool)
    ensures
        r == text_lt(a@, b@),
{
    let v = chars_of(a);
    let w = chars_of(b);
    let mut i: usize = 0;
    assert(v@.skip(0) =~= v@);
    assert(w@.skip(0) =~= w@);
    while i < v.len() && i < w.len() && v[i] == w[i]
        invariant
            i <= v@.len(),
            i <= w@.len(),
            text_lt(v@, w@) == text_lt(v@.skip(i as int), w@.skip(i as int)),
        decreases v@.len() - i,
    {
        proof {
            assert(v@.skip(i as int).drop_first() =~= v@.skip(i as int + 1));
            assert(w@.skip(i as int).drop_first() =~= w@.skip(i as int + 1));
        }
        i = i + 1;
    }
    if i >= w.len() {
        false
    } else if i >= v.len() {
        true
    } else {
        v[i] < w[i]
    }
}

/// The seeds in order.
fn sort_seeds(v: &Vec<u64>) -> (r: Vec<u64>)
    ensures
        r@ == arranged(v@, by_value()),
{
    let mut r: Vec<u64> = Vec::new();
    let mut i: usize = 0;
    assert(v@.take(0) =~= Seq::<u64>::empty());
    while i < v.len()
        invariant
            i <= v@.len(),
            r@ == arranged(v@.take(i as int), by_value()),
        decreases v@.len() - i,
    {
        let x: u64 = v[i];
        let mut pos: usize = r.len();
        while pos > 0 && x < r[pos - 1]
            invariant
                pos <= r@.len(),
                forall|j: int| pos <= j < r@.len() ==> by_value()(x, #[trigger] r@[j]),
            decreases pos,
        {
            pos = pos - 1;
        }
        proof {
            lemma_put_at(r@, x, by_value(), pos as int);
            assert(v@.take(i as int + 1).drop_last() =~= v@.take(i as int));
        }
        r.insert(pos, x);
        i = i + 1;
    }
    assert(v@.take(v@.len() as int) =~= v@);
    r
}

/// A failure with its seeds in order.
pub open spec fn settled(h: HitView) -> HitView {
    HitView { seeds: arranged(h.seeds, by_value()), ..h }
}

/// The failures in the order of their names, each with its seeds in order.
pub open spec fn findings_of(hits: Seq<HitView>) -> Seq<HitView> {
    arranged(hits, by_key()).map_values(|h: HitView| settled(h))
}

impl Hit {
    fn settle(&self) -> (r: Self)
        ensures
            r@ == settled(self@),
    {
        Hit {
            key: self.key.copy(),
            message: copy_text(self.message.as_str()),
            seeds: sort_seeds(&self.seeds),
        }
    }
}

impl Sweep {
    /// The failures in the order of their names, each with its seeds in order.
    #[must_use]
    pub fn findings(&self) -> (r: Vec<Hit>)
        ensures
            hit_views(r@) == findings_of(self@.hits),
    {
        let ghost hv = hit_views(self.hits@);
        let mut r: Vec<Hit> = Vec::new();
        let ghost mut order: Seq<HitView> = Seq::empty();
        let mut i: usize = 0;
        proof {
            assert(hv.take(0) =~= Seq::<HitView>::empty());
            assert(hit_views(r@) =~= order.map_values(|h: HitView| settled(h)));
        }
        while i < self.hits.len()
            invariant
                i <= self.hits@.len(),
                hv == hit_views(self.hits@),
                order == arranged(hv.take(i as int), by_key()),
                hit_views(r@) == order.map_values(|h: HitView| settled(h)),
            decreases self.hits@.len() - i,
        {
            assert(hv[i as int] == self.hits@[i as int]@);
            assert(hit_views(r@).len() == r@.len());
            let h = self.hits[i].settle();
            let name = h.key.text();
            let ghost x = hv[i as int];
            let mut pos: usize = r.len();
            let mut found: bool = false;
            while pos > 0 && !found
                invariant
                    pos <= r@.len(),
                    r@.len() == order.len(),
                    hit_views(r@) == order.map_values(|h: HitView| settled(h)),
                    name@ == shrink::key_text(x.key),
                    forall|j: int| pos <= j < order.len() ==> by_key()(x, #[trigger] order[j]),
                    found ==> pos > 0 && !by_key()(x, order[pos - 1]),
                decreases
                        pos,
                        if found {
                            0int
                        } else {
                            1int
                        },
            {
                assert(hit_views(r@)[pos - 1] == settled(order[pos - 1]));
                let other = r[pos - 1].key.text();
                if text_less(name.as_str(), other.as_str()) {
                    pos = pos - 1;
                } else {
                    found = true;
                }
            }
            let ghost before = hit_views(r@);
            let ghost hx = h@;
            r.insert(pos, h);
            proof {
                lemma_put_at(order, x, by_key(), pos as int);
                assert(hv.take(i as int + 1).drop_last() =~= hv.take(i as int));
                assert(hit_views(r@) =~= before.insert(pos as int, hx));
                let next = order.insert(pos as int, x);
                assert(next.map_values(|h: HitView| settled(h)) =~= before.insert(
                    pos as int,
                    hx,
                ));
                order = next;
            }
            i = i + 1;
        }
        assert(hv.take(hv.len() as int) =~= hv);
        r
    }
}

// ---------------------------------------------------------------------------
// Reproducers
// ---------------------------------------------------------------------------

pub open spec fn is_alnum(c: char) -> bool {
    ('0' <= c <= '9') || ('a' <= c <= 'z') || ('A' <= c <= 'Z')
}

/// `s` with every run of other characters as one dash.
pub open spec fn dashed(s: Seq<char>) -> Seq<char>
    decreases s.len(),
{
    if s.len() == 0 {
        s
    } else {
        let p = dashed(s.drop_last());
        if is_alnum(s.last()) {
            p.push(s.last())
        } else if p.len() > 0 && p.last() == '-' {
            p
        } else {
            p.push('-')
        }
    }
}

pub open spec fn no_leading(s: Seq<char>) -> Seq<char>
    decreases s.len(),
{
    if s.len() > 0 && s[0] == '-' {
        no_leading(s.drop_first())
    } else {
        s
    }
}

pub open spec fn no_trailing(s: Seq<char>) -> Seq<char>
    decreases s.len(),
{
    if s.len() > 0 && s.last() == '-' {
        no_trailing(s.drop_last())
    } else {
        s
    }
}

/// `s` as part of a file name.
pub open spec fn sanitized(s: Seq<char>) -> Seq<char> {
    no_trailing(no_leading(dashed(s)))
}

/// `s` as part of a file name: letters and digits, with single dashes for
/// whatever stands between.
#[must_use]
pub fn sanitize(s: &str) -> (r: String)
    ensures
        r@ == sanitized(s@),
{
    let v = chars_of(s);
    let mut d: Vec<char> = Vec::new();
    let mut i: usize = 0;
    assert(v@.take(0) =~= Seq::<char>::empty());
    while i < v.len()
        invariant
            i <= v@.len(),
            d@ == dashed(v@.take(i as int)),
        decreases v@.len() - i,
    {
        let c: char = v[i];
        proof {
            assert(v@.take(i as int + 1).drop_last() =~= v@.take(i as int));
        }
        if ('0' <= c && c <= '9') || ('a' <= c && c <= 'z') || ('A' <= c && c <= 'Z') {
            d.push(c);
        } else if d.len() == 0 || d[d.len() - 1] != '-' {
            d.push('-');
        }
        i = i + 1;
    }
    assert(v@.take(v@.len() as int) =~= v@);
    let ghost all = d@;
    let mut lo: usize = 0;
    assert(all.subrange(0, all.len() as int) =~= all);
    while lo < d.len() && d[lo] == '-'
        invariant
            lo <= d@.len(),
            d@ == all,
            no_leading(all) == no_leading(all.subrange(lo as int, all.len() as int)),
        decreases d@.len() - lo,
    {
        assert(all.subrange(lo as int, all.len() as int).drop_first() =~= all.subrange(
            lo as int + 1,
            all.len() as int,
        ));
        lo = lo + 1;
    }
    let mut hi: usize = d.len();
    while hi > lo && d[hi - 1] == '-'
        invariant
            lo <= hi <= d@.len(),
            d@ == all,
            no_trailing(no_leading(all)) == no_trailing(all.subrange(lo as int, hi as int)),
        decreases hi,
    {
        assert(all.subrange(lo as int, hi as int).drop_last() =~= all.subrange(
            lo as int,
            hi as int - 1,
        ));
        hi = hi - 1;
    }
    let mut r = String::new();
    text::push_range(&mut r, &d, lo, hi);
    assert(r@ =~= all.subrange(lo as int, hi as int));
    r
}

/// A distinct failure that a sweep found.
#[derive(Clone, PartialEq, Debug)]
pub struct Found {
    pub key: ViolationKey,
    /// The smallest seed that showed it.
    pub seed: u64,
    /// The message of the first occurrence.
    pub message: String,
    /// Every seed that showed it.
    pub seeds_hit: Vec<u64>,
    pub shrink: Option<ShrinkStats>,
    /// Where the reproducer is.
    pub log_path: Option<String>,
}

pub struct FoundView {
    pub key: KeyView,
    pub seed: u64,
    pub message: Seq<char>,
    pub seeds_hit: Seq<u64>,
    pub shrink: Option<ShrinkStats>,
    pub log_path: Option<Seq<char>>,
}

impl View for Found {
    type V = FoundView;

    open spec fn view(&self) -> FoundView {
        FoundView {
            key: self.key@,
            seed: self.seed,
            message: self.message@,
            seeds_hit: self.seeds_hit@,
            shrink: self.shrink,
            log_path: crate::broker::text_view(self.log_path),
        }
    }
}

pub open spec fn found_views(f: Seq<Found>) -> Seq<FoundView> {
    f.map_values(|x: Found| x@)
}

/// A reproducer: the name of its file and the text of the log.
#[derive(Clone, PartialEq, Debug)]
pub struct Repro {
    pub file: String,
    pub log: String,
}

pub struct ReproView {
    pub file: Seq<char>,
    pub log: Seq<char>,
}

impl View for Repro {
    type V = ReproView;

    open spec fn view(&self) -> ReproView {
        ReproView { file: self.file@, log: self.log@ }
    }
}

pub open spec fn repro_views(r: Seq<Repro>) -> Seq<ReproView> {
    r.map_values(|x: Repro| x@)
}

/// `repro-seed<seed>-<failure>.weftlog`.
pub open spec fn repro_file(seed: u64, key: KeyView) -> Seq<char> {
    "repro-seed"@ + text::dec(seed as nat) + "-"@ + sanitized(shrink::key_text(key)) + ".weftlog"@
}

pub open spec fn repro_label(seed: u64, key: KeyView, stats: ShrinkStats) -> Seq<char> {
    "shrunk reproducer: "@ + shrink::key_text(key) + ", seed "@ + text::dec(seed as nat) + ", "@
        + text::dec(stats.ops_before as nat) + " \u{2192} "@ + text::dec(stats.ops_after as nat)
        + " ops"@
}

fn repro_name(seed: u64, key: &ViolationKey) -> (s: String)
    ensures
        s@ == repro_file(seed, key@),
{
    let mut s = copy_text("repro-seed");
    push_dec(&mut s, seed);
    push_text(&mut s, "-");
    push_text(&mut s, sanitize(key.text().as_str()).as_str());
    push_text(&mut s, ".weftlog");
    s
}

fn label(seed: u64, key: &ViolationKey, stats: ShrinkStats) -> (s: String)
    ensures
        s@ == repro_label(seed, key@, stats),
{
    let mut s = copy_text("shrunk reproducer: ");
    push_text(&mut s, key.text().as_str());
    push_num(&mut s, ", seed ", seed);
    push_num(&mut s, ", ", stats.ops_before as u64);
    push_num(&mut s, " \u{2192} ", stats.ops_after as u64);
    push_text(&mut s, " ops");
    s
}

/// What a failure is reproduced with: the operations, shrunk if so asked.
pub open spec fn repro_ops<T: TailSource>(
    c: ConfigView,
    readings: Seq<Option<u64>>,
    ops: Seq<OpView>,
    h: HitView,
    tails: T,
) -> (Seq<OpView>, ShrinkStats) {
    if c.shrink {
        let rules = rules_of(c.invariants);
        let seed = h.seeds[0];
        shrink::shrunk(
            shrink::shows(seed, c.net, readings, rules, tails, h.key),
            ops,
            shrink::first_failure(
                input::execution_of(seed, c.net, readings, ops, rules, tails),
                h.key,
            ),
        )
    } else {
        (
            ops,
            ShrinkStats {
                ops_before: ops.len() as usize,
                ops_after: ops.len() as usize,
                executions: 0,
                budget_exhausted: false,
            },
        )
    }
}

/// A failure with its reproducer.
pub open spec fn reproduced<T: TailSource>(
    c: ConfigView,
    readings: Seq<Option<u64>>,
    ops: Seq<OpView>,
    h: HitView,
    tails: T,
) -> (FoundView, ReproView) {
    let seed = h.seeds[0];
    let (small, stats) = repro_ops(c, readings, ops, h, tails);
    let head = input::exec_header(seed, c.net, repro_label(seed, h.key, stats));
    let m = config::model_of(
        seed,
        config::clauses_of(c.net),
        readings,
        readings.len() as int,
    )->Ok_0;
    let events = input::recording(
        head,
        netcore::core_new(m),
        small,
        rules_of(c.invariants),
        tails,
    );
    (
        FoundView {
            key: h.key,
            seed,
            message: h.message,
            seeds_hit: h.seeds,
            shrink: Some(stats),
            log_path: None,
        },
        ReproView {
            file: repro_file(seed, h.key),
            log: log::written(head, events, events.len() as int).out,
        },
    )
}

/// The operations are few enough to be counted, shrunk and recorded.
pub open spec fn countable(c: ConfigView, ops: Seq<OpView>) -> bool {
    &&& ops.len() + shrink::MAX_EXECUTIONS + 2 < usize::MAX
    &&& 2 * ops.len() * (c.invariants.len() + 1) < u64::MAX
}

/// The seed of a text does not decide whether the text is accepted.
pub proof fn lemma_any_seed(
    a: u64,
    b: u64,
    clauses: Seq<Seq<char>>,
    readings: Seq<Option<u64>>,
    n: int,
)
    ensures
        config::model_of(a, clauses, readings, n) is Ok <==> config::model_of(
            b,
            clauses,
            readings,
            n,
        ) is Ok,
    decreases n,
{
    if n > 0 {
        lemma_any_seed(a, b, clauses, readings, n - 1);
    }
}

/// Shrink a failure from its smallest seed, if so asked, and record the
/// operations that are left.
#[must_use]
pub fn reproduce<T: TailSource>(
    cfg: &FuzzConfig,
    readings: &Vec<Option<u64>>,
    ops: &Vec<OpInput>,
    hit: &Hit,
    tails: &T,
) -> (r: (Found, Repro))
    requires
        readings@.len() == config::clauses_of(cfg@.net).len(),
        runnable(cfg@, readings@),
        hit.seeds@.len() > 0,
        countable(cfg@, input::op_views(ops@)),
    ensures
        (r.0@, r.1@) == reproduced(cfg@, readings@, input::op_views(ops@), hit@, *tails),
{
    let ghost ov = input::op_views(ops@);
    let ghost names = cfg@.invariants;
    let ghost want = rules_of(names);
    let seed: u64 = hit.seeds[0];
    proof {
        lemma_any_seed(
            0,
            seed,
            config::clauses_of(cfg@.net),
            readings@,
            readings@.len() as int,
        );
    }
    let rules = invariant_set(&cfg.invariants);
    let before: usize = ops.len();
    let (small, stats) = if cfg.shrink {
        proof {
            lemma_same_shows(seed, cfg@.net, readings@, want, rules@, *tails, hit.key@);
            lemma_same_execution(seed, cfg@.net, readings@, want, rules@, *tails, ov);
            shrink::lemma_first_failure(
                seed,
                cfg@.net,
                readings@,
                ov,
                want,
                *tails,
                hit.key@,
            );
            crate::shrink_laws::lemma_shrunk_len(
                shrink::shows(seed, cfg@.net, readings@, want, *tails, hit.key@),
                ov,
                shrink::first_failure(
                    input::execution_of(seed, cfg@.net, readings@, ov, want, *tails),
                    hit.key@,
                ),
            );
        }
        shrink(seed, cfg.net.as_str(), readings, ops, &rules, &hit.key, tails)
    } else {
        let same = copy_ops(ops, 0, before);
        assert(input::op_views(same@) =~= ov);
        (
            same,
            ShrinkStats {
                ops_before: before,
                ops_after: before,
                executions: 0,
                budget_exhausted: false,
            },
        )
    };
    let about = label(seed, &hit.key, stats);
    let fresh = invariant_set(&cfg.invariants);
    proof {
        let k = names.len() + 1;
        let n = small@.len() as int;
        assert(input::op_views(small@).len() == n);
        assert(n * k <= 2 * ov.len() * k) by (nonlinear_arith)
            requires
                n <= 2 * ov.len(),
                0 <= k,
        ;
        let m = config::model_of(
            seed,
            config::clauses_of(cfg@.net),
            readings@,
            readings@.len() as int,
        )->Ok_0;
        lemma_same_recording(
            netcore::core_new(m),
            input::op_views(small@),
            want,
            fresh@,
            *tails,
            n,
        );
    }
    let log = match execute_and_record(
        seed,
        cfg.net.as_str(),
        readings,
        &small,
        fresh,
        about.as_str(),
        tails,
    ) {
        Ok((log, _)) => log,
        Err(e) => e,
    };
    let found = Found {
        key: hit.key.copy(),
        seed,
        message: copy_text(hit.message.as_str()),
        seeds_hit: copy_seeds(&hit.seeds),
        shrink: Some(stats),
        log_path: None,
    };
    (found, Repro { file: repro_name(seed, &hit.key), log })
}

fn copy_seeds(v: &Vec<u64>) -> (r: Vec<u64>)
    ensures
        r@ == v@,
{
    let mut r: Vec<u64> = Vec::new();
    let mut i: usize = 0;
    while i < v.len()
        invariant
            i <= v@.len(),
            r@ == v@.take(i as int),
        decreases v@.len() - i,
    {
        r.push(v[i]);
        i = i + 1;
        assert(r@ =~= v@.take(i as int));
    }
    assert(r@ =~= v@);
    r
}

// ---------------------------------------------------------------------------
// A whole run
// ---------------------------------------------------------------------------

/// The outcome of a fuzz run.
#[derive(Clone, PartialEq, Debug)]
pub struct FuzzReport {
    pub seeds_tested: u64,
    pub seeds_failed: u64,
    pub violations: Vec<Found>,
    /// Whether the time was up before every seed was tried.
    pub budget_exhausted: bool,
}

pub struct ReportView {
    pub seeds_tested: u64,
    pub seeds_failed: u64,
    pub violations: Seq<FoundView>,
    pub budget_exhausted: bool,
}

impl View for FuzzReport {
    type V = ReportView;

    open spec fn view(&self) -> ReportView {
        ReportView {
            seeds_tested: self.seeds_tested,
            seeds_failed: self.seeds_failed,
            violations: found_views(self.violations@),
            budget_exhausted: self.budget_exhausted,
        }
    }
}

/// What the seeds raise under a description.
pub open spec fn finds<T: TailSource>(c: ConfigView, readings: Seq<Option<u64>>, tails: T)
    -> spec_fn(u64) -> Seq<ViolationView> {
    let ops = workload::generated(fuzz_config::resolved(c.workload));
    |seed: u64| raised_by(c, readings, ops, tails, seed)
}

/// The outcome of a run that tries the first `n` seeds, and its reproducers.
pub open spec fn fuzzed<T: TailSource>(
    c: ConfigView,
    readings: Seq<Option<u64>>,
    n: int,
    tails: T,
) -> (ReportView, Seq<ReproView>) {
    let ops = workload::generated(fuzz_config::resolved(c.workload));
    let queue = queue_of(c);
    let s = swept(finds(c, readings, tails), queue, n);
    let all = findings_of(s.hits);
    (
        ReportView {
            seeds_tested: s.tested as u64,
            seeds_failed: s.failed as u64,
            violations: all.map_values(|h: HitView| reproduced(c, readings, ops, h, tails).0),
            budget_exhausted: n < queue.len(),
        },
        all.map_values(|h: HitView| reproduced(c, readings, ops, h, tails).1),
    )
}

/// Whether a run by this clock may stop behind the first `n` seeds: no seed
/// that failed before is skipped, no other is tried once the clock says that
/// the time is up, and none is skipped before it does.
pub open spec fn stops_at<F: Fn() -> u64>(c: ConfigView, clock: F, n: int) -> bool {
    let queue = queue_of(c);
    &&& c.regression_seeds.len() <= n <= queue.len()
    &&& forall|i: int|
        c.regression_seeds.len() <= i < n ==> #[trigger] told(c, clock, i, false)
    &&& n < queue.len() ==> told(c, clock, n, true)
}

/// At place `i` the clock said whether the time is up.
pub open spec fn told<F: Fn() -> u64>(c: ConfigView, clock: F, i: int, late: bool) -> bool {
    exists|secs: u64| #[trigger] clock.ensures((), secs) && over_budget(c, secs) == late
}

proof fn lemma_swept(finds: spec_fn(u64) -> Seq<ViolationView>, seeds: Seq<u64>, n: int)
    requires
        0 <= n <= seeds.len(),
    ensures
        swept(finds, seeds, n).tested == n,
        swept(finds, seeds, n).failed <= n,
        all_hit(swept(finds, seeds, n).hits),
    decreases n,
{
    if n > 0 {
        lemma_swept(finds, seeds, n - 1);
        let v = finds(seeds[n - 1]);
        lemma_noted_hit(swept(finds, seeds, n - 1).hits, seeds[n - 1], v, v.len() as int);
    }
}

/// Every failure was shown by a seed.
pub open spec fn all_hit(hits: Seq<HitView>) -> bool {
    forall|i: int| 0 <= i < hits.len() ==> (#[trigger] hits[i]).seeds.len() > 0
}

proof fn lemma_noted_hit(hits: Seq<HitView>, seed: u64, v: Seq<ViolationView>, n: int)
    requires
        all_hit(hits),
    ensures
        all_hit(noted(hits, seed, v, n)),
    decreases n,
{
    if n > 0 {
        lemma_noted_hit(hits, seed, v, n - 1);
        lemma_find_hit(noted(hits, seed, v, n - 1), shrink::key_of(v[n - 1]), 0);
    }
}

pub proof fn lemma_find_hit(hits: Seq<HitView>, key: KeyView, i: int)
    requires
        0 <= i <= hits.len(),
    ensures
        i <= find_hit(hits, key, i) <= hits.len(),
        find_hit(hits, key, i) < hits.len() ==> hits[find_hit(hits, key, i)].key == key,
        forall|j: int| i <= j < find_hit(hits, key, i) ==> (#[trigger] hits[j]).key != key,
    decreases hits.len() - i,
{
    if i < hits.len() && hits[i].key != key {
        lemma_find_hit(hits, key, i + 1);
    }
}

pub proof fn lemma_put_members<A>(s: Seq<A>, x: A, before: spec_fn(A, A) -> bool)
    ensures
        put(s, x, before).len() == s.len() + 1,
        put(s, x, before).to_multiset() == s.to_multiset().insert(x),
    decreases s.len(),
{
    broadcast use vstd::seq_lib::group_to_multiset_ensures;

    if !(s.len() == 0 || !before(x, s.last())) {
        let p = s.drop_last();
        lemma_put_members(p, x, before);
        assert(s =~= p.push(s.last()));
        assert(p.to_multiset().insert(x).insert(s.last()) =~= p.to_multiset().insert(
            s.last(),
        ).insert(x));
    }
}

/// Putting in order neither adds nor loses anything.
pub proof fn lemma_arranged_members<A>(s: Seq<A>, before: spec_fn(A, A) -> bool)
    ensures
        arranged(s, before).len() == s.len(),
        arranged(s, before).to_multiset() == s.to_multiset(),
        forall|x: A| arranged(s, before).contains(x) <==> s.contains(x),
    decreases s.len(),
{
    broadcast use vstd::seq_lib::group_to_multiset_ensures;

    if s.len() > 0 {
        let p = s.drop_last();
        lemma_arranged_members(p, before);
        lemma_put_members(arranged(p, before), s.last(), before);
        assert(s =~= p.push(s.last()));
    }
    assert forall|x: A| arranged(s, before).contains(x) <==> s.contains(x) by {
        assert(arranged(s, before).contains(x) <==> arranged(s, before).to_multiset().count(x)
            > 0);
        assert(s.contains(x) <==> s.to_multiset().count(x) > 0);
    }
}

/// Try the seeds in order until the time is up. Tells how many were tried.
fn sweep_all<T: TailSource, F: Fn() -> u64>(
    cfg: &FuzzConfig,
    readings: &Vec<Option<u64>>,
    ops: &Vec<OpInput>,
    queue: &Vec<u64>,
    clock: &F,
    tails: &T,
) -> (r: (Sweep, usize))
    requires
        readings@.len() == config::clauses_of(cfg@.net).len(),
        all_known(cfg@.invariants),
        input::op_views(ops@) == workload::generated(fuzz_config::resolved(cfg@.workload)),
        queue@ == queue_of(cfg@),
        clock.requires(()),
    ensures
        stops_at(cfg@, *clock, r.1 as int),
        r.0@ == swept(finds(cfg@, readings@, *tails), queue@, r.1 as int),
{
    let ghost c = cfg@;
    let ghost ov = input::op_views(ops@);
    let ghost f = finds(c, readings@, *tails);
    let old_seeds: usize = cfg.regression_seeds.len();
    let mut sweep = Sweep::new();
    let mut i: usize = 0;
    while i < queue.len()
        invariant
            i <= queue@.len(),
            c == cfg@,
            queue@ == queue_of(c),
            old_seeds == c.regression_seeds.len(),
            clock.requires(()),
            ov == input::op_views(ops@),
            ov == workload::generated(fuzz_config::resolved(c.workload)),
            f == finds(c, readings@, *tails),
            readings@.len() == config::clauses_of(c.net).len(),
            all_known(c.invariants),
            sweep@ == swept(f, queue@, i as int),
            forall|j: int| old_seeds <= j < i ==> #[trigger] told(c, *clock, j, false),
        decreases queue@.len() - i,
    {
        let late: bool = time_is_up(cfg, clock());
        assert(told(c, *clock, i as int, late));
        match next_seed(queue, old_seeds, i, late) {
            Some(seed) => {
                let v = try_seed(cfg, readings, ops, seed, tails);
                proof {
                    lemma_swept(f, queue@, i as int);
                    assert(f(seed) == raised_by(c, readings@, ov, *tails, seed));
                    assert(monitor::violation_views(v@).len() == v@.len());
                }
                sweep.note(seed, &v);
            },
            None => {
                return (sweep, i);
            },
        }
        i = i + 1;
    }
    (sweep, i)
}

/// Shrink and record each of the failures.
#[verifier::rlimit(80)]
#[verifier::spinoff_prover]
fn reproduce_all<T: TailSource>(
    cfg: &FuzzConfig,
    readings: &Vec<Option<u64>>,
    ops: &Vec<OpInput>,
    hits: &Vec<Hit>,
    tails: &T,
) -> (r: (Vec<Found>, Vec<Repro>))
    requires
        readings@.len() == config::clauses_of(cfg@.net).len(),
        runnable(cfg@, readings@),
        all_hit(hit_views(hits@)),
        countable(cfg@, input::op_views(ops@)),
    ensures
        found_views(r.0@) == hit_views(hits@).map_values(
            |h: HitView| reproduced(cfg@, readings@, input::op_views(ops@), h, *tails).0,
        ),
        repro_views(r.1@) == hit_views(hits@).map_values(
            |h: HitView| reproduced(cfg@, readings@, input::op_views(ops@), h, *tails).1,
        ),
{
    let ghost all = hit_views(hits@);
    let ghost to_found =
        |h: HitView| reproduced(cfg@, readings@, input::op_views(ops@), h, *tails).0;
    let ghost to_repro =
        |h: HitView| reproduced(cfg@, readings@, input::op_views(ops@), h, *tails).1;
    let mut found: Vec<Found> = Vec::new();
    let mut repros: Vec<Repro> = Vec::new();
    let mut k: usize = 0;
    proof {
        assert(found_views(found@) =~= all.take(0).map_values(to_found));
        assert(repro_views(repros@) =~= all.take(0).map_values(to_repro));
    }
    while k < hits.len()
        invariant
            k <= hits@.len(),
            all == hit_views(hits@),
            all_hit(all),
            readings@.len() == config::clauses_of(cfg@.net).len(),
            runnable(cfg@, readings@),
            countable(cfg@, input::op_views(ops@)),
            forall|h: HitView| #[trigger] to_found(h) == reproduced(
                cfg@,
                readings@,
                input::op_views(ops@),
                h,
                *tails,
            ).0,
            forall|h: HitView| #[trigger] to_repro(h) == reproduced(
                cfg@,
                readings@,
                input::op_views(ops@),
                h,
                *tails,
            ).1,
            found_views(found@) == all.take(k as int).map_values(to_found),
            repro_views(repros@) == all.take(k as int).map_values(to_repro),
        decreases hits@.len() - k,
    {
        let ghost h = all[k as int];
        assert(h == hits@[k as int]@);
        assert(h.seeds.len() > 0);
        let (x, y) = reproduce(cfg, readings, ops, &hits[k], tails);
        let ghost xs = found_views(found@);
        let ghost ys = repro_views(repros@);
        let ghost xv = x@;
        let ghost yv = y@;
        found.push(x);
        repros.push(y);
        proof {
            assert(xv == to_found(h));
            assert(yv == to_repro(h));
            assert(found_views(found@) =~= xs.push(xv));
            assert(repro_views(repros@) =~= ys.push(yv));
            assert(all.take(k as int + 1).map_values(to_found) =~= xs.push(to_found(h)));
            assert(all.take(k as int + 1).map_values(to_repro) =~= ys.push(to_repro(h)));
        }
        k = k + 1;
    }
    assert(all.take(all.len() as int) =~= all);
    (found, repros)
}

/// Run the whole description: try the seeds until they are through or the
/// time is up, and shrink and record each distinct failure. `clock` tells the
/// whole seconds since the start.
#[must_use]
pub fn run_fuzz<T: TailSource, F: Fn() -> u64>(
    cfg: &FuzzConfig,
    readings: &Vec<Option<u64>>,
    clock: &F,
    tails: &T,
) -> (r: (FuzzReport, Vec<Repro>))
    requires
        readings@.len() == config::clauses_of(cfg@.net).len(),
        runnable(cfg@, readings@),
        workload::addressable(fuzz_config::resolved(cfg@.workload)),
        countable(cfg@, workload::generated(fuzz_config::resolved(cfg@.workload))),
        clock.requires(()),
    ensures
        exists|n: int| #[trigger]
            stops_at(cfg@, *clock, n) && (r.0@, repro_views(r.1@)) == fuzzed(
                cfg@,
                readings@,
                n,
                *tails,
            ),
        cfg@.time_budget_secs == 0 ==> (r.0@, repro_views(r.1@)) == fuzzed(
            cfg@,
            readings@,
            queue_of(cfg@).len() as int,
            *tails,
        ),
{
    let ops = generate(&cfg.workload.resolve());
    let queue = seeds(cfg);
    let (sweep, tried) = sweep_all(cfg, readings, &ops, &queue, clock, tails);
    let hits = sweep.findings();
    proof {
        lemma_swept(finds(cfg@, readings@, *tails), queue@, tried as int);
        lemma_findings_hit(sweep@.hits);
    }
    let (violations, repros) = reproduce_all(cfg, readings, &ops, &hits, tails);
    let report = FuzzReport {
        seeds_tested: sweep.tested,
        seeds_failed: sweep.failed,
        violations,
        budget_exhausted: tried < queue.len(),
    };
    proof {
        if cfg@.time_budget_secs == 0 && tried < queue@.len() {
            assert(told(cfg@, *clock, tried as int, true));
        }
    }
    (report, repros)
}

proof fn lemma_findings_hit(hits: Seq<HitView>)
    requires
        all_hit(hits),
    ensures
        all_hit(findings_of(hits)),
{
    let s = arranged(hits, by_key());
    lemma_arranged_members(hits, by_key());
    let f = findings_of(hits);
    assert forall|i: int| 0 <= i < f.len() implies (#[trigger] f[i]).seeds.len() > 0 by {
        assert(s.contains(s[i]));
        assert(hits.contains(s[i]));
        let j = choose|j: int| 0 <= j < hits.len() && hits[j] == s[i];
        assert(hits[j].seeds.len() > 0);
        lemma_arranged_members(s[i].seeds, by_value());
    }
}

// ---------------------------------------------------------------------------
// The report
// ---------------------------------------------------------------------------

/// `names` with `sep` between them.
pub open spec fn joined(names: Seq<Seq<char>>, sep: Seq<char>, n: int) -> Seq<char>
    decreases n,
{
    if n <= 0 {
        Seq::empty()
    } else if n == 1 {
        names[0]
    } else {
        joined(names, sep, n - 1) + sep + names[n - 1]
    }
}

fn join(names: &Vec<String>, sep: &str) -> (s: String)
    ensures
        s@ == joined(bytes::text_views(names@), sep@, names@.len() as int),
{
    let ghost nv = bytes::text_views(names@);
    let mut s = String::new();
    let mut i: usize = 0;
    assert(s@ =~= Seq::<char>::empty());
    while i < names.len()
        invariant
            i <= names@.len(),
            nv == bytes::text_views(names@),
            s@ == joined(nv, sep@, i as int),
        decreases names@.len() - i,
    {
        assert(nv[i as int] == names@[i as int]@);
        if i > 0 {
            push_text(&mut s, sep);
        }
        push_text(&mut s, names[i].as_str());
        i = i + 1;
        assert(s@ =~= joined(nv, sep@, i as int));
    }
    s
}

pub open spec fn swept_text(r: ReportView, took: Seq<char>) -> Seq<char> {
    "swept     : "@ + text::dec(r.seeds_tested as nat) + " seed(s) in "@ + took + " ("@
        + text::dec(r.seeds_failed as nat) + " failing)"@ + if r.budget_exhausted {
        "  [time budget hit]"@
    } else {
        Seq::<char>::empty()
    } + "\n"@
}

pub open spec fn setting_text(c: ConfigView) -> Seq<char> {
    "net       : "@ + c.net + "\nworkload  : "@ + text::dec(c.workload.nodes as nat)
        + " node(s), "@ + text::dec(c.workload.sends as nat) + " send(s), workload_seed "@
        + text::dec(c.workload.workload_seed as nat) + "\ninvariants: "@ + joined(
        c.invariants,
        ", "@,
        c.invariants.len() as int,
    ) + "\n"@
}

pub open spec fn shrink_text(s: ShrinkStats) -> Seq<char> {
    "    shrunk : "@ + text::dec(s.ops_before as nat) + " \u{2192} "@ + text::dec(
        s.ops_after as nat,
    ) + " ops in "@ + text::dec(s.executions as nat) + " execution(s)"@ + if s.budget_exhausted {
        " [budget hit]"@
    } else {
        Seq::<char>::empty()
    } + "\n"@
}

pub open spec fn repro_text(path: Seq<char>, names: Seq<Seq<char>>) -> Seq<char> {
    "    repro  : "@ + path + "\n    verify : weft replay "@ + path + " --check "@ + joined(
        names,
        ","@,
        names.len() as int,
    ) + "\n"@
}

pub open spec fn found_text(f: FoundView, tested: u64, names: Seq<Seq<char>>) -> Seq<char> {
    "\n  \u{2717} "@ + shrink::key_text(f.key) + "\n    what   : "@ + f.message
        + "\n    seeds  : "@ + text::dec(f.seeds_hit.len()) + " of "@ + text::dec(tested as nat)
        + " tested (first: "@ + text::dec(f.seed as nat) + ")\n"@ + match f.shrink {
        Some(s) => shrink_text(s),
        None => Seq::empty(),
    } + match f.log_path {
        Some(p) => repro_text(p, names),
        None => Seq::empty(),
    }
}

/// The first `n` of the failures, one after the other.
pub open spec fn all_found_text(
    f: Seq<FoundView>,
    tested: u64,
    names: Seq<Seq<char>>,
    n: int,
) -> Seq<char>
    decreases n,
{
    if n <= 0 {
        Seq::empty()
    } else {
        all_found_text(f, tested, names, n - 1) + found_text(f[n - 1], tested, names)
    }
}

/// The report for a reader; `took` says how long the run took.
pub open spec fn report_text(r: ReportView, c: ConfigView, took: Seq<char>) -> Seq<char> {
    "==================== WEFT FUZZ REPORT ====================\n"@ + swept_text(r, took)
        + setting_text(c) + if r.violations.len() == 0 {
        "\nNo invariant violations found.\n"@
    } else {
        "\n"@ + text::dec(r.violations.len()) + " distinct violation(s):\n"@ + all_found_text(
            r.violations,
            r.seeds_tested,
            c.invariants,
            r.violations.len() as int,
        )
    } + "==========================================================\n"@
}

fn swept_line(r: &FuzzReport, took: &str) -> (s: String)
    ensures
        s@ == swept_text(r@, took@),
{
    let mut s = copy_text("swept     : ");
    push_dec(&mut s, r.seeds_tested);
    push_text(&mut s, " seed(s) in ");
    push_text(&mut s, took);
    push_num(&mut s, " (", r.seeds_failed);
    push_text(&mut s, " failing)");
    if r.budget_exhausted {
        push_text(&mut s, "  [time budget hit]");
    } else {
        assert(s@ + Seq::<char>::empty() =~= s@);
    }
    push_text(&mut s, "\n");
    s
}

fn setting_lines(c: &FuzzConfig) -> (s: String)
    ensures
        s@ == setting_text(c@),
{
    let mut s = copy_text("net       : ");
    push_text(&mut s, c.net.as_str());
    push_num(&mut s, "\nworkload  : ", c.workload.nodes as u64);
    push_num(&mut s, " node(s), ", c.workload.sends as u64);
    push_num(&mut s, " send(s), workload_seed ", c.workload.workload_seed);
    push_text(&mut s, "\ninvariants: ");
    push_text(&mut s, join(&c.invariants, ", ").as_str());
    push_text(&mut s, "\n");
    s
}

fn shrink_line(x: &ShrinkStats) -> (s: String)
    ensures
        s@ == shrink_text(*x),
{
    let mut s = copy_text("    shrunk : ");
    push_dec(&mut s, x.ops_before as u64);
    push_num(&mut s, " \u{2192} ", x.ops_after as u64);
    push_num(&mut s, " ops in ", x.executions as u64);
    push_text(&mut s, " execution(s)");
    if x.budget_exhausted {
        push_text(&mut s, " [budget hit]");
    } else {
        assert(s@ + Seq::<char>::empty() =~= s@);
    }
    push_text(&mut s, "\n");
    s
}

fn repro_lines(path: &str, names: &Vec<String>) -> (s: String)
    ensures
        s@ == repro_text(path@, bytes::text_views(names@)),
{
    let mut s = copy_text("    repro  : ");
    push_text(&mut s, path);
    push_text(&mut s, "\n    verify : weft replay ");
    push_text(&mut s, path);
    push_text(&mut s, " --check ");
    push_text(&mut s, join(names, ",").as_str());
    push_text(&mut s, "\n");
    s
}

fn found_lines(f: &Found, tested: u64, names: &Vec<String>) -> (s: String)
    ensures
        s@ == found_text(f@, tested, bytes::text_views(names@)),
{
    let mut s = copy_text("\n  \u{2717} ");
    push_text(&mut s, f.key.text().as_str());
    push_text(&mut s, "\n    what   : ");
    push_text(&mut s, f.message.as_str());
    push_num(&mut s, "\n    seeds  : ", f.seeds_hit.len() as u64);
    push_num(&mut s, " of ", tested);
    push_num(&mut s, " tested (first: ", f.seed);
    push_text(&mut s, ")\n");
    let mid = match &f.shrink {
        Some(x) => shrink_line(x),
        None => String::new(),
    };
    assert(mid@ =~= match f@.shrink {
        Some(x) => shrink_text(x),
        None => Seq::empty(),
    });
    push_text(&mut s, mid.as_str());
    let end = match &f.log_path {
        Some(p) => repro_lines(p.as_str(), names),
        None => String::new(),
    };
    assert(end@ =~= match f@.log_path {
        Some(p) => repro_text(p, bytes::text_views(names@)),
        None => Seq::empty(),
    });
    push_text(&mut s, end.as_str());
    s
}

fn all_found_lines(f: &Vec<Found>, tested: u64, names: &Vec<String>) -> (s: String)
    ensures
        s@ == all_found_text(
            found_views(f@),
            tested,
            bytes::text_views(names@),
            f@.len() as int,
        ),
{
    let ghost fv = found_views(f@);
    let ghost nv = bytes::text_views(names@);
    let mut s = String::new();
    let mut i: usize = 0;
    assert(s@ =~= Seq::<char>::empty());
    while i < f.len()
        invariant
            i <= f@.len(),
            fv == found_views(f@),
            nv == bytes::text_views(names@),
            s@ == all_found_text(fv, tested, nv, i as int),
        decreases f@.len() - i,
    {
        assert(fv[i as int] == f@[i as int]@);
        push_text(&mut s, found_lines(&f[i], tested, names).as_str());
        i = i + 1;
    }
    s
}

/// The seeds come one after the other, none twice.
pub open spec fn increasing(s: Seq<u64>) -> bool {
    forall|i: int, j: int| 0 <= i < j < s.len() ==> s[i] < s[j]
}

/// Whether one of the first `n` failures was shown by `seed`.
pub open spec fn hit_by(f: Seq<FoundView>, n: int, seed: u64) -> bool {
    exists|i: int| 0 <= i < n && (#[trigger] f[i]).seeds_hit.contains(seed)
}

/// Put `x` into an increasing sequence, unless it is there.
fn put_once(v: &mut Vec<u64>, x: u64)
    requires
        increasing(old(v)@),
    ensures
        increasing(final(v)@),
        forall|y: u64| #[trigger] final(v)@.contains(y) <==> old(v)@.contains(y) || y == x,
{
    let ghost s = v@;
    let mut pos: usize = v.len();
    while pos > 0 && x < v[pos - 1]
        invariant
            pos <= v@.len(),
            v@ == s,
            forall|j: int| pos <= j < s.len() ==> x < #[trigger] s[j],
        decreases pos,
    {
        pos = pos - 1;
    }
    if pos > 0 && v[pos - 1] == x {
        assert(s.contains(s[pos - 1]));
    } else {
        v.insert(pos, x);
        proof {
            let t = v@;
            assert(t == s.insert(pos as int, x));
            assert forall|i: int, j: int| 0 <= i < j < t.len() implies t[i] < t[j] by {
                if i < pos && j == pos {
                    assert(s[i] <= s[pos - 1]);
                }
                if i < pos && j > pos {
                    assert(s[i] < s[j - 1]);
                }
                if i > pos {
                    assert(s[i - 1] < s[j - 1]);
                }
            }
            assert forall|y: u64| t.contains(y) <==> s.contains(y) || y == x by {
                if s.contains(y) {
                    let k = choose|k: int| 0 <= k < s.len() && s[k] == y;
                    if k < pos {
                        assert(t[k] == y);
                    } else {
                        assert(t[k + 1] == y);
                    }
                }
                if t.contains(y) && y != x {
                    let k = choose|k: int| 0 <= k < t.len() && t[k] == y;
                    if k < pos {
                        assert(s[k] == y);
                    } else {
                        assert(s[k - 1] == y);
                    }
                }
                assert(t[pos as int] == x);
            }
        }
    }
}

pub fn put_all(v: &mut Vec<u64>, seeds: &Vec<u64>)
    requires
        increasing(old(v)@),
    ensures
        increasing(final(v)@),
        forall|y: u64| #[trigger] final(v)@.contains(y) <==> old(v)@.contains(y) || seeds@.contains(y),
{
    let ghost s = v@;
    let mut i: usize = 0;
    while i < seeds.len()
        invariant
            i <= seeds@.len(),
            increasing(v@),
            forall|y: u64|
                #[trigger] v@.contains(y) <==> s.contains(y) || seeds@.take(i as int).contains(y),
        decreases seeds@.len() - i,
    {
        let ghost before = v@;
        put_once(v, seeds[i]);
        proof {
            let a = seeds@.take(i as int);
            let b = seeds@.take(i as int + 1);
            assert(b =~= a.push(seeds@[i as int]));
            assert forall|y: u64| b.contains(y) <==> a.contains(y) || y == seeds@[i as int] by {
                if a.contains(y) {
                    let k = choose|k: int| 0 <= k < a.len() && a[k] == y;
                    assert(b[k] == y);
                }
                assert(b[i as int] == seeds@[i as int]);
            }
            assert forall|y: u64| #[trigger] v@.contains(y) <==> s.contains(y) || b.contains(y) by {
                assert(before.contains(y) <==> s.contains(y) || a.contains(y));
                assert(b.contains(y) <==> a.contains(y) || y == seeds@[i as int]);
            }
        }
        i = i + 1;
    }
    assert(seeds@.take(seeds@.len() as int) =~= seeds@);
}

impl FuzzReport {
    /// The report for a reader; `took` says how long the run took.
    #[must_use]
    pub fn render(&self, cfg: &FuzzConfig, took: &str) -> (s: String)
        ensures
            s@ == report_text(self@, cfg@, took@),
    {
        let mut s = copy_text("==================== WEFT FUZZ REPORT ====================\n");
        push_text(&mut s, swept_line(self, took).as_str());
        push_text(&mut s, setting_lines(cfg).as_str());
        assert(self@.violations.len() == self.violations@.len());
        let body = if self.violations.len() == 0 {
            copy_text("\nNo invariant violations found.\n")
        } else {
            let mut b = copy_text("\n");
            push_dec(&mut b, self.violations.len() as u64);
            push_text(&mut b, " distinct violation(s):\n");
            push_text(
                &mut b,
                all_found_lines(&self.violations, self.seeds_tested, &cfg.invariants).as_str(),
            );
            b
        };
        push_text(&mut s, body.as_str());
        push_text(&mut s, "==========================================================\n");
        s
    }

    /// Every seed that showed a failure, once each and in order.
    #[must_use]
    pub fn regression_seeds(&self) -> (r: Vec<u64>)
        ensures
            increasing(r@),
            forall|seed: u64| #[trigger]
                r@.contains(seed) <==> hit_by(
                    self@.violations,
                    self@.violations.len() as int,
                    seed,
                ),
    {
        let ghost fv = self@.violations;
        let mut r: Vec<u64> = Vec::new();
        let mut i: usize = 0;
        while i < self.violations.len()
            invariant
                i <= self.violations@.len(),
                fv == found_views(self.violations@),
                increasing(r@),
                forall|seed: u64| #[trigger] r@.contains(seed) <==> hit_by(fv, i as int, seed),
            decreases self.violations@.len() - i,
        {
            let ghost before = r@;
            put_all(&mut r, &self.violations[i].seeds_hit);
            proof {
                assert(fv[i as int] == self.violations@[i as int]@);
                assert forall|seed: u64| #[trigger] r@.contains(seed) <==> hit_by(
                    fv,
                    i as int + 1,
                    seed,
                ) by {
                    assert(r@.contains(seed) <==> before.contains(seed)
                        || fv[i as int].seeds_hit.contains(seed));
                    assert(before.contains(seed) <==> hit_by(fv, i as int, seed));
                    if hit_by(fv, i as int, seed) {
                        let k = choose|k: int|
                            0 <= k < i && (#[trigger] fv[k]).seeds_hit.contains(seed);
                        assert(fv[k].seeds_hit.contains(seed));
                    }
                    if hit_by(fv, i as int + 1, seed) {
                        let k = choose|k: int|
                            0 <= k < i + 1 && (#[trigger] fv[k]).seeds_hit.contains(seed);
                        if k < i {
                            assert(hit_by(fv, i as int, seed));
                        }
                    }
                }
            }
            i = i + 1;
        }
        r
    }
}

} // verus!
