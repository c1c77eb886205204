//! Holding a recorded violation of election safety against the Raft model: the
//! restarts of a recording become the schedule of a search, and what the
//! search finds becomes a verdict.

use vstd::prelude::*;

use crate::chord_oracle;
use crate::chord_oracle::{no_violation_line, outcome};
use crate::log::{Log, RecordView};
use crate::raft;
use crate::raft::{check, sent_report};
use crate::raft_model::{ModelView, RaftModel, RestartSchedule, ScheduleView};
use crate::text;
use crate::text::{copy_text, push_dec, push_text};

verus! {

/// A restart, with its date.
#[derive(Clone, Copy, PartialEq, Eq, Structural)]
pub struct Restart {
    pub date: i32,
    pub node: u8,
}

/// The order of restarts: by date, and by node.
pub open spec fn before(a: Restart, b: Restart) -> bool {
    a.date < b.date || (a.date == b.date && a.node < b.node)
}

/// Ordered restarts with one more.
pub open spec fn placed(v: Seq<Restart>, f: Restart) -> Seq<Restart>
    decreases v.len(),
{
    if v.len() == 0 || !before(f, v.last()) {
        v.push(f)
    } else {
        placed(v.drop_last(), f).push(v.last())
    }
}

pub open spec fn larger(a: u8, b: u8) -> u8 {
    if a < b {
        b
    } else {
        a
    }
}

/// A term, as far as a byte holds it.
pub open spec fn term_byte(t: i32) -> u8 {
    if t < 0 {
        0
    } else if t > 255 {
        255
    } else {
        t as u8
    }
}

/// What a recording says of its scenario.
pub struct ScenarioView {
    pub top_node: u8,
    pub top_term: u8,
    pub restarts: Seq<Restart>,
}

/// What the first `n` records say of their scenario.
pub open spec fn scenario(records: Seq<RecordView>, n: int) -> ScenarioView
    decreases n,
{
    if n <= 0 {
        ScenarioView { top_node: 0, top_term: 0, restarts: Seq::empty() }
    } else {
        let x = scenario(records, n - 1);
        match raft::report_in(records[n - 1].e) {
            Some(rep) => ScenarioView {
                top_node: larger(x.top_node, rep.node as u8),
                top_term: larger(x.top_term, term_byte(rep.term)),
                restarts: if rep.alive {
                    x.restarts
                } else {
                    placed(x.restarts, Restart { date: rep.date, node: rep.node as u8 })
                },
            },
            None => x,
        }
    }
}

/// Who restarts, in order.
pub open spec fn nodes_of(v: Seq<Restart>) -> Seq<u8> {
    v.map_values(|r: Restart| r.node)
}

/// What a recording says of its scenario.
pub struct Extracted {
    pub members: u8,
    pub restarts: Vec<u8>,
    pub max_term: u8,
}

proof fn lemma_placed(v: Seq<Restart>, f: Restart, pos: int)
    requires
        0 <= pos <= v.len(),
        forall|j: int| pos <= j < v.len() ==> before(f, #[trigger] v[j]),
        pos > 0 ==> !before(f, v[pos - 1]),
    ensures
        placed(v, f) == v.insert(pos, f),
    decreases v.len(),
{
    if pos < v.len() {
        let p = v.drop_last();
        assert(before(f, v[v.len() - 1]));
        lemma_placed(p, f, pos);
        assert(placed(v, f) =~= v.insert(pos, f));
    } else {
        assert(placed(v, f) =~= v.insert(pos, f));
    }
}

fn place(v: &mut Vec<Restart>, f: Restart)
    ensures
        final(v)@ == placed(old(v)@, f),
{
    let ghost s = v@;
    let mut pos: usize = v.len();
    while pos > 0 && (f.date < v[pos - 1].date || (f.date == v[pos - 1].date && f.node < v[pos
        - 1].node))
        invariant
            pos <= v@.len(),
            v@ == s,
            forall|j: int| pos <= j < s.len() ==> before(f, #[trigger] s[j]),
        decreases pos,
    {
        pos = pos - 1;
    }
    proof {
        lemma_placed(s, f, pos as int);
    }
    v.insert(pos, f);
}

fn read_term(t: i32) -> (r: u8)
    ensures
        r == term_byte(t),
{
    if t < 0 {
        0
    } else if t > 255 {
        255
    } else {
        t as u8
    }
}

fn read_node(n: i32) -> (r: u8)
    ensures
        r == n as u8,
{
    #[verifier::truncate]
    let r: u8 = n as u8;
    r
}

/// The highest node that a recording has reports of, or 0.
#[must_use]
pub fn top_node(log: &Log) -> (n: u8)
    ensures
        n == scenario(log@.records, log@.records.len() as int).top_node,
{
    gather(log).0
}

fn gather(log: &Log) -> (r: (u8, u8, Vec<Restart>))
    ensures
        ({
            let x = scenario(log@.records, log@.records.len() as int);
            r.0 == x.top_node && r.1 == x.top_term && r.2@ == x.restarts
        }),
{
    let mut node: u8 = 0;
    let mut term: u8 = 0;
    let mut restarts: Vec<Restart> = Vec::new();
    let mut i: usize = 0;
    while i < log.records.len()
        invariant
            i <= log.records@.len(),
            log@.records.len() == log.records@.len(),
            (ScenarioView { top_node: node, top_term: term, restarts: restarts@ }) == scenario(
                log@.records,
                i as int,
            ),
        decreases log.records@.len() - i,
    {
        let r = &log.records[i];
        assert(log@.records[i as int] == r@);
        if let Some(rep) = sent_report(&r.e) {
            let n: u8 = read_node(rep.node);
            let t: u8 = read_term(rep.term);
            if node < n {
                node = n;
            }
            if term < t {
                term = t;
            }
            if !rep.alive {
                place(&mut restarts, Restart { date: rep.date, node: n });
            }
        }
        i = i + 1;
    }
    (node, term, restarts)
}

/// What a recording says of its scenario: how many members there are, who
/// restarts, in order, and the highest term. `None` where no node but the
/// first reports.
#[must_use]
pub fn extract(log: &Log) -> (r: Option<Extracted>)
    requires
        scenario(log@.records, log@.records.len() as int).top_node < u8::MAX,
    ensures
        ({
            let x = scenario(log@.records, log@.records.len() as int);
            match r {
                Some(e) => x.top_node > 0 && e.members == x.top_node + 1 && e.restarts@
                    == nodes_of(x.restarts) && e.max_term == x.top_term,
                None => x.top_node == 0,
            }
        }),
{
    let (node, max_term, v) = gather(log);
    if node == 0 {
        return None;
    }
    let mut restarts: Vec<u8> = Vec::new();
    let mut i: usize = 0;
    while i < v.len()
        invariant
            i <= v@.len(),
            restarts@ == nodes_of(v@.take(i as int)),
        decreases v@.len() - i,
    {
        restarts.push(v[i].node);
        i = i + 1;
        assert(restarts@ =~= nodes_of(v@.take(i as int)));
    }
    assert(v@.take(v@.len() as int) =~= v@);
    Some(Extracted { members: node + 1, restarts, max_term })
}

/// What to do about a recording.
pub enum RaftPlan {
    /// Nothing: this line says it all.
    Settled(String),
    /// Search the model.
    Search(RaftModel),
}

pub enum PlanView {
    Settled(Seq<char>),
    Search(ModelView),
}

impl View for RaftPlan {
    type V = PlanView;

    open spec fn view(&self) -> PlanView {
        match *self {
            RaftPlan::Settled(line) => PlanView::Settled(line@),
            RaftPlan::Search(model) => PlanView::Search(model@),
        }
    }
}

pub open spec fn next_term(t: u8) -> u8 {
    if t == u8::MAX {
        t
    } else {
        (t + 1) as u8
    }
}

/// The model for the scenario of a recording.
pub open spec fn model_of(x: ScenarioView, fix: u8) -> ModelView {
    ModelView {
        members: (x.top_node + 1) as u8,
        fix,
        term_bound: next_term(x.top_term),
        schedule: ScheduleView::Fixed(nodes_of(x.restarts)),
        max_restarts: 0,
    }
}

/// What to do about a recording.
pub open spec fn plan_of(records: Seq<RecordView>, path: Seq<char>, fix: u8) -> Result<
    PlanView,
    Seq<char>,
> {
    let x = scenario(records, records.len() as int);
    if raft::scanned(records, records.len() as int).violations.len() == 0 {
        Ok(PlanView::Settled(chord_oracle::clean_line(path)))
    } else if x.top_node == 0 {
        Err(path + ": no reports"@)
    } else {
        Ok(PlanView::Search(model_of(x, fix)))
    }
}

/// What to do about a recording: report that it violates nothing, or search
/// the model of its scenario.
pub fn plan(log: &Log, path: &str, fix: u8) -> (r: Result<RaftPlan, String>)
    requires
        log@.records.len() < u32::MAX,
        scenario(log@.records, log@.records.len() as int).top_node < u8::MAX,
    ensures
        match r {
            Ok(p) => plan_of(log@.records, path@, fix) == Ok::<PlanView, Seq<char>>(p@),
            Err(e) => plan_of(log@.records, path@, fix) == Err::<PlanView, Seq<char>>(e@),
        },
{
    let v = check(log);
    assert(v@.violations.len() == v.violations@.len());
    if v.violations.len() == 0 {
        return Ok(RaftPlan::Settled(no_violation_line(path)));
    }
    match extract(log) {
        None => {
            let mut e = copy_text(path);
            push_text(&mut e, ": no reports");
            Err(e)
        },
        Some(x) => {
            let term_bound: u8 = if x.max_term == u8::MAX {
                x.max_term
            } else {
                x.max_term + 1
            };
            Ok(
                RaftPlan::Search(
                    RaftModel {
                        members: x.members,
                        fix,
                        term_bound,
                        schedule: RestartSchedule::Fixed(x.restarts),
                        max_restarts: 0,
                    },
                ),
            )
        },
    }
}

pub open spec fn result_text(
    path: Seq<char>,
    found: bool,
    exhausted: bool,
    states: u64,
    restarts: u64,
    term_bound: u8,
) -> Seq<char> {
    path + "\tElectionSafety="@ + chord_oracle::outcome_of(found, exhausted) + "\tstates="@
        + text::dec(states as nat) + " restarts="@ + text::dec(restarts as nat) + " term_bound="@
        + text::dec(term_bound as nat)
}

/// The line for a recording whose scenario was searched.
#[must_use]
pub fn result_line(
    path: &str,
    found: bool,
    exhausted: bool,
    states: u64,
    restarts: u64,
    term_bound: u8,
) -> (s: String)
    ensures
        s@ == result_text(path@, found, exhausted, states, restarts, term_bound),
{
    let mut s = copy_text(path);
    push_text(&mut s, "\tElectionSafety=");
    push_text(&mut s, outcome(found, exhausted));
    push_text(&mut s, "\tstates=");
    push_dec(&mut s, states);
    push_text(&mut s, " restarts=");
    push_dec(&mut s, restarts);
    push_text(&mut s, " term_bound=");
    push_dec(&mut s, term_bound as u64);
    s
}

/// The model for a search of all restarts: five members, up to the third term.
pub open spec fn sweep_of(fix: u8, restarts: u8) -> ModelView {
    ModelView {
        members: 5,
        fix,
        term_bound: 3,
        schedule: ScheduleView::Exhaustive,
        max_restarts: restarts,
    }
}

/// The model for a search of all restarts.
#[must_use]
pub fn sweep_model(fix: u8, restarts: u8) -> (r: RaftModel)
    ensures
        r@ == sweep_of(fix, restarts),
{
    RaftModel {
        members: 5,
        fix,
        term_bound: 3,
        schedule: RestartSchedule::Exhaustive,
        max_restarts: restarts,
    }
}

pub open spec fn reach_of(found: bool, exhausted: bool) -> Seq<char> {
    if found {
        "REACHABLE"@
    } else if exhausted {
        "unreachable (exhaustive within bounds)"@
    } else {
        "not found (BOUNDED — state budget hit)"@
    }
}

/// What a search of all restarts shows.
pub open spec fn sweep_text(
    fix: u8,
    restarts: u8,
    states: u64,
    exhausted: bool,
    found: bool,
) -> Seq<char> {
    "exhaustive fix="@ + text::dec(fix as nat) + " restarts<="@ + text::dec(restarts as nat)
        + " term_bound=3: states="@ + text::dec(states as nat) + " exhausted="@
        + chord_oracle::truth(exhausted) + " ElectionSafety-violation: "@ + reach_of(
        found,
        exhausted,
    ) + "\n"@
}

/// What a search of all restarts shows.
#[must_use]
pub fn sweep_report(fix: u8, restarts: u8, states: u64, exhausted: bool, found: bool) -> (s: String)
    ensures
        s@ == sweep_text(fix, restarts, states, exhausted, found),
{
    let mut s = copy_text("exhaustive fix=");
    push_dec(&mut s, fix as u64);
    push_text(&mut s, " restarts<=");
    push_dec(&mut s, restarts as u64);
    push_text(&mut s, " term_bound=3: states=");
    push_dec(&mut s, states);
    push_text(&mut s, " exhausted=");
    push_text(&mut s, if exhausted { "true" } else { "false" });
    push_text(&mut s, " ElectionSafety-violation: ");
    if found {
        push_text(&mut s, "REACHABLE");
    } else if exhausted {
        push_text(&mut s, "unreachable (exhaustive within bounds)");
    } else {
        push_text(&mut s, "not found (BOUNDED — state budget hit)");
    }
    push_text(&mut s, "\n");
    s
}

// ---------------------------------------------------------------------------
// Laws
// ---------------------------------------------------------------------------

/// Restarts in order.
pub open spec fn ordered(v: Seq<Restart>) -> bool {
    forall|i: int, j: int| 0 <= i < j < v.len() ==> !before(#[trigger] v[j], #[trigger] v[i])
}

proof fn lemma_spot(v: Seq<Restart>, f: Restart, hi: int) -> (pos: int)
    requires
        0 <= hi <= v.len(),
        forall|j: int| hi <= j < v.len() ==> before(f, #[trigger] v[j]),
    ensures
        0 <= pos <= v.len(),
        forall|j: int| pos <= j < v.len() ==> before(f, #[trigger] v[j]),
        pos > 0 ==> !before(f, v[pos - 1]),
    decreases hi,
{
    if hi > 0 && before(f, v[hi - 1]) {
        lemma_spot(v, f, hi - 1)
    } else {
        hi
    }
}

/// The restarts of a recording are in order, and every one is of a member.
pub proof fn law_restarts_in_order(records: Seq<RecordView>, n: int)
    requires
        0 <= n <= records.len(),
    ensures
        ordered(scenario(records, n).restarts),
        forall|i: int|
            0 <= i < scenario(records, n).restarts.len() ==> (#[trigger] scenario(
                records,
                n,
            ).restarts[i]).node <= scenario(records, n).top_node,
    decreases n,
{
    if n > 0 {
        law_restarts_in_order(records, n - 1);
        let x = scenario(records, n - 1);
        let v = x.restarts;
        if let Some(rep) = raft::report_in(records[n - 1].e) {
            if !rep.alive {
                let f = Restart { date: rep.date, node: rep.node as u8 };
                let pos = lemma_spot(v, f, v.len() as int);
                lemma_placed(v, f, pos);
                let r = v.insert(pos, f);
                let top = scenario(records, n).top_node;
                assert forall|i: int| 0 <= i < r.len() implies (#[trigger] r[i]).node <= top by {
                    if i < pos {
                        assert(r[i] == v[i]);
                    } else if i > pos {
                        assert(r[i] == v[i - 1]);
                    }
                }
                assert forall|i: int, j: int| 0 <= i < j < r.len() implies !before(
                    #[trigger] r[j],
                    #[trigger] r[i],
                ) by {
                    if j < pos {
                        assert(!before(v[j], v[i]));
                    } else if j == pos {
                        if i < pos - 1 {
                            assert(!before(v[pos - 1], v[i]));
                        }
                    } else if i < pos {
                        assert(!before(v[j - 1], v[i]));
                    } else if i == pos {
                        assert(before(f, v[j - 1]));
                    } else {
                        assert(!before(v[j - 1], v[i - 1]));
                    }
                }
            }
        }
    }
}

} // verus!
