//! Checking recordings of Raft for election safety: at most one leader in a
//! term. Leadership passes, so every state report of a recording counts, not
//! only the last.
//!
//! A report is `RPT <node> <date> <alive> <term> <role> <votedFor>`, with role
//! 0 for a follower, 1 for a candidate and 2 for a leader. One that is not
//! alive marks a crash and restart.

use vstd::prelude::*;
use vstd::utf8;
use std::collections::BTreeMap;

use crate::bytes::text_of_bytes;
use crate::hash;
use crate::hash::from_hex;
use crate::log::{Event, EventView, Log, RecordView};
use crate::text;
use crate::text::{chars_of, read_int, same, words_of};

verus! {

/// The role of a leader.
pub const LEADER: i32 = 2;

/// A state report.
#[derive(Debug, Clone, Copy, PartialEq, Eq, Structural)]
pub struct RaftReport {
    pub node: i32,
    pub date: i32,
    pub alive: bool,
    pub term: i32,
    pub role: i32,
    pub voted_for: i32,
}

/// The report that some words make.
pub open spec fn report_of_words(w: Seq<Seq<char>>) -> Option<RaftReport> {
    if w.len() >= 7 && w[0] == "RPT"@ {
        match (
            text::parse_int(w[1]),
            text::parse_int(w[2]),
            text::parse_int(w[3]),
            text::parse_int(w[4]),
            text::parse_int(w[5]),
            text::parse_int(w[6]),
        ) {
            (Some(node), Some(date), Some(alive), Some(term), Some(role), Some(voted_for)) => Some(
                RaftReport {
                    node: node as i32,
                    date: date as i32,
                    alive: alive != 0,
                    term: term as i32,
                    role: role as i32,
                    voted_for: voted_for as i32,
                },
            ),
            _ => None,
        }
    } else {
        None
    }
}

/// The report that a text holds, if it is one.
pub open spec fn report_of(s: Seq<char>) -> Option<RaftReport> {
    report_of_words(text::words(s, true))
}

/// Read a report; `None` where the text is none.
#[must_use]
pub fn parse_report(text: &str) -> (r: Option<RaftReport>)
    ensures
        r == report_of(text@),
{
    let w = words_of(&chars_of(text), true);
    let ghost wv = text::words(text@, true);
    assert(wv.len() == w@.len());
    if w.len() < 7 {
        return None;
    }
    proof {
        assert(forall|i: int| 0 <= i < w@.len() ==> #[trigger] wv[i] == w@[i]@);
    }
    if !same(&w[0], "RPT") {
        return None;
    }
    let node = read_int(&w[1]);
    let date = read_int(&w[2]);
    let alive = read_int(&w[3]);
    let term = read_int(&w[4]);
    let role = read_int(&w[5]);
    let voted_for = read_int(&w[6]);
    match (node, date, alive, term, role, voted_for) {
        (Some(node), Some(date), Some(alive), Some(term), Some(role), Some(voted_for)) => Some(
            RaftReport { node, date, alive: alive != 0, term, role, voted_for },
        ),
        _ => None,
    }
}

/// The report that an event sends, if it sends one.
pub open spec fn report_in(e: EventView) -> Option<RaftReport> {
    match e {
        EventView::Send { payload, .. } => match hash::unhex(payload) {
            Some(b) => if utf8::valid_utf8(b) {
                report_of(utf8::decode_utf8(b))
            } else {
                None
            },
            None => None,
        },
        _ => None,
    }
}

/// The report that an event sends, if it sends one.
#[must_use]
pub fn sent_report(e: &Event) -> (r: Option<RaftReport>)
    ensures
        r == report_in(e@),
{
    match e {
        Event::Send { payload, .. } => match from_hex(payload.as_str()) {
            Some(b) => match text_of_bytes(b) {
                Some(t) => parse_report(t.as_str()),
                None => None,
            },
            None => None,
        },
        _ => None,
    }
}

/// Two nodes led the same term.
#[derive(Debug, Clone, PartialEq, Eq)]
pub struct Violation {
    pub term: i32,
    pub leaders: Vec<i32>,
    /// The place of the report that completed it.
    pub at_op: u64,
}

pub struct ViolationView {
    pub term: i32,
    pub leaders: Seq<i32>,
    pub at_op: u64,
}

impl View for Violation {
    type V = ViolationView;

    open spec fn view(&self) -> ViolationView {
        ViolationView { term: self.term, leaders: self.leaders@, at_op: self.at_op }
    }
}

pub open spec fn violation_views(v: Seq<Violation>) -> Seq<ViolationView> {
    v.map_values(|x: Violation| x@)
}

/// What a scan of a recording gives.
#[derive(Debug, Clone, PartialEq, Eq)]
pub struct Verdict {
    /// For each term, every node that reported itself leader in it.
    pub leaders_by_term: BTreeMap<i32, Vec<i32>>,
    pub violations: Vec<Violation>,
    pub restarts: u32,
    pub reports: u64,
}

pub struct VerdictView {
    pub leaders: Map<i32, Seq<i32>>,
    pub violations: Seq<ViolationView>,
    pub restarts: u32,
    pub reports: u64,
}

pub open spec fn leader_views(m: Map<i32, Vec<i32>>) -> Map<i32, Seq<i32>> {
    m.map_values(|v: Vec<i32>| v@)
}

impl View for Verdict {
    type V = VerdictView;

    open spec fn view(&self) -> VerdictView {
        VerdictView {
            leaders: leader_views(self.leaders_by_term@),
            violations: violation_views(self.violations@),
            restarts: self.restarts,
            reports: self.reports,
        }
    }
}

pub open spec fn verdict_new() -> VerdictView {
    VerdictView { leaders: Map::empty(), violations: Seq::empty(), restarts: 0, reports: 0 }
}

/// The nodes that led a term so far.
pub open spec fn leaders_of(v: VerdictView, term: i32) -> Seq<i32> {
    if v.leaders.contains_key(term) {
        v.leaders[term]
    } else {
        Seq::empty()
    }
}

/// The verdict behind one more report. The second leader of a term completes
/// a violation.
pub open spec fn observed(v: VerdictView, op: u64, rep: RaftReport) -> VerdictView {
    let counted = VerdictView { reports: (v.reports + 1) as u64, ..v };
    if !rep.alive {
        VerdictView { restarts: (v.restarts + 1) as u32, ..counted }
    } else if rep.role != LEADER {
        counted
    } else {
        let before = leaders_of(v, rep.term);
        let after = if before.contains(rep.node) {
            before
        } else {
            before.push(rep.node)
        };
        VerdictView {
            leaders: v.leaders.insert(rep.term, after),
            violations: if after.len() == 2 && before.len() == 1 {
                v.violations.push(ViolationView { term: rep.term, leaders: after, at_op: op })
            } else {
                v.violations
            },
            ..counted
        }
    }
}

/// The verdict over the first `n` records.
pub open spec fn scanned(records: Seq<RecordView>, n: int) -> VerdictView
    decreases n,
{
    if n <= 0 {
        verdict_new()
    } else {
        match report_in(records[n - 1].e) {
            Some(rep) => observed(scanned(records, n - 1), records[n - 1].op, rep),
            None => scanned(records, n - 1),
        }
    }
}

fn listed(v: &Vec<i32>, x: i32) -> (b: bool)
    ensures
        b == v@.contains(x),
{
    let mut i: usize = 0;
    while i < v.len()
        invariant
            i <= v@.len(),
            forall|j: int| 0 <= j < i ==> v@[j] != x,
        decreases v@.len() - i,
    {
        if v[i] == x {
            return true;
        }
        i = i + 1;
    }
    false
}

fn copy_ints(v: &Vec<i32>) -> (r: Vec<i32>)
    ensures
        r@ == v@,
{
    let mut r: Vec<i32> = Vec::new();
    let mut i: usize = 0;
    while i < v.len()
        invariant
            i <= v@.len(),
            r@ == v@.take(i as int),
        decreases v@.len() - i,
    {
        r.push(v[i]);
        i = i + 1;
        assert(r@ =~= v@.take(i as int));
    }
    assert(r@ =~= v@);
    r
}

impl Default for Verdict {
    fn default() -> (r: Self)
        ensures
            r@ == verdict_new(),
    {
        let r = Verdict {
            leaders_by_term: BTreeMap::new(),
            violations: Vec::new(),
            restarts: 0,
            reports: 0,
        };
        assert(leader_views(r.leaders_by_term@) =~= Map::<i32, Seq<i32>>::empty());
        assert(violation_views(r.violations@) =~= Seq::<ViolationView>::empty());
        r
    }
}

impl Verdict {
    /// Whether no term had a leader, so that the run shows nothing.
    #[must_use]
    pub fn uninformative(&self) -> (b: bool)
        ensures
            b == (self@.leaders.dom() == Set::<i32>::empty()),
    {
        let b = self.leaders_by_term.is_empty();
        proof {
            let d = self@.leaders.dom();
            assert(d == self.leaders_by_term@.dom());
            if b {
                assert(d =~= Set::<i32>::empty());
            }
        }
        b
    }

    /// Take one more report into account.
    pub fn observe(&mut self, op: u64, rep: RaftReport)
        requires
            old(self)@.reports < u64::MAX,
            old(self)@.restarts < u32::MAX,
        ensures
            final(self)@ == observed(old(self)@, op, rep),
    {
        let ghost v = self@;
        self.reports = self.reports + 1;
        if !rep.alive {
            self.restarts = self.restarts + 1;
            return;
        }
        if rep.role == LEADER {
            let ghost m0 = self.leaders_by_term@;
            let mut leaders: Vec<i32> = match self.leaders_by_term.remove(&rep.term) {
                Some(l) => l,
                None => Vec::new(),
            };
            assert(leaders@ =~= leaders_of(v, rep.term));
            let ghost before = leaders@;
            if !listed(&leaders, rep.node) {
                leaders.push(rep.node);
                if leaders.len() == 2 {
                    let ghost vs = violation_views(self.violations@);
                    let x = Violation { term: rep.term, leaders: copy_ints(&leaders), at_op: op };
                    let ghost xv = x@;
                    self.violations.push(x);
                    assert(violation_views(self.violations@) =~= vs.push(xv));
                }
            }
            let ghost after = leaders@;
            let _old = self.leaders_by_term.insert(rep.term, leaders);
            proof {
                assert(leader_views(self.leaders_by_term@) =~= v.leaders.insert(rep.term, after));
            }
        }
    }
}

/// Scan the reports that a recording holds, in order.
#[must_use]
pub fn check(log: &Log) -> (v: Verdict)
    requires
        log@.records.len() < u32::MAX,
    ensures
        v@ == scanned(log@.records, log@.records.len() as int),
{
    let mut v = Verdict::default();
    let mut i: usize = 0;
    while i < log.records.len()
        invariant
            i <= log.records@.len(),
            log@.records.len() == log.records@.len(),
            log.records@.len() < u32::MAX,
            v@ == scanned(log@.records, i as int),
            v@.reports <= i,
            v@.restarts <= i,
        decreases log.records@.len() - i,
    {
        let r = &log.records[i];
        assert(log@.records[i as int] == r@);
        if let Some(rep) = sent_report(&r.e) {
            v.observe(r.op, rep);
        }
        i = i + 1;
    }
    v
}

// ---------------------------------------------------------------------------
// Laws
// ---------------------------------------------------------------------------

/// Whether some report so far says that `node` leads `term`.
pub open spec fn led(records: Seq<RecordView>, n: int, node: i32, term: i32) -> bool {
    exists|i: int|
        0 <= i < n && leads(#[trigger] records[i], node, term)
}

pub open spec fn leads(r: RecordView, node: i32, term: i32) -> bool {
    match report_in(r.e) {
        Some(rep) => rep.alive && rep.role == LEADER && rep.node == node && rep.term == term,
        None => false,
    }
}

/// The violations are those of terms with more than one leader.
pub open spec fn tells(v: VerdictView) -> bool {
    &&& forall|t: i32| #[trigger] v.leaders.contains_key(t) ==> v.leaders[t].no_duplicates()
        && v.leaders[t].len() >= 1
    &&& forall|t: i32|
        #[trigger] v.leaders.contains_key(t) && v.leaders[t].len() >= 2 ==> exists|i: int|
            0 <= i < v.violations.len() && (#[trigger] v.violations[i]).term == t
    &&& forall|i: int|
        0 <= i < v.violations.len() ==> v.leaders.contains_key((#[trigger] v.violations[i]).term)
            && v.leaders[v.violations[i].term].len() >= 2
}

proof fn lemma_tells(v: VerdictView, op: u64, rep: RaftReport)
    requires
        tells(v),
    ensures
        tells(observed(v, op, rep)),
{
    let n = observed(v, op, rep);
    if rep.alive && rep.role == LEADER {
        let before = leaders_of(v, rep.term);
        let after = n.leaders[rep.term];
        assert(before.no_duplicates());
        if !before.contains(rep.node) {
            assert(after.no_duplicates()) by {
                assert forall|i: int, j: int| 0 <= i < j < after.len() implies after[i]
                    != after[j] by {
                    if j == before.len() {
                        assert(before[i] != rep.node);
                    }
                }
            }
        }
        if !before.contains(rep.node) && before.len() == 0 {
            assert(after.len() == 1);
        }
        assert(after.len() >= 1) by {
            if before.contains(rep.node) {
                assert(before.len() >= 1);
            }
        }
        assert forall|t: i32| #[trigger] n.leaders.contains_key(t) implies
            n.leaders[t].no_duplicates() && n.leaders[t].len() >= 1 by {
            if t != rep.term {
                assert(v.leaders.contains_key(t));
                assert(n.leaders[t] == v.leaders[t]);
            }
        }
        assert forall|t: i32| #[trigger]
            n.leaders.contains_key(t) && n.leaders[t].len() >= 2 implies exists|i: int|
            0 <= i < n.violations.len() && (#[trigger] n.violations[i]).term == t by {
            if t != rep.term || before.len() >= 2 {
                assert(v.leaders.contains_key(t) && v.leaders[t].len() >= 2);
                let i = choose|i: int|
                    0 <= i < v.violations.len() && (#[trigger] v.violations[i]).term == t;
                assert(n.violations[i] == v.violations[i]);
            } else {
                assert(before.len() == 1);
                assert(n.violations[v.violations.len() as int].term == t);
            }
        }
        assert forall|i: int| 0 <= i < n.violations.len() implies n.leaders.contains_key(
            (#[trigger] n.violations[i]).term,
        ) && n.leaders[n.violations[i].term].len() >= 2 by {
            if i < v.violations.len() {
                assert(n.violations[i] == v.violations[i]);
            }
        }
    } else {
        assert(n.leaders == v.leaders);
        assert(n.violations == v.violations);
    }
}

proof fn lemma_scanned(records: Seq<RecordView>, n: int)
    ensures
        tells(scanned(records, n)),
    decreases n,
{
    if n > 0 {
        lemma_scanned(records, n - 1);
        match report_in(records[n - 1].e) {
            Some(rep) => {
                lemma_tells(scanned(records, n - 1), records[n - 1].op, rep);
            },
            None => {},
        }
    }
}

proof fn lemma_led_more(records: Seq<RecordView>, n: int, node: i32, term: i32)
    requires
        0 < n,
    ensures
        led(records, n, node, term) <==> led(records, n - 1, node, term) || leads(
            records[n - 1],
            node,
            term,
        ),
{
    if led(records, n, node, term) {
        let i = choose|i: int| 0 <= i < n && leads(#[trigger] records[i], node, term);
        if i < n - 1 {
            assert(led(records, n - 1, node, term));
        }
    }
    if led(records, n - 1, node, term) {
        let i = choose|i: int| 0 <= i < n - 1 && leads(#[trigger] records[i], node, term);
        assert(leads(records[i], node, term));
    }
}

proof fn lemma_scanned_more(records: Seq<RecordView>, n: int, node: i32, term: i32)
    requires
        0 < n,
    ensures
        leaders_of(scanned(records, n), term).contains(node) <==> leaders_of(
            scanned(records, n - 1),
            term,
        ).contains(node) || leads(records[n - 1], node, term),
{
    let v = scanned(records, n - 1);
    let r = records[n - 1];
    if let Some(rep) = report_in(r.e) {
        lemma_observed_leaders(v, r.op, rep, node, term);
    }
}

#[verifier::spinoff_prover]
proof fn lemma_leaders(records: Seq<RecordView>, n: int, node: i32, term: i32)
    requires
        0 <= n,
    ensures
        leaders_of(scanned(records, n), term).contains(node) <==> led(records, n, node, term),
    decreases n,
{
    if n > 0 {
        lemma_leaders(records, n - 1, node, term);
        lemma_led_more(records, n, node, term);
        lemma_scanned_more(records, n, node, term);
    }
}

proof fn lemma_observed_leaders(v: VerdictView, op: u64, rep: RaftReport, node: i32, term: i32)
    ensures
        leaders_of(observed(v, op, rep), term).contains(node) <==> leaders_of(v, term).contains(
            node,
        ) || (rep.alive && rep.role == LEADER && rep.node == node && rep.term == term),
{
    let w = observed(v, op, rep);
    if rep.alive && rep.role == LEADER && rep.term == term {
        let before = leaders_of(v, term);
        let after = leaders_of(w, term);
        if !before.contains(rep.node) {
            assert(after == before.push(rep.node));
            assert(after[before.len() as int] == rep.node);
            if before.contains(node) {
                let k = choose|k: int| 0 <= k < before.len() && before[k] == node;
                assert(after[k] == node);
            }
            if after.contains(node) && node != rep.node {
                let k = choose|k: int| 0 <= k < after.len() && after[k] == node;
                assert(before[k] == node);
            }
        }
    }
}

/// A recording violates election safety where two different nodes report that
/// they lead the same term, however briefly and whenever; and nowhere else.
pub proof fn law_violations_are_two_leaders(records: Seq<RecordView>, n: int, term: i32)
    requires
        0 <= n,
    ensures
        (exists|i: int|
            0 <= i < scanned(records, n).violations.len() && (
            #[trigger] scanned(records, n).violations[i]).term == term) <==> (exists|
            a: i32,
            b: i32,
        |
            a != b && #[trigger] led(records, n, a, term) && #[trigger] led(
                records,
                n,
                b,
                term,
            )),
{
    let v = scanned(records, n);
    lemma_scanned(records, n);
    let l = leaders_of(v, term);
    if exists|i: int| 0 <= i < v.violations.len() && (#[trigger] v.violations[i]).term == term {
        let i = choose|i: int| 0 <= i < v.violations.len() && (
        #[trigger] v.violations[i]).term == term;
        assert(v.leaders.contains_key(term) && l.len() >= 2);
        let a = l[0];
        let b = l[1];
        assert(l.no_duplicates());
        assert(a != b);
        assert(l.contains(a) && l.contains(b));
        lemma_leaders(records, n, a, term);
        lemma_leaders(records, n, b, term);
    }
    if exists|a: i32, b: i32|
        a != b && #[trigger] led(records, n, a, term) && #[trigger] led(records, n, b, term) {
        let (a, b) = choose|a: i32, b: i32|
            a != b && #[trigger] led(records, n, a, term) && #[trigger] led(records, n, b, term);
        lemma_leaders(records, n, a, term);
        lemma_leaders(records, n, b, term);
        let i = choose|i: int| 0 <= i < l.len() && l[i] == a;
        let j = choose|j: int| 0 <= j < l.len() && l[j] == b;
        assert(i != j);
        assert(l.len() >= 2);
        assert(v.leaders.contains_key(term) && v.leaders[term].len() >= 2);
    }
}

/// A recording shows nothing where no report says that its node leads.
pub proof fn law_uninformative(records: Seq<RecordView>, n: int)
    requires
        0 <= n,
    ensures
        scanned(records, n).leaders.dom() == Set::<i32>::empty() <==> forall|a: i32, t: i32|
            !#[trigger] led(records, n, a, t),
{
    let v = scanned(records, n);
    lemma_scanned(records, n);
    if v.leaders.dom() == Set::<i32>::empty() {
        assert forall|a: i32, t: i32| !#[trigger] led(records, n, a, t) by {
            lemma_leaders(records, n, a, t);
            assert(!v.leaders.dom().contains(t));
        }
    }
    if forall|a: i32, t: i32| !#[trigger] led(records, n, a, t) {
        assert forall|t: i32| !v.leaders.dom().contains(t) by {
            if v.leaders.contains_key(t) {
                let a = v.leaders[t][0];
                assert(leaders_of(v, t).contains(a));
                lemma_leaders(records, n, a, t);
                assert(led(records, n, a, t));
            }
        }
        assert(v.leaders.dom() =~= Set::<i32>::empty());
    }
}

} // verus!
