//! Checking recordings of Chord: the global configuration is put together from
//! the state reports that the nodes send, and the correctness invariants of
//! ring maintenance are evaluated on it. There is at least one ring, at most
//! one, it is ordered, and every other member reaches it. Each node reports
//! two successors and a predecessor.
//!
//! A report is `RPT <ident> <date> <alive> <succ> <succ2> <prdc>`.

use vstd::prelude::*;
use vstd::utf8;

use crate::bytes::text_of_bytes;
use crate::hash;
use crate::hash::from_hex;
use crate::log::{
    Event, EventView, Log, RecordView, RecvOutcome, RecvOutcomeView, SendOutcome,
};
use crate::monitor::{Invariant, Seen};
use crate::report;
use crate::report::push_padded;
use crate::shrink::Renew;
use crate::text;
use crate::text::{
    chars_of, copy_text, int_text, push_dec, push_int, push_text, read_int, same, words_of,
};

verus! {

/// No node.
pub const NONE: i32 = -1;

/// What a node last reported.
#[derive(Clone, Copy, Debug, PartialEq, Eq, Structural)]
pub struct NodeState {
    pub ident: i32,
    pub date: i32,
    pub alive: bool,
    pub succ: i32,
    pub succ2: i32,
    pub prdc: i32,
}

/// The report that some words make.
pub open spec fn report_of_words(w: Seq<Seq<char>>) -> Option<NodeState> {
    if w.len() >= 7 && w[0] == "RPT"@ {
        match (
            text::parse_int(w[1]),
            text::parse_int(w[2]),
            text::parse_int(w[3]),
            text::parse_int(w[4]),
            text::parse_int(w[5]),
            text::parse_int(w[6]),
        ) {
            (Some(ident), Some(date), Some(alive), Some(succ), Some(succ2), Some(prdc)) => Some(
                NodeState {
                    ident: ident as i32,
                    date: date as i32,
                    alive: alive != 0,
                    succ: succ as i32,
                    succ2: succ2 as i32,
                    prdc: prdc as i32,
                },
            ),
            _ => None,
        }
    } else {
        None
    }
}

/// The report that a text holds, if it is one.
pub open spec fn report_of(s: Seq<char>) -> Option<NodeState> {
    report_of_words(text::words(s, false))
}

/// Read a report; `None` where the text is none.
#[must_use]
pub fn parse_report(text: &str) -> (r: Option<NodeState>)
    ensures
        r == report_of(text@),
{
    let w = words_of(&chars_of(text), false);
    let ghost wv = text::words(text@, false);
    assert(wv.len() == w@.len());
    if w.len() < 7 {
        return None;
    }
    proof {
        assert(forall|i: int| 0 <= i < w@.len() ==> #[trigger] wv[i] == w@[i]@);
    }
    if !same(&w[0], "RPT") {
        return None;
    }
    let ident = read_int(&w[1]);
    let date = read_int(&w[2]);
    let alive = read_int(&w[3]);
    let succ = read_int(&w[4]);
    let succ2 = read_int(&w[5]);
    let prdc = read_int(&w[6]);
    match (ident, date, alive, succ, succ2, prdc) {
        (Some(ident), Some(date), Some(alive), Some(succ), Some(succ2), Some(prdc)) => Some(
            NodeState { ident, date, alive: alive != 0, succ, succ2, prdc },
        ),
        _ => None,
    }
}

/// The payload that an event carries, if it carries one.
pub open spec fn payload_of(e: EventView) -> Option<Seq<char>> {
    match e {
        EventView::Send { payload, .. } => Some(payload),
        EventView::Recv { outcome: RecvOutcomeView::Delivered { payload, .. }, .. } => Some(
            payload,
        ),
        _ => None,
    }
}

/// The report in a payload, if it is one.
pub open spec fn report_in_payload(payload: Seq<char>) -> Option<NodeState> {
    match hash::unhex(payload) {
        Some(b) => if utf8::valid_utf8(b) {
            report_of(utf8::decode_utf8(b))
        } else {
            None
        },
        None => None,
    }
}

/// The report that an event carries, if it carries one.
pub open spec fn report_in(e: EventView) -> Option<NodeState> {
    match payload_of(e) {
        Some(p) => report_in_payload(p),
        None => None,
    }
}

fn read_payload(payload: &str) -> (r: Option<NodeState>)
    ensures
        r == report_in_payload(payload@),
{
    match from_hex(payload) {
        Some(b) => match text_of_bytes(b) {
            Some(t) => parse_report(t.as_str()),
            None => None,
        },
        None => None,
    }
}

fn report_from_event(e: &Event) -> (r: Option<NodeState>)
    ensures
        r == report_in(e@),
{
    match e {
        Event::Send { payload, .. } => read_payload(payload.as_str()),
        Event::Recv { outcome, .. } => match outcome {
            RecvOutcome::Delivered { payload, .. } => read_payload(payload.as_str()),
            RecvOutcome::Empty => None,
        },
        _ => None,
    }
}

/// The report that an event sends, if it sends one.
pub open spec fn sent_in(e: EventView) -> Option<NodeState> {
    if e is Send {
        report_in(e)
    } else {
        None
    }
}

/// The report that an event sends, if it sends one.
#[must_use]
pub fn sent_report(e: &Event) -> (r: Option<NodeState>)
    ensures
        r == sent_in(e@),
{
    match e {
        Event::Send { .. } => report_from_event(e),
        _ => None,
    }
}

// ---------------------------------------------------------------------------
// The configuration
// ---------------------------------------------------------------------------

/// What is known of a node once it reports `st`: the report with the higher
/// date counts, and a node that ever reported itself dead stays dead.
pub open spec fn merged(old: NodeState, st: NodeState) -> NodeState {
    NodeState {
        alive: old.alive && st.alive,
        ..(if st.date >= old.date {
            st
        } else {
            old
        })
    }
}

/// The configuration behind one more report.
pub open spec fn observed(s: Seq<NodeState>, st: NodeState) -> Seq<NodeState>
    decreases s.len(),
{
    if s.len() == 0 || s.last().ident < st.ident {
        s.push(st)
    } else if s.last().ident == st.ident {
        s.drop_last().push(merged(s.last(), st))
    } else {
        observed(s.drop_last(), st).push(s.last())
    }
}

/// The configuration behind the reports of the first `n` records.
pub open spec fn gathered(records: Seq<RecordView>, n: int) -> Seq<NodeState>
    decreases n,
{
    if n <= 0 {
        Seq::empty()
    } else {
        match report_in(records[n - 1].e) {
            Some(st) => observed(gathered(records, n - 1), st),
            None => gathered(records, n - 1),
        }
    }
}

/// Nodes in the order of their identifiers, none twice.
pub open spec fn sorted(s: Seq<NodeState>) -> bool {
    forall|i: int, j: int| 0 <= i < j < s.len() ==> (#[trigger] s[i]).ident < (#[trigger] s[j]).ident
}

/// What is known of a node.
pub open spec fn get(s: Seq<NodeState>, ident: i32) -> Option<NodeState>
    decreases s.len(),
{
    if s.len() == 0 {
        None
    } else if s.last().ident == ident {
        Some(s.last())
    } else {
        get(s.drop_last(), ident)
    }
}

pub open spec fn is_live(s: Seq<NodeState>, ident: i32) -> bool {
    ident >= 0 && get(s, ident) is Some && get(s, ident).unwrap().alive
}

/// The live nodes.
pub open spec fn live_of(s: Seq<NodeState>) -> Seq<NodeState>
    decreases s.len(),
{
    if s.len() == 0 {
        s
    } else if s.last().alive {
        live_of(s.drop_last()).push(s.last())
    } else {
        live_of(s.drop_last())
    }
}

/// The best successor of a node: the first one that is live.
pub open spec fn best(s: Seq<NodeState>, n: NodeState) -> i32 {
    if is_live(s, n.succ) {
        n.succ
    } else if is_live(s, n.succ2) {
        n.succ2
    } else {
        NONE
    }
}

/// The best successor of a live node by its identifier.
pub open spec fn best_of(s: Seq<NodeState>, ident: i32) -> i32 {
    match get(s, ident) {
        Some(n) => if n.alive {
            best(s, n)
        } else {
            NONE
        },
        None => NONE,
    }
}

/// Where `k` steps along best successors lead from `first`.
pub open spec fn hop(s: Seq<NodeState>, first: i32, k: nat) -> i32
    decreases k,
{
    if k == 0 {
        first
    } else {
        let p = hop(s, first, (k - 1) as nat);
        if p == NONE {
            NONE
        } else {
            best_of(s, p)
        }
    }
}

/// A node on a ring: best successors lead from it back to it.
pub open spec fn on_ring(s: Seq<NodeState>, n: NodeState) -> bool {
    n.ident != NONE && exists|k: nat| #[trigger] hop(s, best(s, n), k) == n.ident
}

/// Those of the nodes that are on a ring, by their identifiers.
pub open spec fn on_rings(s: Seq<NodeState>, nodes: Seq<NodeState>) -> Seq<i32>
    decreases nodes.len(),
{
    if nodes.len() == 0 {
        Seq::empty()
    } else {
        let rest = on_rings(s, nodes.drop_last());
        if on_ring(s, nodes.last()) {
            rest.push(nodes.last().ident)
        } else {
            rest
        }
    }
}

/// The ring members.
pub open spec fn ring_of(s: Seq<NodeState>) -> Seq<i32> {
    on_rings(s, live_of(s))
}

/// Whether best successors lead from `first` into `ring`.
pub open spec fn leads_to(s: Seq<NodeState>, first: i32, ring: Seq<i32>) -> bool {
    exists|k: nat| ring.contains(#[trigger] hop(s, first, k)) && hop(s, first, k) != NONE
}

/// Whether `k` steps lead from a node back to it.
pub open spec fn comes_back(s: Seq<NodeState>, ident: i32, k: int) -> bool {
    k >= 1 && hop(s, best_of(s, ident), (k - 1) as nat) == ident
}

/// The length of the cycle through a ring member.
pub open spec fn lap(s: Seq<NodeState>, ident: i32) -> int {
    choose|k: int|
        comes_back(s, ident, k) && forall|j: int| 1 <= j < k ==> !#[trigger] comes_back(
            s,
            ident,
            j,
        )
}

pub proof fn lemma_get(s: Seq<NodeState>, ident: i32)
    requires
        sorted(s),
    ensures
        get(s, ident) matches Some(n) ==> n.ident == ident && s.contains(n),
        forall|i: int| 0 <= i < s.len() && (#[trigger] s[i]).ident == ident ==> get(s, ident)
            == Some(s[i]),
    decreases s.len(),
{
    if s.len() > 0 {
        let p = s.drop_last();
        assert forall|i: int, j: int| 0 <= i < j < p.len() implies (#[trigger] p[i]).ident < (
        #[trigger] p[j]).ident by {
            assert(s[i].ident < s[j].ident);
        }
        lemma_get(p, ident);
        if s.last().ident == ident {
            assert(s[s.len() - 1] == s.last());
            assert forall|i: int| 0 <= i < s.len() && (
            #[trigger] s[i]).ident == ident implies get(s, ident) == Some(s[i]) by {
                if i < s.len() - 1 {
                    assert(s[i].ident < s[s.len() - 1].ident);
                }
            }
        } else {
            if get(p, ident) is Some {
                let n = get(p, ident).unwrap();
                let i = choose|i: int| 0 <= i < p.len() && p[i] == n;
                assert(s[i] == n);
            }
            assert forall|i: int| 0 <= i < s.len() && (
            #[trigger] s[i]).ident == ident implies get(s, ident) == Some(s[i]) by {
                if i < p.len() {
                    assert(p[i] == s[i]);
                }
            }
        }
    }
}

pub proof fn lemma_observed(s: Seq<NodeState>, st: NodeState)
    requires
        sorted(s),
    ensures
        sorted(observed(s, st)),
        forall|i: int|
            0 <= i < observed(s, st).len() ==> ((#[trigger] observed(s, st)[i]).ident == st.ident
                || exists|j: int|
                0 <= j < s.len() && (#[trigger] s[j]).ident == observed(s, st)[i].ident),
    decreases s.len(),
{
    let r = observed(s, st);
    if s.len() == 0 || s.last().ident < st.ident {
        assert forall|i: int, j: int| 0 <= i < j < r.len() implies (#[trigger] r[i]).ident < (
        #[trigger] r[j]).ident by {
            if j == s.len() && i < s.len() - 1 {
                assert(s[i].ident < s[s.len() - 1].ident);
            }
        }
        assert forall|i: int| 0 <= i < r.len() implies ((#[trigger] r[i]).ident == st.ident
            || exists|j: int| 0 <= j < s.len() && (#[trigger] s[j]).ident == r[i].ident) by {
            if i < s.len() {
                assert(s[i].ident == r[i].ident);
            }
        }
    } else if s.last().ident == st.ident {
        assert forall|i: int, j: int| 0 <= i < j < r.len() implies (#[trigger] r[i]).ident < (
        #[trigger] r[j]).ident by {
            assert(s[i].ident < s[j].ident);
        }
        assert forall|i: int| 0 <= i < r.len() implies ((#[trigger] r[i]).ident == st.ident
            || exists|j: int| 0 <= j < s.len() && (#[trigger] s[j]).ident == r[i].ident) by {
            assert(s[i].ident == r[i].ident);
        }
    } else {
        let p = s.drop_last();
        assert forall|i: int, j: int| 0 <= i < j < p.len() implies (#[trigger] p[i]).ident < (
        #[trigger] p[j]).ident by {
            assert(s[i].ident < s[j].ident);
        }
        lemma_observed(p, st);
        let q = observed(p, st);
        assert forall|i: int, j: int| 0 <= i < j < r.len() implies (#[trigger] r[i]).ident < (
        #[trigger] r[j]).ident by {
            if j == q.len() {
                if q[i].ident != st.ident {
                    let k = choose|k: int|
                        0 <= k < p.len() && (#[trigger] p[k]).ident == q[i].ident;
                    assert(s[k].ident < s[s.len() - 1].ident);
                }
            } else {
                assert(q[i].ident < q[j].ident);
            }
        }
        assert forall|i: int| 0 <= i < r.len() implies ((#[trigger] r[i]).ident == st.ident
            || exists|j: int| 0 <= j < s.len() && (#[trigger] s[j]).ident == r[i].ident) by {
            if i < q.len() {
                if q[i].ident != st.ident {
                    let k = choose|k: int|
                        0 <= k < p.len() && (#[trigger] p[k]).ident == q[i].ident;
                    assert(s[k].ident == r[i].ident);
                }
            } else {
                assert(s[s.len() - 1].ident == r[i].ident);
            }
        }
    }
}

proof fn lemma_observed_at(s: Seq<NodeState>, st: NodeState, pos: int)
    requires
        0 <= pos <= s.len(),
        forall|j: int| pos <= j < s.len() ==> (#[trigger] s[j]).ident > st.ident,
        pos > 0 ==> s[pos - 1].ident <= st.ident,
    ensures
        observed(s, st) == if pos > 0 && s[pos - 1].ident == st.ident {
            s.update(pos - 1, merged(s[pos - 1], st))
        } else {
            s.insert(pos, st)
        },
    decreases s.len(),
{
    if pos == s.len() {
        if pos > 0 && s[pos - 1].ident == st.ident {
            assert(s.update(pos - 1, merged(s[pos - 1], st)) =~= s.drop_last().push(
                merged(s.last(), st),
            ));
        } else {
            assert(s.insert(pos, st) =~= s.push(st));
        }
    } else {
        assert(s[s.len() - 1].ident > st.ident);
        let p = s.drop_last();
        lemma_observed_at(p, st, pos);
        if pos > 0 && s[pos - 1].ident == st.ident {
            assert(s.update(pos - 1, merged(s[pos - 1], st)) =~= p.update(
                pos - 1,
                merged(p[pos - 1], st),
            ).push(s.last()));
        } else {
            assert(s.insert(pos, st) =~= p.insert(pos, st).push(s.last()));
        }
    }
}

/// The global configuration: what each node last reported.
#[derive(Clone, Debug)]
pub struct Snapshot {
    latest: Vec<NodeState>,
}

impl View for Snapshot {
    type V = Seq<NodeState>;

    closed spec fn view(&self) -> Seq<NodeState> {
        self.latest@
    }
}

impl Default for Snapshot {
    fn default() -> (r: Self)
        ensures
            r.wf(),
            r@ == Seq::<NodeState>::empty(),
    {
        Snapshot { latest: Vec::new() }
    }
}

impl Snapshot {
    pub open spec fn wf(&self) -> bool {
        sorted(self@)
    }

    /// Take one more report into account.
    pub fn observe(&mut self, s: NodeState)
        requires
            old(self).wf(),
        ensures
            final(self).wf(),
            final(self)@ == observed(old(self)@, s),
    {
        proof {
            lemma_observed(self@, s);
        }
        let mut pos: usize = self.latest.len();
        while pos > 0 && self.latest[pos - 1].ident > s.ident
            invariant
                pos <= self.latest@.len(),
                forall|j: int|
                    pos <= j < self.latest@.len() ==> (#[trigger] self.latest@[j]).ident > s.ident,
            decreases pos,
        {
            pos = pos - 1;
        }
        proof {
            lemma_observed_at(self.latest@, s, pos as int);
        }
        if pos > 0 && self.latest[pos - 1].ident == s.ident {
            let old_state = self.latest[pos - 1];
            let mut n = if s.date >= old_state.date {
                s
            } else {
                old_state
            };
            n.alive = old_state.alive && s.alive;
            self.latest.set(pos - 1, n);
        } else {
            self.latest.insert(pos, s);
        }
    }

    /// The configuration that a recording ends in.
    #[must_use]
    pub fn from_log(log: &Log) -> (r: Self)
        ensures
            r.wf(),
            r@ == gathered(log@.records, log@.records.len() as int),
    {
        let mut snap = Snapshot::default();
        let mut i: usize = 0;
        while i < log.records.len()
            invariant
                i <= log.records@.len(),
                snap.wf(),
                snap@ == gathered(log@.records, i as int),
            decreases log.records@.len() - i,
        {
            let r = &log.records[i];
            assert(log@.records[i as int] == r@);
            if let Some(st) = report_from_event(&r.e) {
                snap.observe(st);
            }
            i = i + 1;
        }
        snap
    }

    /// The live nodes, in the order of their identifiers.
    #[must_use]
    pub fn live(&self) -> (v: Vec<NodeState>)
        ensures
            v@ == live_of(self@),
    {
        let mut v: Vec<NodeState> = Vec::new();
        let mut i: usize = 0;
        assert(self.latest@.take(0) =~= Seq::<NodeState>::empty());
        while i < self.latest.len()
            invariant
                i <= self.latest@.len(),
                v@ == live_of(self.latest@.take(i as int)),
            decreases self.latest@.len() - i,
        {
            let ghost t = self.latest@.take(i as int + 1);
            assert(t.drop_last() =~= self.latest@.take(i as int));
            assert(t.last() == self.latest@[i as int]);
            if self.latest[i].alive {
                v.push(self.latest[i]);
            }
            i = i + 1;
        }
        assert(self.latest@.take(self.latest@.len() as int) =~= self.latest@);
        v
    }

    fn find(&self, ident: i32) -> (r: Option<NodeState>)
        requires
            self.wf(),
        ensures
            r == get(self@, ident),
    {
        let mut i: usize = 0;
        proof {
            lemma_get(self.latest@, ident);
        }
        while i < self.latest.len()
            invariant
                i <= self.latest@.len(),
                self.wf(),
                forall|j: int| 0 <= j < i ==> (#[trigger] self.latest@[j]).ident != ident,
            decreases self.latest@.len() - i,
        {
            if self.latest[i].ident == ident {
                proof {
                    lemma_get(self.latest@, ident);
                }
                return Some(self.latest[i]);
            }
            i = i + 1;
        }
        proof {
            if get(self.latest@, ident) is Some {
                let n = get(self.latest@, ident).unwrap();
                let j = choose|j: int| 0 <= j < self.latest@.len() && self.latest@[j] == n;
                assert(self.latest@[j].ident == ident);
            }
        }
        None
    }

    fn is_live(&self, ident: i32) -> (b: bool)
        requires
            self.wf(),
        ensures
            b == is_live(self@, ident),
    {
        ident >= 0 && match self.find(ident) {
            Some(s) => s.alive,
            None => false,
        }
    }

    /// The best successor: the first one that is live.
    fn best_succ(&self, n: &NodeState) -> (r: i32)
        requires
            self.wf(),
        ensures
            r == best(self@, *n),
    {
        if self.is_live(n.succ) {
            n.succ
        } else if self.is_live(n.succ2) {
            n.succ2
        } else {
            NONE
        }
    }

    fn best_succ_of(&self, ident: i32) -> (r: i32)
        requires
            self.wf(),
        ensures
            r == best_of(self@, ident),
    {
        match self.find(ident) {
            Some(s) => if s.alive {
                self.best_succ(&s)
            } else {
                NONE
            },
            None => NONE,
        }
    }
}

// ---------------------------------------------------------------------------
// Following best successors
// ---------------------------------------------------------------------------

pub proof fn lemma_hop(s: Seq<NodeState>, first: i32, k: nat)
    requires
        first == NONE || is_live(s, first),
    ensures
        hop(s, first, k) == NONE || is_live(s, hop(s, first, k)),
    decreases k,
{
    if k > 0 {
        lemma_hop(s, first, (k - 1) as nat);
    }
}

/// Steps taken one after the other.
pub proof fn lemma_hop_add(s: Seq<NodeState>, first: i32, a: nat, b: nat)
    ensures
        hop(s, first, a + b) == hop(s, hop(s, first, a), b),
    decreases b,
{
    if b > 0 {
        lemma_hop_add(s, first, a, (b - 1) as nat);
        assert((a + b - 1) as nat == a + (b - 1) as nat);
    }
}

/// From nothing, steps lead nowhere.
pub proof fn lemma_hop_none(s: Seq<NodeState>, first: i32, a: nat, b: nat)
    requires
        a <= b,
        hop(s, first, a) == NONE,
    ensures
        hop(s, first, b) == NONE,
    decreases b,
{
    if a < b {
        lemma_hop_none(s, first, a, (b - 1) as nat);
    }
}

/// The identifiers of the live nodes.
pub open spec fn live_idents(s: Seq<NodeState>) -> Seq<i32> {
    live_of(s).map_values(|n: NodeState| n.ident)
}

pub proof fn lemma_live_of(s: Seq<NodeState>)
    requires
        sorted(s),
    ensures
        sorted(live_of(s)),
        live_of(s).len() <= s.len(),
        forall|i: int|
            0 <= i < live_of(s).len() ==> (#[trigger] live_of(s)[i]).alive && s.contains(
                live_of(s)[i],
            ),
        forall|i: int| 0 <= i < s.len() && (#[trigger] s[i]).alive ==> live_of(s).contains(s[i]),
    decreases s.len(),
{
    if s.len() > 0 {
        let p = s.drop_last();
        let l = live_of(s);
        let q = live_of(p);
        assert forall|i: int, j: int| 0 <= i < j < p.len() implies (#[trigger] p[i]).ident < (
        #[trigger] p[j]).ident by {
            assert(s[i].ident < s[j].ident);
        }
        lemma_live_of(p);
        assert forall|i: int| 0 <= i < l.len() implies (#[trigger] l[i]).alive && s.contains(
            l[i],
        ) by {
            if i < q.len() {
                assert(q[i] == l[i]);
                let k = choose|k: int| 0 <= k < p.len() && p[k] == q[i];
                assert(s[k] == l[i]);
            } else {
                assert(s[s.len() - 1] == l[i]);
            }
        }
        assert forall|i: int, j: int| 0 <= i < j < l.len() implies (#[trigger] l[i]).ident < (
        #[trigger] l[j]).ident by {
            if j == q.len() {
                assert(q[i] == l[i]);
                let k = choose|k: int| 0 <= k < p.len() && p[k] == q[i];
                assert(s[k].ident < s[s.len() - 1].ident);
            } else {
                assert(q[i].ident < q[j].ident);
            }
        }
        assert forall|i: int| 0 <= i < s.len() && (#[trigger] s[i]).alive implies l.contains(
            s[i],
        ) by {
            if i < p.len() {
                assert(p[i] == s[i]);
                let k = choose|k: int| 0 <= k < q.len() && q[k] == p[i];
                assert(l[k] == s[i]);
            } else {
                assert(l[q.len() as int] == s[i]);
            }
        }
    }
}

pub proof fn lemma_live_ident(s: Seq<NodeState>, ident: i32)
    requires
        sorted(s),
        is_live(s, ident),
    ensures
        live_idents(s).contains(ident),
{
    lemma_get(s, ident);
    lemma_live_of(s);
    let n = get(s, ident).unwrap();
    let i = choose|i: int| 0 <= i < s.len() && s[i] == n;
    assert(live_of(s).contains(s[i]));
    let k = choose|k: int| 0 <= k < live_of(s).len() && live_of(s)[k] == n;
    assert(live_idents(s)[k] == ident);
}

/// Different values out of a sequence are no more than its length.
pub proof fn lemma_fit(a: Seq<i32>, b: Seq<i32>)
    requires
        a.no_duplicates(),
        forall|i: int| 0 <= i < a.len() ==> b.contains(#[trigger] a[i]),
    ensures
        a.len() <= b.len(),
{
    a.unique_seq_to_set();
    assert(a.to_set().subset_of(b.to_set())) by {
        assert forall|x: i32| a.to_set().contains(x) implies b.to_set().contains(x) by {
            let i = choose|i: int| 0 <= i < a.len() && a[i] == x;
            assert(b.contains(a[i]));
        }
    }
    vstd::set_lib::lemma_len_subset(a.to_set(), b.to_set());
    b.lemma_cardinality_of_set();
}

/// The first `n` places that steps lead to.
pub open spec fn trail(s: Seq<NodeState>, first: i32, n: nat) -> Seq<i32> {
    Seq::new(n, |i: int| hop(s, first, i as nat))
}

/// What steps lead into at all, they lead into within as many steps as there
/// are live nodes, by a way that passes no place twice.
proof fn lemma_first_hit(s: Seq<NodeState>, first: i32, ring: Seq<i32>, k: nat) -> (j: nat)
    requires
        sorted(s),
        first == NONE || is_live(s, first),
        ring.contains(hop(s, first, k)),
        hop(s, first, k) != NONE,
    ensures
        j <= k,
        j < live_of(s).len(),
        ring.contains(hop(s, first, j)),
        hop(s, first, j) != NONE,
        forall|i: nat| i < j ==> !ring.contains(#[trigger] hop(s, first, i)),
        trail(s, first, j + 1).no_duplicates(),
    decreases k,
{
    if exists|i: nat| i < k && ring.contains(#[trigger] hop(s, first, i)) {
        let i = choose|i: nat| i < k && ring.contains(#[trigger] hop(s, first, i));
        if hop(s, first, i) == NONE {
            lemma_hop_none(s, first, i, k);
        }
        lemma_first_hit(s, first, ring, i)
    } else {
        let t = trail(s, first, k + 1);
        assert forall|a: int, b: int| 0 <= a < b < t.len() implies t[a] != t[b] by {
            if t[a] == t[b] {
                let rest = (k - b) as nat;
                lemma_hop_add(s, first, a as nat, rest);
                lemma_hop_add(s, first, b as nat, rest);
                assert(b as nat + rest == k);
                assert(hop(s, first, (a + rest) as nat) == hop(s, first, k));
                assert(a + rest < k);
            }
        }
        assert forall|i: int| 0 <= i < t.len() implies live_idents(s).contains(#[trigger] t[i]) by {
            lemma_hop(s, first, i as nat);
            if t[i] == NONE {
                lemma_hop_none(s, first, i as nat, k);
            }
            lemma_live_ident(s, t[i]);
        }
        lemma_fit(t, live_idents(s));
        k
    }
}

/// Whether the first `n` places that steps lead to from `first` have one in
/// `ring`, with nothing before it.
pub proof fn lemma_not_led(s: Seq<NodeState>, first: i32, ring: Seq<i32>, n: nat)
    requires
        sorted(s),
        first == NONE || is_live(s, first),
        n >= live_of(s).len() || hop(s, first, n) == NONE,
        forall|i: nat| i < n ==> !(ring.contains(#[trigger] hop(s, first, i)) && hop(s, first, i)
            != NONE),
    ensures
        !leads_to(s, first, ring),
{
    if leads_to(s, first, ring) {
        let k = choose|k: nat| ring.contains(#[trigger] hop(s, first, k)) && hop(s, first, k)
            != NONE;
        let j = lemma_first_hit(s, first, ring, k);
        if j >= n {
            lemma_hop_none(s, first, n, j);
        }
    }
}

/// A node is on a ring where best successors lead back to it.
pub proof fn lemma_on_ring(s: Seq<NodeState>, n: NodeState)
    ensures
        on_ring(s, n) <==> leads_to(s, best(s, n), seq![n.ident]),
{
    let ring = seq![n.ident];
    assert(ring[0] == n.ident);
    assert(ring.contains(n.ident));
    if on_ring(s, n) {
        let k = choose|k: nat| #[trigger] hop(s, best(s, n), k) == n.ident;
        assert(ring.contains(hop(s, best(s, n), k)));
    }
    if leads_to(s, best(s, n), ring) {
        let k = choose|k: nat| ring.contains(#[trigger] hop(s, best(s, n), k)) && hop(
            s,
            best(s, n),
            k,
        ) != NONE;
        let i = choose|i: int| 0 <= i < ring.len() && ring[i] == hop(s, best(s, n), k);
        assert(hop(s, best(s, n), k) == n.ident);
    }
}

fn holds(v: &Vec<i32>, x: i32) -> (b: bool)
    ensures
        b == v@.contains(x),
{
    let mut i: usize = 0;
    while i < v.len()
        invariant
            i <= v@.len(),
            forall|j: int| 0 <= j < i ==> v@[j] != x,
        decreases v@.len() - i,
    {
        if v[i] == x {
            return true;
        }
        i = i + 1;
    }
    false
}

impl Snapshot {
    /// Whether best successors lead from `first` into `ring`; `n` is the
    /// number of live nodes.
    fn reaches(&self, first: i32, ring: &Vec<i32>, n: usize) -> (b: bool)
        requires
            self.wf(),
            first == NONE || is_live(self@, first),
            n == live_of(self@).len(),
        ensures
            b == leads_to(self@, first, ring@),
    {
        let mut cur: i32 = first;
        let mut left: usize = n;
        while cur != NONE && left > 0
            invariant
                self.wf(),
                first == NONE || is_live(self@, first),
                n == live_of(self@).len(),
                left <= n,
                cur == hop(self@, first, (n - left) as nat),
                forall|i: nat|
                    i < n - left ==> !(ring@.contains(#[trigger] hop(self@, first, i)) && hop(
                        self@,
                        first,
                        i,
                    ) != NONE),
            decreases left,
        {
            if holds(ring, cur) {
                return true;
            }
            cur = self.best_succ_of(cur);
            left = left - 1;
        }
        proof {
            lemma_not_led(self@, first, ring@, (n - left) as nat);
        }
        false
    }

    /// The ring members, in order.
    #[must_use]
    pub fn ring_members(&self) -> (ring: Vec<i32>)
        requires
            self.wf(),
        ensures
            ring@ == ring_of(self@),
    {
        let live = self.live();
        proof {
            lemma_live_of(self@);
        }
        let n: usize = live.len();
        let mut ring: Vec<i32> = Vec::new();
        let mut i: usize = 0;
        assert(live@.take(0) =~= Seq::<NodeState>::empty());
        while i < live.len()
            invariant
                i <= live@.len(),
                self.wf(),
                live@ == live_of(self@),
                n == live@.len(),
                ring@ == on_rings(self@, live@.take(i as int)),
            decreases live@.len() - i,
        {
            let s = live[i];
            let ghost t = live@.take(i as int + 1);
            assert(t.drop_last() =~= live@.take(i as int));
            assert(t.last() == s);
            let mut me: Vec<i32> = Vec::new();
            me.push(s.ident);
            assert(me@ =~= seq![s.ident]);
            let first: i32 = self.best_succ(&s);
            proof {
                lemma_on_ring(self@, s);
            }
            if self.reaches(first, &me, n) {
                ring.push(s.ident);
            }
            i = i + 1;
        }
        assert(live@.take(live@.len() as int) =~= live@);
        ring
    }

    /// How many nodes are on the cycle through a ring member.
    fn cycle_len(&self, start: i32) -> (n: usize)
        requires
            self.wf(),
            start != NONE,
            exists|k: int| comes_back(self@, start, k),
        ensures
            n == lap(self@, start),
    {
        let ghost first = best_of(self@, start);
        let ghost l = lap(self@, start);
        proof {
            lemma_lap(self@, start);
            lemma_live_of(self@);
        }
        let total: usize = self.latest.len();
        let mut n: usize = 1;
        let mut cur: i32 = self.best_succ_of(start);
        while cur != start
            invariant
                self.wf(),
                1 <= n <= l <= total,
                start != NONE,
                first == best_of(self@, start),
                comes_back(self@, start, l),
                cur == hop(self@, first, (n - 1) as nat),
            decreases l - n,
        {
            proof {
                if cur == NONE {
                    lemma_hop_none(self@, first, (n - 1) as nat, (l - 1) as nat);
                }
                assert(n != l);
            }
            cur = self.best_succ_of(cur);
            n = n + 1;
        }
        proof {
            lemma_lap(self@, start);
            if n < l {
                assert(comes_back(self@, start, n as int));
            }
        }
        n
    }
}

/// The cycle through a ring member has a length, no more than there are live
/// nodes.
pub proof fn lemma_lap(s: Seq<NodeState>, ident: i32)
    requires
        sorted(s),
        ident != NONE,
        exists|k: int| comes_back(s, ident, k),
    ensures
        comes_back(s, ident, lap(s, ident)),
        forall|j: int| 1 <= j < lap(s, ident) ==> !#[trigger] comes_back(s, ident, j),
        1 <= lap(s, ident) <= live_of(s).len(),
{
    let back = choose|k: int| comes_back(s, ident, k);
    let l = lemma_first_return(s, ident, back);
    let c = lap(s, ident);
    assert(comes_back(s, ident, c) && forall|j: int|
        1 <= j < c ==> !#[trigger] comes_back(s, ident, j));
    if c < l {
        assert(!comes_back(s, ident, c));
    }
    if l < c {
        assert(!comes_back(s, ident, l));
    }
}

/// The first time that steps lead back.
proof fn lemma_first_return(s: Seq<NodeState>, ident: i32, k: int) -> (l: int)
    requires
        sorted(s),
        ident != NONE,
        comes_back(s, ident, k),
    ensures
        1 <= l <= live_of(s).len(),
        comes_back(s, ident, l),
        forall|j: int| 1 <= j < l ==> !#[trigger] comes_back(s, ident, j),
{
    let first = best_of(s, ident);
    let ring = seq![ident];
    assert(ring[0] == ident);
    assert(ring.contains(ident));
    let last = lemma_first_hit(s, first, ring, (k - 1) as nat);
    let i = choose|i: int| 0 <= i < ring.len() && ring[i] == hop(s, first, last);
    assert(hop(s, first, last) == ident);
    assert forall|j: int| 1 <= j < last + 1 implies !#[trigger] comes_back(s, ident, j) by {
        assert(!ring.contains(hop(s, first, (j - 1) as nat)));
    }
    last as int + 1
}

/// `b` lies strictly within the clockwise arc from `a` to `c` on the circle of
/// `m` bits.
pub open spec fn within_arc(a: int, b: int, c: int, m: nat) -> bool {
    let n = vstd::arithmetic::power2::pow2(m) as int;
    let x = a % n;
    let y = b % n;
    let z = c % n;
    if x < z {
        x < y < z
    } else {
        x < y || y < z
    }
}

fn circle(m: u32) -> (n: i128)
    requires
        m < 64,
    ensures
        n == vstd::arithmetic::power2::pow2(m as nat),
        0 < n <= 0x8000_0000_0000_0000,
{
    let mut n: i128 = 1;
    let mut i: u32 = 0;
    proof {
        vstd::arithmetic::power2::lemma2_to64();
    }
    while i < m
        invariant
            i <= m < 64,
            n == vstd::arithmetic::power2::pow2(i as nat),
            0 < n <= 0x8000_0000_0000_0000,
            i < 63 ==> n <= 0x4000_0000_0000_0000,
        decreases m - i,
    {
        proof {
            vstd::arithmetic::power2::lemma_pow2_unfold((i + 1) as nat);
            vstd::arithmetic::power2::lemma2_to64_rest();
            vstd::arithmetic::power2::lemma2_to64();
            if i + 1 < 63 {
                vstd::arithmetic::power2::lemma_pow2_strictly_increases((i + 1) as nat, 63);
            }
        }
        n = n * 2;
        i = i + 1;
    }
    n
}

fn on_circle(a: i32, n: i128) -> (r: i128)
    requires
        0 < n <= 0x8000_0000_0000_0000,
    ensures
        r == (a as int) % (n as int),
{
    let x: i128 = if a >= 0 {
        a as i128
    } else {
        a as i128 + n * 0x8000_0000
    };
    proof {
        if a < 0 {
            assert(a as int + n * 0x8000_0000 >= 0) by (nonlinear_arith)
                requires
                    n >= 1,
                    a >= -0x8000_0000,
            ;
            vstd::arithmetic::div_mod::lemma_mod_multiples_vanish(
                0x8000_0000,
                a as int,
                n as int,
            );
            assert(n * 0x8000_0000 + a == a + n * 0x8000_0000);
        }
    }
    x % n
}

/// Whether `b` lies strictly within the clockwise arc from `a` to `c` on the
/// circle of `m` bits.
#[must_use]
pub fn between(a: i32, b: i32, c: i32, m: u32) -> (r: bool)
    requires
        m < 64,
    ensures
        r == within_arc(a as int, b as int, c as int, m as nat),
{
    let n: i128 = circle(m);
    let x: i128 = on_circle(a, n);
    let y: i128 = on_circle(b, n);
    let z: i128 = on_circle(c, n);
    if x < z {
        x < y && y < z
    } else {
        x < y || y < z
    }
}

// ---------------------------------------------------------------------------
// The invariants
// ---------------------------------------------------------------------------

/// The invariant that a violation is against.
#[derive(Clone, Copy, PartialEq, Eq, Debug, Structural)]
pub enum InvariantKind {
    AtLeastOneRing,
    AtMostOneRing,
    OrderedRing,
    ConnectedAppendages,
}

pub open spec fn kind_name(k: InvariantKind) -> Seq<char> {
    match k {
        InvariantKind::AtLeastOneRing => "AtLeastOneRing"@,
        InvariantKind::AtMostOneRing => "AtMostOneRing"@,
        InvariantKind::OrderedRing => "OrderedRing"@,
        InvariantKind::ConnectedAppendages => "ConnectedAppendages"@,
    }
}

impl InvariantKind {
    #[must_use]
    pub fn name(self) -> (s: &'static str)
        ensures
            s@ == kind_name(self),
    {
        match self {
            InvariantKind::AtLeastOneRing => "AtLeastOneRing",
            InvariantKind::AtMostOneRing => "AtMostOneRing",
            InvariantKind::OrderedRing => "OrderedRing",
            InvariantKind::ConnectedAppendages => "ConnectedAppendages",
        }
    }

    /// Whether ring maintenance cannot repair a violation: so for each of
    /// them.
    #[must_use]
    pub fn is_correctness_critical(self) -> (b: bool)
        ensures
            b,
    {
        true
    }
}

/// An invariant that a configuration violates.
#[derive(Clone, Debug, PartialEq)]
pub struct ChordViolation {
    pub kind: InvariantKind,
    pub detail: String,
}

pub struct ViolationView {
    pub kind: InvariantKind,
    pub detail: Seq<char>,
}

impl View for ChordViolation {
    type V = ViolationView;

    open spec fn view(&self) -> ViolationView {
        ViolationView { kind: self.kind, detail: self.detail@ }
    }
}

pub open spec fn violation_views(v: Seq<ChordViolation>) -> Seq<ViolationView> {
    v.map_values(|x: ChordViolation| x@)
}

pub open spec fn split_text(members: nat, first: i32, cycle: int) -> Seq<char> {
    "ring split: "@ + text::dec(members) + " ring members but the cycle through "@ + text::dec_int(
        first as int,
    ) + " has "@ + text::dec(cycle as nat)
}

pub open spec fn order_text(n1: i32, n2: i32, n3: i32) -> Seq<char> {
    "ring member "@ + text::dec_int(n3 as int) + " lies between adjacent "@ + text::dec_int(
        n1 as int,
    ) + " -> "@ + text::dec_int(n2 as int)
}

pub open spec fn stray_text(n: i32) -> Seq<char> {
    "appendage member "@ + text::dec_int(n as int)
        + " cannot reach the ring via best successors"@
}

/// Whether the ring member `n3` lies between `n1` and its successor `n2`.
pub open spec fn misplaced(n1: i32, n2: i32, n3: i32, m: nat) -> bool {
    n3 != n1 && n3 != n2 && within_arc(n1 as int, n3 as int, n2 as int, m)
}

/// The ring members among the first `j` that lie between `n1` and `n2`.
pub open spec fn misplaced_after(ring: Seq<i32>, n1: i32, n2: i32, m: nat, j: int) -> Seq<
    ViolationView,
>
    decreases j,
{
    if j <= 0 {
        Seq::empty()
    } else {
        let rest = misplaced_after(ring, n1, n2, m, j - 1);
        if misplaced(n1, n2, ring[j - 1], m) {
            rest.push(
                ViolationView {
                    kind: InvariantKind::OrderedRing,
                    detail: order_text(n1, n2, ring[j - 1]),
                },
            )
        } else {
            rest
        }
    }
}

/// What lies between the first `i` ring members and their successors.
pub open spec fn disorder(s: Seq<NodeState>, ring: Seq<i32>, m: nat, i: int) -> Seq<ViolationView>
    decreases i,
{
    if i <= 0 {
        Seq::empty()
    } else {
        let n1 = ring[i - 1];
        let n2 = best_of(s, n1);
        disorder(s, ring, m, i - 1) + if ring.contains(n2) {
            misplaced_after(ring, n1, n2, m, ring.len() as int)
        } else {
            Seq::empty()
        }
    }
}

/// Whether a live node is neither on the ring nor leads to it.
pub open spec fn astray(s: Seq<NodeState>, ring: Seq<i32>, n: NodeState) -> bool {
    !ring.contains(n.ident) && !leads_to(s, best(s, n), ring)
}

/// Those among the nodes that do not reach the ring.
pub open spec fn strays(s: Seq<NodeState>, ring: Seq<i32>, nodes: Seq<NodeState>) -> Seq<
    ViolationView,
>
    decreases nodes.len(),
{
    if nodes.len() == 0 {
        Seq::empty()
    } else {
        let rest = strays(s, ring, nodes.drop_last());
        let n = nodes.last();
        if astray(s, ring, n) {
            rest.push(
                ViolationView {
                    kind: InvariantKind::ConnectedAppendages,
                    detail: stray_text(n.ident),
                },
            )
        } else {
            rest
        }
    }
}

/// Everything that a configuration violates on the circle of `m` bits. Without
/// a ring the rest has no meaning.
pub open spec fn violations_of(s: Seq<NodeState>, m: nat) -> Seq<ViolationView> {
    let ring = ring_of(s);
    if ring.len() == 0 {
        seq![
            ViolationView {
                kind: InvariantKind::AtLeastOneRing,
                detail: "no ring member: the best-successor graph has no cycle"@,
            },
        ]
    } else {
        (if lap(s, ring[0]) != ring.len() {
            seq![
                ViolationView {
                    kind: InvariantKind::AtMostOneRing,
                    detail: split_text(ring.len(), ring[0], lap(s, ring[0])),
                },
            ]
        } else {
            Seq::empty()
        }) + disorder(s, ring, m, ring.len() as int) + strays(s, ring, live_of(s))
    }
}

pub proof fn lemma_on_rings(s: Seq<NodeState>, nodes: Seq<NodeState>, ident: i32)
    ensures
        on_rings(s, nodes).contains(ident) <==> exists|i: int|
            0 <= i < nodes.len() && (#[trigger] nodes[i]).ident == ident && on_ring(s, nodes[i]),
    decreases nodes.len(),
{
    if nodes.len() > 0 {
        let p = nodes.drop_last();
        let r = on_rings(s, nodes);
        let q = on_rings(s, p);
        lemma_on_rings(s, p, ident);
        if exists|i: int|
            0 <= i < nodes.len() && (#[trigger] nodes[i]).ident == ident && on_ring(
                s,
                nodes[i],
            ) {
            let i = choose|i: int|
                0 <= i < nodes.len() && (#[trigger] nodes[i]).ident == ident && on_ring(
                    s,
                    nodes[i],
                );
            if i < p.len() {
                assert(p[i] == nodes[i]);
                let k = choose|k: int| 0 <= k < q.len() && q[k] == ident;
                assert(r[k] == ident);
            } else {
                assert(r[q.len() as int] == ident);
            }
        }
        if r.contains(ident) {
            let k = choose|k: int| 0 <= k < r.len() && r[k] == ident;
            if k < q.len() {
                assert(q[k] == ident);
                let i = choose|i: int|
                    0 <= i < p.len() && (#[trigger] p[i]).ident == ident && on_ring(s, p[i]);
                assert(nodes[i] == p[i]);
            } else {
                assert(nodes[nodes.len() - 1].ident == ident);
            }
        }
    }
}

/// A ring member is a live node from which best successors lead back.
pub proof fn lemma_ring_member(s: Seq<NodeState>, ident: i32)
    requires
        sorted(s),
        ring_of(s).contains(ident),
    ensures
        ident != NONE,
        get(s, ident) is Some,
        get(s, ident).unwrap().alive,
        on_ring(s, get(s, ident).unwrap()),
        best_of(s, ident) == best(s, get(s, ident).unwrap()),
        exists|k: int| comes_back(s, ident, k),
{
    let l = live_of(s);
    lemma_live_of(s);
    lemma_on_rings(s, l, ident);
    let i = choose|i: int| 0 <= i < l.len() && (#[trigger] l[i]).ident == ident && on_ring(s, l[i]);
    let n = l[i];
    let j = choose|j: int| 0 <= j < s.len() && s[j] == n;
    lemma_get(s, ident);
    assert(s[j].ident == ident);
    let k = choose|k: nat| #[trigger] hop(s, best(s, n), k) == n.ident;
    assert(comes_back(s, ident, k as int + 1));
}

fn split_message(members: usize, first: i32, cycle: usize) -> (s: String)
    ensures
        s@ == split_text(members as nat, first, cycle as int),
{
    let mut s = copy_text("ring split: ");
    push_dec(&mut s, members as u64);
    push_text(&mut s, " ring members but the cycle through ");
    push_int(&mut s, first);
    push_text(&mut s, " has ");
    push_dec(&mut s, cycle as u64);
    s
}

fn order_message(n1: i32, n2: i32, n3: i32) -> (s: String)
    ensures
        s@ == order_text(n1, n2, n3),
{
    let mut s = copy_text("ring member ");
    push_int(&mut s, n3);
    push_text(&mut s, " lies between adjacent ");
    push_int(&mut s, n1);
    push_text(&mut s, " -> ");
    push_int(&mut s, n2);
    s
}

fn stray_message(n: i32) -> (s: String)
    ensures
        s@ == stray_text(n),
{
    let mut s = copy_text("appendage member ");
    push_int(&mut s, n);
    push_text(&mut s, " cannot reach the ring via best successors");
    s
}

fn push_violation(v: &mut Vec<ChordViolation>, kind: InvariantKind, detail: String)
    ensures
        violation_views(final(v)@) == violation_views(old(v)@).push(
            ViolationView { kind, detail: detail@ },
        ),
{
    v.push(ChordViolation { kind, detail });
    assert(violation_views(v@) =~= violation_views(old(v)@).push(
        ViolationView { kind, detail: detail@ },
    ));
}

impl Snapshot {
    fn check_order(&self, ring: &Vec<i32>, m: u32, v: &mut Vec<ChordViolation>)
        requires
            self.wf(),
            m < 64,
        ensures
            violation_views(final(v)@) == violation_views(old(v)@) + disorder(
                self@,
                ring@,
                m as nat,
                ring@.len() as int,
            ),
    {
        let ghost start = violation_views(v@);
        let mut i: usize = 0;
        assert(violation_views(v@) =~= start + disorder(self@, ring@, m as nat, 0));
        while i < ring.len()
            invariant
                i <= ring@.len(),
                self.wf(),
                m < 64,
                violation_views(v@) == start + disorder(self@, ring@, m as nat, i as int),
            decreases ring@.len() - i,
        {
            let n1: i32 = ring[i];
            let n2: i32 = self.best_succ_of(n1);
            let ghost before = violation_views(v@);
            if holds(ring, n2) {
                let mut j: usize = 0;
                assert(violation_views(v@) =~= before + misplaced_after(
                    ring@,
                    n1,
                    n2,
                    m as nat,
                    0,
                ));
                while j < ring.len()
                    invariant
                        j <= ring@.len(),
                        m < 64,
                        violation_views(v@) == before + misplaced_after(
                            ring@,
                            n1,
                            n2,
                            m as nat,
                            j as int,
                        ),
                    decreases ring@.len() - j,
                {
                    let n3: i32 = ring[j];
                    if n3 != n1 && n3 != n2 && between(n1, n3, n2, m) {
                        push_violation(
                            v,
                            InvariantKind::OrderedRing,
                            order_message(n1, n2, n3),
                        );
                    }
                    j = j + 1;
                    assert(violation_views(v@) =~= before + misplaced_after(
                        ring@,
                        n1,
                        n2,
                        m as nat,
                        j as int,
                    ));
                }
            }
            i = i + 1;
            assert(violation_views(v@) =~= start + disorder(self@, ring@, m as nat, i as int));
        }
    }

    fn check_appendages(&self, ring: &Vec<i32>, v: &mut Vec<ChordViolation>)
        requires
            self.wf(),
        ensures
            violation_views(final(v)@) == violation_views(old(v)@) + strays(
                self@,
                ring@,
                live_of(self@),
            ),
    {
        let ghost start = violation_views(v@);
        let live = self.live();
        proof {
            lemma_live_of(self@);
        }
        let n: usize = live.len();
        let mut i: usize = 0;
        assert(live@.take(0) =~= Seq::<NodeState>::empty());
        assert(violation_views(v@) =~= start + strays(self@, ring@, live@.take(0)));
        while i < live.len()
            invariant
                i <= live@.len(),
                self.wf(),
                live@ == live_of(self@),
                n == live@.len(),
                violation_views(v@) == start + strays(self@, ring@, live@.take(i as int)),
            decreases live@.len() - i,
        {
            let s = live[i];
            let ghost t = live@.take(i as int + 1);
            assert(t.drop_last() =~= live@.take(i as int));
            assert(t.last() == s);
            let first: i32 = self.best_succ(&s);
            if !holds(ring, s.ident) && !self.reaches(first, ring, n) {
                push_violation(
                    v,
                    InvariantKind::ConnectedAppendages,
                    stray_message(s.ident),
                );
            }
            i = i + 1;
            assert(violation_views(v@) =~= start + strays(self@, ring@, live@.take(i as int)));
        }
        assert(live@.take(live@.len() as int) =~= live@);
    }

    /// Everything that the configuration violates on the circle of `m` bits.
    #[must_use]
    pub fn check(&self, m: u32) -> (v: Vec<ChordViolation>)
        requires
            self.wf(),
            m < 64,
        ensures
            violation_views(v@) == violations_of(self@, m as nat),
    {
        let mut v: Vec<ChordViolation> = Vec::new();
        assert(violation_views(v@) =~= Seq::<ViolationView>::empty());
        let ring = self.ring_members();
        if ring.len() == 0 {
            push_violation(
                &mut v,
                InvariantKind::AtLeastOneRing,
                copy_text("no ring member: the best-successor graph has no cycle"),
            );
            assert(violation_views(v@) =~= violations_of(self@, m as nat));
            return v;
        }
        proof {
            assert(ring@.contains(ring@[0]));
            lemma_ring_member(self@, ring@[0]);
        }
        let cycle: usize = self.cycle_len(ring[0]);
        if cycle != ring.len() {
            push_violation(
                &mut v,
                InvariantKind::AtMostOneRing,
                split_message(ring.len(), ring[0], cycle),
            );
        }
        self.check_order(&ring, m, &mut v);
        self.check_appendages(&ring, &mut v);
        assert(violation_views(v@) =~= violations_of(self@, m as nat));
        v
    }
}

// ---------------------------------------------------------------------------
// The failure assumption
// ---------------------------------------------------------------------------

/// What the live reports so far say of a node: the one with the higher date
/// counts.
pub open spec fn later(old: NodeState, st: NodeState) -> NodeState {
    if st.date >= old.date {
        st
    } else {
        old
    }
}

/// The reports of the live nodes behind one more.
pub open spec fn reported(s: Seq<NodeState>, st: NodeState) -> Seq<NodeState>
    decreases s.len(),
{
    if s.len() == 0 {
        seq![st]
    } else if s.last().ident == st.ident {
        s.drop_last().push(later(s.last(), st))
    } else {
        reported(s.drop_last(), st).push(s.last())
    }
}

/// Whether a node other than `victim` that is not dead has no successor left.
pub open spec fn is_stranded(n: NodeState, dead: Seq<i32>, victim: i32) -> bool {
    n.ident != victim && !dead.contains(n.ident) && !(n.succ >= 0 && !dead.contains(n.succ)) && !(
    n.succ2 >= 0 && !dead.contains(n.succ2))
}

pub open spec fn any_stranded(s: Seq<NodeState>, dead: Seq<i32>, victim: i32) -> bool {
    exists|i: int| 0 <= i < s.len() && is_stranded(#[trigger] s[i], dead, victim)
}

/// What is known behind some records: the reports of live nodes, the deaths,
/// and whether no death stranded a node.
pub struct Lives {
    pub latest: Seq<NodeState>,
    pub dead: Seq<i32>,
    pub held: bool,
}

/// What is known behind the first `n` records. Only sends count: each report
/// is sent once, and sends are in order.
pub open spec fn lives(records: Seq<RecordView>, n: int) -> Lives
    decreases n,
{
    if n <= 0 {
        Lives { latest: Seq::empty(), dead: Seq::empty(), held: true }
    } else {
        let l = lives(records, n - 1);
        match sent_in(records[n - 1].e) {
            None => l,
            Some(st) => if st.alive {
                Lives { latest: reported(l.latest, st), ..l }
            } else {
                let dead = l.dead.push(st.ident);
                Lives { dead, held: l.held && !any_stranded(l.latest, dead, st.ident), ..l }
            },
        }
    }
}

fn put_report(v: &mut Vec<NodeState>, st: NodeState)
    ensures
        final(v)@ == reported(old(v)@, st),
{
    let ghost s = v@;
    let mut i: usize = v.len();
    while i > 0 && v[i - 1].ident != st.ident
        invariant
            i <= v@.len(),
            v@ == s,
            forall|j: int| i <= j < s.len() ==> (#[trigger] s[j]).ident != st.ident,
        decreases i,
    {
        i = i - 1;
    }
    proof {
        lemma_reported_at(s, st, i as int);
    }
    if i > 0 {
        if st.date >= v[i - 1].date {
            v.set(i - 1, st);
        }
    } else {
        v.insert(0, st);
    }
    assert(v@ =~= reported(s, st));
}

/// Where a report goes among the reports of the live nodes.
pub proof fn lemma_reported_at(s: Seq<NodeState>, st: NodeState, pos: int)
    requires
        0 <= pos <= s.len(),
        forall|j: int| pos <= j < s.len() ==> (#[trigger] s[j]).ident != st.ident,
        pos > 0 ==> s[pos - 1].ident == st.ident,
    ensures
        reported(s, st) == if pos > 0 {
            s.update(pos - 1, later(s[pos - 1], st))
        } else {
            s.insert(0, st)
        },
    decreases s.len(),
{
    if s.len() == 0 {
        assert(s.insert(0, st) =~= seq![st]);
    } else if pos == s.len() {
        assert(s.update(pos - 1, later(s[pos - 1], st)) =~= s.drop_last().push(
            later(s.last(), st),
        ));
    } else {
        let p = s.drop_last();
        assert(s[s.len() - 1].ident != st.ident);
        lemma_reported_at(p, st, pos);
        if pos > 0 {
            assert(s.update(pos - 1, later(s[pos - 1], st)) =~= p.update(
                pos - 1,
                later(p[pos - 1], st),
            ).push(s.last()));
        } else {
            assert(s.insert(0, st) =~= p.insert(0, st).push(s.last()));
        }
    }
}

fn strands(latest: &Vec<NodeState>, dead: &Vec<i32>, victim: i32) -> (b: bool)
    ensures
        b == any_stranded(latest@, dead@, victim),
{
    let mut i: usize = 0;
    while i < latest.len()
        invariant
            i <= latest@.len(),
            forall|j: int| 0 <= j < i ==> !is_stranded(#[trigger] latest@[j], dead@, victim),
        decreases latest@.len() - i,
    {
        let n = latest[i];
        if n.ident != victim && !holds(dead, n.ident) {
            let first: bool = n.succ >= 0 && !holds(dead, n.succ);
            let second: bool = n.succ2 >= 0 && !holds(dead, n.succ2);
            if !first && !second {
                assert(is_stranded(latest@[i as int], dead@, victim));
                return true;
            }
        }
        i = i + 1;
    }
    false
}

/// Once a death stranded a node, that stays so.
proof fn lemma_not_held(records: Seq<RecordView>, k: int, n: int)
    requires
        0 <= k <= n,
        !lives(records, k).held,
    ensures
        !lives(records, n).held,
    decreases n,
{
    if k < n {
        lemma_not_held(records, k, n - 1);
    }
}

impl Snapshot {
    /// Whether the failure assumption held at every death of a recording: no
    /// member fails if that leaves another one without a live successor in its
    /// list. A run that breaks it shows nothing about the protocol.
    #[must_use]
    pub fn failure_assumption_held(log: &Log) -> (b: bool)
        ensures
            b == lives(log@.records, log@.records.len() as int).held,
    {
        let mut latest: Vec<NodeState> = Vec::new();
        let mut dead: Vec<i32> = Vec::new();
        let mut i: usize = 0;
        while i < log.records.len()
            invariant
                i <= log.records@.len(),
                lives(log@.records, i as int) == (Lives {
                    latest: latest@,
                    dead: dead@,
                    held: true,
                }),
            decreases log.records@.len() - i,
        {
            let r = &log.records[i];
            assert(log@.records[i as int] == r@);
            if let Some(st) = sent_report(&r.e) {
                if st.alive {
                    put_report(&mut latest, st);
                } else {
                    dead.push(st.ident);
                    if strands(&latest, &dead, st.ident) {
                        proof {
                            lemma_not_held(
                                log@.records,
                                i as int + 1,
                                log@.records.len() as int,
                            );
                        }
                        return false;
                    }
                }
            }
            i = i + 1;
        }
        true
    }
}

// ---------------------------------------------------------------------------
// As text
// ---------------------------------------------------------------------------

/// Numbers with commas between them.
pub open spec fn listed(v: Seq<i32>, n: int) -> Seq<char>
    decreases n,
{
    if n <= 0 {
        Seq::empty()
    } else if n == 1 {
        text::dec_int(v[0] as int)
    } else {
        listed(v, n - 1) + ", "@ + text::dec_int(v[n - 1] as int)
    }
}

/// `[a, b, c]`.
pub open spec fn list_text(v: Seq<i32>) -> Seq<char> {
    "["@ + listed(v, v.len() as int) + "]"@
}

/// Numbers as a list.
#[must_use]
pub fn ints_text(v: &Vec<i32>) -> (s: String)
    ensures
        s@ == list_text(v@),
{
    let mut t = String::new();
    let mut i: usize = 0;
    assert(t@ =~= Seq::<char>::empty());
    while i < v.len()
        invariant
            i <= v@.len(),
            t@ == listed(v@, i as int),
        decreases v@.len() - i,
    {
        if i > 0 {
            push_text(&mut t, ", ");
        }
        push_int(&mut t, v[i]);
        i = i + 1;
        assert(t@ =~= listed(v@, i as int));
    }
    let mut s = copy_text("[");
    push_text(&mut s, t.as_str());
    push_text(&mut s, "]");
    s
}

/// A number, in a column of three.
pub open spec fn col(n: i32) -> Seq<char> {
    report::padded(text::dec_int(n as int), 3)
}

fn push_col(out: &mut String, before: &str, n: i32)
    ensures
        final(out)@ == old(out)@ + before@ + col(n),
{
    push_text(out, before);
    push_padded(out, int_text(n).as_str(), 3);
}

/// The pointers of a node.
pub open spec fn pointers_text(n: NodeState) -> Seq<char> {
    "succ="@ + col(n.succ) + " succ2="@ + col(n.succ2) + " prdc="@ + col(n.prdc)
}

/// The pointers of a node, as text.
#[must_use]
pub fn pointers(n: &NodeState) -> (s: String)
    ensures
        s@ == pointers_text(*n),
{
    let mut s = copy_text("succ=");
    push_padded(&mut s, int_text(n.succ).as_str(), 3);
    push_col(&mut s, " succ2=", n.succ2);
    push_col(&mut s, " prdc=", n.prdc);
    s
}

pub open spec fn live_line(s: Seq<NodeState>, n: NodeState) -> Seq<char> {
    "  node "@ + col(n.ident) + ": "@ + pointers_text(n) + " bestSucc="@ + col(best(s, n))
        + if ring_of(s).contains(n.ident) {
        " [ring]"@
    } else {
        " [appendage]"@
    } + "\n"@
}

pub open spec fn live_lines(s: Seq<NodeState>, nodes: Seq<NodeState>) -> Seq<char>
    decreases nodes.len(),
{
    if nodes.len() == 0 {
        Seq::empty()
    } else {
        live_lines(s, nodes.drop_last()) + live_line(s, nodes.last())
    }
}

pub open spec fn dead_lines(nodes: Seq<NodeState>) -> Seq<char>
    decreases nodes.len(),
{
    if nodes.len() == 0 {
        Seq::empty()
    } else {
        let rest = dead_lines(nodes.drop_last());
        if nodes.last().alive {
            rest
        } else {
            rest + ("  node "@ + col(nodes.last().ident) + ": FAILED\n"@)
        }
    }
}

/// A configuration for a reader.
pub open spec fn snapshot_text(s: Seq<NodeState>) -> Seq<char> {
    "ring members: "@ + list_text(ring_of(s)) + "\n"@ + live_lines(s, live_of(s)) + dead_lines(s)
}

fn dead_line(n: &NodeState) -> (s: String)
    ensures
        s@ == "  node "@ + col(n.ident) + ": FAILED\n"@,
{
    let mut s = copy_text("  node ");
    push_padded(&mut s, int_text(n.ident).as_str(), 3);
    push_text(&mut s, ": FAILED\n");
    s
}

impl Snapshot {
    fn line(&self, n: &NodeState, ring: &Vec<i32>) -> (s: String)
        requires
            self.wf(),
            ring@ == ring_of(self@),
        ensures
            s@ == live_line(self@, *n),
    {
        let mut s = copy_text("  node ");
        push_padded(&mut s, int_text(n.ident).as_str(), 3);
        push_text(&mut s, ": ");
        push_text(&mut s, pointers(n).as_str());
        push_col(&mut s, " bestSucc=", self.best_succ(n));
        if holds(ring, n.ident) {
            push_text(&mut s, " [ring]");
        } else {
            push_text(&mut s, " [appendage]");
        }
        push_text(&mut s, "\n");
        s
    }

    /// The configuration for a reader.
    #[must_use]
    pub fn render(&self) -> (s: String)
        requires
            self.wf(),
        ensures
            s@ == snapshot_text(self@),
    {
        let ring = self.ring_members();
        let live = self.live();
        let mut a = String::new();
        let mut i: usize = 0;
        assert(live@.take(0) =~= Seq::<NodeState>::empty());
        assert(a@ =~= Seq::<char>::empty());
        while i < live.len()
            invariant
                i <= live@.len(),
                self.wf(),
                ring@ == ring_of(self@),
                a@ == live_lines(self@, live@.take(i as int)),
            decreases live@.len() - i,
        {
            let ghost t = live@.take(i as int + 1);
            assert(t.drop_last() =~= live@.take(i as int));
            assert(t.last() == live@[i as int]);
            push_text(&mut a, self.line(&live[i], &ring).as_str());
            i = i + 1;
        }
        assert(live@.take(live@.len() as int) =~= live@);
        let mut b = String::new();
        let mut j: usize = 0;
        assert(self.latest@.take(0) =~= Seq::<NodeState>::empty());
        assert(b@ =~= Seq::<char>::empty());
        while j < self.latest.len()
            invariant
                j <= self.latest@.len(),
                b@ == dead_lines(self.latest@.take(j as int)),
            decreases self.latest@.len() - j,
        {
            let ghost t = self.latest@.take(j as int + 1);
            assert(t.drop_last() =~= self.latest@.take(j as int));
            assert(t.last() == self.latest@[j as int]);
            if !self.latest[j].alive {
                push_text(&mut b, dead_line(&self.latest[j]).as_str());
            }
            j = j + 1;
        }
        assert(self.latest@.take(self.latest@.len() as int) =~= self.latest@);
        let mut s = copy_text("ring members: ");
        push_text(&mut s, ints_text(&ring).as_str());
        push_text(&mut s, "\n");
        push_text(&mut s, a.as_str());
        push_text(&mut s, b.as_str());
        s
    }
}

// ---------------------------------------------------------------------------
// As a rule
// ---------------------------------------------------------------------------

/// Whether an event can change the configuration: a datagram that was
/// scheduled, or a receive.
pub open spec fn counts(e: EventView) -> bool {
    match e {
        EventView::Send { outcome, .. } => outcome is Enqueued,
        EventView::Recv { .. } => true,
        _ => false,
    }
}

pub open spec fn counted_report(e: EventView) -> Option<NodeState> {
    if counts(e) {
        report_in(e)
    } else {
        None
    }
}

/// The configuration behind the events that were seen.
pub open spec fn config_of(h: Seq<Seen>) -> Seq<NodeState>
    decreases h.len(),
{
    if h.len() == 0 {
        Seq::empty()
    } else {
        match counted_report(h.last().e) {
            Some(st) => observed(config_of(h.drop_last()), st),
            None => config_of(h.drop_last()),
        }
    }
}

/// The first violation of a kind, from the `i`-th on.
pub open spec fn first_of(v: Seq<ViolationView>, kind: InvariantKind, i: int) -> Option<Seq<char>>
    decreases v.len() - i,
{
    if i < 0 || i >= v.len() {
        None
    } else if v[i].kind == kind {
        Some(v[i].detail)
    } else {
        first_of(v, kind, i + 1)
    }
}

/// What the rule says of an event.
pub open spec fn ring_verdict(past: Seq<Seen>, e: EventView, m: nat, target: InvariantKind)
    -> Option<Seq<char>> {
    match counted_report(e) {
        Some(st) => first_of(violations_of(observed(config_of(past), st), m), target, 0),
        None => None,
    }
}

/// A rule that follows the reports and fires when the configuration violates
/// one of the invariants.
pub struct ChordInvariant {
    snap: Snapshot,
    m: u32,
    target: InvariantKind,
    seen: Ghost<Seq<Seen>>,
}

impl ChordInvariant {
    /// The circle and the invariant.
    pub closed spec fn parts(&self) -> (u32, InvariantKind) {
        (self.m, self.target)
    }

    #[must_use]
    pub fn new(m: u32, target: InvariantKind) -> (r: Self)
        requires
            m < 64,
        ensures
            r.ok(),
            r.history() == Seq::<Seen>::empty(),
            r.parts() == (m, target),
    {
        ChordInvariant { snap: Snapshot::default(), m, target, seen: Ghost(Seq::empty()) }
    }
}

fn counts_event(e: &Event) -> (b: bool)
    ensures
        b == counts(e@),
{
    match e {
        Event::Send { outcome, .. } => match outcome {
            SendOutcome::Enqueued { .. } => true,
            _ => false,
        },
        Event::Recv { .. } => true,
        _ => false,
    }
}

fn first_violation(v: Vec<ChordViolation>, kind: InvariantKind) -> (r: Option<String>)
    ensures
        crate::broker::text_view(r) == first_of(violation_views(v@), kind, 0),
{
    let ghost vv = violation_views(v@);
    let mut i: usize = 0;
    while i < v.len()
        invariant
            i <= v@.len(),
            vv == violation_views(v@),
            first_of(vv, kind, 0) == first_of(vv, kind, i as int),
        decreases v@.len() - i,
    {
        assert(vv[i as int] == v@[i as int]@);
        if v[i].kind == kind {
            return Some(copy_text(v[i].detail.as_str()));
        }
        i = i + 1;
    }
    None
}

impl Invariant for ChordInvariant {
    closed spec fn ok(&self) -> bool {
        &&& self.m < 64
        &&& self.snap.wf()
        &&& self.snap@ == config_of(self.seen@)
    }

    open spec fn title(&self) -> Seq<char> {
        kind_name(self.parts().1)
    }

    closed spec fn history(&self) -> Seq<Seen> {
        self.seen@
    }

    open spec fn verdict(&self, past: Seq<Seen>, now: Seen) -> Option<Seq<char>> {
        ring_verdict(past, now.e, self.parts().0 as nat, self.parts().1)
    }

    fn name(&self) -> (s: &str) {
        self.target.name()
    }

    fn on_event(&mut self, op: u64, vt: u64, e: &Event) -> (r: Option<String>) {
        let ghost past = self.seen@;
        let ghost now = Seen { op, vt, e: e@ };
        self.seen = Ghost(past.push(now));
        proof {
            assert(past.push(now).drop_last() =~= past);
            assert(past.push(now).last() == now);
        }
        if !counts_event(e) {
            return None;
        }
        match report_from_event(e) {
            Some(st) => {
                self.snap.observe(st);
                first_violation(self.snap.check(self.m), self.target)
            },
            None => None,
        }
    }
}

impl Renew for ChordInvariant {
    fn renew(&self) -> (r: Self) {
        ChordInvariant::new(self.m, self.target)
    }
}

} // verus!
