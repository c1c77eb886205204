//! A state-space model of ring maintenance in Chord under perfect failure
//! detection: who is live is known to everyone at once, and every operation is
//! one step on the global state. Which liveness checks the operations make is
//! what the fix level decides.
//!
//! Joins and failures follow a fixed schedule, or any schedule in which only
//! nodes outside the base ring fail.

use vstd::prelude::*;

use crate::chord;
use crate::chord::{between, NodeState};
use crate::chord_laws;
use crate::text::same_text;

verus! {

/// No node.
pub const NONE: i8 = -1;

/// Where a node is in its life.
#[derive(Clone, Copy, Debug, PartialEq, Eq, Hash, PartialOrd, Ord, Structural)]
pub enum Status {
    /// Not joined yet.
    Out,
    Member,
    /// Failed for good.
    Dead,
}

/// A node's pointers.
#[derive(Clone, Copy, Debug, PartialEq, Eq, Hash, PartialOrd, Ord, Structural)]
pub struct NState {
    pub status: Status,
    pub succ: i8,
    pub succ2: i8,
    pub prdc: i8,
}

/// A scheduled event.
#[derive(Clone, Copy, Debug, PartialEq, Eq, Hash, Structural)]
pub enum SchedEvent {
    Join(i8),
    Fail(i8),
}

/// The joins and failures to come.
#[derive(Clone, Debug)]
pub enum Schedule {
    /// These, in this order, with operations in between.
    Fixed(Vec<SchedEvent>),
    /// Nodes outside the base ring may join at any time, and fail at any later
    /// time.
    Exhaustive,
}

pub enum ScheduleView {
    Fixed(Seq<SchedEvent>),
    Exhaustive,
}

impl View for Schedule {
    type V = ScheduleView;

    open spec fn view(&self) -> ScheduleView {
        match *self {
            Schedule::Fixed(v) => ScheduleView::Fixed(v@),
            Schedule::Exhaustive => ScheduleView::Exhaustive,
        }
    }
}

/// The global state.
#[derive(Clone, Debug, PartialEq, Eq, Hash, PartialOrd, Ord)]
pub struct ChordState {
    pub nodes: Vec<NState>,
    /// The next event of a fixed schedule.
    pub sched_pos: u8,
    /// The failures so far, without a fixed schedule.
    pub fails_done: u8,
}

pub struct StateView {
    pub nodes: Seq<NState>,
    pub sched_pos: u8,
    pub fails_done: u8,
}

impl View for ChordState {
    type V = StateView;

    open spec fn view(&self) -> StateView {
        StateView {
            nodes: self.nodes@,
            sched_pos: self.sched_pos,
            fails_done: self.fails_done,
        }
    }
}

/// One step. Nodes are named by their place.
#[allow(inconsistent_fields)]
#[derive(Clone, Copy, Debug, PartialEq, Eq, Hash, Structural)]
pub enum ChordAction {
    /// A node joins behind the member `via`.
    Join { node: u8, via: u8 },
    Fail { node: u8 },
    /// The node looks for a closer successor and notifies it.
    Stabilize { node: u8 },
    /// The node adopts its successor's successor as its second.
    Reconcile { node: u8 },
    /// The node replaces a dead successor by its second.
    Update { node: u8 },
    /// The node drops a dead predecessor.
    Flush { node: u8 },
}

/// The model.
pub struct ChordModel {
    /// The bits of the identifier circle.
    pub m: u32,
    /// All identifiers, in order.
    pub idents: Vec<i8>,
    /// Those that form the ring at the start.
    pub base: Vec<i8>,
    /// The fix level.
    pub fix: u8,
    pub schedule: Schedule,
    /// How many failures there are without a fixed schedule.
    pub max_fails: u8,
}

pub struct ModelView {
    pub m: u32,
    pub idents: Seq<i8>,
    pub base: Seq<i8>,
    pub fix: u8,
    pub schedule: ScheduleView,
    pub max_fails: u8,
}

impl View for ChordModel {
    type V = ModelView;

    open spec fn view(&self) -> ModelView {
        ModelView {
            m: self.m,
            idents: self.idents@,
            base: self.base@,
            fix: self.fix,
            schedule: self.schedule@,
            max_fails: self.max_fails,
        }
    }
}

// ---------------------------------------------------------------------------
// States
// ---------------------------------------------------------------------------

/// The first place of `x` from `i` on, or the length.
pub open spec fn place_from(v: Seq<i8>, x: i8, i: int) -> int
    decreases v.len() - i,
{
    if i < 0 || i >= v.len() {
        v.len() as int
    } else if v[i] == x {
        i
    } else {
        place_from(v, x, i + 1)
    }
}

/// The place of an identifier.
pub open spec fn place(v: Seq<i8>, x: i8) -> int {
    place_from(v, x, 0)
}

pub open spec fn is_live(m: ModelView, s: StateView, x: i8) -> bool {
    x >= 0 && place(m.idents, x) < m.idents.len() && s.nodes[place(m.idents, x)].status
        == Status::Member
}

/// The best successor of the node at `k`: the first one that is live.
pub open spec fn best(m: ModelView, s: StateView, k: int) -> i8 {
    let n = s.nodes[k];
    if is_live(m, s, n.succ) {
        n.succ
    } else if is_live(m, s, n.succ2) {
        n.succ2
    } else {
        NONE
    }
}

/// Whether `b` lies strictly between `a` and `c`.
pub open spec fn btw(m: ModelView, a: i8, b: i8, c: i8) -> bool {
    chord::within_arc(a as int, b as int, c as int, m.m as nat)
}

/// The state as a configuration, with the members as the live nodes.
pub open spec fn config(m: ModelView, s: StateView) -> Seq<NodeState> {
    Seq::new(
        s.nodes.len(),
        |k: int|
            NodeState {
                ident: m.idents[k] as i32,
                date: 0,
                alive: s.nodes[k].status == Status::Member,
                succ: s.nodes[k].succ as i32,
                succ2: s.nodes[k].succ2 as i32,
                prdc: s.nodes[k].prdc as i32,
            },
    )
}

/// Identifiers in order, none twice.
pub open spec fn ascending(v: Seq<i8>) -> bool {
    forall|i: int, j: int| 0 <= i < j < v.len() ==> v[i] < v[j]
}

/// The model makes sense.
pub open spec fn model_ok(m: ModelView) -> bool {
    &&& m.m < 64
    &&& ascending(m.idents)
}

/// The state belongs to the model.
pub open spec fn state_ok(m: ModelView, s: StateView) -> bool {
    &&& model_ok(m)
    &&& s.nodes.len() == m.idents.len()
}

// ---------------------------------------------------------------------------
// What a state violates
// ---------------------------------------------------------------------------

/// The names of the violated invariants. Without a ring the rest has no
/// meaning.
pub open spec fn violated(m: ModelView, s: StateView) -> Seq<Seq<char>> {
    let c = config(m, s);
    let ring = chord::ring_of(c);
    if ring.len() == 0 {
        seq!["AtLeastOneRing"@]
    } else {
        (if chord::lap(c, ring[0]) != ring.len() {
            seq!["AtMostOneRing"@]
        } else {
            Seq::empty()
        }) + (if chord::disorder(c, ring, m.m as nat, ring.len() as int).len() > 0 {
            seq!["OrderedRing"@]
        } else {
            Seq::empty()
        }) + (if chord::strays(c, ring, chord::live_of(c)).len() > 0 {
            seq!["ConnectedAppendages"@]
        } else {
            Seq::empty()
        })
    }
}

/// Whether every scheduled event has happened.
pub open spec fn is_done(m: ModelView, s: StateView) -> bool {
    match m.schedule {
        ScheduleView::Fixed(ev) => s.sched_pos >= ev.len(),
        ScheduleView::Exhaustive => s.fails_done >= m.max_fails && forall|k: int|
            0 <= k < s.nodes.len() ==> (#[trigger] s.nodes[k]).status != Status::Out,
    }
}

// ---------------------------------------------------------------------------
// The start
// ---------------------------------------------------------------------------

/// The node at the start: on the ideal ring of the base, or not joined.
pub open spec fn first_node(m: ModelView, x: i8) -> NState {
    let i = place(m.base, x);
    let nb = m.base.len() as int;
    if i < nb {
        NState {
            status: Status::Member,
            succ: m.base[(i + 1) % nb],
            succ2: m.base[(i + 2) % nb],
            prdc: m.base[(i + nb - 1) % nb],
        }
    } else {
        NState { status: Status::Out, succ: NONE, succ2: NONE, prdc: NONE }
    }
}

pub open spec fn initial(m: ModelView) -> StateView {
    StateView {
        nodes: Seq::new(m.idents.len(), |k: int| first_node(m, m.idents[k])),
        sched_pos: 0,
        fails_done: 0,
    }
}

// ---------------------------------------------------------------------------
// What can happen
// ---------------------------------------------------------------------------

/// Whether `joiner` can join behind the member at `k`.
pub open spec fn can_join(m: ModelView, s: StateView, joiner: i8, k: int) -> bool {
    let n = s.nodes[k];
    n.status == Status::Member && n.succ != NONE && is_live(m, s, n.succ) && btw(
        m,
        m.idents[k],
        joiner,
        n.succ,
    )
}

pub open spec fn joins(m: ModelView, s: StateView, joiner: i8, n: int) -> Seq<ChordAction>
    decreases n,
{
    if n <= 0 {
        Seq::empty()
    } else if can_join(m, s, joiner, n - 1) {
        joins(m, s, joiner, n - 1).push(
            ChordAction::Join { node: place(m.idents, joiner) as u8, via: (n - 1) as u8 },
        )
    } else {
        joins(m, s, joiner, n - 1)
    }
}

/// Whether `x` is live without `victim`.
pub open spec fn survives(m: ModelView, s: StateView, x: i8, victim: i8) -> bool {
    x != NONE && x != victim && is_live(m, s, x)
}

/// The failure of `victim` leaves every other member a live successor.
pub open spec fn may_fail(m: ModelView, s: StateView, victim: i8) -> bool {
    forall|k: int|
        0 <= k < s.nodes.len() && (#[trigger] s.nodes[k]).status == Status::Member && m.idents[k]
            != victim ==> survives(m, s, s.nodes[k].succ, victim) || survives(
            m,
            s,
            s.nodes[k].succ2,
            victim,
        )
}

/// What the schedule allows for the node at `k` where it is not fixed.
pub open spec fn free_events(m: ModelView, s: StateView, k: int) -> Seq<ChordAction> {
    match s.nodes[k].status {
        Status::Out => joins(m, s, m.idents[k], s.nodes.len() as int),
        Status::Member => if !m.base.contains(m.idents[k]) && s.fails_done < m.max_fails
            && may_fail(m, s, m.idents[k]) {
            seq![ChordAction::Fail { node: k as u8 }]
        } else {
            Seq::empty()
        },
        Status::Dead => Seq::empty(),
    }
}

pub open spec fn all_free_events(m: ModelView, s: StateView, n: int) -> Seq<ChordAction>
    decreases n,
{
    if n <= 0 {
        Seq::empty()
    } else {
        all_free_events(m, s, n - 1) + free_events(m, s, n - 1)
    }
}

/// What the schedule allows.
pub open spec fn events(m: ModelView, s: StateView) -> Seq<ChordAction> {
    match m.schedule {
        ScheduleView::Fixed(ev) => if s.sched_pos < ev.len() {
            match ev[s.sched_pos as int] {
                SchedEvent::Join(j) => if s.nodes[place(m.idents, j)].status == Status::Out {
                    joins(m, s, j, s.nodes.len() as int)
                } else {
                    Seq::empty()
                },
                SchedEvent::Fail(f) => if s.nodes[place(m.idents, f)].status == Status::Member
                    && may_fail(m, s, f) {
                    seq![ChordAction::Fail { node: place(m.idents, f) as u8 }]
                } else {
                    Seq::empty()
                },
            }
        } else {
            Seq::empty()
        },
        ScheduleView::Exhaustive => all_free_events(m, s, s.nodes.len() as int),
    }
}

/// Whom the node at `k` asks: its successor if that is live, else its best.
pub open spec fn target_of(m: ModelView, s: StateView, k: int) -> i8 {
    if is_live(m, s, s.nodes[k].succ) {
        s.nodes[k].succ
    } else {
        best(m, s, k)
    }
}

/// Whether the node at `k` adopts the predecessor of its target as successor.
pub open spec fn adopts(m: ModelView, s: StateView, k: int) -> bool {
    let p = s.nodes[place(m.idents, target_of(m, s, k))].prdc;
    let bs = best(m, s, k);
    p != NONE && (m.fix < 1 || is_live(m, s, p)) && bs != NONE && btw(m, m.idents[k], p, bs)
}

/// The successor behind a stabilization.
pub open spec fn stable_succ(m: ModelView, s: StateView, k: int) -> i8 {
    if adopts(m, s, k) {
        s.nodes[place(m.idents, target_of(m, s, k))].prdc
    } else {
        s.nodes[k].succ
    }
}

/// Whom the node at `k` notifies behind a stabilization.
pub open spec fn notified(m: ModelView, s: StateView, k: int) -> i8 {
    let x = stable_succ(m, s, k);
    if x == NONE {
        best(m, s, k)
    } else {
        x
    }
}

/// Whether the one that is notified takes the node at `k` as predecessor.
pub open spec fn takes_notice(m: ModelView, s: StateView, k: int) -> bool {
    let x = notified(m, s, k);
    let p = s.nodes[place(m.idents, x)].prdc;
    x != NONE && is_live(m, s, x) && (p == NONE || !is_live(m, s, p) || btw(
        m,
        p,
        m.idents[k],
        x,
    ))
}

pub open spec fn can_stabilize(m: ModelView, s: StateView, k: int) -> bool {
    let t = target_of(m, s, k);
    t != NONE && is_live(m, s, t) && ((adopts(m, s, k) && stable_succ(m, s, k) != s.nodes[k].succ)
        || (takes_notice(m, s, k) && s.nodes[place(m.idents, notified(m, s, k))].prdc
        != m.idents[k]))
}

/// What the target of the node at `k` reports as its successor.
pub open spec fn second_of(m: ModelView, s: StateView, k: int) -> i8 {
    let t = place(m.idents, target_of(m, s, k));
    if m.fix >= 2 {
        best(m, s, t)
    } else {
        s.nodes[t].succ
    }
}

pub open spec fn adopts_second(m: ModelView, s: StateView, k: int) -> bool {
    let a = second_of(m, s, k);
    a != NONE && (m.fix < 2 || is_live(m, s, a))
}

pub open spec fn can_reconcile(m: ModelView, s: StateView, k: int) -> bool {
    let t = target_of(m, s, k);
    t != NONE && is_live(m, s, t) && adopts_second(m, s, k) && s.nodes[k].succ2 != second_of(
        m,
        s,
        k,
    )
}

pub open spec fn can_update(m: ModelView, s: StateView, k: int) -> bool {
    let n = s.nodes[k];
    !is_live(m, s, n.succ) && n.succ2 != NONE && (m.fix < 2 || is_live(m, s, n.succ2)) && n.succ
        != n.succ2
}

pub open spec fn can_flush(m: ModelView, s: StateView, k: int) -> bool {
    let n = s.nodes[k];
    n.prdc != NONE && !is_live(m, s, n.prdc)
}

pub open spec fn when(b: bool, a: ChordAction) -> Seq<ChordAction> {
    if b {
        seq![a]
    } else {
        Seq::empty()
    }
}

/// The operations of the node at `k` that change anything.
pub open spec fn operations(m: ModelView, s: StateView, k: int) -> Seq<ChordAction> {
    if s.nodes[k].status != Status::Member {
        Seq::empty()
    } else {
        when(can_stabilize(m, s, k), ChordAction::Stabilize { node: k as u8 }) + when(
            can_reconcile(m, s, k),
            ChordAction::Reconcile { node: k as u8 },
        ) + when(can_update(m, s, k), ChordAction::Update { node: k as u8 }) + when(
            can_flush(m, s, k),
            ChordAction::Flush { node: k as u8 },
        )
    }
}

pub open spec fn all_operations(m: ModelView, s: StateView, n: int) -> Seq<ChordAction>
    decreases n,
{
    if n <= 0 {
        Seq::empty()
    } else {
        all_operations(m, s, n - 1) + operations(m, s, n - 1)
    }
}

/// Everything that can happen in a state.
pub open spec fn possible(m: ModelView, s: StateView) -> Seq<ChordAction> {
    events(m, s) + all_operations(m, s, s.nodes.len() as int)
}

// ---------------------------------------------------------------------------
// What happens
// ---------------------------------------------------------------------------

pub open spec fn next_event(m: ModelView, s: StateView) -> u8 {
    if m.schedule is Fixed {
        (s.sched_pos + 1) as u8
    } else {
        s.sched_pos
    }
}

/// The state behind a step.
pub open spec fn outcome(m: ModelView, s: StateView, a: ChordAction) -> StateView {
    match a {
        ChordAction::Join { node, via } => StateView {
            nodes: s.nodes.update(
                node as int,
                NState {
                    status: Status::Member,
                    succ: s.nodes[via as int].succ,
                    succ2: NONE,
                    prdc: NONE,
                },
            ),
            sched_pos: next_event(m, s),
            ..s
        },
        ChordAction::Fail { node } => StateView {
            nodes: s.nodes.update(
                node as int,
                NState { status: Status::Dead, ..s.nodes[node as int] },
            ),
            sched_pos: next_event(m, s),
            fails_done: if m.schedule is Fixed {
                s.fails_done
            } else {
                (s.fails_done + 1) as u8
            },
        },
        ChordAction::Stabilize { node } => {
            let k = node as int;
            let nodes = s.nodes.update(
                k,
                NState { succ: stable_succ(m, s, k), ..s.nodes[k] },
            );
            let t = place(m.idents, notified(m, s, k));
            StateView {
                nodes: if takes_notice(m, s, k) {
                    nodes.update(t, NState { prdc: m.idents[k], ..nodes[t] })
                } else {
                    nodes
                },
                ..s
            }
        },
        ChordAction::Reconcile { node } => {
            let k = node as int;
            StateView {
                nodes: if adopts_second(m, s, k) {
                    s.nodes.update(
                        k,
                        NState { succ2: second_of(m, s, k), ..s.nodes[k] },
                    )
                } else {
                    s.nodes
                },
                ..s
            }
        },
        ChordAction::Update { node } => {
            let n = s.nodes[node as int];
            StateView {
                nodes: s.nodes.update(node as int, NState { succ: n.succ2, ..n }),
                ..s
            }
        },
        ChordAction::Flush { node } => {
            let n = s.nodes[node as int];
            StateView { nodes: s.nodes.update(node as int, NState { prdc: NONE, ..n }), ..s }
        },
    }
}

/// The state behind a step, where it is another one.
pub open spec fn next_of(m: ModelView, s: StateView, a: ChordAction) -> Option<StateView> {
    let t = outcome(m, s, a);
    if t == s {
        None
    } else {
        Some(t)
    }
}

/// The step can be taken: it names nodes of the model, no counter is at its
/// end, and there is someone to ask.
pub open spec fn action_ok(m: ModelView, s: StateView, a: ChordAction) -> bool {
    let n = s.nodes.len();
    match a {
        ChordAction::Join { node, via } => node < n && via < n && (m.schedule is Fixed
            ==> s.sched_pos < u8::MAX),
        ChordAction::Fail { node } => node < n && if m.schedule is Fixed {
            s.sched_pos < u8::MAX
        } else {
            s.fails_done < u8::MAX
        },
        ChordAction::Stabilize { node } => node < n && is_live(m, s, target_of(m, s, node as int)),
        ChordAction::Reconcile { node } => node < n && is_live(m, s, target_of(m, s, node as int)),
        ChordAction::Update { node } => node < n,
        ChordAction::Flush { node } => node < n,
    }
}

/// The schedule names nodes of the model.
pub open spec fn schedule_ok(m: ModelView) -> bool {
    m.schedule matches ScheduleView::Fixed(ev) ==> forall|i: int|
        0 <= i < ev.len() ==> match #[trigger] ev[i] {
            SchedEvent::Join(x) => m.idents.contains(x),
            SchedEvent::Fail(x) => m.idents.contains(x),
        }
}

// ---------------------------------------------------------------------------
// Doing it
// ---------------------------------------------------------------------------

pub proof fn lemma_place(v: Seq<i8>, x: i8, i: int)
    requires
        0 <= i <= v.len(),
    ensures
        i <= place_from(v, x, i) <= v.len(),
        place_from(v, x, i) < v.len() ==> v[place_from(v, x, i)] == x,
        forall|j: int| i <= j < place_from(v, x, i) ==> v[j] != x,
        (exists|j: int| i <= j < v.len() && v[j] == x) ==> place_from(v, x, i) < v.len(),
    decreases v.len() - i,
{
    if i < v.len() && v[i] != x {
        lemma_place(v, x, i + 1);
    }
}

/// Each identifier has its own place.
pub proof fn lemma_own_place(v: Seq<i8>, k: int)
    requires
        ascending(v),
        0 <= k < v.len(),
    ensures
        place(v, v[k]) == k,
{
    lemma_place(v, v[k], 0);
    let p = place(v, v[k]);
    if p < k {
        assert(v[p] < v[k]);
    }
}

/// There are no more than 256 identifiers.
pub proof fn lemma_few(v: Seq<i8>, k: int)
    requires
        ascending(v),
        0 <= k < v.len(),
    ensures
        v[k] >= k - 128,
        k <= 255,
    decreases k,
{
    if k > 0 {
        lemma_few(v, k - 1);
        assert(v[k - 1] < v[k]);
    }
}

/// What the configuration says of a node.
pub proof fn lemma_config(m: ModelView, s: StateView)
    requires
        state_ok(m, s),
    ensures
        chord::sorted(config(m, s)),
        forall|x: i8| #[trigger] is_live(m, s, x) == chord::is_live(config(m, s), x as i32),
        forall|k: int|
            0 <= k < s.nodes.len() ==> #[trigger] best(m, s, k) as i32 == chord::best(
                config(m, s),
                config(m, s)[k],
            ),
        forall|k: int|
            0 <= k < s.nodes.len() ==> chord::get(config(m, s), m.idents[k] as i32) == Some(
                #[trigger] config(m, s)[k],
            ),
{
    let c = config(m, s);
    assert forall|i: int, j: int| 0 <= i < j < c.len() implies (#[trigger] c[i]).ident < (
    #[trigger] c[j]).ident by {
        assert(m.idents[i] < m.idents[j]);
    }
    assert forall|x: i8| #[trigger] is_live(m, s, x) == chord::is_live(c, x as i32) by {
        chord::lemma_get(c, x as i32);
        lemma_place(m.idents, x, 0);
        let p = place(m.idents, x);
        if p < m.idents.len() {
            assert(c[p].ident == x as i32);
        }
        if chord::get(c, x as i32) is Some {
            let n = chord::get(c, x as i32).unwrap();
            let j = choose|j: int| 0 <= j < c.len() && c[j] == n;
            assert(m.idents[j] == x);
        }
    }
    assert forall|k: int| 0 <= k < s.nodes.len() implies #[trigger] best(m, s, k) as i32
        == chord::best(c, c[k]) by {
        let n = s.nodes[k];
        assert(is_live(m, s, n.succ) == chord::is_live(c, n.succ as i32));
        assert(is_live(m, s, n.succ2) == chord::is_live(c, n.succ2 as i32));
    }
    assert forall|k: int| 0 <= k < s.nodes.len() implies chord::get(c, m.idents[k] as i32) == Some(
        #[trigger] c[k],
    ) by {
        chord::lemma_get(c, m.idents[k] as i32);
    }
}

/// A live node is a member, and its best successor is the configuration's.
proof fn lemma_live_place(m: ModelView, s: StateView, x: i8)
    requires
        state_ok(m, s),
        is_live(m, s, x),
    ensures
        0 <= place(m.idents, x) < s.nodes.len(),
        m.idents[place(m.idents, x)] == x,
        s.nodes[place(m.idents, x)].status == Status::Member,
        best(m, s, place(m.idents, x)) as i32 == chord::best_of(config(m, s), x as i32),
{
    lemma_place(m.idents, x, 0);
    lemma_config(m, s);
    let p = place(m.idents, x);
    assert(config(m, s)[p].ident == x as i32);
}

fn position(v: &Vec<i8>, x: i8) -> (p: usize)
    ensures
        p == place(v@, x),
        p <= v@.len(),
{
    let mut i: usize = 0;
    while i < v.len()
        invariant
            i <= v@.len(),
            place(v@, x) == place_from(v@, x, i as int),
        decreases v@.len() - i,
    {
        if v[i] == x {
            return i;
        }
        i = i + 1;
    }
    i
}

fn holds(v: &Vec<i8>, x: i8) -> (b: bool)
    ensures
        b == v@.contains(x),
{
    let p: usize = position(v, x);
    proof {
        lemma_place(v@, x, 0);
        if v@.contains(x) {
            let j = choose|j: int| 0 <= j < v@.len() && v@[j] == x;
            assert(v@[j] == x);
        }
    }
    p < v.len()
}

impl ChordState {
    /// A copy.
    pub fn copy(&self) -> (r: Self)
        ensures
            r@ == self@,
    {
        let mut nodes: Vec<NState> = Vec::new();
        let mut i: usize = 0;
        while i < self.nodes.len()
            invariant
                i <= self.nodes@.len(),
                nodes@ == self.nodes@.take(i as int),
            decreases self.nodes@.len() - i,
        {
            nodes.push(self.nodes[i]);
            i = i + 1;
            assert(nodes@ =~= self.nodes@.take(i as int));
        }
        assert(nodes@ =~= self.nodes@);
        ChordState { nodes, sched_pos: self.sched_pos, fails_done: self.fails_done }
    }

    /// Whether two states are the same.
    pub fn same(&self, other: &Self) -> (b: bool)
        ensures
            b == (self@ == other@),
    {
        if self.sched_pos != other.sched_pos || self.fails_done != other.fails_done
            || self.nodes.len() != other.nodes.len() {
            return false;
        }
        let mut i: usize = 0;
        while i < self.nodes.len()
            invariant
                i <= self.nodes@.len(),
                self.nodes@.len() == other.nodes@.len(),
                forall|j: int| 0 <= j < i ==> self.nodes@[j] == other.nodes@[j],
            decreases self.nodes@.len() - i,
        {
            if self.nodes[i] != other.nodes[i] {
                return false;
            }
            i = i + 1;
        }
        assert(self.nodes@ =~= other.nodes@);
        true
    }
}

impl ChordModel {
    fn live(&self, s: &ChordState, x: i8) -> (b: bool)
        requires
            state_ok(self@, s@),
        ensures
            b == is_live(self@, s@, x),
    {
        if x < 0 {
            return false;
        }
        let p: usize = position(&self.idents, x);
        p < self.idents.len() && s.nodes[p].status == Status::Member
    }

    fn best_succ(&self, s: &ChordState, k: usize) -> (x: i8)
        requires
            state_ok(self@, s@),
            k < s@.nodes.len(),
        ensures
            x == best(self@, s@, k as int),
            x == NONE || is_live(self@, s@, x),
    {
        let n = s.nodes[k];
        if self.live(s, n.succ) {
            n.succ
        } else if self.live(s, n.succ2) {
            n.succ2
        } else {
            NONE
        }
    }

    fn arc(&self, a: i8, b: i8, c: i8) -> (r: bool)
        requires
            model_ok(self@),
        ensures
            r == btw(self@, a, b, c),
    {
        between(a as i32, b as i32, c as i32, self.m)
    }

    /// Whether best successors lead from `first` into `ring`; `n` is the
    /// number of nodes.
    fn reaches(&self, s: &ChordState, first: i8, ring: &Vec<i8>) -> (b: bool)
        requires
            state_ok(self@, s@),
            first == NONE || is_live(self@, s@, first),
        ensures
            b == chord::leads_to(config(self@, s@), first as i32, wide(ring@)),
    {
        let ghost c = config(self@, s@);
        let n: usize = s.nodes.len();
        let mut cur: i8 = first;
        let mut left: usize = n;
        proof {
            lemma_config(self@, s@);
            chord::lemma_live_of(c);
        }
        while cur != NONE && left > 0
            invariant
                state_ok(self@, s@),
                c == config(self@, s@),
                n == s@.nodes.len(),
                left <= n,
                cur == NONE || is_live(self@, s@, cur),
                cur as i32 == chord::hop(c, first as i32, (n - left) as nat),
                forall|i: nat|
                    i < n - left ==> !(wide(ring@).contains(#[trigger] chord::hop(
                        c,
                        first as i32,
                        i,
                    )) && chord::hop(c, first as i32, i) != chord::NONE),
            decreases left,
        {
            proof {
                lemma_wide(ring@, cur);
                lemma_live_place(self@, s@, cur);
            }
            if holds(ring, cur) {
                return true;
            }
            cur = self.best_succ(s, position(&self.idents, cur));
            left = left - 1;
        }
        proof {
            chord::lemma_not_led(c, first as i32, wide(ring@), (n - left) as nat);
        }
        false
    }

    /// The ring members, in order.
    fn ring_members(&self, s: &ChordState) -> (ring: Vec<i8>)
        requires
            state_ok(self@, s@),
        ensures
            wide(ring@) == chord::ring_of(config(self@, s@)),
    {
        let ghost c = config(self@, s@);
        let mut ring: Vec<i8> = Vec::new();
        let mut k: usize = 0;
        proof {
            lemma_config(self@, s@);
            assert(c.take(0) =~= Seq::<NodeState>::empty());
            assert(wide(ring@) =~= Seq::<i32>::empty());
        }
        while k < s.nodes.len()
            invariant
                k <= s@.nodes.len(),
                state_ok(self@, s@),
                c == config(self@, s@),
                wide(ring@) == chord::on_rings(c, chord::live_of(c.take(k as int))),
            decreases s@.nodes.len() - k,
        {
            let ghost t = c.take(k as int + 1);
            proof {
                assert(t.drop_last() =~= c.take(k as int));
                assert(t.last() == c[k as int]);
            }
            if s.nodes[k].status == Status::Member {
                let me: i8 = self.idents[k];
                let mut own: Vec<i8> = Vec::new();
                own.push(me);
                let first: i8 = self.best_succ(s, k);
                proof {
                    lemma_config(self@, s@);
                    assert(wide(own@) =~= seq![me as i32]);
                    chord::lemma_on_ring(c, c[k as int]);
                    let l = chord::live_of(t);
                    assert(l.drop_last() =~= chord::live_of(c.take(k as int)));
                }
                if self.reaches(s, first, &own) {
                    let ghost before = wide(ring@);
                    ring.push(me);
                    assert(wide(ring@) =~= before.push(me as i32));
                }
            }
            k = k + 1;
        }
        assert(c.take(c.len() as int) =~= c);
        ring
    }

    /// How many nodes are on the cycle through a ring member.
    fn cycle_len(&self, s: &ChordState, start: i8) -> (n: usize)
        requires
            state_ok(self@, s@),
            chord::ring_of(config(self@, s@)).contains(start as i32),
        ensures
            n == chord::lap(config(self@, s@), start as i32),
    {
        let ghost c = config(self@, s@);
        let ghost l = chord::lap(c, start as i32);
        let ghost f = chord::best_of(c, start as i32);
        proof {
            lemma_config(self@, s@);
            chord::lemma_ring_member(c, start as i32);
            chord::lemma_lap(c, start as i32);
            chord::lemma_live_of(c);
            chord::lemma_hop(c, f, (l - 1) as nat);
            assert(is_live(self@, s@, start) == chord::is_live(c, start as i32));
            lemma_live_place(self@, s@, start);
        }
        let total: usize = s.nodes.len();
        let mut n: usize = 1;
        let mut cur: i8 = self.best_succ(s, position(&self.idents, start));
        while cur != start
            invariant
                state_ok(self@, s@),
                c == config(self@, s@),
                1 <= n <= l <= total,
                start >= 0,
                f == chord::best_of(c, start as i32),
                chord::comes_back(c, start as i32, l),
                cur == NONE || is_live(self@, s@, cur),
                cur as i32 == chord::hop(c, f, (n - 1) as nat),
            decreases l - n,
        {
            proof {
                if cur == NONE {
                    chord::lemma_hop_none(c, f, (n - 1) as nat, (l - 1) as nat);
                }
                assert(n != l);
                lemma_live_place(self@, s@, cur);
            }
            cur = self.best_succ(s, position(&self.idents, cur));
            n = n + 1;
        }
        proof {
            chord::lemma_lap(c, start as i32);
            if n < l {
                assert(chord::comes_back(c, start as i32, n as int));
            }
        }
        n
    }
}

/// Identifiers as wider numbers.
pub open spec fn wide(v: Seq<i8>) -> Seq<i32> {
    v.map_values(|x: i8| x as i32)
}

proof fn lemma_wide(v: Seq<i8>, x: i8)
    ensures
        wide(v).contains(x as i32) <==> v.contains(x),
{
    if v.contains(x) {
        let i = choose|i: int| 0 <= i < v.len() && v[i] == x;
        assert(wide(v)[i] == x as i32);
    }
    if wide(v).contains(x as i32) {
        let i = choose|i: int| 0 <= i < v.len() && wide(v)[i] == x as i32;
        assert(v[i] == x);
    }
}

impl ChordModel {
    /// Whether a ring member lies between another one and its successor.
    fn disordered(&self, s: &ChordState, ring: &Vec<i8>) -> (b: bool)
        requires
            state_ok(self@, s@),
            wide(ring@) == chord::ring_of(config(self@, s@)),
        ensures
            b == (chord::disorder(
                config(self@, s@),
                wide(ring@),
                self@.m as nat,
                ring@.len() as int,
            ).len() > 0),
    {
        let ghost c = config(self@, s@);
        let ghost w = wide(ring@);
        proof {
            lemma_config(self@, s@);
            chord_laws::lemma_disorder(c, self@.m as nat, ring@.len() as int);
        }
        let mut i: usize = 0;
        while i < ring.len()
            invariant
                i <= ring@.len(),
                state_ok(self@, s@),
                c == config(self@, s@),
                w == wide(ring@),
                w == chord::ring_of(c),
                chord::sorted(c),
                chord::disorder(c, w, self@.m as nat, ring@.len() as int).len() == 0 <==> forall|
                    x: int,
                    y: int,
                |
                    0 <= x < ring@.len() && 0 <= y < w.len() ==> !chord::misplaced(
                        #[trigger] w[x],
                        chord::best_of(c, w[x]),
                        #[trigger] w[y],
                        self@.m as nat,
                    ),
                forall|x: int, y: int|
                    0 <= x < i && 0 <= y < w.len() ==> !chord::misplaced(
                        #[trigger] w[x],
                        chord::best_of(c, w[x]),
                        #[trigger] w[y],
                        self@.m as nat,
                    ),
            decreases ring@.len() - i,
        {
            let n1: i8 = ring[i];
            proof {
                assert(w[i as int] == n1 as i32);
                assert(w.contains(n1 as i32));
                chord::lemma_ring_member(c, n1 as i32);
                lemma_config(self@, s@);
                assert(is_live(self@, s@, n1) == chord::is_live(c, n1 as i32));
                lemma_ring_live(self@, s@, n1);
                lemma_live_place(self@, s@, n1);
            }
            let n2: i8 = self.best_succ(s, position(&self.idents, n1));
            let mut j: usize = 0;
            while j < ring.len()
                invariant
                    i < ring@.len(),
                    j <= ring@.len(),
                    model_ok(self@),
                    c == config(self@, s@),
                    w == wide(ring@),
                    n1 as i32 == w[i as int],
                    n2 as i32 == chord::best_of(c, n1 as i32),
                    chord::disorder(c, w, self@.m as nat, ring@.len() as int).len() == 0
                        <==> forall|x: int, y: int|
                        0 <= x < ring@.len() && 0 <= y < w.len() ==> !chord::misplaced(
                            #[trigger] w[x],
                            chord::best_of(c, w[x]),
                            #[trigger] w[y],
                            self@.m as nat,
                        ),
                    forall|y: int|
                        0 <= y < j ==> !chord::misplaced(
                            n1 as i32,
                            n2 as i32,
                            #[trigger] w[y],
                            self@.m as nat,
                        ),
                decreases ring@.len() - j,
            {
                let n3: i8 = ring[j];
                assert(w[j as int] == n3 as i32);
                if n3 != n1 && n3 != n2 && self.arc(n1, n3, n2) {
                    assert(chord::misplaced(
                        w[i as int],
                        chord::best_of(c, w[i as int]),
                        w[j as int],
                        self@.m as nat,
                    ));
                    return true;
                }
                j = j + 1;
            }
            i = i + 1;
        }
        false
    }

    /// Whether a member does not reach the ring.
    fn has_stray(&self, s: &ChordState, ring: &Vec<i8>) -> (b: bool)
        requires
            state_ok(self@, s@),
        ensures
            b == (chord::strays(
                config(self@, s@),
                wide(ring@),
                chord::live_of(config(self@, s@)),
            ).len() > 0),
    {
        let ghost c = config(self@, s@);
        let ghost w = wide(ring@);
        let ghost l = chord::live_of(c);
        proof {
            lemma_config(self@, s@);
            chord::lemma_live_of(c);
            chord_laws::lemma_strays(c, w, l);
        }
        let mut k: usize = 0;
        while k < s.nodes.len()
            invariant
                k <= s@.nodes.len(),
                state_ok(self@, s@),
                c == config(self@, s@),
                w == wide(ring@),
                l == chord::live_of(c),
                chord::sorted(c),
                forall|i: int| 0 <= i < c.len() && (#[trigger] c[i]).alive ==> l.contains(c[i]),
                chord::strays(c, w, l).len() == 0 <==> forall|i: int|
                    0 <= i < l.len() ==> !chord::astray(c, w, #[trigger] l[i]),
                forall|i: int|
                    0 <= i < k && (#[trigger] c[i]).alive ==> !chord::astray(c, w, c[i]),
            decreases s@.nodes.len() - k,
        {
            if s.nodes[k].status == Status::Member {
                let first: i8 = self.best_succ(s, k);
                proof {
                    lemma_config(self@, s@);
                    lemma_wide(ring@, self.idents@[k as int]);
                    assert(best(self@, s@, k as int) as i32 == chord::best(c, c[k as int]));
                }
                if !holds(ring, self.idents[k]) && !self.reaches(s, first, ring) {
                    proof {
                        let i = choose|i: int| 0 <= i < l.len() && l[i] == c[k as int];
                        assert(chord::astray(c, w, l[i]));
                    }
                    return true;
                }
            }
            k = k + 1;
        }
        proof {
            chord::lemma_live_of(c);
            assert forall|i: int| 0 <= i < l.len() implies !chord::astray(
                c,
                w,
                #[trigger] l[i],
            ) by {
                let j = choose|j: int| 0 <= j < c.len() && c[j] == l[i];
                assert(c[j].alive);
            }
        }
        false
    }

    /// The names of the invariants that a state violates.
    #[must_use]
    pub fn violated_invariants(&self, s: &ChordState) -> (r: Vec<&'static str>)
        requires
            state_ok(self@, s@),
        ensures
            names_of(r@) == violated(self@, s@),
    {
        let mut r: Vec<&'static str> = Vec::new();
        assert(names_of(r@) =~= Seq::<Seq<char>>::empty());
        let ring = self.ring_members(s);
        if ring.len() == 0 {
            push_name(&mut r, "AtLeastOneRing");
            assert(names_of(r@) =~= violated(self@, s@));
            return r;
        }
        proof {
            let w = wide(ring@);
            assert(w[0] == ring@[0] as i32);
            assert(w.contains(w[0]));
        }
        let cycle: usize = self.cycle_len(s, ring[0]);
        if cycle != ring.len() {
            push_name(&mut r, "AtMostOneRing");
        }
        if self.disordered(s, &ring) {
            push_name(&mut r, "OrderedRing");
        }
        if self.has_stray(s, &ring) {
            push_name(&mut r, "ConnectedAppendages");
        }
        assert(names_of(r@) =~= violated(self@, s@));
        r
    }

    /// Whether a state violates no invariant.
    #[must_use]
    pub fn invariants_hold(&self, s: &ChordState) -> (b: bool)
        requires
            state_ok(self@, s@),
        ensures
            b == (violated(self@, s@).len() == 0),
    {
        let r = self.violated_invariants(s);
        assert(names_of(r@).len() == r@.len());
        r.len() == 0
    }

    /// Whether the schedule is through and an invariant is violated.
    #[must_use]
    pub fn ends_broken(&self, s: &ChordState) -> (b: bool)
        requires
            state_ok(self@, s@),
        ensures
            b == (is_done(self@, s@) && violated(self@, s@).len() > 0),
    {
        self.schedule_done(s) && !self.invariants_hold(s)
    }

    /// Whether the schedule is through and there is no ring.
    #[must_use]
    pub fn ends_without_ring(&self, s: &ChordState) -> (b: bool)
        requires
            state_ok(self@, s@),
        ensures
            b == (is_done(self@, s@) && violated(self@, s@).contains("AtLeastOneRing"@)),
    {
        self.schedule_done(s) && is_named(&self.violated_invariants(s), "AtLeastOneRing")
    }

    /// Whether the schedule is through and a node does not reach the ring.
    #[must_use]
    pub fn ends_disconnected(&self, s: &ChordState) -> (b: bool)
        requires
            state_ok(self@, s@),
        ensures
            b == (is_done(self@, s@) && violated(self@, s@).contains("ConnectedAppendages"@)),
    {
        self.schedule_done(s) && is_named(&self.violated_invariants(s), "ConnectedAppendages")
    }

    /// Whether the schedule is through and the ring is out of order or split.
    #[must_use]
    pub fn ends_disordered(&self, s: &ChordState) -> (b: bool)
        requires
            state_ok(self@, s@),
        ensures
            b == (is_done(self@, s@) && (violated(self@, s@).contains("OrderedRing"@) || violated(
                self@,
                s@,
            ).contains("AtMostOneRing"@))),
    {
        if !self.schedule_done(s) {
            return false;
        }
        let v = self.violated_invariants(s);
        is_named(&v, "OrderedRing") || is_named(&v, "AtMostOneRing")
    }

    /// Whether every scheduled event has happened.
    #[must_use]
    pub fn schedule_done(&self, s: &ChordState) -> (b: bool)
        ensures
            b == is_done(self@, s@),
    {
        match &self.schedule {
            Schedule::Fixed(ev) => s.sched_pos as usize >= ev.len(),
            Schedule::Exhaustive => {
                if s.fails_done < self.max_fails {
                    return false;
                }
                let mut k: usize = 0;
                while k < s.nodes.len()
                    invariant
                        k <= s.nodes@.len(),
                        self@.schedule is Exhaustive,
                        s.fails_done >= self.max_fails,
                        forall|i: int|
                            0 <= i < k ==> (#[trigger] s.nodes@[i]).status != Status::Out,
                    decreases s.nodes@.len() - k,
                {
                    if s.nodes[k].status == Status::Out {
                        assert(s@.nodes[k as int].status == Status::Out);
                        return false;
                    }
                    k = k + 1;
                }
                true
            },
        }
    }

    /// The states to start from: one.
    #[must_use]
    pub fn init_states(&self) -> (r: Vec<ChordState>)
        ensures
            r@.len() == 1,
            r@[0]@ == initial(self@),
    {
        let nb: usize = self.base.len();
        let mut nodes: Vec<NState> = Vec::new();
        let mut k: usize = 0;
        while k < self.idents.len()
            invariant
                k <= self.idents@.len(),
                nb == self.base@.len(),
                nodes@ == Seq::new(k as nat, |j: int| first_node(self@, self@.idents[j])),
            decreases self.idents@.len() - k,
        {
            let x: i8 = self.idents[k];
            let i: usize = position(&self.base, x);
            let n = if i < nb {
                NState {
                    status: Status::Member,
                    succ: self.base[around(i, 1, nb)],
                    succ2: self.base[around(i, 2, nb)],
                    prdc: self.base[around(i, nb - 1, nb)],
                }
            } else {
                NState { status: Status::Out, succ: NONE, succ2: NONE, prdc: NONE }
            };
            nodes.push(n);
            k = k + 1;
            assert(nodes@ =~= Seq::new(k as nat, |j: int| first_node(self@, self@.idents[j])));
        }
        let s = ChordState { nodes, sched_pos: 0, fails_done: 0 };
        assert(s@ == initial(self@));
        let mut r: Vec<ChordState> = Vec::new();
        r.push(s);
        r
    }
}

/// `(i + d) % n`.
fn around(i: usize, d: usize, n: usize) -> (r: usize)
    requires
        i < n,
    ensures
        r == (i + d) % (n as int),
        r < n,
{
    let e: usize = d % n;
    proof {
        vstd::arithmetic::div_mod::lemma_add_mod_noop_right(i as int, d as int, n as int);
    }
    if e < n - i {
        proof {
            vstd::arithmetic::div_mod::lemma_small_mod((i + e) as nat, n as nat);
        }
        i + e
    } else {
        proof {
            let x = i + e - n;
            vstd::arithmetic::div_mod::lemma_mod_add_multiples_vanish(x, n as int);
            vstd::arithmetic::div_mod::lemma_small_mod(x as nat, n as nat);
        }
        e - (n - i)
    }
}

/// A ring member is live.
proof fn lemma_ring_live(m: ModelView, s: StateView, x: i8)
    requires
        state_ok(m, s),
        chord::ring_of(config(m, s)).contains(x as i32),
    ensures
        is_live(m, s, x),
{
    let c = config(m, s);
    lemma_config(m, s);
    let y = x as i32;
    chord::lemma_ring_member(c, y);
    let k = choose|k: int| chord::comes_back(c, y, k);
    chord::lemma_hop(c, chord::best_of(c, y), (k - 1) as nat);
    assert(is_live(m, s, x) == chord::is_live(c, x as i32));
}

fn is_named(v: &Vec<&'static str>, name: &str) -> (b: bool)
    ensures
        b == names_of(v@).contains(name@),
{
    let mut i: usize = 0;
    while i < v.len()
        invariant
            i <= v@.len(),
            forall|j: int| 0 <= j < i ==> names_of(v@)[j] != name@,
        decreases v@.len() - i,
    {
        if same_text(v[i], name) {
            assert(names_of(v@)[i as int] == name@);
            return true;
        }
        i = i + 1;
    }
    false
}

pub open spec fn names_of(v: Seq<&'static str>) -> Seq<Seq<char>> {
    v.map_values(|x: &'static str| x@)
}

fn push_name(v: &mut Vec<&'static str>, x: &'static str)
    ensures
        names_of(final(v)@) == names_of(old(v)@).push(x@),
{
    v.push(x);
    assert(names_of(v@) =~= names_of(old(v)@).push(x@));
}

fn push_when(actions: &mut Vec<ChordAction>, b: bool, a: ChordAction)
    ensures
        final(actions)@ == old(actions)@ + when(b, a),
{
    if b {
        actions.push(a);
    }
    assert(actions@ =~= old(actions)@ + when(b, a));
}

impl ChordModel {
    fn push_joins(&self, s: &ChordState, joiner: i8, actions: &mut Vec<ChordAction>)
        requires
            state_ok(self@, s@),
            self@.idents.contains(joiner),
        ensures
            final(actions)@ == old(actions)@ + joins(
                self@,
                s@,
                joiner,
                s@.nodes.len() as int,
            ),
    {
        let ghost start = actions@;
        let jk: usize = position(&self.idents, joiner);
        let mut k: usize = 0;
        assert(actions@ =~= start + joins(self@, s@, joiner, 0));
        while k < s.nodes.len()
            invariant
                k <= s@.nodes.len(),
                state_ok(self@, s@),
                jk == place(self@.idents, joiner),
                actions@ == start + joins(self@, s@, joiner, k as int),
            decreases s@.nodes.len() - k,
        {
            let n = s.nodes[k];
            if n.status == Status::Member && n.succ != NONE && self.live(s, n.succ) && self.arc(
                self.idents[k],
                joiner,
                n.succ,
            ) {
                actions.push(ChordAction::Join { node: jk as u8, via: k as u8 });
            }
            k = k + 1;
            assert(actions@ =~= start + joins(self@, s@, joiner, k as int));
        }
    }

    fn lives_on(&self, s: &ChordState, x: i8, victim: i8) -> (b: bool)
        requires
            state_ok(self@, s@),
        ensures
            b == survives(self@, s@, x, victim),
    {
        x != NONE && x != victim && self.live(s, x)
    }

    fn failure_assumption_ok(&self, s: &ChordState, victim: i8) -> (b: bool)
        requires
            state_ok(self@, s@),
        ensures
            b == may_fail(self@, s@, victim),
    {
        let mut k: usize = 0;
        while k < s.nodes.len()
            invariant
                k <= s@.nodes.len(),
                state_ok(self@, s@),
                forall|i: int|
                    0 <= i < k && (#[trigger] s@.nodes[i]).status == Status::Member
                        && self@.idents[i] != victim ==> survives(
                        self@,
                        s@,
                        s@.nodes[i].succ,
                        victim,
                    ) || survives(self@, s@, s@.nodes[i].succ2, victim),
            decreases s@.nodes.len() - k,
        {
            let n = s.nodes[k];
            if n.status == Status::Member && self.idents[k] != victim {
                if !self.lives_on(s, n.succ, victim) && !self.lives_on(s, n.succ2, victim) {
                    assert(s@.nodes[k as int].status == Status::Member);
                    return false;
                }
            }
            k = k + 1;
        }
        true
    }

    fn push_free_events(&self, s: &ChordState, actions: &mut Vec<ChordAction>)
        requires
            state_ok(self@, s@),
        ensures
            final(actions)@ == old(actions)@ + all_free_events(
                self@,
                s@,
                s@.nodes.len() as int,
            ),
    {
        let ghost start = actions@;
        let mut k: usize = 0;
        assert(actions@ =~= start + all_free_events(self@, s@, 0));
        while k < s.nodes.len()
            invariant
                k <= s@.nodes.len(),
                state_ok(self@, s@),
                actions@ == start + all_free_events(self@, s@, k as int),
            decreases s@.nodes.len() - k,
        {
            let x: i8 = self.idents[k];
            assert(self@.idents.contains(self@.idents[k as int]));
            match s.nodes[k].status {
                Status::Out => {
                    self.push_joins(s, x, actions);
                },
                Status::Member => {
                    let b: bool = !holds(&self.base, x) && s.fails_done < self.max_fails
                        && self.failure_assumption_ok(s, x);
                    push_when(actions, b, ChordAction::Fail { node: k as u8 });
                },
                Status::Dead => {},
            }
            k = k + 1;
            assert(actions@ =~= start + all_free_events(self@, s@, k as int));
        }
    }

    fn push_events(&self, s: &ChordState, actions: &mut Vec<ChordAction>)
        requires
            state_ok(self@, s@),
            schedule_ok(self@),
        ensures
            final(actions)@ == old(actions)@ + events(self@, s@),
    {
        let ghost start = actions@;
        match &self.schedule {
            Schedule::Fixed(ev) => {
                let pos: usize = s.sched_pos as usize;
                if pos < ev.len() {
                    match ev[pos] {
                        SchedEvent::Join(j) => {
                            let p: usize = position(&self.idents, j);
                            proof {
                                assert(self@.idents.contains(j)) by {
                                    assert(ev@[pos as int] == SchedEvent::Join(j));
                                }
                                lemma_named(self@.idents, j);
                            }
                            if s.nodes[p].status == Status::Out {
                                self.push_joins(s, j, actions);
                            }
                        },
                        SchedEvent::Fail(f) => {
                            let p: usize = position(&self.idents, f);
                            proof {
                                assert(self@.idents.contains(f)) by {
                                    assert(ev@[pos as int] == SchedEvent::Fail(f));
                                }
                                lemma_named(self@.idents, f);
                            }
                            if s.nodes[p].status == Status::Member && self.failure_assumption_ok(
                                s,
                                f,
                            ) {
                                actions.push(ChordAction::Fail { node: p as u8 });
                            }
                        },
                    }
                }
            },
            Schedule::Exhaustive => {
                self.push_free_events(s, actions);
            },
        }
        assert(actions@ =~= start + events(self@, s@));
    }

    /// Whom the node at `k` asks.
    fn target(&self, s: &ChordState, k: usize) -> (x: i8)
        requires
            state_ok(self@, s@),
            k < s@.nodes.len(),
        ensures
            x == target_of(self@, s@, k as int),
            x == NONE || is_live(self@, s@, x),
    {
        if self.live(s, s.nodes[k].succ) {
            s.nodes[k].succ
        } else {
            self.best_succ(s, k)
        }
    }

    /// The successor behind a stabilization, and whether it was adopted.
    fn stable(&self, s: &ChordState, k: usize, target: i8) -> (r: (i8, bool))
        requires
            state_ok(self@, s@),
            k < s@.nodes.len(),
            target == target_of(self@, s@, k as int),
            is_live(self@, s@, target),
        ensures
            r.0 == stable_succ(self@, s@, k as int),
            r.1 == adopts(self@, s@, k as int),
    {
        proof {
            lemma_live_place(self@, s@, target);
        }
        let bs: i8 = self.best_succ(s, k);
        let p: i8 = s.nodes[position(&self.idents, target)].prdc;
        let adopt: bool = p != NONE && (self.fix < 1 || self.live(s, p)) && bs != NONE && self.arc(
            self.idents[k],
            p,
            bs,
        );
        if adopt {
            (p, true)
        } else {
            (s.nodes[k].succ, false)
        }
    }

    /// Where the one is that the node at `k` notifies, if it takes notice.
    fn notice(&self, s: &ChordState, k: usize, succ: i8) -> (r: Option<usize>)
        requires
            state_ok(self@, s@),
            k < s@.nodes.len(),
            succ == stable_succ(self@, s@, k as int),
        ensures
            match r {
                Some(p) => takes_notice(self@, s@, k as int) && p == place(
                    self@.idents,
                    notified(self@, s@, k as int),
                ) && p < s@.nodes.len(),
                None => !takes_notice(self@, s@, k as int),
            },
    {
        let x: i8 = if succ == NONE {
            self.best_succ(s, k)
        } else {
            succ
        };
        if x == NONE || !self.live(s, x) {
            return None;
        }
        proof {
            lemma_live_place(self@, s@, x);
        }
        let p: usize = position(&self.idents, x);
        let q: i8 = s.nodes[p].prdc;
        if q == NONE || !self.live(s, q) || self.arc(q, self.idents[k], x) {
            Some(p)
        } else {
            None
        }
    }

    fn stabilizes(&self, s: &ChordState, k: usize) -> (b: bool)
        requires
            state_ok(self@, s@),
            k < s@.nodes.len(),
        ensures
            b == can_stabilize(self@, s@, k as int),
    {
        let t: i8 = self.target(s, k);
        if t == NONE {
            return false;
        }
        let (succ, adopt) = self.stable(s, k, t);
        if adopt && succ != s.nodes[k].succ {
            return true;
        }
        match self.notice(s, k, succ) {
            Some(p) => s.nodes[p].prdc != self.idents[k],
            None => false,
        }
    }

    /// What the target of the node at `k` reports as its successor, where the
    /// node adopts it.
    fn second(&self, s: &ChordState, k: usize, target: i8) -> (r: Option<i8>)
        requires
            state_ok(self@, s@),
            k < s@.nodes.len(),
            target == target_of(self@, s@, k as int),
            is_live(self@, s@, target),
        ensures
            match r {
                Some(a) => adopts_second(self@, s@, k as int) && a == second_of(
                    self@,
                    s@,
                    k as int,
                ),
                None => !adopts_second(self@, s@, k as int),
            },
    {
        proof {
            lemma_live_place(self@, s@, target);
        }
        let t: usize = position(&self.idents, target);
        let a: i8 = if self.fix >= 2 {
            self.best_succ(s, t)
        } else {
            s.nodes[t].succ
        };
        if a != NONE && (self.fix < 2 || self.live(s, a)) {
            Some(a)
        } else {
            None
        }
    }

    fn reconciles(&self, s: &ChordState, k: usize) -> (b: bool)
        requires
            state_ok(self@, s@),
            k < s@.nodes.len(),
        ensures
            b == can_reconcile(self@, s@, k as int),
    {
        let t: i8 = self.target(s, k);
        if t == NONE {
            return false;
        }
        match self.second(s, k, t) {
            Some(a) => s.nodes[k].succ2 != a,
            None => false,
        }
    }

    fn push_operations(&self, s: &ChordState, k: usize, actions: &mut Vec<ChordAction>)
        requires
            state_ok(self@, s@),
            k < s@.nodes.len(),
        ensures
            final(actions)@ == old(actions)@ + operations(self@, s@, k as int),
    {
        let ghost start = actions@;
        let n = s.nodes[k];
        if n.status == Status::Member {
            push_when(
                actions,
                self.stabilizes(s, k),
                ChordAction::Stabilize { node: k as u8 },
            );
            push_when(
                actions,
                self.reconciles(s, k),
                ChordAction::Reconcile { node: k as u8 },
            );
            let update: bool = !self.live(s, n.succ) && n.succ2 != NONE && (self.fix < 2
                || self.live(s, n.succ2)) && n.succ != n.succ2;
            push_when(actions, update, ChordAction::Update { node: k as u8 });
            let flush: bool = n.prdc != NONE && !self.live(s, n.prdc);
            push_when(actions, flush, ChordAction::Flush { node: k as u8 });
        }
        assert(actions@ =~= start + operations(self@, s@, k as int));
    }

    /// Append everything that can happen in a state.
    pub fn actions(&self, s: &ChordState, actions: &mut Vec<ChordAction>)
        requires
            state_ok(self@, s@),
            schedule_ok(self@),
        ensures
            final(actions)@ == old(actions)@ + possible(self@, s@),
    {
        let ghost start = actions@;
        self.push_events(s, actions);
        let ghost head = actions@;
        let mut k: usize = 0;
        assert(actions@ =~= head + all_operations(self@, s@, 0));
        while k < s.nodes.len()
            invariant
                k <= s@.nodes.len(),
                state_ok(self@, s@),
                actions@ == head + all_operations(self@, s@, k as int),
            decreases s@.nodes.len() - k,
        {
            self.push_operations(s, k, actions);
            k = k + 1;
            assert(actions@ =~= head + all_operations(self@, s@, k as int));
        }
        assert(actions@ =~= start + possible(self@, s@));
    }

    fn fixed(&self) -> (b: bool)
        ensures
            b == (self@.schedule is Fixed),
    {
        match &self.schedule {
            Schedule::Fixed(_) => true,
            Schedule::Exhaustive => false,
        }
    }

    /// The state behind a step; `None` where nothing changes.
    pub fn next_state(&self, s: &ChordState, a: ChordAction) -> (r: Option<ChordState>)
        requires
            state_ok(self@, s@),
            action_ok(self@, s@, a),
        ensures
            match r {
                Some(t) => next_of(self@, s@, a) == Some(t@),
                None => next_of(self@, s@, a) is None,
            },
    {
        let mut ns = s.copy();
        match a {
            ChordAction::Join { node, via } => {
                let n = NState {
                    status: Status::Member,
                    succ: s.nodes[via as usize].succ,
                    succ2: NONE,
                    prdc: NONE,
                };
                ns.nodes.set(node as usize, n);
                if self.fixed() {
                    ns.sched_pos = ns.sched_pos + 1;
                }
            },
            ChordAction::Fail { node } => {
                let mut n = ns.nodes[node as usize];
                n.status = Status::Dead;
                ns.nodes.set(node as usize, n);
                if self.fixed() {
                    ns.sched_pos = ns.sched_pos + 1;
                } else {
                    ns.fails_done = ns.fails_done + 1;
                }
            },
            ChordAction::Stabilize { node } => {
                let k: usize = node as usize;
                let t: i8 = self.target(s, k);
                let (succ, _) = self.stable(s, k, t);
                let mut n = ns.nodes[k];
                n.succ = succ;
                ns.nodes.set(k, n);
                if let Some(p) = self.notice(s, k, succ) {
                    let mut q = ns.nodes[p];
                    q.prdc = self.idents[k];
                    ns.nodes.set(p, q);
                }
            },
            ChordAction::Reconcile { node } => {
                let k: usize = node as usize;
                let t: i8 = self.target(s, k);
                if let Some(a2) = self.second(s, k, t) {
                    let mut n = ns.nodes[k];
                    n.succ2 = a2;
                    ns.nodes.set(k, n);
                }
            },
            ChordAction::Update { node } => {
                let mut n = ns.nodes[node as usize];
                n.succ = n.succ2;
                ns.nodes.set(node as usize, n);
            },
            ChordAction::Flush { node } => {
                let mut n = ns.nodes[node as usize];
                n.prdc = NONE;
                ns.nodes.set(node as usize, n);
            },
        }
        assert(ns@ == outcome(self@, s@, a));
        if ns.same(s) {
            None
        } else {
            Some(ns)
        }
    }
}

/// An identifier of the model has a place.
pub proof fn lemma_named(v: Seq<i8>, x: i8)
    requires
        v.contains(x),
    ensures
        0 <= place(v, x) < v.len(),
{
    lemma_place(v, x, 0);
    let i = choose|i: int| 0 <= i < v.len() && v[i] == x;
    assert(v[i] == x);
}

} // verus!
