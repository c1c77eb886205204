//! The laws of the steps of the Chord model: a search misses nothing, since all
//! that the protocol and the schedule allow is offered; and what each step does
//! to the ring.

use vstd::arithmetic::div_mod;
use vstd::arithmetic::power2::{lemma_pow2_pos, pow2};
use vstd::prelude::*;

use crate::chord;
use crate::chord_model;
use crate::chord_model::{
    ChordAction, ModelView, SchedEvent, ScheduleView, StateView, Status, NONE,
};

verus! {

// ---------------------------------------------------------------------------
// The circle
// ---------------------------------------------------------------------------

/// How far it is clockwise from `a` to `b` on the circle of `m` bits.
pub open spec fn ahead(a: int, b: int, m: nat) -> int {
    (b - a) % (pow2(m) as int)
}

proof fn lemma_ahead(a: int, b: int, m: nat)
    ensures
        ({
            let n = pow2(m) as int;
            let x = a % n;
            let y = b % n;
            &&& n > 0
            &&& 0 <= x < n
            &&& 0 <= y < n
            &&& ahead(a, b, m) == if x <= y {
                y - x
            } else {
                y - x + n
            }
        }),
{
    lemma_pow2_pos(m);
    let n = pow2(m) as int;
    let x = a % n;
    let y = b % n;
    div_mod::lemma_mod_bound(a, n);
    div_mod::lemma_mod_bound(b, n);
    div_mod::lemma_sub_mod_noop(b, a, n);
    if x <= y {
        div_mod::lemma_small_mod((y - x) as nat, n as nat);
    } else {
        div_mod::lemma_small_mod((y - x + n) as nat, n as nat);
        div_mod::lemma_mod_add_multiples_vanish(y - x, n);
    }
}

/// A point lies between two others if, going clockwise from the first, one
/// comes to it before one comes to the second; from a point all the way round
/// to itself everything else lies between.
pub proof fn law_between_is_met_first(a: int, b: int, c: int, m: nat)
    ensures
        chord::within_arc(a, b, c, m) <==> 0 < ahead(a, b, m) && (ahead(a, c, m) == 0 || ahead(
            a,
            b,
            m,
        ) < ahead(a, c, m)),
{
    lemma_ahead(a, b, m);
    lemma_ahead(a, c, m);
}

/// `b` is met before `c` going clockwise from `a`.
pub open spec fn met_first(m: ModelView, a: i8, b: i8, c: i8) -> bool {
    0 < ahead(a as int, b as int, m.m as nat) && (ahead(a as int, c as int, m.m as nat) == 0
        || ahead(a as int, b as int, m.m as nat) < ahead(a as int, c as int, m.m as nat))
}

// ---------------------------------------------------------------------------
// Members
// ---------------------------------------------------------------------------

/// `x` names a node that is a member.
pub open spec fn up(m: ModelView, s: StateView, x: i8) -> bool {
    x >= 0 && exists|j: int|
        0 <= j < s.nodes.len() && #[trigger] m.idents[j] == x && s.nodes[j].status
            == Status::Member
}

/// A pointer is good where it names a member.
pub proof fn law_live_is_member(m: ModelView, s: StateView, x: i8)
    requires
        chord_model::state_ok(m, s),
    ensures
        chord_model::is_live(m, s, x) <==> up(m, s, x),
{
    chord_model::lemma_place(m.idents, x, 0);
    let p = chord_model::place(m.idents, x);
    if up(m, s, x) {
        let j = choose|j: int|
            0 <= j < s.nodes.len() && #[trigger] m.idents[j] == x && s.nodes[j].status
                == Status::Member;
        chord_model::lemma_own_place(m.idents, j);
    }
    if chord_model::is_live(m, s, x) {
        assert(m.idents[p] == x);
    }
}

proof fn lemma_live(m: ModelView, s: StateView)
    requires
        chord_model::state_ok(m, s),
    ensures
        forall|x: i8| #[trigger] chord_model::is_live(m, s, x) <==> up(m, s, x),
{
    assert forall|x: i8| #[trigger] chord_model::is_live(m, s, x) <==> up(m, s, x) by {
        law_live_is_member(m, s, x);
    }
}

/// The node at `k` has a successor left when the one at `victim` is gone.
pub open spec fn keeps_one(m: ModelView, s: StateView, k: int, victim: int) -> bool {
    (s.nodes[k].succ != m.idents[victim] && up(m, s, s.nodes[k].succ)) || (s.nodes[k].succ2
        != m.idents[victim] && up(m, s, s.nodes[k].succ2))
}

/// The failure of the node at `victim` strands no other member.
pub open spec fn strands_nobody(m: ModelView, s: StateView, victim: int) -> bool {
    forall|k: int|
        0 <= k < s.nodes.len() && k != victim && (#[trigger] s.nodes[k]).status == Status::Member
            ==> keeps_one(m, s, k, victim)
}

proof fn lemma_may_fail(m: ModelView, s: StateView, victim: int)
    requires
        chord_model::state_ok(m, s),
        0 <= victim < s.nodes.len(),
    ensures
        chord_model::may_fail(m, s, m.idents[victim]) <==> strands_nobody(m, s, victim),
{
    lemma_live(m, s);
    let x = m.idents[victim];
    assert forall|k: int| 0 <= k < s.nodes.len() implies (#[trigger] m.idents[k] == x <==> k
        == victim) by {
        if k < victim {
            assert(m.idents[k] < m.idents[victim]);
        }
        if victim < k {
            assert(m.idents[victim] < m.idents[k]);
        }
    }
    if strands_nobody(m, s, victim) {
        assert forall|k: int|
            0 <= k < s.nodes.len() && (#[trigger] s.nodes[k]).status == Status::Member
                && m.idents[k] != x implies chord_model::survives(m, s, s.nodes[k].succ, x)
            || chord_model::survives(m, s, s.nodes[k].succ2, x) by {
            assert(keeps_one(m, s, k, victim));
        }
    }
    if chord_model::may_fail(m, s, x) {
        assert forall|k: int|
            0 <= k < s.nodes.len() && k != victim && (#[trigger] s.nodes[k]).status
                == Status::Member implies keeps_one(m, s, k, victim) by {
            assert(m.idents[k] != x);
        }
    }
}

// ---------------------------------------------------------------------------
// Sequences of actions
// ---------------------------------------------------------------------------

proof fn lemma_either(p: Seq<ChordAction>, q: Seq<ChordAction>, a: ChordAction)
    ensures
        (p + q).contains(a) <==> p.contains(a) || q.contains(a),
{
    let g = p + q;
    if p.contains(a) {
        let k = choose|k: int| 0 <= k < p.len() && p[k] == a;
        assert(g[k] == a);
    }
    if q.contains(a) {
        let k = choose|k: int| 0 <= k < q.len() && q[k] == a;
        assert(g[p.len() + k] == a);
    }
    if g.contains(a) {
        let k = choose|k: int| 0 <= k < g.len() && g[k] == a;
        if k < p.len() {
            assert(p[k] == a);
        } else {
            assert(q[k - p.len()] == a);
        }
    }
}

proof fn lemma_one(x: ChordAction, a: ChordAction)
    ensures
        seq![x].contains(a) <==> a == x,
        !Seq::<ChordAction>::empty().contains(a),
{
    assert(seq![x][0] == x);
}

proof fn lemma_joins(m: ModelView, s: StateView, node: int, n: int, a: ChordAction)
    requires
        chord_model::state_ok(m, s),
        0 <= node < s.nodes.len(),
        0 <= n <= s.nodes.len(),
    ensures
        chord_model::joins(m, s, m.idents[node], n).contains(a) <==> (a matches ChordAction::Join {
            node: x,
            via,
        } && x == node && via < n && chord_model::can_join(m, s, m.idents[node], via as int)),
    decreases n,
{
    chord_model::lemma_own_place(m.idents, node);
    chord_model::lemma_few(m.idents, node);
    if n > 0 {
        chord_model::lemma_few(m.idents, n - 1);
        lemma_joins(m, s, node, n - 1, a);
        let p = chord_model::joins(m, s, m.idents[node], n - 1);
        let x = ChordAction::Join { node: node as u8, via: (n - 1) as u8 };
        if chord_model::can_join(m, s, m.idents[node], n - 1) {
            assert(chord_model::joins(m, s, m.idents[node], n) =~= p + seq![x]);
            lemma_either(p, seq![x], a);
            lemma_one(x, a);
        }
    }
}

/// What an exhaustive schedule allows, by what it takes.
spec fn free(m: ModelView, s: StateView, k: int, a: ChordAction) -> bool {
    match a {
        ChordAction::Join { node, via } => node == k && via < s.nodes.len() && s.nodes[k].status
            == Status::Out && chord_model::can_join(m, s, m.idents[k], via as int),
        ChordAction::Fail { node } => node == k && s.nodes[k].status == Status::Member
            && !m.base.contains(m.idents[k]) && s.fails_done < m.max_fails && strands_nobody(
            m,
            s,
            k,
        ),
        _ => false,
    }
}

proof fn lemma_free(m: ModelView, s: StateView, n: int, a: ChordAction)
    requires
        chord_model::state_ok(m, s),
        0 <= n <= s.nodes.len(),
    ensures
        chord_model::all_free_events(m, s, n).contains(a) <==> exists|k: int|
            0 <= k < n && #[trigger] free(m, s, k, a),
    decreases n,
{
    if n > 0 {
        let k = n - 1;
        lemma_free(m, s, k, a);
        chord_model::lemma_few(m.idents, k);
        lemma_may_fail(m, s, k);
        lemma_joins(m, s, k, s.nodes.len() as int, a);
        lemma_one(ChordAction::Fail { node: k as u8 }, a);
        let q = chord_model::free_events(m, s, k);
        lemma_either(chord_model::all_free_events(m, s, k), q, a);
        assert(q.contains(a) <==> free(m, s, k, a));
        if free(m, s, k, a) {
            assert(0 <= k < n);
        }
    } else {
        lemma_one(a, a);
    }
}

/// What a fixed schedule allows, by what it takes.
spec fn due(m: ModelView, s: StateView, ev: Seq<SchedEvent>, a: ChordAction) -> bool {
    s.sched_pos < ev.len() && match a {
        ChordAction::Join { node, via } => node < s.nodes.len() && via < s.nodes.len()
            && ev[s.sched_pos as int] == SchedEvent::Join(m.idents[node as int])
            && s.nodes[node as int].status == Status::Out && chord_model::can_join(
            m,
            s,
            m.idents[node as int],
            via as int,
        ),
        ChordAction::Fail { node } => node < s.nodes.len() && ev[s.sched_pos as int]
            == SchedEvent::Fail(m.idents[node as int]) && s.nodes[node as int].status
            == Status::Member && strands_nobody(m, s, node as int),
        _ => false,
    }
}

proof fn lemma_due(m: ModelView, s: StateView, a: ChordAction)
    requires
        chord_model::state_ok(m, s),
        chord_model::schedule_ok(m),
        m.schedule is Fixed,
    ensures
        chord_model::events(m, s).contains(a) <==> due(m, s, m.schedule->Fixed_0, a),
{
    let ev = m.schedule->Fixed_0;
    lemma_one(a, a);
    if s.sched_pos < ev.len() {
        let x = match ev[s.sched_pos as int] {
            SchedEvent::Join(x) => x,
            SchedEvent::Fail(x) => x,
        };
        assert(m.idents.contains(x));
        let p = choose|p: int| 0 <= p < m.idents.len() && m.idents[p] == x;
        chord_model::lemma_own_place(m.idents, p);
        chord_model::lemma_few(m.idents, p);
        lemma_joins(m, s, p, s.nodes.len() as int, a);
        lemma_may_fail(m, s, p);
        lemma_one(ChordAction::Fail { node: p as u8 }, a);
        let named: Option<u8> = match a {
            ChordAction::Join { node, .. } => Some(node),
            ChordAction::Fail { node } => Some(node),
            _ => None,
        };
        if named is Some && named.unwrap() < s.nodes.len() {
            let q = named.unwrap() as int;
            chord_model::lemma_own_place(m.idents, q);
        }
    }
}

/// What a member can do by itself, by what it takes.
spec fn own(m: ModelView, s: StateView, k: int, a: ChordAction) -> bool {
    s.nodes[k].status == Status::Member && match a {
        ChordAction::Stabilize { node } => node == k && chord_model::can_stabilize(m, s, k),
        ChordAction::Reconcile { node } => node == k && chord_model::can_reconcile(m, s, k),
        ChordAction::Update { node } => node == k && chord_model::can_update(m, s, k),
        ChordAction::Flush { node } => node == k && chord_model::can_flush(m, s, k),
        _ => false,
    }
}

proof fn lemma_when(b: bool, x: ChordAction, a: ChordAction)
    ensures
        chord_model::when(b, x).contains(a) <==> b && a == x,
{
    lemma_one(x, a);
}

proof fn lemma_own(m: ModelView, s: StateView, n: int, a: ChordAction)
    requires
        chord_model::state_ok(m, s),
        0 <= n <= s.nodes.len(),
    ensures
        chord_model::all_operations(m, s, n).contains(a) <==> exists|k: int|
            0 <= k < n && #[trigger] own(m, s, k, a),
    decreases n,
{
    lemma_one(a, a);
    if n > 0 {
        let k = n - 1;
        lemma_own(m, s, k, a);
        chord_model::lemma_few(m.idents, k);
        let b1 = chord_model::can_stabilize(m, s, k);
        let b2 = chord_model::can_reconcile(m, s, k);
        let b3 = chord_model::can_update(m, s, k);
        let b4 = chord_model::can_flush(m, s, k);
        let x1 = ChordAction::Stabilize { node: k as u8 };
        let x2 = ChordAction::Reconcile { node: k as u8 };
        let x3 = ChordAction::Update { node: k as u8 };
        let x4 = ChordAction::Flush { node: k as u8 };
        let w1 = chord_model::when(b1, x1);
        let w2 = chord_model::when(b2, x2);
        let w3 = chord_model::when(b3, x3);
        let w4 = chord_model::when(b4, x4);
        lemma_when(b1, x1, a);
        lemma_when(b2, x2, a);
        lemma_when(b3, x3, a);
        lemma_when(b4, x4, a);
        lemma_either(w1, w2, a);
        lemma_either(w1 + w2, w3, a);
        lemma_either(w1 + w2 + w3, w4, a);
        let q = chord_model::operations(m, s, k);
        lemma_either(chord_model::all_operations(m, s, k), q, a);
        assert(q.contains(a) <==> own(m, s, k, a));
        if own(m, s, k, a) {
            assert(0 <= k < n);
        }
    }
}

proof fn lemma_offered(m: ModelView, s: StateView, a: ChordAction)
    requires
        chord_model::state_ok(m, s),
        chord_model::schedule_ok(m),
    ensures
        chord_model::possible(m, s).contains(a) <==> (exists|k: int|
            0 <= k < s.nodes.len() && #[trigger] own(m, s, k, a)) || match m.schedule {
            ScheduleView::Fixed(ev) => due(m, s, ev, a),
            ScheduleView::Exhaustive => exists|k: int|
                0 <= k < s.nodes.len() && #[trigger] free(m, s, k, a),
        },
{
    let n = s.nodes.len() as int;
    lemma_either(chord_model::events(m, s), chord_model::all_operations(m, s, n), a);
    lemma_own(m, s, n, a);
    match m.schedule {
        ScheduleView::Fixed(ev) => {
            lemma_due(m, s, a);
        },
        ScheduleView::Exhaustive => {
            lemma_free(m, s, n, a);
        },
    }
}

// ---------------------------------------------------------------------------
// All that can happen is offered
// ---------------------------------------------------------------------------

/// A failure is offered if and only if the node is a member, its failure leaves
/// every other member a live successor, and it is the schedule's turn: that of
/// the node, where the schedule is fixed; else that of any node outside the
/// base, as long as failures are left.
pub proof fn law_every_failure_is_offered(m: ModelView, s: StateView, node: u8)
    requires
        chord_model::state_ok(m, s),
        chord_model::schedule_ok(m),
        node < s.nodes.len(),
    ensures
        m.schedule is Exhaustive ==> (chord_model::possible(m, s).contains(
            ChordAction::Fail { node },
        ) <==> s.nodes[node as int].status == Status::Member && !m.base.contains(
            m.idents[node as int],
        ) && s.fails_done < m.max_fails && strands_nobody(m, s, node as int)),
        m.schedule matches ScheduleView::Fixed(ev) ==> (chord_model::possible(m, s).contains(
            ChordAction::Fail { node },
        ) <==> s.nodes[node as int].status == Status::Member && s.sched_pos < ev.len()
            && ev[s.sched_pos as int] == SchedEvent::Fail(m.idents[node as int]) && strands_nobody(
            m,
            s,
            node as int,
        )),
{
    let a = ChordAction::Fail { node };
    lemma_offered(m, s, a);
    if free(m, s, node as int, a) {
        assert(0 <= node as int);
    }
}

/// A join is offered if and only if the node has not joined, the member that it
/// joins behind has a live successor, the node lies between the two, and it is
/// the schedule's turn.
pub proof fn law_every_join_is_offered(m: ModelView, s: StateView, node: u8, behind: u8)
    requires
        chord_model::state_ok(m, s),
        chord_model::schedule_ok(m),
        node < s.nodes.len(),
        behind < s.nodes.len(),
    ensures
        chord_model::possible(m, s).contains(ChordAction::Join { node, via: behind }) <==> {
            let v = s.nodes[behind as int];
            &&& s.nodes[node as int].status == Status::Out
            &&& v.status == Status::Member
            &&& up(m, s, v.succ)
            &&& met_first(m, m.idents[behind as int], m.idents[node as int], v.succ)
            &&& m.schedule matches ScheduleView::Fixed(ev) ==> s.sched_pos < ev.len()
                && ev[s.sched_pos as int] == SchedEvent::Join(m.idents[node as int])
        },
{
    let a = ChordAction::Join { node, via: behind };
    let v = s.nodes[behind as int];
    lemma_offered(m, s, a);
    law_live_is_member(m, s, v.succ);
    law_between_is_met_first(
        m.idents[behind as int] as int,
        m.idents[node as int] as int,
        v.succ as int,
        m.m as nat,
    );
    if free(m, s, node as int, a) {
        assert(0 <= node as int);
    }
}

/// The one that a node asks: the first of its two successors that is a member
/// stands at `j`.
pub open spec fn asks(m: ModelView, s: StateView, k: int, j: int) -> bool {
    0 <= j < s.nodes.len() && s.nodes[j].status == Status::Member && m.idents[j] >= 0 && (
    m.idents[j] == s.nodes[k].succ || (!up(m, s, s.nodes[k].succ) && m.idents[j]
        == s.nodes[k].succ2))
}

proof fn lemma_asks(m: ModelView, s: StateView, k: int, j: int)
    requires
        chord_model::state_ok(m, s),
        0 <= k < s.nodes.len(),
        asks(m, s, k, j),
    ensures
        chord_model::target_of(m, s, k) == m.idents[j],
        chord_model::best(m, s, k) == m.idents[j],
        chord_model::place(m.idents, m.idents[j]) == j,
        chord_model::is_live(m, s, m.idents[j]),
{
    lemma_live(m, s);
    chord_model::lemma_own_place(m.idents, j);
    assert(up(m, s, m.idents[j]));
}

proof fn lemma_asks_nobody(m: ModelView, s: StateView, k: int)
    requires
        chord_model::state_ok(m, s),
        0 <= k < s.nodes.len(),
        chord_model::is_live(m, s, chord_model::target_of(m, s, k)),
    ensures
        exists|j: int| asks(m, s, k, j),
{
    lemma_live(m, s);
    let t = chord_model::target_of(m, s, k);
    let j = choose|j: int|
        0 <= j < s.nodes.len() && #[trigger] m.idents[j] == t && s.nodes[j].status
            == Status::Member;
    assert(asks(m, s, k, j));
}

/// Every stabilization, reconciliation, update and flush of a member is offered
/// where it changes the state: the first two as long as one of the successors
/// is live, an update past a dead successor alone and, with checked pointers,
/// to a live one, a flush of a dead predecessor alone. Nothing else is offered.
pub proof fn law_every_useful_step_is_offered(m: ModelView, s: StateView, node: u8)
    requires
        chord_model::state_ok(m, s),
        chord_model::schedule_ok(m),
        node < s.nodes.len(),
    ensures
        ({
            let k = node as int;
            let n = s.nodes[k];
            let there = n.status == Status::Member;
            let heard = exists|j: int| asks(m, s, k, j);
            let can = chord_model::possible(m, s);
            &&& (can.contains(ChordAction::Stabilize { node }) <==> there && heard
                && chord_model::next_of(m, s, ChordAction::Stabilize { node }) is Some)
            &&& (can.contains(ChordAction::Reconcile { node }) <==> there && heard
                && chord_model::next_of(m, s, ChordAction::Reconcile { node }) is Some)
            &&& (can.contains(ChordAction::Update { node }) <==> there && !up(m, s, n.succ)
                && n.succ2 != NONE && n.succ != n.succ2 && (m.fix >= 2 ==> up(m, s, n.succ2)))
            &&& (can.contains(ChordAction::Flush { node }) <==> there && n.prdc != NONE && !up(
                m,
                s,
                n.prdc,
            ))
        }),
{
    let k = node as int;
    let n = s.nodes[k];
    let a1 = ChordAction::Stabilize { node };
    let a2 = ChordAction::Reconcile { node };
    let a3 = ChordAction::Update { node };
    let a4 = ChordAction::Flush { node };
    lemma_offered(m, s, a1);
    lemma_offered(m, s, a2);
    lemma_offered(m, s, a3);
    lemma_offered(m, s, a4);
    lemma_live(m, s);
    law_live_is_member(m, s, n.succ);
    law_live_is_member(m, s, n.succ2);
    law_live_is_member(m, s, n.prdc);
    let can = chord_model::possible(m, s);
    assert(can.contains(a1) <==> own(m, s, k, a1));
    assert(can.contains(a2) <==> own(m, s, k, a2));
    assert(can.contains(a3) <==> own(m, s, k, a3));
    assert(can.contains(a4) <==> own(m, s, k, a4));
    if n.status == Status::Member {
        if exists|j: int| asks(m, s, k, j) {
            let j = choose|j: int| asks(m, s, k, j);
            lemma_asks(m, s, k, j);
        }
        if chord_model::is_live(m, s, chord_model::target_of(m, s, k)) {
            lemma_asks_nobody(m, s, k);
            lemma_useful(m, s, k);
        }
    }
}

proof fn lemma_useful(m: ModelView, s: StateView, k: int)
    requires
        chord_model::state_ok(m, s),
        0 <= k < s.nodes.len(),
        k <= 255,
        chord_model::is_live(m, s, chord_model::target_of(m, s, k)),
    ensures
        chord_model::can_stabilize(m, s, k) <==> chord_model::next_of(
            m,
            s,
            ChordAction::Stabilize { node: k as u8 },
        ) is Some,
        chord_model::can_reconcile(m, s, k) <==> chord_model::next_of(
            m,
            s,
            ChordAction::Reconcile { node: k as u8 },
        ) is Some,
{
    let a = ChordAction::Stabilize { node: k as u8 };
    let t = chord_model::outcome(m, s, a);
    let x = chord_model::notified(m, s, k);
    let p = chord_model::place(m.idents, x);
    chord_model::lemma_place(m.idents, x, 0);
    if chord_model::can_stabilize(m, s, k) {
        if chord_model::takes_notice(m, s, k) && s.nodes[p].prdc != m.idents[k] {
            assert(t.nodes[p].prdc != s.nodes[p].prdc);
        } else {
            assert(t.nodes[k].succ != s.nodes[k].succ);
        }
    } else {
        assert(t.nodes =~= s.nodes);
    }
    let b = ChordAction::Reconcile { node: k as u8 };
    let u = chord_model::outcome(m, s, b);
    if chord_model::can_reconcile(m, s, k) {
        assert(u.nodes[k].succ2 != s.nodes[k].succ2);
    } else {
        assert(u.nodes =~= s.nodes);
    }
}

// ---------------------------------------------------------------------------
// What a step does
// ---------------------------------------------------------------------------

/// Nothing but the node at `k` is different, and of the schedule nothing is
/// done.
pub open spec fn only_node(s: StateView, t: StateView, k: int) -> bool {
    &&& t.nodes.len() == s.nodes.len()
    &&& forall|i: int| 0 <= i < s.nodes.len() && i != k ==> #[trigger] t.nodes[i] == s.nodes[i]
    &&& t.sched_pos == s.sched_pos
    &&& t.fails_done == s.fails_done
}

/// At the start the base is a ring: each of its nodes is a member that points
/// to the next, to the one behind that, and back to the one before, round the
/// base. All others are out and know nobody. Nothing of the schedule is done.
pub proof fn law_start_is_the_base_ring(m: ModelView, k: int, i: int)
    requires
        chord_model::model_ok(m),
        0 <= k < m.idents.len(),
        chord_model::ascending(m.base),
    ensures
        ({
            let s = chord_model::initial(m);
            let n = s.nodes[k];
            let nb = m.base.len() as int;
            &&& s.nodes.len() == m.idents.len()
            &&& s.sched_pos == 0 && s.fails_done == 0
            &&& 0 <= i < nb && m.base[i] == m.idents[k] ==> {
                &&& n.status == Status::Member
                &&& n.succ == (if i + 1 < nb {
                    m.base[i + 1]
                } else {
                    m.base[0]
                })
                &&& n.prdc == (if i > 0 {
                    m.base[i - 1]
                } else {
                    m.base[nb - 1]
                })
                &&& i + 2 < nb ==> n.succ2 == m.base[i + 2]
                &&& i + 2 == nb ==> n.succ2 == m.base[0]
                &&& nb > 1 && i + 1 == nb ==> n.succ2 == m.base[1]
                &&& nb == 1 ==> n.succ2 == m.base[0]
            }
            &&& !m.base.contains(m.idents[k]) ==> n.status == Status::Out && n.succ == NONE
                && n.succ2 == NONE && n.prdc == NONE
        }),
{
    let nb = m.base.len() as int;
    chord_model::lemma_place(m.base, m.idents[k], 0);
    if 0 <= i < nb && m.base[i] == m.idents[k] {
        chord_model::lemma_own_place(m.base, i);
        if i + 1 < nb {
            div_mod::lemma_small_mod((i + 1) as nat, nb as nat);
        } else {
            div_mod::lemma_mod_self_0(nb);
        }
        if i + 2 < nb {
            div_mod::lemma_small_mod((i + 2) as nat, nb as nat);
        } else if i + 2 == nb {
            div_mod::lemma_mod_self_0(nb);
        } else {
            div_mod::lemma_mod_add_multiples_vanish(1, nb);
            if nb > 1 {
                div_mod::lemma_small_mod(1, nb as nat);
            } else {
                div_mod::lemma_mod_self_0(1);
            }
        }
        if i > 0 {
            div_mod::lemma_mod_add_multiples_vanish(i - 1, nb);
            div_mod::lemma_small_mod((i - 1) as nat, nb as nat);
        } else {
            div_mod::lemma_small_mod((nb - 1) as nat, nb as nat);
        }
    }
    let p = chord_model::place(m.base, m.idents[k]);
    if p < nb {
        assert(m.base.contains(m.base[p]));
    }
}

/// A node that joins becomes a member in front of the successor of the one that
/// it joins behind, and knows nobody else. It takes its turn in the schedule.
pub proof fn law_join(m: ModelView, s: StateView, node: u8, behind: u8)
    requires
        chord_model::state_ok(m, s),
        node < s.nodes.len(),
        behind < s.nodes.len(),
        s.sched_pos < u8::MAX,
    ensures
        ({
            let t = chord_model::outcome(m, s, ChordAction::Join { node, via: behind });
            let n = t.nodes[node as int];
            &&& n.status == Status::Member
            &&& n.succ == s.nodes[behind as int].succ
            &&& n.succ2 == NONE
            &&& n.prdc == NONE
            &&& only_node(s, StateView { sched_pos: s.sched_pos, ..t }, node as int)
            &&& t.sched_pos == s.sched_pos + if m.schedule is Fixed {
                1int
            } else {
                0
            }
        }),
{
}

/// A node that fails is dead and keeps its pointers. It takes its turn in the
/// schedule, or is one of the failures that there may be.
pub proof fn law_failure(m: ModelView, s: StateView, node: u8)
    requires
        chord_model::state_ok(m, s),
        node < s.nodes.len(),
        s.sched_pos < u8::MAX,
        s.fails_done < u8::MAX,
    ensures
        ({
            let t = chord_model::outcome(m, s, ChordAction::Fail { node });
            let n = t.nodes[node as int];
            let o = s.nodes[node as int];
            &&& n.status == Status::Dead
            &&& n.succ == o.succ && n.succ2 == o.succ2 && n.prdc == o.prdc
            &&& only_node(
                s,
                StateView { sched_pos: s.sched_pos, fails_done: s.fails_done, ..t },
                node as int,
            )
            &&& m.schedule is Fixed ==> t.sched_pos == s.sched_pos + 1 && t.fails_done
                == s.fails_done
            &&& m.schedule is Exhaustive ==> t.sched_pos == s.sched_pos && t.fails_done
                == s.fails_done + 1
        }),
{
}

/// The predecessor of the one at `j` that is asked is closer to the node at
/// `k`, and with checked pointers a member.
pub open spec fn closer(m: ModelView, s: StateView, k: int, j: int) -> bool {
    let p = s.nodes[j].prdc;
    p != NONE && (m.fix >= 1 ==> up(m, s, p)) && met_first(m, m.idents[k], p, m.idents[j])
}

/// The node at `l` takes the one at `k` as its predecessor: it has none, or a
/// dead one, or one that lies farther off.
pub open spec fn welcomes(m: ModelView, s: StateView, l: int, k: int) -> bool {
    let p = s.nodes[l].prdc;
    p == NONE || !up(m, s, p) || met_first(m, p, m.idents[k], m.idents[l])
}

/// A node that stabilizes takes the predecessor of the one it asks as its
/// successor where that is closer, else keeps the one it has. It shows itself
/// to that one, or to the one it asked where it has none, which takes it as
/// predecessor where it has no better one. Nothing else changes.
#[verifier::spinoff_prover]
#[verifier::rlimit(30)]
pub proof fn law_stabilize(m: ModelView, s: StateView, node: u8, j: int, l: int, i: int)
    requires
        chord_model::state_ok(m, s),
        node < s.nodes.len(),
        asks(m, s, node as int, j),
        0 <= l < s.nodes.len(),
        0 <= i < s.nodes.len(),
    ensures
        ({
            let k = node as int;
            let t = chord_model::outcome(m, s, ChordAction::Stabilize { node });
            let succ = if closer(m, s, k, j) {
                s.nodes[j].prdc
            } else {
                s.nodes[k].succ
            };
            let shown = m.idents[l] == (if succ == NONE {
                m.idents[j]
            } else {
                succ
            });
            &&& t.nodes.len() == s.nodes.len()
            &&& t.nodes[k].succ == succ
            &&& t.nodes[l].prdc == (if shown && up(m, s, m.idents[l]) && welcomes(m, s, l, k) {
                m.idents[k]
            } else {
                s.nodes[l].prdc
            })
            &&& i != k ==> t.nodes[i].succ == s.nodes[i].succ
            &&& t.nodes[i].status == s.nodes[i].status
            &&& t.nodes[i].succ2 == s.nodes[i].succ2
            &&& t.sched_pos == s.sched_pos && t.fails_done == s.fails_done
        }),
{
    let k = node as int;
    lemma_asks(m, s, k, j);
    lemma_live(m, s);
    let p = s.nodes[j].prdc;
    law_live_is_member(m, s, p);
    law_live_is_member(m, s, m.idents[l]);
    law_live_is_member(m, s, s.nodes[l].prdc);
    law_between_is_met_first(
        m.idents[k] as int,
        p as int,
        m.idents[j] as int,
        m.m as nat,
    );
    law_between_is_met_first(
        s.nodes[l].prdc as int,
        m.idents[k] as int,
        m.idents[l] as int,
        m.m as nat,
    );
    assert(chord_model::adopts(m, s, k) <==> closer(m, s, k, j));
    let x = chord_model::notified(m, s, k);
    chord_model::lemma_place(m.idents, x, 0);
    chord_model::lemma_own_place(m.idents, l);
    let q = chord_model::place(m.idents, x);
    if m.idents[l] == x {
        assert(q == l);
        assert(chord_model::takes_notice(m, s, k) <==> up(m, s, m.idents[l]) && welcomes(
            m,
            s,
            l,
            k,
        ));
    } else {
        assert(q < s.nodes.len() ==> q != l);
        if chord_model::takes_notice(m, s, k) {
            assert(chord_model::is_live(m, s, x));
            assert(q < s.nodes.len());
        }
    }
}

/// A node that reconciles takes the successor of the one it asks as its second:
/// the first live one with checked pointers, else the one that stands first,
/// be it live or not. Where there is none, it keeps its own.
pub proof fn law_reconcile(m: ModelView, s: StateView, node: u8, j: int)
    requires
        chord_model::state_ok(m, s),
        node < s.nodes.len(),
        asks(m, s, node as int, j),
    ensures
        ({
            let k = node as int;
            let o = s.nodes[j];
            let t = chord_model::outcome(m, s, ChordAction::Reconcile { node });
            let n = t.nodes[k];
            &&& n.status == s.nodes[k].status && n.succ == s.nodes[k].succ && n.prdc
                == s.nodes[k].prdc
            &&& only_node(s, t, k)
            &&& m.fix < 2 ==> n.succ2 == (if o.succ != NONE {
                o.succ
            } else {
                s.nodes[k].succ2
            })
            &&& m.fix >= 2 ==> n.succ2 == (if up(m, s, o.succ) {
                o.succ
            } else if up(m, s, o.succ2) {
                o.succ2
            } else {
                s.nodes[k].succ2
            })
        }),
{
    let k = node as int;
    lemma_asks(m, s, k, j);
    law_live_is_member(m, s, s.nodes[j].succ);
    law_live_is_member(m, s, s.nodes[j].succ2);
}

/// An update puts the second successor in the place of the first; a flush
/// drops the predecessor.
pub proof fn law_update_and_flush(m: ModelView, s: StateView, node: u8)
    requires
        chord_model::state_ok(m, s),
        node < s.nodes.len(),
    ensures
        ({
            let o = s.nodes[node as int];
            let t = chord_model::outcome(m, s, ChordAction::Update { node });
            let u = chord_model::outcome(m, s, ChordAction::Flush { node });
            let n = t.nodes[node as int];
            let f = u.nodes[node as int];
            &&& n.succ == o.succ2 && n.succ2 == o.succ2 && n.prdc == o.prdc && n.status == o.status
            &&& only_node(s, t, node as int)
            &&& f.prdc == NONE && f.succ == o.succ && f.succ2 == o.succ2 && f.status == o.status
            &&& only_node(s, u, node as int)
        }),
{
}

/// A schedule is through when nothing of it is left: every event of a fixed
/// one, else every failure that there may be and every join.
pub proof fn law_schedule_is_through(m: ModelView, s: StateView)
    ensures
        m.schedule matches ScheduleView::Fixed(ev) ==> (chord_model::is_done(m, s) <==> ev.len()
            <= s.sched_pos),
        m.schedule is Exhaustive ==> (chord_model::is_done(m, s) <==> m.max_fails <= s.fails_done
            && !exists|k: int|
            0 <= k < s.nodes.len() && (#[trigger] s.nodes[k]).status == Status::Out),
{
}

} // verus!
