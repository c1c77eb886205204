//! Laws of the Chord model: what is offered can be done, and where every
//! pointer is checked before it is taken, no path loses the ring or cuts a
//! member off from it.

use vstd::prelude::*;

use crate::chord;
use crate::chord::NodeState;
use crate::chord_laws;
use crate::chord_model;
use crate::chord_model::{ChordAction, ModelView, SchedEvent, ScheduleView, StateView, Status};

verus! {

// ---------------------------------------------------------------------------
// What is offered
// ---------------------------------------------------------------------------

/// Why the schedule lets a node join now.
pub open spec fn join_due(m: ModelView, s: StateView, node: int) -> bool {
    match m.schedule {
        ScheduleView::Fixed(ev) => s.sched_pos < ev.len() && ev[s.sched_pos as int]
            == SchedEvent::Join(m.idents[node]),
        ScheduleView::Exhaustive => true,
    }
}

/// Why the schedule lets a node fail now.
pub open spec fn failure_due(m: ModelView, s: StateView, node: int) -> bool {
    match m.schedule {
        ScheduleView::Fixed(ev) => s.sched_pos < ev.len() && ev[s.sched_pos as int]
            == SchedEvent::Fail(m.idents[node]),
        ScheduleView::Exhaustive => !m.base.contains(m.idents[node]) && s.fails_done < m.max_fails,
    }
}

/// What has to hold for an action to be offered.
pub open spec fn enabled(m: ModelView, s: StateView, a: ChordAction) -> bool {
    let n = s.nodes.len();
    match a {
        ChordAction::Join { node, via } => node < n && via < n && s.nodes[node as int].status
            == Status::Out && chord_model::can_join(m, s, m.idents[node as int], via as int)
            && join_due(m, s, node as int),
        ChordAction::Fail { node } => node < n && s.nodes[node as int].status == Status::Member
            && chord_model::may_fail(m, s, m.idents[node as int]) && failure_due(
            m,
            s,
            node as int,
        ),
        ChordAction::Stabilize { node } => node < n && s.nodes[node as int].status
            == Status::Member && chord_model::can_stabilize(m, s, node as int),
        ChordAction::Reconcile { node } => node < n && s.nodes[node as int].status
            == Status::Member && chord_model::can_reconcile(m, s, node as int),
        ChordAction::Update { node } => node < n && s.nodes[node as int].status == Status::Member
            && chord_model::can_update(m, s, node as int),
        ChordAction::Flush { node } => node < n && s.nodes[node as int].status == Status::Member
            && chord_model::can_flush(m, s, node as int),
    }
}

proof fn lemma_joins(m: ModelView, s: StateView, joiner: i8, n: int, a: ChordAction)
    requires
        chord_model::state_ok(m, s),
        0 <= n <= s.nodes.len(),
        chord_model::joins(m, s, joiner, n).contains(a),
    ensures
        a matches ChordAction::Join { node, via } && node == chord_model::place(
            m.idents,
            joiner,
        ) as u8 && via < n && chord_model::can_join(m, s, joiner, via as int),
    decreases n,
{
    if n > 0 {
        chord_model::lemma_few(m.idents, n - 1);
        let q = chord_model::joins(m, s, joiner, n - 1);
        let all = chord_model::joins(m, s, joiner, n);
        let i = choose|i: int| 0 <= i < all.len() && all[i] == a;
        if i < q.len() {
            assert(q[i] == a);
            lemma_joins(m, s, joiner, n - 1, a);
        }
    }
}

proof fn lemma_free_events(m: ModelView, s: StateView, n: int, a: ChordAction)
    requires
        chord_model::state_ok(m, s),
        m.schedule is Exhaustive,
        0 <= n <= s.nodes.len(),
        chord_model::all_free_events(m, s, n).contains(a),
    ensures
        enabled(m, s, a),
    decreases n,
{
    if n > 0 {
        let k = n - 1;
        chord_model::lemma_few(m.idents, k);
        chord_model::lemma_own_place(m.idents, k);
        let p = chord_model::all_free_events(m, s, k);
        let q = chord_model::free_events(m, s, k);
        let i = choose|i: int| 0 <= i < (p + q).len() && (p + q)[i] == a;
        if i < p.len() {
            assert(p[i] == a);
            lemma_free_events(m, s, k, a);
        } else {
            assert(q[i - p.len()] == a);
            if s.nodes[k].status == Status::Out {
                lemma_joins(m, s, m.idents[k], s.nodes.len() as int, a);
            }
        }
    }
}

proof fn lemma_events(m: ModelView, s: StateView, a: ChordAction)
    requires
        chord_model::state_ok(m, s),
        chord_model::schedule_ok(m),
        chord_model::events(m, s).contains(a),
    ensures
        enabled(m, s, a),
{
    match m.schedule {
        ScheduleView::Fixed(ev) => {
            let e = ev[s.sched_pos as int];
            let x = match e {
                SchedEvent::Join(x) => x,
                SchedEvent::Fail(x) => x,
            };
            assert(m.idents.contains(x));
            chord_model::lemma_named(m.idents, x);
            let p = chord_model::place(m.idents, x);
            chord_model::lemma_place(m.idents, x, 0);
            chord_model::lemma_few(m.idents, p);
            if e is Join {
                lemma_joins(m, s, x, s.nodes.len() as int, a);
            } else {
                assert(chord_model::events(m, s)[0] == a);
            }
        },
        ScheduleView::Exhaustive => {
            lemma_free_events(m, s, s.nodes.len() as int, a);
        },
    }
}

proof fn lemma_either(p: Seq<ChordAction>, q: Seq<ChordAction>, a: ChordAction)
    requires
        (p + q).contains(a),
    ensures
        p.contains(a) || q.contains(a),
{
    let i = choose|i: int| 0 <= i < (p + q).len() && (p + q)[i] == a;
    if i < p.len() {
        assert(p[i] == a);
    } else {
        assert(q[i - p.len()] == a);
    }
}

proof fn lemma_operations(m: ModelView, s: StateView, n: int, a: ChordAction)
    requires
        chord_model::state_ok(m, s),
        0 <= n <= s.nodes.len(),
        chord_model::all_operations(m, s, n).contains(a),
    ensures
        enabled(m, s, a),
    decreases n,
{
    if n > 0 {
        let k = n - 1;
        chord_model::lemma_few(m.idents, k);
        lemma_either(
            chord_model::all_operations(m, s, k),
            chord_model::operations(m, s, k),
            a,
        );
        if chord_model::all_operations(m, s, k).contains(a) {
            lemma_operations(m, s, k, a);
        } else {
            let w1 = chord_model::when(
                chord_model::can_stabilize(m, s, k),
                ChordAction::Stabilize { node: k as u8 },
            );
            let w2 = chord_model::when(
                chord_model::can_reconcile(m, s, k),
                ChordAction::Reconcile { node: k as u8 },
            );
            let w3 = chord_model::when(
                chord_model::can_update(m, s, k),
                ChordAction::Update { node: k as u8 },
            );
            let w4 = chord_model::when(
                chord_model::can_flush(m, s, k),
                ChordAction::Flush { node: k as u8 },
            );
            lemma_either(w1 + w2 + w3, w4, a);
            if (w1 + w2 + w3).contains(a) {
                lemma_either(w1 + w2, w3, a);
                if (w1 + w2).contains(a) {
                    lemma_either(w1, w2, a);
                }
            }
        }
    }
}

/// What is offered changes something.
proof fn lemma_changes(m: ModelView, s: StateView, a: ChordAction)
    requires
        chord_model::state_ok(m, s),
        enabled(m, s, a),
    ensures
        chord_model::outcome(m, s, a) != s,
{
    let t = chord_model::outcome(m, s, a);
    match a {
        ChordAction::Join { node, via } => {
            assert(t.nodes[node as int].status != s.nodes[node as int].status);
        },
        ChordAction::Fail { node } => {
            assert(t.nodes[node as int].status != s.nodes[node as int].status);
        },
        ChordAction::Stabilize { node } => {
            let k = node as int;
            let j = chord_model::place(m.idents, chord_model::notified(m, s, k));
            chord_model::lemma_place(m.idents, chord_model::notified(m, s, k), 0);
            if chord_model::takes_notice(m, s, k) && s.nodes[j].prdc != m.idents[k] {
                assert(t.nodes[j].prdc != s.nodes[j].prdc);
            } else {
                assert(t.nodes[k].succ != s.nodes[k].succ);
            }
        },
        ChordAction::Reconcile { node } => {
            assert(t.nodes[node as int].succ2 != s.nodes[node as int].succ2);
        },
        ChordAction::Update { node } => {
            assert(t.nodes[node as int].succ != s.nodes[node as int].succ);
        },
        ChordAction::Flush { node } => {
            assert(t.nodes[node as int].prdc != s.nodes[node as int].prdc);
        },
    }
}

/// Everything that a state offers can be done, and leads to another state: it
/// names nodes of the model, there is someone to ask, and no counter runs
/// over. (A fixed schedule must name nodes of the model, and not go on where
/// the counter ends.)
pub proof fn law_offered_actions_can_be_taken(m: ModelView, s: StateView, a: ChordAction)
    requires
        chord_model::state_ok(m, s),
        chord_model::schedule_ok(m),
        m.schedule matches ScheduleView::Fixed(ev) ==> s.sched_pos < u8::MAX || ev.len()
            <= u8::MAX,
        chord_model::possible(m, s).contains(a),
    ensures
        chord_model::action_ok(m, s, a),
        enabled(m, s, a),
        chord_model::next_of(m, s, a) is Some,
{
    lemma_either(
        chord_model::events(m, s),
        chord_model::all_operations(m, s, s.nodes.len() as int),
        a,
    );
    if chord_model::events(m, s).contains(a) {
        lemma_events(m, s, a);
    } else {
        lemma_operations(m, s, s.nodes.len() as int, a);
    }
    lemma_changes(m, s, a);
}

// ---------------------------------------------------------------------------
// No member is left without a live successor
// ---------------------------------------------------------------------------

/// The member at `k`, if it is one, has a live successor.
pub open spec fn stocked_at(m: ModelView, s: StateView, k: int) -> bool {
    s.nodes[k].status == Status::Member ==> chord_model::is_live(m, s, s.nodes[k].succ)
        || chord_model::is_live(m, s, s.nodes[k].succ2)
}

/// Every member has a live successor.
pub open spec fn stocked(m: ModelView, s: StateView) -> bool {
    &&& chord_model::state_ok(m, s)
    &&& forall|k: int| 0 <= k < s.nodes.len() ==> #[trigger] stocked_at(m, s, k)
}

/// The base is a part of the model, and stays.
pub open spec fn base_ok(m: ModelView) -> bool {
    &&& m.base.len() > 0
    &&& forall|i: int|
        0 <= i < m.base.len() ==> (#[trigger] m.base[i]) >= 0 && m.idents.contains(m.base[i])
    &&& m.schedule matches ScheduleView::Fixed(ev) ==> forall|i: int, x: i8|
        0 <= i < ev.len() && #[trigger] ev[i] == SchedEvent::Fail(x)
            ==> !#[trigger] m.base.contains(x)
}

/// The base is on the ring.
pub open spec fn base_in(m: ModelView, s: StateView) -> bool {
    forall|i: int| 0 <= i < m.base.len() ==> chord_model::is_live(m, s, #[trigger] m.base[i])
}

/// What is live stays so where no status but that of others changes.
proof fn lemma_still_live(m: ModelView, s: StateView, t: StateView, x: i8)
    requires
        chord_model::state_ok(m, s),
        t.nodes.len() == s.nodes.len(),
        chord_model::is_live(m, s, x),
        ({
            let p = chord_model::place(m.idents, x);
            0 <= p < s.nodes.len() ==> t.nodes[p].status == s.nodes[p].status
                || t.nodes[p].status == Status::Member
        }),
    ensures
        chord_model::is_live(m, t, x),
{
    chord_model::lemma_place(m.idents, x, 0);
}

/// At the start every member has a live successor.
pub proof fn law_stocked_at_start(m: ModelView)
    requires
        chord_model::model_ok(m),
        base_ok(m),
    ensures
        stocked(m, chord_model::initial(m)),
        base_in(m, chord_model::initial(m)),
{
    let s = chord_model::initial(m);
    assert forall|i: int| 0 <= i < m.base.len() implies chord_model::is_live(
        m,
        s,
        #[trigger] m.base[i],
    ) by {
        let x = m.base[i];
        chord_model::lemma_named(m.idents, x);
        chord_model::lemma_place(m.idents, x, 0);
        chord_model::lemma_named(m.base, x);
        assert(s.nodes[chord_model::place(m.idents, x)] == chord_model::first_node(m, x));
    }
    assert forall|k: int| 0 <= k < s.nodes.len() implies #[trigger] stocked_at(m, s, k) by {
        let x = m.idents[k];
        let i = chord_model::place(m.base, x);
        chord_model::lemma_place(m.base, x, 0);
        let nb = m.base.len() as int;
        if i < nb {
            assert(0 <= (i + 1) % nb < nb);
            assert(s.nodes[k].succ == m.base[(i + 1) % nb]);
        }
    }
}

/// Where every pointer is checked before it is taken, a step leaves every
/// member a live successor, and the base on the ring.
pub proof fn law_stocked_step(m: ModelView, s: StateView, a: ChordAction)
    requires
        m.fix >= 2,
        base_ok(m),
        stocked(m, s),
        base_in(m, s),
        enabled(m, s, a),
    ensures
        stocked(m, chord_model::outcome(m, s, a)),
        base_in(m, chord_model::outcome(m, s, a)),
{
    let t = chord_model::outcome(m, s, a);
    let n = s.nodes.len() as int;
    if a is Stabilize {
        chord_model::lemma_place(
            m.idents,
            chord_model::notified(m, s, a->Stabilize_node as int),
            0,
        );
    }
    assert(t.nodes.len() == n);
    match a {
        ChordAction::Fail { node } => {
            let v = m.idents[node as int];
            assert forall|x: i8| #[trigger] chord_model::survives(m, s, x, v) implies
                chord_model::is_live(m, t, x) by {
                chord_model::lemma_place(m.idents, x, 0);
                lemma_still_live(m, s, t, x);
            }
            assert forall|k: int| 0 <= k < n implies #[trigger] stocked_at(m, t, k) by {
                assert(stocked_at(m, s, k));
                if k != node as int {
                    assert(m.idents[k] != v) by {
                        if k < node as int {
                            assert(m.idents[k] < m.idents[node as int]);
                        } else {
                            assert(m.idents[node as int] < m.idents[k]);
                        }
                    }
                    assert(t.nodes[k] == s.nodes[k]);
                }
            }
            assert forall|i: int| 0 <= i < m.base.len() implies chord_model::is_live(
                m,
                t,
                #[trigger] m.base[i],
            ) by {
                assert(m.base.contains(m.base[i]));
                if m.base[i] == v {
                    match m.schedule {
                        ScheduleView::Fixed(ev) => {
                            assert(ev[s.sched_pos as int] == SchedEvent::Fail(v));
                        },
                        ScheduleView::Exhaustive => {},
                    }
                }
                assert(chord_model::survives(m, s, m.base[i], v));
            }
        },
        _ => {
            assert forall|k: int| 0 <= k < n implies (#[trigger] t.nodes[k]).status
                == s.nodes[k].status || t.nodes[k].status == Status::Member by {}
            assert forall|x: i8| chord_model::is_live(m, s, x) implies
                #[trigger] chord_model::is_live(m, t, x) by {
                chord_model::lemma_place(m.idents, x, 0);
                lemma_still_live(m, s, t, x);
            }
            assert forall|k: int| 0 <= k < n implies #[trigger] stocked_at(m, t, k) by {
                assert(stocked_at(m, s, k));
                let old_n = s.nodes[k];
                let new_n = t.nodes[k];
                assert(chord_model::is_live(m, s, old_n.succ) ==> chord_model::is_live(
                    m,
                    t,
                    old_n.succ,
                ));
                assert(chord_model::is_live(m, s, old_n.succ2) ==> chord_model::is_live(
                    m,
                    t,
                    old_n.succ2,
                ));
                assert(chord_model::is_live(m, s, new_n.succ) ==> chord_model::is_live(
                    m,
                    t,
                    new_n.succ,
                ));
                assert(chord_model::is_live(m, s, new_n.succ2) ==> chord_model::is_live(
                    m,
                    t,
                    new_n.succ2,
                ));
            }
            assert forall|i: int| 0 <= i < m.base.len() implies chord_model::is_live(
                m,
                t,
                #[trigger] m.base[i],
            ) by {
                assert(chord_model::is_live(m, s, m.base[i]));
            }
        },
    }
}

// ---------------------------------------------------------------------------
// So there is a ring, and every member reaches it
// ---------------------------------------------------------------------------

/// Every live node has a live best successor.
pub open spec fn goes_on(c: Seq<NodeState>) -> bool {
    forall|i: int|
        0 <= i < c.len() && (#[trigger] c[i]).alive ==> chord::is_live(c, chord::best(c, c[i]))
}

proof fn lemma_goes_on(c: Seq<NodeState>, first: i32, k: nat)
    requires
        chord::sorted(c),
        goes_on(c),
        chord::is_live(c, first),
    ensures
        chord::is_live(c, chord::hop(c, first, k)),
    decreases k,
{
    if k > 0 {
        lemma_goes_on(c, first, (k - 1) as nat);
        let p = chord::hop(c, first, (k - 1) as nat);
        chord::lemma_get(c, p);
        let x = chord::get(c, p).unwrap();
        let i = choose|i: int| 0 <= i < c.len() && c[i] == x;
        assert(c[i].alive);
    }
}

/// Where every live node has a live best successor, each of them leads to a
/// ring.
proof fn lemma_leads_to_a_ring(c: Seq<NodeState>, first: i32)
    requires
        chord::sorted(c),
        goes_on(c),
        chord::is_live(c, first),
    ensures
        chord::leads_to(c, first, chord::ring_of(c)),
{
    let n = chord::live_idents(c).len();
    let t = chord::trail(c, first, n + 1);
    if t.no_duplicates() {
        assert forall|i: int| 0 <= i < t.len() implies chord::live_idents(c).contains(
            #[trigger] t[i],
        ) by {
            lemma_goes_on(c, first, i as nat);
            chord::lemma_live_ident(c, t[i]);
        }
        chord::lemma_fit(t, chord::live_idents(c));
    } else {
        let (i, j) = choose|i: int, j: int|
            0 <= i < t.len() && 0 <= j < t.len() && i != j && #[trigger] t[i] == #[trigger] t[j];
        let lo = if i < j { i } else { j };
        let hi = if i < j { j } else { i };
        let x = chord::hop(c, first, lo as nat);
        assert(t[lo] == t[hi]);
        lemma_goes_on(c, first, lo as nat);
        chord_laws::lemma_next(c, first, lo as nat, (hi - lo - 1) as nat);
        assert(lo as nat + 1 + (hi - lo - 1) as nat == hi as nat);
        assert(chord::comes_back(c, x, hi - lo));
        chord_laws::lemma_is_member(c, x, hi - lo);
        assert(chord::ring_of(c).contains(chord::hop(c, first, lo as nat)));
    }
}

/// Where every member has a live successor and there is a member at all, there
/// is a ring, and every member is on it or leads to it.
pub proof fn law_stocked_keeps_the_ring(m: ModelView, s: StateView, k: int)
    requires
        stocked(m, s),
        0 <= k < s.nodes.len(),
        s.nodes[k].status == Status::Member,
    ensures
        !chord_model::violated(m, s).contains("AtLeastOneRing"@),
        !chord_model::violated(m, s).contains("ConnectedAppendages"@),
{
    let c = chord_model::config(m, s);
    let ring = chord::ring_of(c);
    chord_model::lemma_config(m, s);
    assert(goes_on(c)) by {
        assert forall|i: int| 0 <= i < c.len() && (#[trigger] c[i]).alive implies chord::is_live(
            c,
            chord::best(c, c[i]),
        ) by {
            assert(stocked_at(m, s, i));
            let b = chord_model::best(m, s, i);
            assert(chord_model::is_live(m, s, b));
        }
    }
    assert(c[k].alive);
    lemma_leads_to_a_ring(c, chord::best(c, c[k]));
    let live = chord::live_of(c);
    chord::lemma_live_of(c);
    assert forall|i: int| 0 <= i < live.len() implies !chord::astray(
        c,
        ring,
        #[trigger] live[i],
    ) by {
        assert(c.contains(live[i]));
        let j = choose|j: int| 0 <= j < c.len() && c[j] == live[i];
        lemma_leads_to_a_ring(c, chord::best(c, c[j]));
    }
    chord_laws::lemma_strays(c, ring, live);
    reveal_strlit("AtLeastOneRing");
    reveal_strlit("ConnectedAppendages");
    reveal_strlit("OrderedRing");
    reveal_strlit("AtMostOneRing");
    let v = chord_model::violated(m, s);
    assert forall|i: int| 0 <= i < v.len() implies #[trigger] v[i] == "AtMostOneRing"@ || v[i]
        == "OrderedRing"@ by {}
    assert("AtMostOneRing"@.len() != "AtLeastOneRing"@.len());
    assert("OrderedRing"@.len() != "AtLeastOneRing"@.len());
    assert("AtMostOneRing"@.len() != "ConnectedAppendages"@.len());
    assert("OrderedRing"@.len() != "ConnectedAppendages"@.len());
}

// ---------------------------------------------------------------------------
// On every path
// ---------------------------------------------------------------------------

/// The state behind the first `n` actions of a path from the start.
pub open spec fn reached(m: ModelView, path: Seq<ChordAction>, n: int) -> StateView
    decreases n,
{
    if n <= 0 {
        chord_model::initial(m)
    } else {
        let s = reached(m, path, n - 1);
        match chord_model::next_of(m, s, path[n - 1]) {
            Some(t) => t,
            None => s,
        }
    }
}

/// Each action of the path is offered where it is taken.
pub open spec fn is_path(m: ModelView, path: Seq<ChordAction>) -> bool {
    forall|i: int|
        0 <= i < path.len() ==> chord_model::possible(m, reached(m, path, i)).contains(
            #[trigger] path[i],
        )
}

proof fn lemma_reached(m: ModelView, path: Seq<ChordAction>, n: int)
    requires
        chord_model::model_ok(m),
        chord_model::schedule_ok(m),
        m.schedule matches ScheduleView::Fixed(ev) ==> ev.len() <= u8::MAX,
        base_ok(m),
        m.fix >= 2,
        is_path(m, path),
        0 <= n <= path.len(),
    ensures
        stocked(m, reached(m, path, n)),
        base_in(m, reached(m, path, n)),
    decreases n,
{
    if n == 0 {
        law_stocked_at_start(m);
    } else {
        lemma_reached(m, path, n - 1);
        let s = reached(m, path, n - 1);
        let a = path[n - 1];
        assert(chord_model::possible(m, s).contains(a));
        law_offered_actions_can_be_taken(m, s, a);
        law_stocked_step(m, s, a);
    }
}

/// Where every pointer is checked before it is taken, no path whatever, under
/// any schedule that spares the base, reaches a state without a ring, or one
/// with a member that does not reach it. (The ring may still split or lose its
/// order.)
pub proof fn law_checked_pointers_keep_the_ring(m: ModelView, path: Seq<ChordAction>, n: int)
    requires
        chord_model::model_ok(m),
        chord_model::schedule_ok(m),
        m.schedule matches ScheduleView::Fixed(ev) ==> ev.len() <= u8::MAX,
        base_ok(m),
        m.fix >= 2,
        is_path(m, path),
        0 <= n <= path.len(),
    ensures
        !chord_model::violated(m, reached(m, path, n)).contains("AtLeastOneRing"@),
        !chord_model::violated(m, reached(m, path, n)).contains("ConnectedAppendages"@),
{
    lemma_reached(m, path, n);
    let s = reached(m, path, n);
    let x = m.base[0];
    assert(chord_model::is_live(m, s, x));
    chord_model::lemma_place(m.idents, x, 0);
    law_stocked_keeps_the_ring(m, s, chord_model::place(m.idents, x));
}

/// The dead stay dead, and no member leaves: a step changes a status from out
/// to member or from member to dead alone.
pub proof fn law_statuses_go_forward(m: ModelView, s: StateView, a: ChordAction, k: int)
    requires
        chord_model::state_ok(m, s),
        enabled(m, s, a),
        0 <= k < s.nodes.len(),
    ensures
        ({
            let old_status = s.nodes[k].status;
            let new_status = chord_model::outcome(m, s, a).nodes[k].status;
            ||| new_status == old_status
            ||| old_status == Status::Out && new_status == Status::Member
            ||| old_status == Status::Member && new_status == Status::Dead
        }),
{
    if a is Stabilize {
        chord_model::lemma_place(
            m.idents,
            chord_model::notified(m, s, a->Stabilize_node as int),
            0,
        );
    }
}

} // verus!
