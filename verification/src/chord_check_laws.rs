//! The laws of the check of a Chord configuration, from the pointers up: who
//! lives, who follows whom, what a ring is, and which invariant is found
//! violated when.

use vstd::prelude::*;

use crate::chord;
use crate::chord::{InvariantKind, NodeState, ViolationView, NONE};
use crate::chord_laws;
use crate::chord_report;
use crate::chord_step_laws;

verus! {

/// `x` names a node that is alive.
pub open spec fn living(s: Seq<NodeState>, x: i32) -> bool {
    x >= 0 && exists|i: int| 0 <= i < s.len() && (#[trigger] s[i]).ident == x && s[i].alive
}

/// The live node `a` goes on to `b`: its successor where that lives, else its
/// second successor where that does.
pub open spec fn steps(s: Seq<NodeState>, a: i32, b: i32) -> bool {
    living(s, b) && exists|i: int|
        0 <= i < s.len() && (#[trigger] s[i]).ident == a && s[i].alive && (s[i].succ == b || (
        !living(s, s[i].succ) && s[i].succ2 == b))
}

/// Each goes on to the next.
pub open spec fn walk(s: Seq<NodeState>, p: Seq<i32>) -> bool {
    forall|i: int| 0 <= i < p.len() - 1 ==> steps(s, #[trigger] p[i], p[i + 1])
}

/// One step or more lead from `a` to `b`.
pub open spec fn leads(s: Seq<NodeState>, a: i32, b: i32) -> bool {
    exists|p: Seq<i32>| #[trigger] walk(s, p) && p.len() >= 2 && p[0] == a && p.last() == b
}

proof fn lemma_living(s: Seq<NodeState>, x: i32)
    requires
        chord::sorted(s),
    ensures
        chord::is_live(s, x) <==> living(s, x),
{
    chord::lemma_get(s, x);
    if chord::is_live(s, x) {
        let n = chord::get(s, x).unwrap();
        let i = choose|i: int| 0 <= i < s.len() && s[i] == n;
        assert(s[i].ident == x);
    }
}

proof fn lemma_steps(s: Seq<NodeState>, a: i32, b: i32)
    requires
        chord::sorted(s),
    ensures
        steps(s, a, b) <==> chord::best_of(s, a) == b && b != NONE,
{
    chord::lemma_get(s, a);
    lemma_living(s, b);
    if chord::get(s, a) is Some {
        let n = chord::get(s, a).unwrap();
        let i = choose|i: int| 0 <= i < s.len() && s[i] == n;
        assert(s[i].ident == a);
        lemma_living(s, n.succ);
        lemma_living(s, n.succ2);
    }
}

proof fn lemma_walk(s: Seq<NodeState>, p: Seq<i32>, i: int)
    requires
        chord::sorted(s),
        walk(s, p),
        1 <= i < p.len(),
    ensures
        chord::hop(s, chord::best_of(s, p[0]), (i - 1) as nat) == p[i],
        p[i] != NONE,
    decreases i,
{
    assert(steps(s, p[i - 1], p[i - 1 + 1]));
    lemma_steps(s, p[i - 1], p[i]);
    if i > 1 {
        lemma_walk(s, p, i - 1);
    }
}

/// Steps lead where following best successors does.
proof fn lemma_leads(s: Seq<NodeState>, a: i32, b: i32)
    requires
        chord::sorted(s),
    ensures
        leads(s, a, b) <==> b != NONE && exists|k: nat| #[trigger]
            chord::hop(s, chord::best_of(s, a), k) == b,
{
    let f = chord::best_of(s, a);
    if leads(s, a, b) {
        let p = choose|p: Seq<i32>| #[trigger]
            walk(s, p) && p.len() >= 2 && p[0] == a && p.last() == b;
        lemma_walk(s, p, p.len() - 1);
    }
    if b != NONE && exists|k: nat| #[trigger] chord::hop(s, f, k) == b {
        let k = choose|k: nat| #[trigger] chord::hop(s, f, k) == b;
        let p = Seq::new(
            k + 2,
            |i: int|
                if i == 0 {
                    a
                } else {
                    chord::hop(s, f, (i - 1) as nat)
                },
        );
        assert(walk(s, p)) by {
            assert forall|i: int| 0 <= i < p.len() - 1 implies steps(s, #[trigger] p[i], p[i
                + 1]) by {
                if chord::hop(s, f, i as nat) == NONE {
                    chord::lemma_hop_none(s, f, i as nat, k);
                }
                lemma_steps(s, p[i], p[i + 1]);
            }
        }
        assert(p[0] == a && p.last() == b);
    }
}

/// The ring members are the nodes from which steps lead back to them.
pub proof fn law_ring_is_the_cycles(s: Seq<NodeState>, x: i32)
    requires
        chord::sorted(s),
    ensures
        chord::ring_of(s).contains(x) <==> leads(s, x, x),
{
    lemma_leads(s, x, x);
    if chord::ring_of(s).contains(x) {
        chord::lemma_ring_member(s, x);
        let k = choose|k: int| chord::comes_back(s, x, k);
        assert(chord::hop(s, chord::best_of(s, x), (k - 1) as nat) == x);
    }
    if leads(s, x, x) {
        let k = choose|k: nat| #[trigger] chord::hop(s, chord::best_of(s, x), k) == x;
        let f = chord::best_of(s, x);
        if f == NONE {
            chord::lemma_hop_none(s, f, 0, k);
        }
        chord::lemma_hop(s, f, k);
        assert(chord::comes_back(s, x, k as int + 1));
        chord_laws::lemma_is_member(s, x, k as int + 1);
    }
}

/// A violation of the kind was found.
pub open spec fn found(v: Seq<ViolationView>, kind: InvariantKind) -> bool {
    exists|i: int| 0 <= i < v.len() && (#[trigger] v[i]).kind == kind
}

proof fn lemma_found(a: Seq<ViolationView>, b: Seq<ViolationView>, kind: InvariantKind)
    ensures
        found(a + b, kind) <==> found(a, kind) || found(b, kind),
{
    let v = a + b;
    if found(a, kind) {
        let i = choose|i: int| 0 <= i < a.len() && (#[trigger] a[i]).kind == kind;
        assert(v[i].kind == kind);
    }
    if found(b, kind) {
        let i = choose|i: int| 0 <= i < b.len() && (#[trigger] b[i]).kind == kind;
        assert(v[a.len() + i].kind == kind);
    }
    if found(v, kind) {
        let i = choose|i: int| 0 <= i < v.len() && (#[trigger] v[i]).kind == kind;
        if i < a.len() {
            assert(a[i].kind == kind);
        } else {
            assert(b[i - a.len()].kind == kind);
        }
    }
}

proof fn lemma_all_of(v: Seq<ViolationView>, one: InvariantKind, kind: InvariantKind)
    requires
        forall|i: int| 0 <= i < v.len() ==> (#[trigger] v[i]).kind == one,
    ensures
        found(v, kind) <==> v.len() > 0 && kind == one,
{
    if v.len() > 0 {
        assert(v[0].kind == one);
    }
}

proof fn lemma_misplaced_kind(ring: Seq<i32>, n1: i32, n2: i32, m: nat, j: int)
    ensures
        forall|i: int|
            0 <= i < chord::misplaced_after(ring, n1, n2, m, j).len() ==> (
            #[trigger] chord::misplaced_after(ring, n1, n2, m, j)[i]).kind
                == InvariantKind::OrderedRing,
    decreases j,
{
    if j > 0 {
        lemma_misplaced_kind(ring, n1, n2, m, j - 1);
    }
}

proof fn lemma_disorder_kind(s: Seq<NodeState>, ring: Seq<i32>, m: nat, i: int)
    ensures
        forall|k: int|
            0 <= k < chord::disorder(s, ring, m, i).len() ==> (#[trigger] chord::disorder(
                s,
                ring,
                m,
                i,
            )[k]).kind == InvariantKind::OrderedRing,
    decreases i,
{
    if i > 0 {
        lemma_disorder_kind(s, ring, m, i - 1);
        lemma_misplaced_kind(
            ring,
            ring[i - 1],
            chord::best_of(s, ring[i - 1]),
            m,
            ring.len() as int,
        );
    }
}

proof fn lemma_strays_kind(s: Seq<NodeState>, ring: Seq<i32>, nodes: Seq<NodeState>)
    ensures
        forall|k: int|
            0 <= k < chord::strays(s, ring, nodes).len() ==> (#[trigger] chord::strays(
                s,
                ring,
                nodes,
            )[k]).kind == InvariantKind::ConnectedAppendages,
    decreases nodes.len(),
{
    if nodes.len() > 0 {
        lemma_strays_kind(s, ring, nodes.drop_last());
    }
}

/// There is a ring.
pub open spec fn ringed(s: Seq<NodeState>) -> bool {
    exists|x: i32| leads(s, x, x)
}

/// Two ring members of which the one does not lead to the other.
pub open spec fn split(s: Seq<NodeState>, a: i32, b: i32) -> bool {
    leads(s, a, a) && leads(s, b, b) && !leads(s, a, b)
}

/// A ring member `c` that is met, going clockwise, between the ring member `a`
/// and the one that `a` goes on to.
pub open spec fn passed_over(s: Seq<NodeState>, m: nat, a: i32, b: i32, c: i32) -> bool {
    &&& leads(s, a, a)
    &&& leads(s, c, c)
    &&& steps(s, a, b)
    &&& c != a
    &&& c != b
    &&& 0 < chord_step_laws::ahead(a as int, c as int, m)
    &&& chord_step_laws::ahead(a as int, b as int, m) == 0 || chord_step_laws::ahead(
        a as int,
        c as int,
        m,
    ) < chord_step_laws::ahead(a as int, b as int, m)
}

/// A live node that is not on a ring and leads to none.
pub open spec fn lost(s: Seq<NodeState>, n: NodeState) -> bool {
    &&& s.contains(n)
    &&& n.alive
    &&& !leads(s, n.ident, n.ident)
    &&& forall|r: i32| #[trigger] leads(s, r, r) ==> !leads(s, n.ident, r)
}

proof fn lemma_rings(s: Seq<NodeState>)
    requires
        chord::sorted(s),
    ensures
        chord::ring_of(s).len() > 0 <==> ringed(s),
        forall|x: i32| #[trigger] chord::ring_of(s).contains(x) <==> leads(s, x, x),
{
    let ring = chord::ring_of(s);
    assert forall|x: i32| #[trigger] ring.contains(x) <==> leads(s, x, x) by {
        law_ring_is_the_cycles(s, x);
    }
    if ring.len() > 0 {
        assert(ring.contains(ring[0]));
    }
    if ringed(s) {
        let x = choose|x: i32| leads(s, x, x);
        assert(ring.contains(x));
    }
}

proof fn lemma_one_ring(s: Seq<NodeState>)
    requires
        chord::sorted(s),
    ensures
        chord_laws::one_ring(s) <==> !exists|a: i32, b: i32| split(s, a, b),
{
    let ring = chord::ring_of(s);
    lemma_rings(s);
    if chord_laws::one_ring(s) {
        assert forall|a: i32, b: i32| !split(s, a, b) by {
            if split(s, a, b) {
                assert(ring.contains(a) && ring.contains(b));
                assert(chord_laws::follows(s, a, b));
                lemma_leads(s, a, b);
                chord::lemma_ring_member(s, b);
            }
        }
    }
    if !exists|a: i32, b: i32| split(s, a, b) {
        assert forall|a: i32, b: i32| #[trigger]
            ring.contains(a) && #[trigger] ring.contains(b) implies chord_laws::follows(
            s,
            a,
            b,
        ) by {
            assert(!split(s, a, b));
            lemma_leads(s, a, b);
        }
    }
}

proof fn lemma_in_order(s: Seq<NodeState>, m: nat)
    requires
        chord::sorted(s),
    ensures
        chord_laws::in_order(s, m) <==> !exists|a: i32, b: i32, c: i32|
            passed_over(s, m, a, b, c),
{
    let ring = chord::ring_of(s);
    lemma_rings(s);
    assert forall|a: i32, c: i32| #[trigger]
        ring.contains(a) && #[trigger] ring.contains(c) implies (chord::misplaced(
        a,
        chord::best_of(s, a),
        c,
        m,
    ) <==> passed_over(s, m, a, chord::best_of(s, a), c)) by {
        let b = chord::best_of(s, a);
        chord::lemma_ring_member(s, a);
        lemma_goes_on(s, a);
        lemma_steps(s, a, b);
        chord_step_laws::law_between_is_met_first(a as int, c as int, b as int, m);
    }
    if chord_laws::in_order(s, m) {
        assert forall|a: i32, b: i32, c: i32| !passed_over(s, m, a, b, c) by {
            if passed_over(s, m, a, b, c) {
                assert(ring.contains(a) && ring.contains(c));
                lemma_steps(s, a, b);
                assert(chord::misplaced(a, chord::best_of(s, a), c, m));
            }
        }
    }
    if !exists|a: i32, b: i32, c: i32| passed_over(s, m, a, b, c) {
        assert forall|a: i32, c: i32| #[trigger]
            ring.contains(a) && #[trigger] ring.contains(c) implies !chord::misplaced(
            a,
            chord::best_of(s, a),
            c,
            m,
        ) by {
            assert(!passed_over(s, m, a, chord::best_of(s, a), c));
        }
    }
}

/// A ring member goes on somewhere.
proof fn lemma_goes_on(s: Seq<NodeState>, a: i32)
    requires
        chord::sorted(s),
        leads(s, a, a),
    ensures
        chord::best_of(s, a) != NONE,
{
    lemma_leads(s, a, a);
    let f = chord::best_of(s, a);
    let k = choose|k: nat| #[trigger] chord::hop(s, f, k) == a;
    if f == NONE {
        chord::lemma_hop_none(s, f, 0, k);
    }
}

proof fn lemma_lost(s: Seq<NodeState>, n: NodeState)
    requires
        chord::sorted(s),
        chord::live_of(s).contains(n),
    ensures
        chord::astray(s, chord::ring_of(s), n) <==> lost(s, n),
{
    let ring = chord::ring_of(s);
    lemma_rings(s);
    chord::lemma_live_of(s);
    let l = chord::live_of(s);
    let i = choose|i: int| 0 <= i < l.len() && l[i] == n;
    assert(l[i].alive && s.contains(l[i]));
    let j = choose|j: int| 0 <= j < s.len() && s[j] == n;
    chord::lemma_get(s, n.ident);
    assert(s[j].ident == n.ident);
    let f = chord::best(s, n);
    assert(f == chord::best_of(s, n.ident));
    if chord::leads_to(s, f, ring) {
        let k = choose|k: nat|
            ring.contains(#[trigger] chord::hop(s, f, k)) && chord::hop(s, f, k) != NONE;
        let r = chord::hop(s, f, k);
        lemma_leads(s, n.ident, r);
        assert(leads(s, r, r) && leads(s, n.ident, r));
    }
    if exists|r: i32| #[trigger] leads(s, r, r) && leads(s, n.ident, r) {
        let r = choose|r: i32| #[trigger] leads(s, r, r) && leads(s, n.ident, r);
        lemma_leads(s, n.ident, r);
        let k = choose|k: nat| #[trigger] chord::hop(s, f, k) == r;
        assert(ring.contains(chord::hop(s, f, k)));
    }
    assert(ring.contains(n.ident) <==> leads(s, n.ident, n.ident));
}

proof fn lemma_connected(s: Seq<NodeState>)
    requires
        chord::sorted(s),
    ensures
        chord_laws::connected(s) <==> !exists|n: NodeState| lost(s, n),
{
    let l = chord::live_of(s);
    chord::lemma_live_of(s);
    if chord_laws::connected(s) {
        assert forall|n: NodeState| !lost(s, n) by {
            if lost(s, n) {
                let j = choose|j: int| 0 <= j < s.len() && s[j] == n;
                assert(s[j].alive);
                let i = choose|i: int| 0 <= i < l.len() && l[i] == n;
                lemma_lost(s, l[i]);
            }
        }
    }
    if !exists|n: NodeState| lost(s, n) {
        assert forall|i: int| 0 <= i < l.len() implies !chord::astray(
            s,
            chord::ring_of(s),
            #[trigger] l[i],
        ) by {
            assert(l.contains(l[i]));
            lemma_lost(s, l[i]);
        }
    }
}

/// Which invariants are found violated: that there is a ring, where no node
/// leads back to itself; that there is one, where a ring member does not lead
/// to another; that it is in order, where one is met between a ring member and
/// the node that it goes on to; and that all are connected, where there is a
/// ring and a live node leads to none.
pub proof fn law_violations_by_kind(s: Seq<NodeState>, m: nat)
    requires
        chord::sorted(s),
    ensures
        found(chord::violations_of(s, m), InvariantKind::AtLeastOneRing) <==> !ringed(s),
        found(chord::violations_of(s, m), InvariantKind::AtMostOneRing) <==> exists|
            a: i32,
            b: i32,
        | split(s, a, b),
        found(chord::violations_of(s, m), InvariantKind::OrderedRing) <==> exists|
            a: i32,
            b: i32,
            c: i32,
        | passed_over(s, m, a, b, c),
        found(chord::violations_of(s, m), InvariantKind::ConnectedAppendages) <==> ringed(s)
            && exists|n: NodeState| lost(s, n),
{
    let v = chord::violations_of(s, m);
    let ring = chord::ring_of(s);
    lemma_rings(s);
    if ring.len() == 0 {
        lemma_all_of(v, InvariantKind::AtLeastOneRing, InvariantKind::AtLeastOneRing);
        lemma_all_of(v, InvariantKind::AtLeastOneRing, InvariantKind::AtMostOneRing);
        lemma_all_of(v, InvariantKind::AtLeastOneRing, InvariantKind::OrderedRing);
        lemma_all_of(v, InvariantKind::AtLeastOneRing, InvariantKind::ConnectedAppendages);
        assert forall|a: i32, b: i32| !split(s, a, b) by {}
        assert forall|a: i32, b: i32, c: i32| !passed_over(s, m, a, b, c) by {}
    } else {
        let d = chord::disorder(s, ring, m, ring.len() as int);
        let e = chord::strays(s, ring, chord::live_of(s));
        let a: Seq<ViolationView> = if chord::lap(s, ring[0]) != ring.len() {
            seq![
                ViolationView {
                    kind: InvariantKind::AtMostOneRing,
                    detail: chord::split_text(ring.len(), ring[0], chord::lap(s, ring[0])),
                },
            ]
        } else {
            Seq::empty()
        };
        assert(v == a + d + e);
        chord_laws::law_lap_tells_one_ring(s);
        lemma_one_ring(s);
        chord_laws::lemma_disorder(s, m, ring.len() as int);
        lemma_in_order(s, m);
        assert(d.len() == 0 <==> chord_laws::in_order(s, m)) by {
            lemma_disorder_order(s, m);
        }
        chord_laws::lemma_strays(s, ring, chord::live_of(s));
        lemma_connected(s);
        lemma_disorder_kind(s, ring, m, ring.len() as int);
        lemma_strays_kind(s, ring, chord::live_of(s));
        lemma_three_parts(a, d, e, InvariantKind::AtLeastOneRing);
        lemma_three_parts(a, d, e, InvariantKind::AtMostOneRing);
        lemma_three_parts(a, d, e, InvariantKind::OrderedRing);
        lemma_three_parts(a, d, e, InvariantKind::ConnectedAppendages);
    }
}

proof fn lemma_disorder_order(s: Seq<NodeState>, m: nat)
    requires
        chord::sorted(s),
    ensures
        chord::disorder(s, chord::ring_of(s), m, chord::ring_of(s).len() as int).len() == 0
            <==> chord_laws::in_order(s, m),
{
    let ring = chord::ring_of(s);
    chord_laws::lemma_disorder(s, m, ring.len() as int);
    if chord::disorder(s, ring, m, ring.len() as int).len() == 0 {
        assert forall|a: i32, b: i32| #[trigger]
            ring.contains(a) && #[trigger] ring.contains(b) implies !chord::misplaced(
            a,
            chord::best_of(s, a),
            b,
            m,
        ) by {
            let x = choose|x: int| 0 <= x < ring.len() && ring[x] == a;
            let y = choose|y: int| 0 <= y < ring.len() && ring[y] == b;
            assert(!chord::misplaced(ring[x], chord::best_of(s, ring[x]), ring[y], m));
        }
    }
    if chord_laws::in_order(s, m) {
        assert forall|x: int, y: int| 0 <= x < ring.len() && 0 <= y < ring.len() implies
            !chord::misplaced(
            #[trigger] ring[x],
            chord::best_of(s, ring[x]),
            #[trigger] ring[y],
            m,
        ) by {
            assert(ring.contains(ring[x]) && ring.contains(ring[y]));
        }
    }
}

proof fn lemma_three_parts(
    a: Seq<ViolationView>,
    d: Seq<ViolationView>,
    e: Seq<ViolationView>,
    kind: InvariantKind,
)
    requires
        forall|i: int| 0 <= i < a.len() ==> (#[trigger] a[i]).kind == InvariantKind::AtMostOneRing,
        forall|i: int| 0 <= i < d.len() ==> (#[trigger] d[i]).kind == InvariantKind::OrderedRing,
        forall|i: int|
            0 <= i < e.len() ==> (#[trigger] e[i]).kind == InvariantKind::ConnectedAppendages,
    ensures
        found(a + d + e, kind) <==> {
            ||| a.len() > 0 && kind == InvariantKind::AtMostOneRing
            ||| d.len() > 0 && kind == InvariantKind::OrderedRing
            ||| e.len() > 0 && kind == InvariantKind::ConnectedAppendages
        },
{
    lemma_found(a + d, e, kind);
    lemma_found(a, d, kind);
    lemma_all_of(a, InvariantKind::AtMostOneRing, kind);
    lemma_all_of(d, InvariantKind::OrderedRing, kind);
    lemma_all_of(e, InvariantKind::ConnectedAppendages, kind);
}

/// The verdict on a recording: discarded, whatever it violates, where the
/// failure assumption was broken; else passed if and only if nothing is
/// violated. The exit codes are 3, 0 and 2.
pub proof fn law_verdict_code(held: bool, v: Seq<ViolationView>)
    ensures
        chord_report::check_code(held, v) == 3 <==> !held,
        chord_report::check_code(held, v) == 0 <==> held && v.len() == 0,
        chord_report::check_code(held, v) == 2 <==> held && v.len() > 0,
{
}

} // verus!
