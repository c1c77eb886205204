//! Laws that tie Chord's model to its snapshots: both find the same invariants
//! violated.

use vstd::prelude::*;

use crate::chord;
use crate::chord::{InvariantKind, NodeState, ViolationView, NONE};
use crate::chord_model;
use crate::chord_model::{ModelView, StateView, Status};
use crate::snapshot_laws;

verus! {

/// What is known of a live node.
spec fn live_get(s: Seq<NodeState>, ident: i32) -> Option<NodeState> {
    match chord::get(s, ident) {
        Some(n) => if n.alive {
            Some(n)
        } else {
            None
        },
        None => None,
    }
}

/// The live nodes are the same, and in the same state.
spec fn live_alike(s: Seq<NodeState>, t: Seq<NodeState>) -> bool {
    &&& chord::live_of(s) == chord::live_of(t)
    &&& forall|x: i32| #[trigger] live_get(s, x) == live_get(t, x)
}

proof fn lemma_best_alike(s: Seq<NodeState>, t: Seq<NodeState>, n: NodeState)
    requires
        live_alike(s, t),
    ensures
        chord::best(s, n) == chord::best(t, n),
{
    assert(live_get(s, n.succ) == live_get(t, n.succ));
    assert(live_get(s, n.succ2) == live_get(t, n.succ2));
}

proof fn lemma_best_of_alike(s: Seq<NodeState>, t: Seq<NodeState>, x: i32)
    requires
        live_alike(s, t),
    ensures
        chord::best_of(s, x) == chord::best_of(t, x),
{
    assert(live_get(s, x) == live_get(t, x));
    if live_get(s, x) is Some {
        lemma_best_alike(s, t, live_get(s, x).unwrap());
    }
}

proof fn lemma_hop_alike(s: Seq<NodeState>, t: Seq<NodeState>, x: i32, k: nat)
    requires
        live_alike(s, t),
    ensures
        chord::hop(s, x, k) == chord::hop(t, x, k),
    decreases k,
{
    if k > 0 {
        lemma_hop_alike(s, t, x, (k - 1) as nat);
        lemma_best_of_alike(s, t, chord::hop(s, x, (k - 1) as nat));
    }
}

proof fn lemma_on_ring_alike(s: Seq<NodeState>, t: Seq<NodeState>, n: NodeState)
    requires
        live_alike(s, t),
    ensures
        chord::on_ring(s, n) ==> chord::on_ring(t, n),
{
    if chord::on_ring(s, n) {
        lemma_best_alike(s, t, n);
        let k = choose|k: nat| #[trigger] chord::hop(s, chord::best(s, n), k) == n.ident;
        lemma_hop_alike(s, t, chord::best(s, n), k);
        assert(chord::hop(t, chord::best(t, n), k) == n.ident);
    }
}

proof fn lemma_alike_back(s: Seq<NodeState>, t: Seq<NodeState>)
    requires
        live_alike(s, t),
    ensures
        live_alike(t, s),
{
    assert forall|x: i32| #[trigger] live_get(t, x) == live_get(s, x) by {
        assert(live_get(s, x) == live_get(t, x));
    }
}

proof fn lemma_on_rings_alike(s: Seq<NodeState>, t: Seq<NodeState>, nodes: Seq<NodeState>)
    requires
        live_alike(s, t),
    ensures
        chord::on_rings(s, nodes) == chord::on_rings(t, nodes),
    decreases nodes.len(),
{
    if nodes.len() > 0 {
        lemma_on_rings_alike(s, t, nodes.drop_last());
        lemma_alike_back(s, t);
        lemma_on_ring_alike(s, t, nodes.last());
        lemma_on_ring_alike(t, s, nodes.last());
    }
}

proof fn lemma_comes_back_alike(s: Seq<NodeState>, t: Seq<NodeState>, x: i32, k: int)
    requires
        live_alike(s, t),
    ensures
        chord::comes_back(s, x, k) == chord::comes_back(t, x, k),
{
    lemma_best_of_alike(s, t, x);
    if k >= 1 {
        lemma_hop_alike(s, t, chord::best_of(s, x), (k - 1) as nat);
    }
}

proof fn lemma_lap_alike(s: Seq<NodeState>, t: Seq<NodeState>, x: i32)
    requires
        chord::sorted(s),
        chord::sorted(t),
        live_alike(s, t),
        chord::ring_of(s).contains(x),
    ensures
        chord::lap(s, x) == chord::lap(t, x),
{
    chord::lemma_ring_member(s, x);
    let k = choose|k: int| chord::comes_back(s, x, k);
    lemma_comes_back_alike(s, t, x, k);
    chord::lemma_lap(s, x);
    chord::lemma_lap(t, x);
    let a = chord::lap(s, x);
    let b = chord::lap(t, x);
    lemma_comes_back_alike(s, t, x, a);
    lemma_comes_back_alike(s, t, x, b);
    if a < b {
        assert(!chord::comes_back(t, x, a));
    }
    if b < a {
        assert(!chord::comes_back(s, x, b));
    }
}

proof fn lemma_disorder_alike(
    s: Seq<NodeState>,
    t: Seq<NodeState>,
    ring: Seq<i32>,
    m: nat,
    i: int,
)
    requires
        live_alike(s, t),
    ensures
        chord::disorder(s, ring, m, i) == chord::disorder(t, ring, m, i),
    decreases i,
{
    if i > 0 {
        lemma_disorder_alike(s, t, ring, m, i - 1);
        lemma_best_of_alike(s, t, ring[i - 1]);
    }
}

proof fn lemma_leads_alike(s: Seq<NodeState>, t: Seq<NodeState>, x: i32, ring: Seq<i32>)
    requires
        live_alike(s, t),
    ensures
        chord::leads_to(s, x, ring) ==> chord::leads_to(t, x, ring),
{
    if chord::leads_to(s, x, ring) {
        let k = choose|k: nat|
            ring.contains(#[trigger] chord::hop(s, x, k)) && chord::hop(s, x, k) != NONE;
        lemma_hop_alike(s, t, x, k);
        assert(ring.contains(chord::hop(t, x, k)));
    }
}

proof fn lemma_strays_alike(
    s: Seq<NodeState>,
    t: Seq<NodeState>,
    ring: Seq<i32>,
    nodes: Seq<NodeState>,
)
    requires
        live_alike(s, t),
    ensures
        chord::strays(s, ring, nodes) == chord::strays(t, ring, nodes),
    decreases nodes.len(),
{
    if nodes.len() > 0 {
        lemma_strays_alike(s, t, ring, nodes.drop_last());
        let n = nodes.last();
        lemma_best_alike(s, t, n);
        lemma_alike_back(s, t);
        lemma_leads_alike(s, t, chord::best(s, n), ring);
        lemma_leads_alike(t, s, chord::best(s, n), ring);
    }
}

/// What a configuration violates depends on its live nodes alone.
proof fn lemma_violations_alike(s: Seq<NodeState>, t: Seq<NodeState>, m: nat)
    requires
        chord::sorted(s),
        chord::sorted(t),
        live_alike(s, t),
    ensures
        chord::violations_of(s, m) == chord::violations_of(t, m),
{
    let ring = chord::ring_of(s);
    lemma_on_rings_alike(s, t, chord::live_of(s));
    assert(ring == chord::ring_of(t));
    if ring.len() > 0 {
        assert(ring.contains(ring[0]));
        lemma_lap_alike(s, t, ring[0]);
        lemma_disorder_alike(s, t, ring, m, ring.len() as int);
        lemma_strays_alike(s, t, ring, chord::live_of(s));
    }
}

/// Sorted sequences with the same members are the same.
proof fn lemma_sorted_same(s: Seq<NodeState>, t: Seq<NodeState>)
    requires
        chord::sorted(s),
        chord::sorted(t),
        forall|x: NodeState| #[trigger] s.contains(x) <==> t.contains(x),
    ensures
        s == t,
    decreases s.len(),
{
    if s.len() == 0 {
        if t.len() > 0 {
            assert(t.contains(t[0]));
            assert(s.contains(t[0]));
        }
        assert(s =~= t);
    } else {
        let p = s.drop_last();
        let x = s.last();
        assert(s.contains(s[s.len() - 1]));
        assert(t.contains(x));
        let q = t.drop_last();
        let y = t.last();
        assert(t.contains(t[t.len() - 1]));
        assert(s.contains(y));
        assert(x == y) by {
            let i = choose|i: int| 0 <= i < s.len() && s[i] == y;
            let j = choose|j: int| 0 <= j < t.len() && t[j] == x;
            if i < s.len() - 1 {
                assert(s[i].ident < s[s.len() - 1].ident);
                if j < t.len() - 1 {
                    assert(t[j].ident < t[t.len() - 1].ident);
                }
            }
        }
        assert(chord::sorted(p)) by {
            assert forall|i: int, j: int| 0 <= i < j < p.len() implies (#[trigger] p[i]).ident < (
            #[trigger] p[j]).ident by {
                assert(s[i].ident < s[j].ident);
            }
        }
        assert(chord::sorted(q)) by {
            assert forall|i: int, j: int| 0 <= i < j < q.len() implies (#[trigger] q[i]).ident < (
            #[trigger] q[j]).ident by {
                assert(t[i].ident < t[j].ident);
            }
        }
        assert forall|z: NodeState| #[trigger] p.contains(z) <==> q.contains(z) by {
            if p.contains(z) {
                let i = choose|i: int| 0 <= i < p.len() && p[i] == z;
                assert(s[i] == z && s[i].ident < s[s.len() - 1].ident);
                assert(s.contains(z));
                assert(t.contains(z));
                let j = choose|j: int| 0 <= j < t.len() && t[j] == z;
                assert(q[j] == z);
            }
            if q.contains(z) {
                let i = choose|i: int| 0 <= i < q.len() && q[i] == z;
                assert(t[i] == z && t[i].ident < t[t.len() - 1].ident);
                assert(t.contains(z));
                assert(s.contains(z));
                let j = choose|j: int| 0 <= j < s.len() && s[j] == z;
                assert(p[j] == z);
            }
        }
        lemma_sorted_same(p, q);
        assert(s =~= p.push(x));
        assert(t =~= q.push(y));
    }
}

/// The live nodes are those that are known to be alive.
proof fn lemma_live_member(s: Seq<NodeState>, x: NodeState)
    requires
        chord::sorted(s),
    ensures
        chord::live_of(s).contains(x) <==> live_get(s, x.ident) == Some(x),
{
    chord::lemma_live_of(s);
    chord::lemma_get(s, x.ident);
    let l = chord::live_of(s);
    if l.contains(x) {
        let i = choose|i: int| 0 <= i < l.len() && l[i] == x;
        assert(l[i].alive && s.contains(l[i]));
        let j = choose|j: int| 0 <= j < s.len() && s[j] == x;
        assert(s[j].ident == x.ident);
    }
    if live_get(s, x.ident) == Some(x) {
        let j = choose|j: int| 0 <= j < s.len() && s[j] == x;
        assert(s[j].alive);
    }
}

proof fn lemma_live_alike(s: Seq<NodeState>, t: Seq<NodeState>)
    requires
        chord::sorted(s),
        chord::sorted(t),
        forall|x: i32| #[trigger] live_get(s, x) == live_get(t, x),
    ensures
        live_alike(s, t),
{
    chord::lemma_live_of(s);
    chord::lemma_live_of(t);
    assert forall|x: NodeState| #[trigger] chord::live_of(s).contains(x) <==> chord::live_of(
        t,
    ).contains(x) by {
        lemma_live_member(s, x);
        lemma_live_member(t, x);
        assert(live_get(s, x.ident) == live_get(t, x.ident));
    }
    lemma_sorted_same(chord::live_of(s), chord::live_of(t));
}

/// A snapshot of a state of the model: it knows the nodes that have joined,
/// each as the state has it, and no others.
pub open spec fn matching(m: ModelView, s: StateView, snap: Seq<NodeState>) -> bool {
    let c = chord_model::config(m, s);
    &&& chord::sorted(snap)
    &&& forall|k: int|
        0 <= k < s.nodes.len() && (#[trigger] s.nodes[k]).status != Status::Out ==> chord::get(
            snap,
            c[k].ident,
        ) == Some(c[k])
    &&& forall|x: i32|
        (#[trigger] chord::get(snap, x)) is Some ==> exists|k: int|
            0 <= k < s.nodes.len() && (#[trigger] s.nodes[k]).status != Status::Out && c[k].ident
                == x
}

proof fn lemma_matching(m: ModelView, s: StateView, snap: Seq<NodeState>)
    requires
        chord_model::state_ok(m, s),
        matching(m, s, snap),
    ensures
        chord::sorted(chord_model::config(m, s)),
        live_alike(chord_model::config(m, s), snap),
{
    let c = chord_model::config(m, s);
    assert forall|i: int, j: int| 0 <= i < j < c.len() implies (#[trigger] c[i]).ident < (
    #[trigger] c[j]).ident by {
        assert(m.idents[i] < m.idents[j]);
    }
    assert forall|x: i32| #[trigger] live_get(c, x) == live_get(snap, x) by {
        chord::lemma_get(c, x);
        if live_get(c, x) is Some {
            let n = chord::get(c, x).unwrap();
            let k = choose|k: int| 0 <= k < c.len() && c[k] == n;
            assert(s.nodes[k].status != Status::Out);
        }
        if chord::get(snap, x) is Some {
            let k = choose|k: int|
                0 <= k < s.nodes.len() && (#[trigger] s.nodes[k]).status != Status::Out
                    && c[k].ident == x;
            assert(chord::get(snap, c[k].ident) == Some(c[k]));
            assert(chord::get(c, x) == Some(c[k]));
        }
    }
    lemma_live_alike(c, snap);
}

/// Whether one of the violations is of the invariant that goes by `name`.
pub open spec fn named(v: Seq<ViolationView>, name: Seq<char>) -> bool {
    exists|i: int| 0 <= i < v.len() && chord::kind_name((#[trigger] v[i]).kind) == name
}

proof fn lemma_disorder_kind(s: Seq<NodeState>, ring: Seq<i32>, m: nat, i: int)
    ensures
        forall|k: int|
            0 <= k < chord::disorder(s, ring, m, i).len() ==> (#[trigger] chord::disorder(
                s,
                ring,
                m,
                i,
            )[k]).kind == InvariantKind::OrderedRing,
    decreases i,
{
    if i > 0 {
        lemma_disorder_kind(s, ring, m, i - 1);
        let n1 = ring[i - 1];
        let n2 = chord::best_of(s, n1);
        lemma_misplaced_kind(ring, n1, n2, m, ring.len() as int);
        let a = chord::disorder(s, ring, m, i - 1);
        let d = chord::disorder(s, ring, m, i);
        assert forall|k: int| 0 <= k < d.len() implies (#[trigger] d[k]).kind
            == InvariantKind::OrderedRing by {
            if k < a.len() {
                assert(a[k].kind == InvariantKind::OrderedRing);
            } else {
                let b = chord::misplaced_after(ring, n1, n2, m, ring.len() as int);
                assert(b[k - a.len()].kind == InvariantKind::OrderedRing);
            }
        }
    }
}

proof fn lemma_misplaced_kind(ring: Seq<i32>, n1: i32, n2: i32, m: nat, j: int)
    ensures
        forall|k: int|
            0 <= k < chord::misplaced_after(ring, n1, n2, m, j).len() ==> (
            #[trigger] chord::misplaced_after(ring, n1, n2, m, j)[k]).kind
                == InvariantKind::OrderedRing,
    decreases j,
{
    if j > 0 {
        lemma_misplaced_kind(ring, n1, n2, m, j - 1);
    }
}

proof fn lemma_strays_kind(s: Seq<NodeState>, ring: Seq<i32>, nodes: Seq<NodeState>)
    ensures
        forall|k: int|
            0 <= k < chord::strays(s, ring, nodes).len() ==> (#[trigger] chord::strays(
                s,
                ring,
                nodes,
            )[k]).kind == InvariantKind::ConnectedAppendages,
    decreases nodes.len(),
{
    if nodes.len() > 0 {
        lemma_strays_kind(s, ring, nodes.drop_last());
    }
}

proof fn lemma_names_differ()
    ensures
        "AtLeastOneRing"@.len() == 14,
        "AtMostOneRing"@.len() == 13,
        "OrderedRing"@.len() == 11,
        "ConnectedAppendages"@.len() == 19,
{
    reveal_strlit("AtLeastOneRing");
    reveal_strlit("AtMostOneRing");
    reveal_strlit("OrderedRing");
    reveal_strlit("ConnectedAppendages");
}

/// The model names what its configuration violates, each once.
proof fn lemma_names(m: ModelView, s: StateView, name: Seq<char>)
    ensures
        chord_model::violated(m, s).no_duplicates(),
        chord_model::violated(m, s).contains(name) <==> named(
            chord::violations_of(chord_model::config(m, s), m.m as nat),
            name,
        ),
{
    lemma_names_differ();
    let c = chord_model::config(m, s);
    let ring = chord::ring_of(c);
    let v = chord::violations_of(c, m.m as nat);
    let r = chord_model::violated(m, s);
    if ring.len() == 0 {
        assert(r[0] == "AtLeastOneRing"@);
        assert(chord::kind_name(v[0].kind) == "AtLeastOneRing"@);
        if r.contains(name) {
            assert(chord::kind_name(v[0].kind) == name);
        }
    } else {
        let none = Seq::<ViolationView>::empty();
        let a = if chord::lap(c, ring[0]) != ring.len() {
            seq![
                ViolationView {
                    kind: InvariantKind::AtMostOneRing,
                    detail: chord::split_text(ring.len(), ring[0], chord::lap(c, ring[0])),
                },
            ]
        } else {
            none
        };
        let b = chord::disorder(c, ring, m.m as nat, ring.len() as int);
        let d = chord::strays(c, ring, chord::live_of(c));
        assert(v == a + b + d);
        lemma_disorder_kind(c, ring, m.m as nat, ring.len() as int);
        lemma_strays_kind(c, ring, chord::live_of(c));
        lemma_three(a, b, d, r, name);
    }
}

proof fn lemma_three(
    a: Seq<ViolationView>,
    b: Seq<ViolationView>,
    d: Seq<ViolationView>,
    r: Seq<Seq<char>>,
    name: Seq<char>,
)
    requires
        forall|k: int| 0 <= k < a.len() ==> (#[trigger] a[k]).kind == InvariantKind::AtMostOneRing,
        forall|k: int| 0 <= k < b.len() ==> (#[trigger] b[k]).kind == InvariantKind::OrderedRing,
        forall|k: int|
            0 <= k < d.len() ==> (#[trigger] d[k]).kind == InvariantKind::ConnectedAppendages,
        r == (if a.len() > 0 {
            seq!["AtMostOneRing"@]
        } else {
            Seq::empty()
        }) + (if b.len() > 0 {
            seq!["OrderedRing"@]
        } else {
            Seq::empty()
        }) + (if d.len() > 0 {
            seq!["ConnectedAppendages"@]
        } else {
            Seq::empty()
        }),
    ensures
        r.no_duplicates(),
        r.contains(name) <==> named(a + b + d, name),
{
    lemma_names_differ();
    let v = a + b + d;
    let x = if a.len() > 0 {
        1int
    } else {
        0int
    };
    let y = x + if b.len() > 0 {
        1int
    } else {
        0int
    };
    if a.len() > 0 {
        assert(v[0] == a[0]);
        assert(r[0] == "AtMostOneRing"@);
    }
    if b.len() > 0 {
        assert(v[a.len() as int] == b[0]);
        assert(r[x] == "OrderedRing"@);
    }
    if d.len() > 0 {
        assert(v[(a.len() + b.len()) as int] == d[0]);
        assert(r[y] == "ConnectedAppendages"@);
    }
    if r.contains(name) {
        let i = choose|i: int| 0 <= i < r.len() && r[i] == name;
        if i < x {
            assert(chord::kind_name(v[0].kind) == name);
        } else if i < y {
            assert(chord::kind_name(v[a.len() as int].kind) == name);
        } else {
            assert(chord::kind_name(v[(a.len() + b.len()) as int].kind) == name);
        }
    }
    if named(v, name) {
        let i = choose|i: int| 0 <= i < v.len() && chord::kind_name((#[trigger] v[i]).kind) == name;
        if i < a.len() {
            assert(v[i] == a[i]);
            assert(r[0] == name);
        } else if i < a.len() + b.len() {
            assert(v[i] == b[i - a.len()]);
            assert(r[x] == name);
        } else {
            assert(v[i] == d[i - a.len() - b.len()]);
            assert(r[y] == name);
        }
    }
}

/// A state of the model violates what a snapshot of its nodes is found to
/// violate, each invariant named once; and the invariants hold of the one where
/// nothing is found of the other.
pub proof fn law_model_and_snapshot_agree(
    m: ModelView,
    s: StateView,
    snap: Seq<NodeState>,
    name: Seq<char>,
)
    requires
        chord_model::state_ok(m, s),
        matching(m, s, snap),
    ensures
        chord_model::violated(m, s).no_duplicates(),
        chord_model::violated(m, s).contains(name) <==> named(
            chord::violations_of(snap, m.m as nat),
            name,
        ),
        chord_model::violated(m, s).len() == 0 <==> chord::violations_of(snap, m.m as nat).len()
            == 0,
{
    lemma_matching(m, s, snap);
    lemma_violations_alike(chord_model::config(m, s), snap, m.m as nat);
    lemma_names(m, s, name);
    let v = chord::violations_of(snap, m.m as nat);
    let r = chord_model::violated(m, s);
    if v.len() > 0 {
        let first = chord::kind_name(v[0].kind);
        lemma_names(m, s, first);
        assert(r.contains(first));
    }
    if r.len() > 0 {
        lemma_names(m, s, r[0]);
        assert(r.contains(r[0]));
    }
}

/// A snapshot to which exactly the nodes that have joined were reported, in
/// whatever order, matches the state.
pub proof fn law_reported_nodes_match(m: ModelView, s: StateView, reports: Seq<NodeState>)
    requires
        chord_model::state_ok(m, s),
        forall|i: int|
            0 <= i < reports.len() ==> exists|k: int|
                0 <= k < s.nodes.len() && (#[trigger] s.nodes[k]).status != Status::Out
                    && #[trigger] reports[i] == chord_model::config(m, s)[k],
        forall|k: int|
            0 <= k < s.nodes.len() && (#[trigger] s.nodes[k]).status != Status::Out
                ==> reports.contains(chord_model::config(m, s)[k]),
    ensures
        matching(m, s, snapshot_laws::told(reports, reports.len() as int)),
{
    let c = chord_model::config(m, s);
    let n = reports.len() as int;
    let snap = snapshot_laws::told(reports, n);
    snapshot_laws::law_newest_report_counts(reports, 0, n);
    assert forall|x: i32| (#[trigger] chord::get(snap, x)) is Some implies exists|k: int|
        0 <= k < s.nodes.len() && (#[trigger] s.nodes[k]).status != Status::Out && c[k].ident
            == x by {
        snapshot_laws::law_newest_report_counts(reports, x, n);
        let i = choose|i: int| 0 <= i < n && (#[trigger] reports[i]).ident == x;
        let k = choose|k: int|
            0 <= k < s.nodes.len() && (#[trigger] s.nodes[k]).status != Status::Out && reports[i]
                == c[k];
        assert(c[k].ident == x);
    }
    assert forall|k: int|
        0 <= k < s.nodes.len() && (#[trigger] s.nodes[k]).status != Status::Out implies chord::get(
        snap,
        c[k].ident,
    ) == Some(c[k]) by {
        let x = c[k].ident;
        snapshot_laws::law_newest_report_counts(reports, x, n);
        let at = choose|at: int| 0 <= at < n && reports[at] == c[k];
        assert(reports[at].ident == x);
        assert forall|i: int| 0 <= i < n && (#[trigger] reports[i]).ident == x implies reports[i]
            == c[k] by {
            let j = choose|j: int|
                0 <= j < s.nodes.len() && (#[trigger] s.nodes[j]).status != Status::Out
                    && reports[i] == c[j];
            if j < k {
                assert(m.idents[j] < m.idents[k]);
            }
            if k < j {
                assert(m.idents[k] < m.idents[j]);
            }
        }
        assert(snapshot_laws::always_alive(reports, x, n) == c[k].alive);
    }
}

} // verus!
