//! Laws of the Chord checker: a configuration passes exactly where there is
//! one ring, it is ordered, and every live node reaches it; and the dead stay
//! dead.

use vstd::prelude::*;

use crate::chord;
use crate::chord::{NodeState, NONE};

verus! {

/// Best successors lead from `a` to `b`.
pub open spec fn follows(s: Seq<NodeState>, a: i32, b: i32) -> bool {
    exists|k: nat| #[trigger] chord::hop(s, chord::best_of(s, a), k) == b
}

/// All ring members are on one cycle.
pub open spec fn one_ring(s: Seq<NodeState>) -> bool {
    forall|a: i32, b: i32| #[trigger]
        chord::ring_of(s).contains(a) && #[trigger] chord::ring_of(s).contains(b) ==> follows(
            s,
            a,
            b,
        )
}

/// No ring member lies between another one and its successor.
pub open spec fn in_order(s: Seq<NodeState>, m: nat) -> bool {
    forall|a: i32, b: i32| #[trigger]
        chord::ring_of(s).contains(a) && #[trigger] chord::ring_of(s).contains(b)
            ==> !chord::misplaced(a, chord::best_of(s, a), b, m)
}

/// Every live node is on the ring or leads to it.
pub open spec fn connected(s: Seq<NodeState>) -> bool {
    forall|i: int|
        0 <= i < chord::live_of(s).len() ==> !chord::astray(
            s,
            chord::ring_of(s),
            #[trigger] chord::live_of(s)[i],
        )
}

/// What a step from a place on a trail leads to.
pub proof fn lemma_next(s: Seq<NodeState>, first: i32, j: nat, k: nat)
    requires
        chord::hop(s, first, j) != NONE,
    ensures
        chord::hop(s, chord::best_of(s, chord::hop(s, first, j)), k) == chord::hop(
            s,
            first,
            j + 1 + k,
        ),
{
    chord::lemma_hop_add(s, first, j + 1, k);
}

/// A live node to which best successors lead back is a ring member.
pub proof fn lemma_is_member(s: Seq<NodeState>, x: i32, k: int)
    requires
        chord::sorted(s),
        chord::is_live(s, x),
        chord::comes_back(s, x, k),
    ensures
        chord::ring_of(s).contains(x),
{
    chord::lemma_get(s, x);
    chord::lemma_live_of(s);
    let n = chord::get(s, x).unwrap();
    let i = choose|i: int| 0 <= i < s.len() && s[i] == n;
    assert(s[i].alive);
    let l = chord::live_of(s);
    let j = choose|j: int| 0 <= j < l.len() && l[j] == n;
    assert(chord::hop(s, chord::best(s, n), (k - 1) as nat) == n.ident);
    assert(chord::on_ring(s, l[j]));
    chord::lemma_on_rings(s, l, x);
}

/// The places on the cycle through a ring member: they are ring members, and
/// each is passed once in a lap.
proof fn lemma_cycle(s: Seq<NodeState>, a: i32)
    requires
        chord::sorted(s),
        chord::ring_of(s).contains(a),
    ensures
        ({
            let l = chord::lap(s, a);
            let t = chord::trail(s, chord::best_of(s, a), l as nat);
            &&& l >= 1
            &&& t.no_duplicates()
            &&& forall|j: int| 0 <= j < l ==> chord::ring_of(s).contains(#[trigger] t[j])
            &&& chord::hop(s, chord::best_of(s, a), l as nat) == chord::best_of(s, a)
        }),
{
    chord::lemma_ring_member(s, a);
    chord::lemma_lap(s, a);
    let l = chord::lap(s, a);
    let f = chord::best_of(s, a);
    let t = chord::trail(s, f, l as nat);
    assert(chord::hop(s, f, (l - 1) as nat) == a);
    assert(chord::hop(s, f, l as nat) == f);
    assert forall|j: int| 0 <= j < l implies chord::ring_of(s).contains(#[trigger] t[j]) by {
        let x = chord::hop(s, f, j as nat);
        if x == NONE {
            chord::lemma_hop_none(s, f, j as nat, (l - 1) as nat);
        }
        lemma_next(s, f, j as nat, (l - 1) as nat);
        assert(j as nat + 1 + (l - 1) as nat == l as nat + j as nat);
        chord::lemma_hop_add(s, f, l as nat, j as nat);
        assert(chord::comes_back(s, x, l));
        chord::lemma_hop(s, f, j as nat);
        lemma_is_member(s, x, l);
    }
    assert forall|i: int, j: int| 0 <= i < j < t.len() implies t[i] != t[j] by {
        if t[i] == t[j] {
            let rest = (l - 1 - j) as nat;
            chord::lemma_hop_add(s, f, i as nat, rest);
            chord::lemma_hop_add(s, f, j as nat, rest);
            assert(j as nat + rest == (l - 1) as nat);
            assert(chord::comes_back(s, a, i + rest + 1));
        }
    }
}

/// Where steps lead from a ring member, they lead within a lap.
proof fn lemma_within_lap(s: Seq<NodeState>, a: i32, k: nat)
    requires
        chord::sorted(s),
        chord::ring_of(s).contains(a),
    ensures
        exists|j: int|
            0 <= j < chord::lap(s, a) && #[trigger] chord::trail(
                s,
                chord::best_of(s, a),
                chord::lap(s, a) as nat,
            )[j] == chord::hop(s, chord::best_of(s, a), k),
    decreases k,
{
    lemma_cycle(s, a);
    let l = chord::lap(s, a);
    let f = chord::best_of(s, a);
    let t = chord::trail(s, f, l as nat);
    if k < l {
        assert(t[k as int] == chord::hop(s, f, k));
    } else {
        let r = (k - l) as nat;
        lemma_within_lap(s, a, r);
        chord::lemma_hop_add(s, f, l as nat, r);
        assert(l as nat + r == k);
        let j = choose|j: int| 0 <= j < l && #[trigger] t[j] == chord::hop(s, f, r);
        assert(t[j] == chord::hop(s, f, k));
    }
}

proof fn lemma_ring_unique(s: Seq<NodeState>, nodes: Seq<NodeState>)
    requires
        chord::sorted(nodes),
    ensures
        chord::on_rings(s, nodes).no_duplicates(),
        forall|i: int| 0 <= i < chord::on_rings(s, nodes).len() ==> exists|j: int|
            0 <= j < nodes.len() && (#[trigger] nodes[j]).ident == #[trigger] chord::on_rings(
                s,
                nodes,
            )[i],
    decreases nodes.len(),
{
    if nodes.len() > 0 {
        let p = nodes.drop_last();
        let r = chord::on_rings(s, nodes);
        let q = chord::on_rings(s, p);
        assert forall|i: int, j: int| 0 <= i < j < p.len() implies (#[trigger] p[i]).ident < (
        #[trigger] p[j]).ident by {
            assert(nodes[i].ident < nodes[j].ident);
        }
        lemma_ring_unique(s, p);
        assert forall|i: int| 0 <= i < r.len() implies exists|j: int|
            0 <= j < nodes.len() && (#[trigger] nodes[j]).ident == #[trigger] r[i] by {
            if i < q.len() {
                assert(r[i] == q[i]);
                let j = choose|j: int| 0 <= j < p.len() && (#[trigger] p[j]).ident == q[i];
                assert(nodes[j].ident == r[i]);
            } else {
                assert(nodes[nodes.len() - 1].ident == r[i]);
            }
        }
        assert forall|i: int, j: int| 0 <= i < j < r.len() implies r[i] != r[j] by {
            if j == q.len() {
                let x = choose|x: int| 0 <= x < p.len() && (#[trigger] p[x]).ident == q[i];
                assert(nodes[x].ident < nodes[nodes.len() - 1].ident);
            }
        }
    }
}

/// The cycle through the first ring member is as long as there are ring
/// members exactly where all of them are on one cycle.
pub proof fn law_lap_tells_one_ring(s: Seq<NodeState>)
    requires
        chord::sorted(s),
        chord::ring_of(s).len() > 0,
    ensures
        chord::lap(s, chord::ring_of(s)[0]) == chord::ring_of(s).len() <==> one_ring(s),
{
    let ring = chord::ring_of(s);
    let a = ring[0];
    assert(ring.contains(a));
    lemma_cycle(s, a);
    let l = chord::lap(s, a);
    let f = chord::best_of(s, a);
    let t = chord::trail(s, f, l as nat);
    chord::lemma_live_of(s);
    lemma_ring_unique(s, chord::live_of(s));
    chord::lemma_ring_member(s, a);
    chord::lemma_lap(s, a);
    t.unique_seq_to_set();
    ring.unique_seq_to_set();
    assert(t.to_set().subset_of(ring.to_set())) by {
        assert forall|x: i32| t.to_set().contains(x) implies ring.to_set().contains(x) by {
            let j = choose|j: int| 0 <= j < t.len() && t[j] == x;
            assert(ring.contains(t[j]));
        }
    }
    if l == ring.len() {
        vstd::set_lib::lemma_subset_equality(t.to_set(), ring.to_set());
        assert forall|x: i32, y: i32| #[trigger]
            ring.contains(x) && #[trigger] ring.contains(y) implies follows(s, x, y) by {
            assert(t.to_set().contains(x) && t.to_set().contains(y));
            let i = choose|i: int| 0 <= i < t.len() && t[i] == x;
            let j = choose|j: int| 0 <= j < t.len() && t[j] == y;
            // From x on to the end of the lap, and then on to y.
            let k = (l - 1 - i + j) as nat;
            chord::lemma_ring_member(s, x);
            lemma_next(s, f, i as nat, k);
            assert(i as nat + 1 + k == l as nat + j as nat);
            chord::lemma_hop_add(s, f, l as nat, j as nat);
            assert(chord::hop(s, chord::best_of(s, x), k) == y);
        }
    }
    if one_ring(s) {
        assert(ring.to_set().subset_of(t.to_set())) by {
            assert forall|x: i32| ring.to_set().contains(x) implies t.to_set().contains(x) by {
                assert(ring.contains(a) && ring.contains(x));
                let k = choose|k: nat| #[trigger] chord::hop(s, f, k) == x;
                lemma_within_lap(s, a, k);
                let j = choose|j: int| 0 <= j < l && #[trigger] t[j] == chord::hop(s, f, k);
                assert(t[j] == x);
            }
        }
        assert(ring.to_set() =~= t.to_set());
    }
}

proof fn lemma_misplaced(ring: Seq<i32>, n1: i32, n2: i32, m: nat, j: int)
    requires
        0 <= j <= ring.len(),
    ensures
        chord::misplaced_after(ring, n1, n2, m, j).len() == 0 <==> forall|x: int|
            0 <= x < j ==> !chord::misplaced(n1, n2, #[trigger] ring[x], m),
    decreases j,
{
    if j > 0 {
        lemma_misplaced(ring, n1, n2, m, j - 1);
        if chord::misplaced_after(ring, n1, n2, m, j).len() == 0 {
            assert forall|x: int| 0 <= x < j implies !chord::misplaced(
                n1,
                n2,
                #[trigger] ring[x],
                m,
            ) by {
                if x == j - 1 {
                }
            }
        } else if !chord::misplaced(n1, n2, ring[j - 1], m) {
            assert(chord::misplaced_after(ring, n1, n2, m, j - 1).len() > 0);
        }
    }
}

pub proof fn lemma_disorder(s: Seq<NodeState>, m: nat, i: int)
    requires
        chord::sorted(s),
        0 <= i <= chord::ring_of(s).len(),
    ensures
        chord::disorder(s, chord::ring_of(s), m, i).len() == 0 <==> forall|x: int, y: int|
            0 <= x < i && 0 <= y < chord::ring_of(s).len() ==> !chord::misplaced(
                #[trigger] chord::ring_of(s)[x],
                chord::best_of(s, chord::ring_of(s)[x]),
                #[trigger] chord::ring_of(s)[y],
                m,
            ),
    decreases i,
{
    let ring = chord::ring_of(s);
    if i > 0 {
        lemma_disorder(s, m, i - 1);
        let n1 = ring[i - 1];
        let n2 = chord::best_of(s, n1);
        assert(ring.contains(n1));
        // The successor of a ring member is a ring member.
        lemma_cycle(s, n1);
        let t = chord::trail(s, n2, chord::lap(s, n1) as nat);
        assert(t[0] == n2);
        assert(ring.contains(n2));
        lemma_misplaced(ring, n1, n2, m, ring.len() as int);
        let row = chord::misplaced_after(ring, n1, n2, m, ring.len() as int);
        assert(chord::disorder(s, ring, m, i).len() == chord::disorder(s, ring, m, i - 1).len()
            + row.len());
        if chord::disorder(s, ring, m, i).len() == 0 {
            assert forall|x: int, y: int| 0 <= x < i && 0 <= y < ring.len() implies
                !chord::misplaced(
                #[trigger] ring[x],
                chord::best_of(s, ring[x]),
                #[trigger] ring[y],
                m,
            ) by {
                if x == i - 1 {
                    assert(!chord::misplaced(n1, n2, ring[y], m));
                }
            }
        } else if row.len() > 0 {
            let y = choose|y: int|
                0 <= y < ring.len() && chord::misplaced(n1, n2, #[trigger] ring[y], m);
            assert(chord::misplaced(ring[i - 1], chord::best_of(s, ring[i - 1]), ring[y], m));
        }
    }
}

pub proof fn lemma_strays(s: Seq<NodeState>, ring: Seq<i32>, nodes: Seq<NodeState>)
    ensures
        chord::strays(s, ring, nodes).len() == 0 <==> forall|i: int|
            0 <= i < nodes.len() ==> !chord::astray(s, ring, #[trigger] nodes[i]),
    decreases nodes.len(),
{
    if nodes.len() > 0 {
        let p = nodes.drop_last();
        lemma_strays(s, ring, p);
        if chord::strays(s, ring, nodes).len() == 0 {
            assert forall|i: int| 0 <= i < nodes.len() implies !chord::astray(
                s,
                ring,
                #[trigger] nodes[i],
            ) by {
                if i < p.len() {
                    assert(p[i] == nodes[i]);
                }
            }
        } else if !chord::astray(s, ring, nodes[nodes.len() - 1]) {
            let i = choose|i: int| 0 <= i < p.len() && chord::astray(s, ring, #[trigger] p[i]);
            assert(chord::astray(s, ring, nodes[i]));
        } else {
            assert(chord::astray(s, ring, nodes[nodes.len() - 1]));
        }
    }
}

/// A configuration passes exactly where there is a ring, all ring members are
/// on one cycle, the ring is ordered, and every live node reaches it.
pub proof fn law_check_is_exact(s: Seq<NodeState>, m: nat)
    requires
        chord::sorted(s),
    ensures
        chord::violations_of(s, m).len() == 0 <==> {
            &&& chord::ring_of(s).len() > 0
            &&& one_ring(s)
            &&& in_order(s, m)
            &&& connected(s)
        },
{
    let ring = chord::ring_of(s);
    if ring.len() > 0 {
        law_lap_tells_one_ring(s);
        lemma_disorder(s, m, ring.len() as int);
        lemma_strays(s, ring, chord::live_of(s));
        let d = chord::disorder(s, ring, m, ring.len() as int);
        assert(d.len() == 0 <==> in_order(s, m)) by {
            if d.len() == 0 {
                assert forall|a: i32, b: i32| #[trigger]
                    ring.contains(a) && #[trigger] ring.contains(b) implies !chord::misplaced(
                    a,
                    chord::best_of(s, a),
                    b,
                    m,
                ) by {
                    let x = choose|x: int| 0 <= x < ring.len() && ring[x] == a;
                    let y = choose|y: int| 0 <= y < ring.len() && ring[y] == b;
                    assert(!chord::misplaced(ring[x], chord::best_of(s, ring[x]), ring[y], m));
                }
            }
            if in_order(s, m) {
                assert forall|x: int, y: int| 0 <= x < ring.len() && 0 <= y < ring.len() implies
                    !chord::misplaced(
                    #[trigger] ring[x],
                    chord::best_of(s, ring[x]),
                    #[trigger] ring[y],
                    m,
                ) by {
                    assert(ring.contains(ring[x]) && ring.contains(ring[y]));
                }
            }
        }
    }
}

/// A node that was reported dead stays dead, whatever is reported after.
pub proof fn law_death_is_permanent(s: Seq<NodeState>, st: NodeState, ident: i32)
    requires
        chord::sorted(s),
        chord::get(s, ident) is Some,
        !chord::get(s, ident).unwrap().alive,
    ensures
        chord::get(chord::observed(s, st), ident) is Some,
        !chord::get(chord::observed(s, st), ident).unwrap().alive,
    decreases s.len(),
{
    let r = chord::observed(s, st);
    if s.last().ident < st.ident {
        assert(r.drop_last() =~= s);
        if st.ident == ident {
            chord::lemma_get(s, ident);
            let n = chord::get(s, ident).unwrap();
            let i = choose|i: int| 0 <= i < s.len() && s[i] == n;
            if i < s.len() - 1 {
                assert(s[i].ident < s[s.len() - 1].ident);
            }
        }
    } else if s.last().ident == st.ident {
        assert(r.drop_last() =~= s.drop_last());
    } else {
        assert(r.drop_last() =~= chord::observed(s.drop_last(), st));
        if s.last().ident != ident {
            let p = s.drop_last();
            assert forall|i: int, j: int| 0 <= i < j < p.len() implies (#[trigger] p[i]).ident < (
            #[trigger] p[j]).ident by {
                assert(s[i].ident < s[j].ident);
            }
            law_death_is_permanent(s.drop_last(), st, ident);
        }
    }
}

} // verus!
