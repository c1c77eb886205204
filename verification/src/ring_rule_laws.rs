//! The laws of the rule on rings: when it fires, and what it says.

use vstd::prelude::*;

use crate::chord;
use crate::chord::{ChordInvariant, InvariantKind, NodeState};
use crate::log::EventView;
use crate::monitor::{Invariant, Seen};

verus! {

/// What a node tells of itself in an event that others get to see: in a
/// datagram that is on its way, or in what a receive gets.
#[verifier::opaque]
pub open spec fn seen_by_others(e: EventView) -> Option<NodeState> {
    if (e is Send && e->Send_outcome is Enqueued) || e is Recv {
        chord::report_in(e)
    } else {
        None
    }
}

/// An event counts for the rule if and only if others get to see it; a datagram
/// that was dropped, or that nobody has the address of, does not.
pub proof fn law_what_counts(h: Seq<Seen>, now: Seen)
    ensures
        chord::config_of(h.push(now)) == match seen_by_others(now.e) {
            Some(st) => chord::observed(chord::config_of(h), st),
            None => chord::config_of(h),
        },
        now.e is Send && (now.e->Send_outcome is Dropped || now.e->Send_outcome is NoReceiver)
            ==> chord::config_of(h.push(now)) == chord::config_of(h),
        !(now.e is Send) && !(now.e is Recv) ==> chord::config_of(h.push(now))
            == chord::config_of(h),
{
    reveal(seen_by_others);
    assert(h.push(now).drop_last() =~= h);
    assert(h.push(now).last() == now);
}

/// The `k`-th violation is the first of its kind from the `i`-th on.
pub open spec fn first_at(
    v: Seq<chord::ViolationView>,
    kind: InvariantKind,
    i: int,
    k: int,
) -> bool {
    &&& i <= k < v.len()
    &&& v[k].kind == kind
    &&& forall|j: int| i <= j < k ==> (#[trigger] v[j]).kind != kind
}

proof fn lemma_none(v: Seq<chord::ViolationView>, kind: InvariantKind, i: int)
    requires
        0 <= i <= v.len(),
    ensures
        chord::first_of(v, kind, i) is None <==> forall|k: int|
            i <= k < v.len() ==> (#[trigger] v[k]).kind != kind,
    decreases v.len() - i,
{
    if i < v.len() {
        lemma_none(v, kind, i + 1);
    }
}

proof fn lemma_first(v: Seq<chord::ViolationView>, kind: InvariantKind, i: int, k: int)
    requires
        0 <= i,
        first_at(v, kind, i, k),
    ensures
        chord::first_of(v, kind, i) == Some(v[k].detail),
    decreases v.len() - i,
{
    if i < k {
        assert(v[i].kind != kind);
        lemma_first(v, kind, i + 1, k);
    }
}

/// The rule fires at an event that counts if and only if the nodes, as they are
/// known behind it, violate the invariant that it watches; and it says of the
/// first such violation what it is. It fires at no other event.
pub proof fn law_ring_rule(h: Seq<Seen>, now: Seen, m: nat, target: InvariantKind, k: int)
    ensures
        ({
            let r = chord::ring_verdict(h, now.e, m, target);
            let v = chord::violations_of(chord::config_of(h.push(now)), m);
            &&& seen_by_others(now.e) is None ==> r is None
            &&& seen_by_others(now.e) is Some ==> (r is Some <==> exists|i: int|
                0 <= i < v.len() && (#[trigger] v[i]).kind == target)
            &&& seen_by_others(now.e) is Some && first_at(v, target, 0, k) ==> r == Some(
                v[k].detail,
            )
        }),
{
    law_what_counts(h, now);
    let v = chord::violations_of(chord::config_of(h.push(now)), m);
    lemma_none(v, target, 0);
    if first_at(v, target, 0, k) {
        lemma_first(v, target, 0, k);
    }
    lemma_verdict(h, now.e, m, target);
}

proof fn lemma_verdict(h: Seq<Seen>, e: EventView, m: nat, target: InvariantKind)
    ensures
        chord::ring_verdict(h, e, m, target) == match seen_by_others(e) {
            Some(st) => chord::first_of(
                chord::violations_of(chord::observed(chord::config_of(h), st), m),
                target,
                0,
            ),
            None => None,
        },
{
    reveal(seen_by_others);
}

/// The rule watches the circle and the invariant that it was made for.
pub proof fn law_rule_on_rings(c: ChordInvariant, h: Seq<Seen>, now: Seen)
    ensures
        c.verdict(h, now) == chord::ring_verdict(h, now.e, c.parts().0 as nat, c.parts().1),
        c.title() == chord::kind_name(c.parts().1),
{
}

} // verus!
