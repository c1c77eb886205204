//! Laws of Chord's snapshots: what any sequence of reports leaves behind.

use vstd::prelude::*;

use crate::chord;
use crate::chord::NodeState;

verus! {

/// The configuration behind the first `n` reports.
pub open spec fn told(reports: Seq<NodeState>, n: int) -> Seq<NodeState>
    decreases n,
{
    if n <= 0 {
        Seq::empty()
    } else {
        chord::observed(told(reports, n - 1), reports[n - 1])
    }
}

/// The report at `k` counts for its node among the first `n`: it has the
/// highest date, and is the last of those that have it.
pub open spec fn counts(reports: Seq<NodeState>, k: int, n: int) -> bool {
    &&& 0 <= k < n
    &&& forall|i: int|
        0 <= i < n && (#[trigger] reports[i]).ident == reports[k].ident ==> reports[i].date
            < reports[k].date || (reports[i].date == reports[k].date && i <= k)
}

/// Every one of the first `n` reports of a node says that it is alive.
pub open spec fn always_alive(reports: Seq<NodeState>, ident: i32, n: int) -> bool {
    forall|i: int| 0 <= i < n && (#[trigger] reports[i]).ident == ident ==> reports[i].alive
}

/// One of the first `n` reports is of this node.
pub open spec fn heard_of(reports: Seq<NodeState>, ident: i32, n: int) -> bool {
    exists|i: int| 0 <= i < n && (#[trigger] reports[i]).ident == ident
}

/// A report changes what is known of its own node alone.
pub proof fn law_report_concerns_its_node(s: Seq<NodeState>, st: NodeState, ident: i32)
    requires
        chord::sorted(s),
    ensures
        chord::get(chord::observed(s, st), ident) == if ident == st.ident {
            Some(
                match chord::get(s, ident) {
                    Some(old_state) => chord::merged(old_state, st),
                    None => st,
                },
            )
        } else {
            chord::get(s, ident)
        },
    decreases s.len(),
{
    let r = chord::observed(s, st);
    let p = s.drop_last();
    if s.len() == 0 || s.last().ident < st.ident {
        assert(r.drop_last() =~= s);
        if chord::get(s, st.ident) is Some {
            chord::lemma_get(s, st.ident);
            let n = chord::get(s, st.ident).unwrap();
            let i = choose|i: int| 0 <= i < s.len() && s[i] == n;
            if i < s.len() - 1 {
                assert(s[i].ident < s[s.len() - 1].ident);
            }
        }
    } else if s.last().ident == st.ident {
        assert(r.drop_last() =~= p);
    } else {
        assert(r.drop_last() =~= chord::observed(p, st));
        assert forall|i: int, j: int| 0 <= i < j < p.len() implies (#[trigger] p[i]).ident < (
        #[trigger] p[j]).ident by {
            assert(s[i].ident < s[j].ident);
        }
        law_report_concerns_its_node(p, st, ident);
    }
}

/// Of any sequence of reports, what is known of a node is its report with the
/// highest date, the last of those that have it; it is alive where every report
/// of it says so. Nothing is known of a node without a report.
pub proof fn law_newest_report_counts(reports: Seq<NodeState>, ident: i32, n: int)
    requires
        0 <= n <= reports.len(),
    ensures
        chord::sorted(told(reports, n)),
        chord::get(told(reports, n), ident) is Some <==> heard_of(reports, ident, n),
        chord::get(told(reports, n), ident) matches Some(x) ==> exists|k: int| #[trigger]
            counts(reports, k, n) && reports[k].ident == ident && x == (NodeState {
                alive: always_alive(reports, ident, n),
                ..reports[k]
            }),
    decreases n,
{
    if n > 0 {
        law_newest_report_counts(reports, ident, n - 1);
        let s = told(reports, n - 1);
        let st = reports[n - 1];
        chord::lemma_observed(s, st);
        law_report_concerns_its_node(s, st, ident);
        if ident == st.ident {
            assert(reports[n - 1].ident == ident);
            if chord::get(s, ident) is Some {
                let old_state = chord::get(s, ident).unwrap();
                let k = choose|k: int| #[trigger]
                    counts(reports, k, n - 1) && reports[k].ident == ident && old_state
                        == (NodeState {
                        alive: always_alive(reports, ident, n - 1),
                        ..reports[k]
                    });
                assert(always_alive(reports, ident, n) == (always_alive(reports, ident, n - 1)
                    && st.alive));
                if st.date >= old_state.date {
                    assert(counts(reports, n - 1, n)) by {
                        assert forall|i: int|
                            0 <= i < n && (#[trigger] reports[i]).ident
                                == ident implies reports[i].date < st.date || (reports[i].date
                            == st.date && i <= n - 1) by {
                            if i < n - 1 {
                                assert(reports[i].date <= reports[k].date);
                            }
                        }
                    }
                } else {
                    assert(counts(reports, k, n));
                }
            } else {
                assert(!heard_of(reports, ident, n - 1));
                assert(counts(reports, n - 1, n));
                assert(always_alive(reports, ident, n) == st.alive);
            }
        } else {
            if chord::get(s, ident) is Some {
                let x = chord::get(s, ident).unwrap();
                let k = choose|k: int| #[trigger]
                    counts(reports, k, n - 1) && reports[k].ident == ident && x == (NodeState {
                        alive: always_alive(reports, ident, n - 1),
                        ..reports[k]
                    });
                assert(counts(reports, k, n));
                assert(always_alive(reports, ident, n) == always_alive(reports, ident, n - 1));
                let i = choose|i: int| 0 <= i < n - 1 && (#[trigger] reports[i]).ident == ident;
                assert(reports[i].ident == ident);
            }
        }
    }
}

/// A node that reported itself dead is not among the live ones afterwards,
/// whatever follows.
pub proof fn law_dead_are_not_live(reports: Seq<NodeState>, k: int, n: int, x: NodeState)
    requires
        0 <= k < n <= reports.len(),
        !reports[k].alive,
        chord::live_of(told(reports, n)).contains(x),
    ensures
        x.ident != reports[k].ident,
{
    let s = told(reports, n);
    law_newest_report_counts(reports, x.ident, n);
    chord::lemma_live_of(s);
    let l = chord::live_of(s);
    let i = choose|i: int| 0 <= i < l.len() && l[i] == x;
    assert(l[i].alive && s.contains(l[i]));
    let j = choose|j: int| 0 <= j < s.len() && s[j] == x;
    chord::lemma_get(s, x.ident);
    assert(s[j].ident == x.ident);
    if x.ident == reports[k].ident {
        assert(!always_alive(reports, x.ident, n));
    }
}

} // verus!
