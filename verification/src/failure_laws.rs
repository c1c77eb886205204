//! The law of the failure assumption: a recording of Chord breaks it if and
//! only if a death leaves a node that lives without a successor, by the latest
//! that the node has reported.

use vstd::prelude::*;

use crate::chord;
use crate::chord::NodeState;
use crate::log::RecordView;

verus! {

/// The record at `i` sends the report `st`.
pub open spec fn sends(records: Seq<RecordView>, i: int, st: NodeState) -> bool {
    0 <= i < records.len() && chord::sent_in(records[i].e) == Some(st)
}

/// Among the first `n` records, `st` at `j` is the latest report of its node
/// that it lives: none has a higher date, and none that follows the same.
pub open spec fn latest_of(records: Seq<RecordView>, n: int, j: int, st: NodeState) -> bool {
    &&& 0 <= j < n
    &&& sends(records, j, st)
    &&& st.alive
    &&& forall|i: int, r: NodeState| #[trigger]
        sends(records, i, r) && 0 <= i < n && r.alive && r.ident == st.ident ==> r.date <= st.date
            && (i > j ==> r.date < st.date)
}

/// `st` is the latest report of its node among the first `n` records.
spec fn counted(records: Seq<RecordView>, n: int, st: NodeState) -> bool {
    exists|j: int| latest_of(records, n, j, st)
}

proof fn lemma_pick(records: Seq<RecordView>, n: int, st: NodeState) -> (j: int)
    requires
        counted(records, n, st),
    ensures
        latest_of(records, n, j, st),
{
    choose|j: int| latest_of(records, n, j, st)
}

/// A report among the first `n` records says that `x` is dead.
pub open spec fn dead_by(records: Seq<RecordView>, n: int, x: i32) -> bool {
    exists|i: int, r: NodeState| #[trigger]
        sends(records, i, r) && 0 <= i < n && !r.alive && r.ident == x
}

/// The death that the record at `i` reports leaves the node of `st`, whose
/// latest report that is, without a successor: it lives, is not the one that
/// died, and neither of its successors is left.
pub open spec fn stranded(records: Seq<RecordView>, i: int, gone: NodeState, j: int, st: NodeState)
    -> bool {
    &&& sends(records, i, gone)
    &&& !gone.alive
    &&& latest_of(records, i, j, st)
    &&& st.ident != gone.ident
    &&& !dead_by(records, i + 1, st.ident)
    &&& st.succ < 0 || dead_by(records, i + 1, st.succ)
    &&& st.succ2 < 0 || dead_by(records, i + 1, st.succ2)
}

/// What is kept of the live reports: one for each node, its latest.
spec fn kept(records: Seq<RecordView>, n: int, v: Seq<NodeState>) -> bool {
    &&& forall|p: int, q: int|
        0 <= p < v.len() && 0 <= q < v.len() && p != q ==> (#[trigger] v[p]).ident != (
        #[trigger] v[q]).ident
    &&& forall|p: int|
        0 <= p < v.len() ==> counted(records, n, #[trigger] v[p])
    &&& forall|i: int, r: NodeState| #[trigger]
        sends(records, i, r) && 0 <= i < n && r.alive ==> exists|p: int|
            0 <= p < v.len() && (#[trigger] v[p]).ident == r.ident
}

proof fn lemma_dead(records: Seq<RecordView>, n: int, x: i32)
    requires
        0 <= n <= records.len(),
    ensures
        chord::lives(records, n).dead.contains(x) <==> dead_by(records, n, x),
    decreases n,
{
    let v = chord::lives(records, n).dead;
    if n > 0 {
        lemma_dead(records, n - 1, x);
        let u = chord::lives(records, n - 1).dead;
        let now = chord::sent_in(records[n - 1].e);
        if dead_by(records, n - 1, x) {
            let (i, r) = choose|i: int, r: NodeState| #[trigger]
                sends(records, i, r) && 0 <= i < n - 1 && !r.alive && r.ident == x;
            assert(sends(records, i, r));
            let k = choose|k: int| 0 <= k < u.len() && u[k] == x;
            assert(v[k] == x);
        }
        if dead_by(records, n, x) && !dead_by(records, n - 1, x) {
            let (i, r) = choose|i: int, r: NodeState| #[trigger]
                sends(records, i, r) && 0 <= i < n && !r.alive && r.ident == x;
            assert(i == n - 1);
            assert(v[u.len() as int] == x);
        }
        if v.contains(x) && !dead_by(records, n - 1, x) {
            let k = choose|k: int| 0 <= k < v.len() && v[k] == x;
            if k < u.len() {
                assert(u[k] == x);
            }
            assert(now is Some && !now.unwrap().alive && now.unwrap().ident == x);
            assert(sends(records, n - 1, now.unwrap()));
        }
    }
}

/// A report that is not that of `st`'s node leaves `st` the latest.
proof fn lemma_other(records: Seq<RecordView>, n: int, j: int, st: NodeState)
    requires
        0 < n <= records.len(),
        latest_of(records, n - 1, j, st),
        chord::sent_in(records[n - 1].e) matches Some(r) ==> !r.alive || r.ident != st.ident
            || r.date < st.date,
    ensures
        latest_of(records, n, j, st),
{
    assert forall|i: int, r: NodeState| #[trigger]
        sends(records, i, r) && 0 <= i < n && r.alive && r.ident == st.ident implies r.date
        <= st.date && (i > j ==> r.date < st.date) by {
        if i < n - 1 {
            assert(sends(records, i, r));
        }
    }
}

proof fn lemma_last_spot(v: Seq<NodeState>, ident: i32, n: int) -> (pos: int)
    requires
        0 <= n <= v.len(),
        forall|j: int| n <= j < v.len() ==> (#[trigger] v[j]).ident != ident,
    ensures
        0 <= pos <= v.len(),
        forall|j: int| pos <= j < v.len() ==> (#[trigger] v[j]).ident != ident,
        pos > 0 ==> v[pos - 1].ident == ident,
    decreases n,
{
    if n > 0 && v[n - 1].ident != ident {
        lemma_last_spot(v, ident, n - 1)
    } else {
        n
    }
}

proof fn lemma_kept(records: Seq<RecordView>, n: int)
    requires
        0 <= n <= records.len(),
    ensures
        kept(records, n, chord::lives(records, n).latest),
    decreases n,
{
    if n > 0 {
        lemma_kept(records, n - 1);
        let u = chord::lives(records, n - 1).latest;
        match chord::sent_in(records[n - 1].e) {
            Some(st) if st.alive => {
                let pos = lemma_last_spot(u, st.ident, u.len() as int);
                chord::lemma_reported_at(u, st, pos);
                if pos > 0 {
                    lemma_kept_again(records, n, u, st, pos - 1);
                } else {
                    lemma_kept_first(records, n, u, st);
                }
            },
            _ => {
                lemma_kept_still(records, n, u);
            },
        }
    }
}

proof fn lemma_kept_still(records: Seq<RecordView>, n: int, u: Seq<NodeState>)
    requires
        0 < n <= records.len(),
        kept(records, n - 1, u),
        chord::sent_in(records[n - 1].e) matches Some(r) ==> !r.alive,
    ensures
        kept(records, n, u),
{
    assert forall|p: int| 0 <= p < u.len() implies counted(records, n, #[trigger] u[p]) by {
        let j = lemma_pick(records, n - 1, u[p]);
        lemma_other(records, n, j, u[p]);
    }
    assert forall|i: int, r: NodeState| #[trigger]
        sends(records, i, r) && 0 <= i < n && r.alive implies exists|p: int|
        0 <= p < u.len() && (#[trigger] u[p]).ident == r.ident by {
        assert(i < n - 1);
        assert(sends(records, i, r));
    }
}

/// A node that was kept reports again.
#[verifier::spinoff_prover]
#[verifier::rlimit(40)]
proof fn lemma_kept_again(
    records: Seq<RecordView>,
    n: int,
    u: Seq<NodeState>,
    st: NodeState,
    at: int,
)
    requires
        0 < n <= records.len(),
        kept(records, n - 1, u),
        sends(records, n - 1, st),
        st.alive,
        0 <= at < u.len(),
        u[at].ident == st.ident,
    ensures
        kept(records, n, u.update(at, chord::later(u[at], st))),
{
    let o = u[at];
    let v = u.update(at, chord::later(o, st));
    assert forall|p: int, q: int|
        0 <= p < v.len() && 0 <= q < v.len() && p != q implies (#[trigger] v[p]).ident != (
    #[trigger] v[q]).ident by {
        assert(u[p].ident != u[q].ident);
    }
    let j0 = lemma_pick(records, n - 1, o);
    assert forall|p: int| 0 <= p < v.len() implies counted(records, n, #[trigger] v[p]) by {
        if p != at {
            assert(u[p].ident != u[at].ident);
            let j = lemma_pick(records, n - 1, u[p]);
            lemma_other(records, n, j, u[p]);
        } else if st.date >= o.date {
            assert forall|i: int, r: NodeState| #[trigger]
                sends(records, i, r) && 0 <= i < n && r.alive && r.ident == st.ident implies r.date
                <= st.date && (i > n - 1 ==> r.date < st.date) by {
                if i < n - 1 {
                    assert(r.date <= o.date);
                }
            }
            assert(latest_of(records, n, n - 1, st));
        } else {
            lemma_other(records, n, j0, o);
        }
    }
    assert forall|i: int, r: NodeState| #[trigger]
        sends(records, i, r) && 0 <= i < n && r.alive implies exists|p: int|
        0 <= p < v.len() && (#[trigger] v[p]).ident == r.ident by {
        if i == n - 1 {
            assert(v[at].ident == r.ident);
        } else {
            let p = choose|p: int| 0 <= p < u.len() && (#[trigger] u[p]).ident == r.ident;
            assert(v[p].ident == r.ident);
        }
    }
}

/// A node reports for the first time.
#[verifier::spinoff_prover]
#[verifier::rlimit(40)]
proof fn lemma_kept_first(records: Seq<RecordView>, n: int, u: Seq<NodeState>, st: NodeState)
    requires
        0 < n <= records.len(),
        kept(records, n - 1, u),
        sends(records, n - 1, st),
        st.alive,
        forall|p: int| 0 <= p < u.len() ==> (#[trigger] u[p]).ident != st.ident,
    ensures
        kept(records, n, u.insert(0, st)),
{
    let v = u.insert(0, st);
    assert forall|p: int| 0 < p < v.len() implies #[trigger] v[p] == u[p - 1] by {}
    assert forall|p: int, q: int|
        0 <= p < v.len() && 0 <= q < v.len() && p != q implies (#[trigger] v[p]).ident != (
    #[trigger] v[q]).ident by {
        if p > 0 && q > 0 {
            assert(u[p - 1].ident != u[q - 1].ident);
        }
    }
    assert forall|p: int| 0 <= p < v.len() implies counted(records, n, #[trigger] v[p]) by {
        if p == 0 {
            assert forall|i: int, r: NodeState| #[trigger]
                sends(records, i, r) && 0 <= i < n && r.alive && r.ident == st.ident implies r.date
                <= st.date && (i > n - 1 ==> r.date < st.date) by {
                if i < n - 1 {
                    let q = choose|q: int| 0 <= q < u.len() && (#[trigger] u[q]).ident == r.ident;
                    assert(u[q].ident != st.ident);
                }
            }
            assert(latest_of(records, n, n - 1, st));
        } else {
            let j = lemma_pick(records, n - 1, u[p - 1]);
            lemma_other(records, n, j, u[p - 1]);
        }
    }
    assert forall|i: int, r: NodeState| #[trigger]
        sends(records, i, r) && 0 <= i < n && r.alive implies exists|p: int|
        0 <= p < v.len() && (#[trigger] v[p]).ident == r.ident by {
        if i == n - 1 {
            assert(v[0].ident == r.ident);
        } else {
            let p = choose|p: int| 0 <= p < u.len() && (#[trigger] u[p]).ident == r.ident;
            assert(v[p + 1].ident == r.ident);
        }
    }
}

/// A node has one latest report.
proof fn lemma_one_latest(
    records: Seq<RecordView>,
    n: int,
    i: int,
    a: NodeState,
    j: int,
    b: NodeState,
)
    requires
        latest_of(records, n, i, a),
        latest_of(records, n, j, b),
        a.ident == b.ident,
    ensures
        i == j,
        a == b,
{
    assert(sends(records, i, a) && sends(records, j, b));
}

proof fn lemma_any_stranded(records: Seq<RecordView>, i: int, gone: NodeState)
    requires
        sends(records, i, gone),
        !gone.alive,
    ensures
        ({
            let l = chord::lives(records, i);
            chord::any_stranded(l.latest, l.dead.push(gone.ident), gone.ident) <==> exists|
                j: int,
                st: NodeState,
            | #[trigger] stranded(records, i, gone, j, st)
        }),
{
    let l = chord::lives(records, i);
    let dead = chord::lives(records, i + 1).dead;
    assert(dead == l.dead.push(gone.ident));
    lemma_kept(records, i);
    assert forall|x: i32| #[trigger] dead.contains(x) <==> dead_by(records, i + 1, x) by {
        lemma_dead(records, i + 1, x);
    }
    if chord::any_stranded(l.latest, dead, gone.ident) {
        let p = choose|p: int|
            0 <= p < l.latest.len() && chord::is_stranded(
                #[trigger] l.latest[p],
                dead,
                gone.ident,
            );
        let st = l.latest[p];
        let j = lemma_pick(records, i, st);
        assert(dead.contains(st.ident) <==> dead_by(records, i + 1, st.ident));
        assert(stranded(records, i, gone, j, st));
    }
    if exists|j: int, st: NodeState| #[trigger] stranded(records, i, gone, j, st) {
        let (j, st) = choose|j: int, st: NodeState| #[trigger] stranded(records, i, gone, j, st);
        assert(sends(records, j, st));
        let p = choose|p: int| 0 <= p < l.latest.len() && (#[trigger] l.latest[p]).ident == st.ident;
        let k = lemma_pick(records, i, l.latest[p]);
        lemma_one_latest(records, i, k, l.latest[p], j, st);
        assert(dead.contains(st.ident) <==> dead_by(records, i + 1, st.ident));
        assert(dead.contains(st.succ) <==> dead_by(records, i + 1, st.succ));
        assert(dead.contains(st.succ2) <==> dead_by(records, i + 1, st.succ2));
        assert(chord::is_stranded(l.latest[p], dead, gone.ident));
    }
}

proof fn lemma_pick_stranded(records: Seq<RecordView>, i: int, gone: NodeState) -> (r: (int, NodeState))
    requires
        exists|j: int, st: NodeState| #[trigger] stranded(records, i, gone, j, st),
    ensures
        stranded(records, i, gone, r.0, r.1),
{
    choose|j: int, st: NodeState| #[trigger] stranded(records, i, gone, j, st)
}

/// The failure assumption holds of the first `n` records of a recording if and
/// only if no death among them strands a node, by the latest that the node had
/// reported when the death was.
pub proof fn law_failure_assumption(records: Seq<RecordView>, n: int)
    requires
        0 <= n <= records.len(),
    ensures
        chord::lives(records, n).held <==> !exists|i: int, gone: NodeState, j: int, st: NodeState|
            0 <= i < n && #[trigger] stranded(records, i, gone, j, st),
    decreases n,
{
    if n > 0 {
        law_failure_assumption(records, n - 1);
        let now = chord::sent_in(records[n - 1].e);
        if now is Some && !now.unwrap().alive {
            let gone = now.unwrap();
            assert(sends(records, n - 1, gone));
            lemma_any_stranded(records, n - 1, gone);
            if chord::any_stranded(
                chord::lives(records, n - 1).latest,
                chord::lives(records, n - 1).dead.push(gone.ident),
                gone.ident,
            ) {
                let (j, st) = lemma_pick_stranded(records, n - 1, gone);
                assert(0 <= n - 1 < n && stranded(records, n - 1, gone, j, st));
            }
        }
        if !chord::lives(records, n - 1).held {
            let (i, gone, j, st) = choose|i: int, gone: NodeState, j: int, st: NodeState|
                0 <= i < n - 1 && #[trigger] stranded(records, i, gone, j, st);
            assert(0 <= i < n && stranded(records, i, gone, j, st));
        }
        if exists|i: int, gone: NodeState, j: int, st: NodeState|
            0 <= i < n && #[trigger] stranded(records, i, gone, j, st) {
            let (i, gone, j, st) = choose|i: int, gone: NodeState, j: int, st: NodeState|
                0 <= i < n && #[trigger] stranded(records, i, gone, j, st);
            if i == n - 1 {
                assert(sends(records, n - 1, gone));
                assert(stranded(records, n - 1, gone, j, st));
            }
        }
    }
}

/// The report that counts for a node has a date not below that of any other
/// report, before that point, that it lives; and a node that reported itself
/// alive has one that counts.
pub proof fn law_latest_report_counts(records: Seq<RecordView>, n: int, i: int, r: NodeState)
    requires
        0 <= i < n <= records.len(),
        sends(records, i, r),
        r.alive,
    ensures
        exists|j: int, st: NodeState|
            st.ident == r.ident && st.date >= r.date && #[trigger] latest_of(records, n, j, st)
                && chord::lives(records, n).latest.contains(st),
{
    lemma_kept(records, n);
    let v = chord::lives(records, n).latest;
    let p = choose|p: int| 0 <= p < v.len() && (#[trigger] v[p]).ident == r.ident;
    let j = lemma_pick(records, n, v[p]);
    assert(latest_of(records, n, j, v[p]));
    assert(v.contains(v[p]));
}

} // verus!
