//! Laws of Raft's verdicts: what any sequence of reports comes to.

use vstd::prelude::*;

use crate::raft;
use crate::raft::{RaftReport, VerdictView, LEADER};

verus! {

/// The verdict over the first `n` reports, each with its place.
pub open spec fn judged(reports: Seq<(u64, RaftReport)>, n: int) -> VerdictView
    decreases n,
{
    if n <= 0 {
        raft::verdict_new()
    } else {
        raft::observed(judged(reports, n - 1), reports[n - 1].0, reports[n - 1].1)
    }
}

/// How many of the first `n` reports tell of a restart.
pub open spec fn restarts_in(reports: Seq<(u64, RaftReport)>, n: int) -> nat
    decreases n,
{
    if n <= 0 {
        0
    } else if reports[n - 1].1.alive {
        restarts_in(reports, n - 1)
    } else {
        restarts_in(reports, n - 1) + 1
    }
}

/// The nodes that reported themselves alive and leading `term` in the first `n`
/// reports, each once, in the order of their first such reports.
pub open spec fn leading(reports: Seq<(u64, RaftReport)>, term: i32, n: int) -> Seq<i32>
    decreases n,
{
    if n <= 0 {
        Seq::empty()
    } else {
        let before = leading(reports, term, n - 1);
        let r = reports[n - 1].1;
        if r.alive && r.role == LEADER && r.term == term && !before.contains(r.node) {
            before.push(r.node)
        } else {
            before
        }
    }
}

/// The report at `k` makes it two leaders of `term`.
pub open spec fn makes_two(reports: Seq<(u64, RaftReport)>, term: i32, k: int) -> bool {
    leading(reports, term, k).len() == 1 && leading(reports, term, k + 1).len() == 2
}

/// What the first `n` reports come to.
pub open spec fn sums_up(reports: Seq<(u64, RaftReport)>, v: VerdictView, n: int) -> bool {
    &&& v.reports == n
    &&& v.restarts == restarts_in(reports, n)
    &&& forall|t: i32| #[trigger] raft::leaders_of(v, t) == leading(reports, t, n)
    &&& forall|t: i32| #[trigger] v.leaders.contains_key(t) <==> leading(reports, t, n).len() > 0
    &&& forall|i: int, j: int|
        0 <= i < j < v.violations.len() ==> (#[trigger] v.violations[i]).term != (
        #[trigger] v.violations[j]).term
    &&& forall|t: i32|
        (#[trigger] leading(reports, t, n)).len() >= 2 ==> exists|i: int|
            0 <= i < v.violations.len() && (#[trigger] v.violations[i]).term == t
    &&& forall|i: int| 0 <= i < v.violations.len() ==> sound(reports, #[trigger] v.violations[i], n)
}

/// A violation names the first two leaders of its term, and the report that
/// made it two.
pub open spec fn sound(
    reports: Seq<(u64, RaftReport)>,
    x: raft::ViolationView,
    n: int,
) -> bool {
    &&& leading(reports, x.term, n).len() >= 2
    &&& x.leaders == leading(reports, x.term, n).take(2)
    &&& exists|k: int|
        0 <= k < n && #[trigger] makes_two(reports, x.term, k) && x.at_op == reports[k].0
}

proof fn lemma_leading_distinct(reports: Seq<(u64, RaftReport)>, term: i32, n: int)
    ensures
        n > 0 ==> leading(reports, term, n).len() <= leading(reports, term, n - 1).len() + 1,
        n > 0 && leading(reports, term, n - 1).len() >= 2 ==> leading(reports, term, n).take(2)
            == leading(reports, term, n - 1).take(2),
{
    if n > 0 && leading(reports, term, n - 1).len() >= 2 {
        assert(leading(reports, term, n).take(2) =~= leading(reports, term, n - 1).take(2));
    }
}

/// Of any sequence of reports a verdict counts all, counts as restarts those
/// that are not alive, lists the leaders of each term in the order in which
/// they first reported, and holds exactly one violation for each term with more
/// than one: its first two leaders, and the report that made it two.
#[verifier::rlimit(60)]
#[verifier::spinoff_prover]
pub proof fn law_verdict_sums_up(reports: Seq<(u64, RaftReport)>, n: int)
    requires
        0 <= n <= reports.len(),
        n <= u32::MAX,
    ensures
        sums_up(reports, judged(reports, n), n),
    decreases n,
{
    let v = judged(reports, n);
    if n > 0 {
        law_verdict_sums_up(reports, n - 1);
        let u = judged(reports, n - 1);
        let (op, r) = reports[n - 1];
        lemma_restarts_few(reports, n - 1);
        assert forall|t: i32| #[trigger] raft::leaders_of(v, t) == leading(reports, t, n) by {
            assert(raft::leaders_of(u, t) == leading(reports, t, n - 1));
        }
        assert forall|t: i32| #[trigger] v.leaders.contains_key(t) <==> leading(reports, t, n).len()
            > 0 by {
            assert(raft::leaders_of(u, t) == leading(reports, t, n - 1));
            assert(u.leaders.contains_key(t) <==> leading(reports, t, n - 1).len() > 0);
        }
        let before = leading(reports, r.term, n - 1);
        assert(raft::leaders_of(u, r.term) == before);
        let two = makes_two(reports, r.term, n - 1);
        assert(u.violations.len() <= v.violations.len() <= u.violations.len() + 1);
        assert(v.violations.len() > u.violations.len() <==> r.alive && r.role == LEADER && two);
        assert forall|i: int| 0 <= i < v.violations.len() implies sound(
            reports,
            #[trigger] v.violations[i],
            n,
        ) by {
            let x = v.violations[i];
            if i < u.violations.len() {
                assert(sound(reports, u.violations[i], n - 1));
                lemma_leading_distinct(reports, x.term, n);
                let k = choose|k: int|
                    0 <= k < n - 1 && #[trigger] makes_two(reports, x.term, k) && x.at_op
                        == reports[k].0;
                assert(makes_two(reports, x.term, k));
            } else {
                assert(x.leaders == leading(reports, r.term, n));
                assert(x.leaders.take(2) =~= x.leaders);
                assert(makes_two(reports, x.term, n - 1));
            }
        }
        assert forall|i: int, j: int| 0 <= i < j < v.violations.len() implies (
        #[trigger] v.violations[i]).term != (#[trigger] v.violations[j]).term by {
            if j == u.violations.len() {
                assert(sound(reports, u.violations[i], n - 1));
            } else {
                assert(u.violations[i].term != u.violations[j].term);
            }
        }
        assert forall|t: i32| (#[trigger] leading(reports, t, n)).len() >= 2 implies exists|i: int|
            0 <= i < v.violations.len() && (#[trigger] v.violations[i]).term == t by {
            if leading(reports, t, n - 1).len() >= 2 {
                let i = choose|i: int|
                    0 <= i < u.violations.len() && (#[trigger] u.violations[i]).term == t;
                assert(v.violations[i].term == t);
            } else {
                assert(v.violations[u.violations.len() as int].term == t);
            }
        }
    }
}

proof fn lemma_restarts_few(reports: Seq<(u64, RaftReport)>, n: int)
    requires
        0 <= n,
    ensures
        restarts_in(reports, n) <= n,
    decreases n,
{
    if n > 0 {
        lemma_restarts_few(reports, n - 1);
    }
}

} // verus!
