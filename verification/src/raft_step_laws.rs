//! The laws of the steps of the Raft model: a search misses nothing, since all
//! that the protocol and the schedule allow is offered; and what each step does
//! to terms, roles and votes.

use vstd::prelude::*;

use crate::raft_model;
use crate::raft_model::{ModelView, RaftAction, Role, ScheduleView, StateView, NOBODY};

verus! {

// ---------------------------------------------------------------------------
// All that can happen is offered
// ---------------------------------------------------------------------------

/// Under an exhaustive schedule every member may restart in every state, as
/// long as restarts are left; under a fixed one the next in turn may, and
/// nobody else.
pub proof fn law_every_restart_is_offered(m: ModelView, s: StateView, node: u8)
    requires
        raft_model::state_ok(m, s),
        !s.violated,
    ensures
        m.schedule is Exhaustive ==> (raft_model::possible(m, s).contains(
            RaftAction::Restart { node },
        ) <==> node < m.members && s.restarts_done < m.max_restarts),
        m.schedule matches ScheduleView::Fixed(order) ==> (raft_model::possible(m, s).contains(
            RaftAction::Restart { node },
        ) <==> s.sched_pos < order.len() && order[s.sched_pos as int] == node),
{
    let a = RaftAction::Restart { node };
    let r = raft_model::restarts(m, s);
    let p = raft_model::protocol(m, s, s.nodes.len() as int);
    let all = r + p;
    if all.contains(a) {
        let k = choose|k: int| 0 <= k < all.len() && all[k] == a;
        if k < r.len() {
            assert(r[k] == a);
        } else {
            assert(p[k - r.len()] == a);
            lemma_no_restart(m, s, s.nodes.len() as int, k - r.len());
        }
    }
    match m.schedule {
        ScheduleView::Exhaustive => {
            if node < m.members && s.restarts_done < m.max_restarts {
                assert(r[node as int] == a);
                assert(all[node as int] == a);
            }
        },
        ScheduleView::Fixed(order) => {
            if s.sched_pos < order.len() && order[s.sched_pos as int] == node {
                assert(r[0] == a);
                assert(all[0] == a);
            }
        },
    }
}

proof fn lemma_no_restart(m: ModelView, s: StateView, n: int, k: int)
    requires
        raft_model::state_ok(m, s),
        0 <= n <= s.nodes.len(),
        0 <= k < raft_model::protocol(m, s, n).len(),
    ensures
        !(raft_model::protocol(m, s, n)[k] is Restart),
    decreases n,
{
    let p = raft_model::protocol(m, s, n - 1);
    if k < p.len() {
        lemma_no_restart(m, s, n - 1, k);
    } else {
        let q = raft_model::node_actions(m, s, n - 1);
        let j = k - p.len();
        assert(raft_model::protocol(m, s, n)[k] == q[j]);
        lemma_node_steps(m, s, n - 1, q[j]);
    }
}

/// What a node can do, by what it takes.
spec fn within_reach(m: ModelView, s: StateView, i: int, a: RaftAction) -> bool {
    let x = s.nodes[i];
    match a {
        RaftAction::StartElection { node } => node == i && x.role != Role::Leader && x.term
            < m.term_bound,
        RaftAction::Grant { cand, voter } => {
            let y = s.nodes[voter as int];
            cand == i && voter < s.nodes.len() && voter != i && x.role == Role::Candidate && (x.term
                > y.term || (x.term == y.term && (y.voted_for == NOBODY || y.voted_for == i)
                && x.votes & (1u8 << voter) == 0))
        },
        RaftAction::StepDown { node, peer } => node == i && peer < s.nodes.len()
            && s.nodes[peer as int].term > x.term,
        RaftAction::Restart { .. } => false,
    }
}

proof fn lemma_grant_steps(s: StateView, i: int, n: int, a: RaftAction)
    requires
        0 <= i < s.nodes.len() <= 8,
        0 <= n <= s.nodes.len(),
    ensures
        raft_model::grants(s, i, n).contains(a) <==> (a matches RaftAction::Grant { cand, voter }
            && cand == i && voter < n && raft_model::may_grant(s, i, voter as int)),
    decreases n,
{
    if n > 0 {
        lemma_grant_steps(s, i, n - 1, a);
        let p = raft_model::grants(s, i, n - 1);
        let g = raft_model::grants(s, i, n);
        if raft_model::may_grant(s, i, n - 1) {
            lemma_pushed(p, g.last(), a);
        }
    }
}

proof fn lemma_step_downs(s: StateView, i: int, n: int, a: RaftAction)
    requires
        0 <= i < s.nodes.len() <= 8,
        0 <= n <= s.nodes.len(),
    ensures
        raft_model::step_downs(s, i, n).contains(a) <==> (a matches RaftAction::StepDown {
            node,
            peer,
        } && node == i && peer < n && s.nodes[peer as int].term > s.nodes[i].term),
    decreases n,
{
    if n > 0 {
        lemma_step_downs(s, i, n - 1, a);
        let p = raft_model::step_downs(s, i, n - 1);
        let g = raft_model::step_downs(s, i, n);
        if i != n - 1 && s.nodes[n - 1].term > s.nodes[i].term {
            lemma_pushed(p, g.last(), a);
        }
    }
}

proof fn lemma_pushed(p: Seq<RaftAction>, x: RaftAction, a: RaftAction)
    ensures
        p.push(x).contains(a) <==> p.contains(a) || a == x,
{
    let g = p.push(x);
    if p.contains(a) {
        let k = choose|k: int| 0 <= k < p.len() && p[k] == a;
        assert(g[k] == a);
    }
    if a == x {
        assert(g[p.len() as int] == a);
    }
    if g.contains(a) && a != x {
        let k = choose|k: int| 0 <= k < g.len() && g[k] == a;
        assert(p[k] == a);
    }
}

proof fn lemma_either(p: Seq<RaftAction>, q: Seq<RaftAction>, a: RaftAction)
    ensures
        (p + q).contains(a) <==> p.contains(a) || q.contains(a),
{
    let g = p + q;
    if p.contains(a) {
        let k = choose|k: int| 0 <= k < p.len() && p[k] == a;
        assert(g[k] == a);
    }
    if q.contains(a) {
        let k = choose|k: int| 0 <= k < q.len() && q[k] == a;
        assert(g[p.len() + k] == a);
    }
    if g.contains(a) {
        let k = choose|k: int| 0 <= k < g.len() && g[k] == a;
        if k < p.len() {
            assert(p[k] == a);
        } else {
            assert(q[k - p.len()] == a);
        }
    }
}

proof fn lemma_node_steps(m: ModelView, s: StateView, i: int, a: RaftAction)
    requires
        raft_model::state_ok(m, s),
        0 <= i < s.nodes.len(),
    ensures
        raft_model::node_actions(m, s, i).contains(a) <==> within_reach(m, s, i, a),
{
    let x = s.nodes[i];
    let n = s.nodes.len() as int;
    let e: Seq<RaftAction> = if x.role != Role::Leader && x.term < m.term_bound {
        seq![RaftAction::StartElection { node: i as u8 }]
    } else {
        Seq::empty()
    };
    let g: Seq<RaftAction> = if x.role == Role::Candidate {
        raft_model::grants(s, i, n)
    } else {
        Seq::empty()
    };
    let d = raft_model::step_downs(s, i, n);
    assert(raft_model::node_actions(m, s, i) == e + g + d);
    lemma_either(e + g, d, a);
    lemma_either(e, g, a);
    lemma_grant_steps(s, i, n, a);
    lemma_step_downs(s, i, n, a);
    if x.role != Role::Leader && x.term < m.term_bound {
        assert(e[0] == RaftAction::StartElection { node: i as u8 });
    }
}

proof fn lemma_protocol_steps(m: ModelView, s: StateView, n: int, a: RaftAction)
    requires
        raft_model::state_ok(m, s),
        0 <= n <= s.nodes.len(),
    ensures
        raft_model::protocol(m, s, n).contains(a) <==> exists|i: int|
            0 <= i < n && #[trigger] within_reach(m, s, i, a),
    decreases n,
{
    if n > 0 {
        lemma_protocol_steps(m, s, n - 1, a);
        lemma_node_steps(m, s, n - 1, a);
        let p = raft_model::protocol(m, s, n - 1);
        lemma_either(p, raft_model::node_actions(m, s, n - 1), a);
        if within_reach(m, s, n - 1, a) {
            assert(0 <= n - 1 < n);
        }
    }
}

proof fn lemma_offered(m: ModelView, s: StateView, a: RaftAction)
    requires
        raft_model::state_ok(m, s),
        !s.violated,
        !(a is Restart),
    ensures
        raft_model::possible(m, s).contains(a) <==> exists|i: int|
            0 <= i < s.nodes.len() && #[trigger] within_reach(m, s, i, a),
{
    let r = raft_model::restarts(m, s);
    lemma_either(r, raft_model::protocol(m, s, s.nodes.len() as int), a);
    lemma_protocol_steps(m, s, s.nodes.len() as int, a);
    if r.contains(a) {
        let k = choose|k: int| 0 <= k < r.len() && r[k] == a;
        assert(r[k] is Restart);
    }
}

/// Every node that does not lead may stand for election in the next term, as
/// long as there is one.
pub proof fn law_every_election_is_offered(m: ModelView, s: StateView, node: u8)
    requires
        raft_model::state_ok(m, s),
        !s.violated,
    ensures
        raft_model::possible(m, s).contains(RaftAction::StartElection { node }) <==> node
            < m.members && s.nodes[node as int].role != Role::Leader && s.nodes[node as int].term
            < m.term_bound,
{
    let a = RaftAction::StartElection { node };
    lemma_offered(m, s, a);
    if node < m.members && s.nodes[node as int].role != Role::Leader && s.nodes[node as int].term
        < m.term_bound {
        assert(within_reach(m, s, node as int, a));
    }
}

/// The request of every candidate may reach every other node: one with a lower
/// term, and one of the same term that has not voted for someone else, unless
/// its vote is counted already.
pub proof fn law_every_request_is_offered(m: ModelView, s: StateView, cand: u8, voter: u8)
    requires
        raft_model::state_ok(m, s),
        !s.violated,
        cand < m.members,
        voter < m.members,
    ensures
        raft_model::possible(m, s).contains(RaftAction::Grant { cand, voter }) <==> cand != voter
            && s.nodes[cand as int].role == Role::Candidate && (s.nodes[voter as int].term
            < s.nodes[cand as int].term || (s.nodes[voter as int].term == s.nodes[cand as int].term
            && (s.nodes[voter as int].voted_for == NOBODY || s.nodes[voter as int].voted_for
            == cand) && s.nodes[cand as int].votes & (1u8 << voter) == 0)),
{
    let a = RaftAction::Grant { cand, voter };
    lemma_offered(m, s, a);
    if within_reach(m, s, cand as int, a) {
        assert(0 <= cand as int);
    }
}

/// Every node may see the term of every other that is ahead of it.
pub proof fn law_every_step_down_is_offered(m: ModelView, s: StateView, node: u8, peer: u8)
    requires
        raft_model::state_ok(m, s),
        !s.violated,
        node < m.members,
        peer < m.members,
    ensures
        raft_model::possible(m, s).contains(RaftAction::StepDown { node, peer })
            <==> s.nodes[peer as int].term > s.nodes[node as int].term,
{
    let a = RaftAction::StepDown { node, peer };
    lemma_offered(m, s, a);
    if within_reach(m, s, node as int, a) {
        assert(0 <= node as int);
    }
}

/// A search goes no further once two nodes have won the same term.
pub proof fn law_search_stops_at_a_violation(m: ModelView, s: StateView)
    requires
        s.violated,
    ensures
        raft_model::possible(m, s).len() == 0,
{
}

// ---------------------------------------------------------------------------
// What a step does
// ---------------------------------------------------------------------------

/// Nothing but the node `k` is different.
pub open spec fn only_node(s: StateView, t: StateView, k: int) -> bool {
    &&& t.nodes.len() == s.nodes.len()
    &&& forall|i: int| 0 <= i < s.nodes.len() && i != k ==> #[trigger] t.nodes[i] == s.nodes[i]
    &&& t.leader_of == s.leader_of
    &&& t.violated == s.violated
}

/// At the start every node follows in the term 0, has voted for nobody and
/// holds no vote, no term has a leader, and nothing of the schedule is done.
pub proof fn law_start(m: ModelView, i: int, term: int)
    requires
        0 <= i < m.members,
        0 <= term <= m.term_bound,
    ensures
        raft_model::initial(m).nodes.len() == m.members,
        raft_model::initial(m).leader_of.len() == m.term_bound + 1,
        raft_model::initial(m).nodes[i].term == 0,
        raft_model::initial(m).nodes[i].role == Role::Follower,
        raft_model::initial(m).nodes[i].voted_for == NOBODY,
        raft_model::initial(m).nodes[i].votes == 0,
        raft_model::initial(m).leader_of[term] == NOBODY,
        !raft_model::initial(m).violated,
        raft_model::initial(m).sched_pos == 0,
        raft_model::initial(m).restarts_done == 0,
{
}

/// A node that stands for election goes to the next term, votes for itself and
/// holds that vote alone.
pub proof fn law_candidate_votes_for_itself(m: ModelView, s: StateView, node: u8, j: u8)
    requires
        raft_model::state_ok(m, s),
        node < m.members,
        j < 8,
        s.nodes[node as int].term < m.term_bound,
    ensures
        raft_model::next_of(m, s, RaftAction::StartElection { node }) matches Some(t) && {
            let n = t.nodes[node as int];
            &&& n.term == s.nodes[node as int].term + 1
            &&& n.role == Role::Candidate
            &&& n.voted_for == node
            &&& (n.votes & (1u8 << j) != 0 <==> j == node)
            &&& only_node(s, t, node as int)
            &&& t.sched_pos == s.sched_pos
            &&& t.restarts_done == s.restarts_done
        },
{
    assert((1u8 << node) & (1u8 << j) != 0 <==> j == node) by (bit_vector)
        requires
            node < 8,
            j < 8,
    ;
    let t = raft_model::outcome(m, s, RaftAction::StartElection { node })->Some_0;
    assert(t.nodes[node as int].term != s.nodes[node as int].term);
}

/// A node that sees a higher term follows in it, with its vote free.
pub proof fn law_step_down_adopts_the_term(m: ModelView, s: StateView, node: u8, peer: u8)
    requires
        raft_model::state_ok(m, s),
        node < m.members,
        peer < m.members,
        s.nodes[peer as int].term > s.nodes[node as int].term,
    ensures
        raft_model::next_of(m, s, RaftAction::StepDown { node, peer }) matches Some(t) && {
            let n = t.nodes[node as int];
            &&& n.term == s.nodes[peer as int].term
            &&& n.role == Role::Follower
            &&& n.voted_for == NOBODY
            &&& n.votes == 0
            &&& only_node(s, t, node as int)
            &&& t.sched_pos == s.sched_pos
            &&& t.restarts_done == s.restarts_done
        },
{
    let t = raft_model::outcome(m, s, RaftAction::StepDown { node, peer })->Some_0;
    assert(t.nodes[node as int].term != s.nodes[node as int].term);
}

/// A node that restarts keeps its term, and its vote unless the fix is off; its
/// role and the votes it holds are gone. One event of the schedule is used up.
pub proof fn law_restart_keeps_the_term(m: ModelView, s: StateView, node: u8)
    requires
        raft_model::state_ok(m, s),
        node < m.members,
        s.sched_pos < u8::MAX,
        s.restarts_done < u8::MAX,
    ensures
        raft_model::next_of(m, s, RaftAction::Restart { node }) matches Some(t) && {
            let n = t.nodes[node as int];
            &&& n.term == s.nodes[node as int].term
            &&& n.role == Role::Follower
            &&& n.votes == 0
            &&& n.voted_for == (if m.fix == 0 {
                NOBODY
            } else {
                s.nodes[node as int].voted_for
            })
            &&& only_node(s, t, node as int)
            &&& t.sched_pos + t.restarts_done == s.sched_pos + s.restarts_done + 1
            &&& m.schedule is Exhaustive <==> t.restarts_done == s.restarts_done + 1
        },
{
    let t = raft_model::outcome(m, s, RaftAction::Restart { node })->Some_0;
    assert(t.sched_pos != s.sched_pos || t.restarts_done != s.restarts_done);
}

/// Votes are counted one by one: there are none in an empty tally, and a vote
/// that was not there makes one more.
pub proof fn law_votes_are_counted(votes: u8, j: u8)
    requires
        j < 8,
    ensures
        raft_model::ones(0) == 0,
        votes & (1u8 << j) == 0 ==> raft_model::ones(votes | (1u8 << j)) == raft_model::ones(votes)
            + 1,
        raft_model::has_vote(votes, j as int) <==> votes & (1u8 << j) != 0,
{
    let a = votes;
    let b = votes | (1u8 << j);
    assert(0u8 & 1 == 0 && (0u8 >> 1) & 1 == 0 && (0u8 >> 2) & 1 == 0 && (0u8 >> 3) & 1 == 0 && (
    0u8 >> 4) & 1 == 0 && (0u8 >> 5) & 1 == 0 && (0u8 >> 6) & 1 == 0 && (0u8 >> 7) & 1 == 0)
        by (bit_vector);
    if a & (1u8 << j) == 0 {
        assert((b & 1) + ((b >> 1) & 1) + ((b >> 2) & 1) + ((b >> 3) & 1) + ((b >> 4) & 1) + ((b
            >> 5) & 1) + ((b >> 6) & 1) + ((b >> 7) & 1) == (a & 1) + ((a >> 1) & 1) + ((a >> 2)
            & 1) + ((a >> 3) & 1) + ((a >> 4) & 1) + ((a >> 5) & 1) + ((a >> 6) & 1) + ((a >> 7)
            & 1) + 1) by (bit_vector)
            requires
                j < 8,
                b == a | (1u8 << j),
                a & (1u8 << j) == 0,
        ;
    }
}

/// A vote that can be given is given: the voter is in the term of the candidate
/// and has voted for it, the candidate holds that vote besides those it had,
/// and it leads from the vote on that makes more than half of the members'. The
/// first to win a term is its leader; it is a violation, then and only then,
/// if another one wins it too.
#[verifier::rlimit(40)]
#[verifier::spinoff_prover]
pub proof fn law_vote_is_given_and_counted(m: ModelView, s: StateView, cand: u8, voter: u8, j: u8)
    requires
        raft_model::state_ok(m, s),
        cand < m.members,
        voter < m.members,
        cand != voter,
        j < 8,
        s.nodes[cand as int].role == Role::Candidate,
        s.nodes[voter as int].term < s.nodes[cand as int].term || (s.nodes[voter as int].term
            == s.nodes[cand as int].term && (s.nodes[voter as int].voted_for == NOBODY
            || s.nodes[voter as int].voted_for == cand)),
        s.nodes[cand as int].votes & (1u8 << voter) == 0,
    ensures
        raft_model::next_of(m, s, RaftAction::Grant { cand, voter }) matches Some(t) && {
            let c = s.nodes[cand as int];
            let d = t.nodes[cand as int];
            let v = t.nodes[voter as int];
            let won = 2 * (raft_model::ones(c.votes) + 1) > m.members;
            let first = s.leader_of[c.term as int];
            &&& v.term == c.term
            &&& v.voted_for == cand
            &&& d.term == c.term && d.voted_for == c.voted_for
            &&& (d.votes & (1u8 << j) != 0 <==> c.votes & (1u8 << j) != 0 || j == voter)
            &&& (d.role == Role::Leader <==> won)
            &&& (d.role == Role::Candidate <==> !won)
            &&& t.nodes.len() == s.nodes.len()
            &&& forall|i: int|
                0 <= i < s.nodes.len() && i != cand && i != voter ==> #[trigger] t.nodes[i]
                    == s.nodes[i]
            &&& (t.violated <==> s.violated || (won && first != NOBODY && first != cand))
            &&& t.leader_of.len() == s.leader_of.len()
            &&& t.leader_of[c.term as int] == (if won && first == NOBODY {
                cand as i8
            } else {
                first
            })
            &&& forall|x: int|
                0 <= x < s.leader_of.len() && x != c.term ==> #[trigger] t.leader_of[x]
                    == s.leader_of[x]
            &&& t.sched_pos == s.sched_pos
            &&& t.restarts_done == s.restarts_done
        },
{
    let c = s.nodes[cand as int];
    let w = c.votes;
    let b = w | (1u8 << voter);
    law_votes_are_counted(w, voter);
    assert((b & (1u8 << j) != 0 <==> (w & (1u8 << j) != 0 || j == voter)) && b & (1u8 << voter)
        != 0) by (bit_vector)
        requires
            voter < 8,
            j < 8,
            b == w | (1u8 << voter),
    ;
    let t = raft_model::outcome(m, s, RaftAction::Grant { cand, voter })->Some_0;
    assert(t.nodes[cand as int].votes == b);
    assert(t != s);
}

} // verus!
