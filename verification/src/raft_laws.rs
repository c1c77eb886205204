//! Election safety, for any number of members up to eight, any bound on terms
//! and any restarts: where votes outlive a restart, or nothing restarts, no
//! two nodes ever win the same term.

use vstd::prelude::*;

use crate::raft_model;
use crate::raft_model::{ModelView, RaftAction, Role, ScheduleView, StateView, NOBODY};

verus! {

/// No vote beyond the members'.
pub open spec fn within(votes: u8, members: u8) -> bool {
    members >= 8 || votes >> members == 0
}

/// The vote of `j` for `c` in the term `t` stands: it is on record, or `j` has
/// moved on.
pub open spec fn stands(s: StateView, j: int, c: int, t: u8) -> bool {
    s.nodes[j].term > t || (s.nodes[j].term == t && s.nodes[j].voted_for == c as i8)
}

pub open spec fn is_candidate(s: StateView, i: int) -> bool {
    0 <= i < s.nodes.len() && s.nodes[i].role == Role::Candidate
}

/// The votes stand, and are members' votes.
pub open spec fn backed(m: ModelView, s: StateView, votes: u8, c: int, t: u8) -> bool {
    &&& within(votes, m.members)
    &&& forall|j: int|
        0 <= j < m.members && #[trigger] raft_model::has_vote(votes, j) ==> stands(s, j, c, t)
}

/// The votes are none of a candidate's of the term, other than `c`.
pub open spec fn exclusive(s: StateView, votes: u8, c: int, t: u8) -> bool {
    forall|i: int|
        #[trigger] is_candidate(s, i) && i != c && s.nodes[i].term == t ==> votes
            & s.nodes[i].votes == 0
}

/// A majority elected `c` in the term `t`.
pub open spec fn quorum(m: ModelView, s: StateView, c: int, t: u8, votes: u8) -> bool {
    &&& raft_model::is_majority(m, votes)
    &&& backed(m, s, votes, c, t)
    &&& exclusive(s, votes, c, t)
}

/// What always holds.
pub open spec fn safe(m: ModelView, s: StateView) -> bool {
    &&& raft_model::state_ok(m, s)
    &&& !s.violated
    &&& forall|i: int| #[trigger]
        is_candidate(s, i) ==> backed(m, s, s.nodes[i].votes, i, s.nodes[i].term)
    &&& forall|i: int| #[trigger]
        is_candidate(s, i) ==> exclusive(s, s.nodes[i].votes, i, s.nodes[i].term)
    &&& forall|t: int|
        0 <= t < s.leader_of.len() && #[trigger] s.leader_of[t] != NOBODY ==> 0 <= s.leader_of[t]
            && exists|votes: u8| #[trigger]
                quorum(m, s, s.leader_of[t] as int, t as u8, votes)
}

proof fn lemma_one_more(a: u8, v: u8, j: u8)
    requires
        v < 8,
        j < 8,
    ensures
        (a | (1u8 << v)) & (1u8 << j) != 0 <==> (a & (1u8 << j) != 0 || j == v),
{
    assert((a | (1u8 << v)) & (1u8 << j) != 0 <==> (a & (1u8 << j) != 0 || j == v)) by (bit_vector)
        requires
            v < 8,
            j < 8,
    ;
}

proof fn lemma_single(v: u8, j: u8)
    requires
        v < 8,
        j < 8,
    ensures
        (1u8 << v) & (1u8 << j) != 0 <==> j == v,
{
    assert((1u8 << v) & (1u8 << j) != 0 <==> j == v) by (bit_vector)
        requires
            v < 8,
            j < 8,
    ;
}

proof fn lemma_within_more(a: u8, v: u8, n: u8)
    requires
        within(a, n),
        v < n <= 8,
    ensures
        within(a | (1u8 << v), n),
        within(1u8 << v, n),
{
    assert(n >= 8 || ((a | (1u8 << v)) >> n == 0 && (1u8 << v) >> n == 0)) by (bit_vector)
        requires
            n >= 8 || a >> n == 0,
            v < n,
            n <= 8,
    ;
}

proof fn lemma_apart_more(a: u8, b: u8, v: u8)
    requires
        a & b == 0,
        b & (1u8 << v) == 0,
    ensures
        (a | (1u8 << v)) & b == 0,
        b & (a | (1u8 << v)) == 0,
{
    assert((a | (1u8 << v)) & b == 0 && b & (a | (1u8 << v)) == 0) by (bit_vector)
        requires
            a & b == 0,
            b & (1u8 << v) == 0,
    ;
}

/// Two majorities of the same members share a member.
proof fn lemma_majorities_meet(a: u8, b: u8, n: u8)
    requires
        within(a, n),
        within(b, n),
        a & b == 0,
    ensures
        raft_model::ones(a) + raft_model::ones(b) <= n,
{
    let m: u8 = if n >= 8 {
        8
    } else {
        n
    };
    assert(m >= 8 || a >> m == 0);
    assert(m >= 8 || b >> m == 0);
    assert((a & 1) + ((a >> 1) & 1) + ((a >> 2) & 1) + ((a >> 3) & 1) + ((a >> 4) & 1) + ((a >> 5)
        & 1) + ((a >> 6) & 1) + ((a >> 7) & 1) + ((b & 1) + ((b >> 1) & 1) + ((b >> 2) & 1) + ((b
        >> 3) & 1) + ((b >> 4) & 1) + ((b >> 5) & 1) + ((b >> 6) & 1) + ((b >> 7) & 1)) <= m)
        by (bit_vector)
        requires
            m >= 8 || a >> m == 0,
            m >= 8 || b >> m == 0,
            m <= 8,
            a & b == 0,
    ;
}

/// The start is safe.
pub proof fn law_safe_at_start(m: ModelView)
    requires
        m.members <= 8,
    ensures
        safe(m, raft_model::initial(m)),
{
    let s = raft_model::initial(m);
    assert forall|i: int| !(#[trigger] is_candidate(s, i)) by {}
}

/// Votes that stand keep standing while nodes only move on or keep their term
/// and their vote.
pub open spec fn moved_on(s: StateView, t: StateView, j: int) -> bool {
    t.nodes[j].term > s.nodes[j].term || (t.nodes[j].term == s.nodes[j].term
        && t.nodes[j].voted_for == s.nodes[j].voted_for)
}

proof fn lemma_keeps(m: ModelView, s: StateView, t: StateView, votes: u8, c: int, term: u8)
    requires
        backed(m, s, votes, c, term),
        s.nodes.len() == m.members,
        t.nodes.len() == m.members,
        forall|j: int| 0 <= j < m.members ==> #[trigger] moved_on(s, t, j),
    ensures
        backed(m, t, votes, c, term),
{
    assert forall|j: int| 0 <= j < m.members && #[trigger] raft_model::has_vote(
        votes,
        j,
    ) implies stands(t, j, c, term) by {
        assert(stands(s, j, c, term));
        assert(moved_on(s, t, j));
    }
}

/// A step that makes no new candidate, adds no vote and loses none is safe.
proof fn lemma_quiet_step(m: ModelView, s: StateView, t: StateView)
    requires
        safe(m, s),
        raft_model::state_ok(m, t),
        !t.violated,
        t.leader_of == s.leader_of,
        forall|j: int| 0 <= j < m.members ==> #[trigger] moved_on(s, t, j),
        forall|i: int| #[trigger]
            is_candidate(t, i) ==> is_candidate(s, i) && t.nodes[i].term == s.nodes[i].term
                && t.nodes[i].votes == s.nodes[i].votes,
    ensures
        safe(m, t),
{
    assert forall|i: int| #[trigger] is_candidate(t, i) implies backed(
        m,
        t,
        t.nodes[i].votes,
        i,
        t.nodes[i].term,
    ) && exclusive(t, t.nodes[i].votes, i, t.nodes[i].term) by {
        assert(is_candidate(s, i));
        lemma_keeps(m, s, t, s.nodes[i].votes, i, s.nodes[i].term);
        lemma_exclusive(s, t, s.nodes[i].votes, i, s.nodes[i].term);
    }
    assert forall|k: int| 0 <= k < t.leader_of.len() && #[trigger] t.leader_of[k] != NOBODY implies
        0 <= t.leader_of[k] && exists|votes: u8| #[trigger]
        quorum(m, t, t.leader_of[k] as int, k as u8, votes) by {
        let c = s.leader_of[k] as int;
        let q = choose|votes: u8| #[trigger] quorum(m, s, c, k as u8, votes);
        lemma_keeps(m, s, t, q, c, k as u8);
        lemma_exclusive(s, t, q, c, k as u8);
        assert(quorum(m, t, c, k as u8, q));
    }
}

proof fn lemma_exclusive(s: StateView, t: StateView, votes: u8, c: int, term: u8)
    requires
        exclusive(s, votes, c, term),
        forall|i: int| #[trigger]
            is_candidate(t, i) ==> is_candidate(s, i) && t.nodes[i].term == s.nodes[i].term
                && t.nodes[i].votes == s.nodes[i].votes,
    ensures
        exclusive(t, votes, c, term),
{
    assert forall|i: int| #[trigger]
        is_candidate(t, i) && i != c && t.nodes[i].term == term implies votes & t.nodes[i].votes
        == 0 by {
        assert(is_candidate(s, i));
    }
}

proof fn lemma_election_step(m: ModelView, s: StateView, node: u8)
    requires
        safe(m, s),
        node < m.members,
        s.nodes[node as int].term < m.term_bound,
    ensures
        safe(m, raft_model::elected(s, node)),
{
    let t = raft_model::elected(s, node);
    let k = node as int;
    let term = (s.nodes[k].term + 1) as u8;
    let bit = 1u8 << node;
    assert forall|j: int| 0 <= j < m.members implies #[trigger] moved_on(s, t, j) by {}
    let members = m.members;
    assert(members >= 8 || 0u8 >> members == 0) by (bit_vector);
    lemma_within_more(0, node, members);
    // Nobody holds a vote of the node in its new term.
    assert forall|i: int| #[trigger] is_candidate(t, i) && i != k implies is_candidate(s, i)
        && t.nodes[i] == s.nodes[i] by {}
    assert forall|i: int| #[trigger] is_candidate(t, i) implies backed(
        m,
        t,
        t.nodes[i].votes,
        i,
        t.nodes[i].term,
    ) by {
        if i == k {
            assert forall|j: int| 0 <= j < m.members && #[trigger] raft_model::has_vote(
                bit,
                j,
            ) implies stands(t, j, k, term) by {
                lemma_single(node, j as u8);
            }
        } else {
            assert(is_candidate(s, i));
            lemma_keeps(m, s, t, s.nodes[i].votes, i, s.nodes[i].term);
        }
    }
    assert forall|i: int| #[trigger]
        is_candidate(s, i) && i != k && s.nodes[i].term == term implies s.nodes[i].votes & bit
        == 0 by {
        assert(!raft_model::has_vote(s.nodes[i].votes, k)) by {
            assert(!stands(s, k, i, term));
        }
    }
    assert forall|i: int| #[trigger] is_candidate(t, i) implies exclusive(
        t,
        t.nodes[i].votes,
        i,
        t.nodes[i].term,
    ) by {
        assert forall|x: int| #[trigger]
            is_candidate(t, x) && x != i && t.nodes[x].term == t.nodes[i].term implies
            t.nodes[i].votes & t.nodes[x].votes == 0 by {
            if i == k {
                assert(is_candidate(s, x));
                let b = s.nodes[x].votes;
                assert(b & bit == 0);
                assert(bit & b == 0) by (bit_vector)
                    requires
                        b & bit == 0,
                ;
            } else if x == k {
                assert(is_candidate(s, i));
            } else {
                assert(is_candidate(s, i) && is_candidate(s, x));
                assert(exclusive(s, s.nodes[i].votes, i, s.nodes[i].term));
            }
        }
    }
    assert forall|y: int| 0 <= y < t.leader_of.len() && #[trigger] t.leader_of[y] != NOBODY implies
        0 <= t.leader_of[y] && exists|votes: u8| #[trigger]
        quorum(m, t, t.leader_of[y] as int, y as u8, votes) by {
        let c = s.leader_of[y] as int;
        let q = choose|votes: u8| #[trigger] quorum(m, s, c, y as u8, votes);
        lemma_keeps(m, s, t, q, c, y as u8);
        assert forall|x: int| #[trigger]
            is_candidate(t, x) && x != c && t.nodes[x].term == y as u8 implies q & t.nodes[x].votes
            == 0 by {
            if x == k {
                assert(!raft_model::has_vote(q, k)) by {
                    assert(!stands(s, k, c, term));
                }
            } else {
                assert(is_candidate(s, x));
            }
        }
        assert(quorum(m, t, c, y as u8, q));
    }
}

/// The voter that a vote was granted by holds no other standing vote in the
/// term.
proof fn lemma_free_voter(m: ModelView, s: StateView, votes: u8, c: int, cand: u8, voter: u8)
    requires
        cand < m.members <= 8,
        voter < m.members,
        s.nodes.len() == m.members,
        raft_model::granted(m, s, cand, voter) is Some,
        backed(m, s, votes, c, s.nodes[cand as int].term),
        c != cand,
        0 <= c < 128,
    ensures
        votes & (1u8 << voter) == 0,
{
    if raft_model::has_vote(votes, voter as int) {
        assert(stands(s, voter as int, c, s.nodes[cand as int].term));
    }
}

#[verifier::rlimit(60)]
#[verifier::spinoff_prover]
proof fn lemma_grant_step(m: ModelView, s: StateView, cand: u8, voter: u8)
    requires
        safe(m, s),
        is_candidate(s, cand as int),
        voter < m.members,
        cand != voter,
        raft_model::granted(m, s, cand, voter) is Some,
    ensures
        safe(m, raft_model::granted(m, s, cand, voter)->Some_0),
{
    let t = raft_model::granted(m, s, cand, voter)->Some_0;
    let ci = cand as int;
    let vi = voter as int;
    let term = s.nodes[ci].term;
    let old_votes = s.nodes[ci].votes;
    let bit = 1u8 << voter;
    let votes = old_votes | bit;
    let won = raft_model::is_majority(m, votes);
    assert(t.nodes[ci].votes == votes && t.nodes[ci].term == term);
    assert(t.nodes[vi].term == term && t.nodes[vi].voted_for == cand as i8);
    assert forall|j: int| 0 <= j < t.nodes.len() && j != ci && j != vi implies #[trigger]
        t.nodes[j] == s.nodes[j] by {}
    lemma_within_more(old_votes, voter, m.members);
    // Standing votes for others keep standing.
    assert forall|a: u8, c: int, y: u8|
        #![trigger backed(m, s, a, c, y)]
        backed(m, s, a, c, y) && (c != ci || y != term) && 0 <= c < 128 implies backed(
        m,
        t,
        a,
        c,
        y,
    ) by {
        assert forall|j: int| 0 <= j < m.members && #[trigger] raft_model::has_vote(
            a,
            j,
        ) implies stands(t, j, c, y) by {
            assert(stands(s, j, c, y));
        }
    }
    assert(backed(m, t, votes, ci, term)) by {
        assert forall|j: int| 0 <= j < m.members && #[trigger] raft_model::has_vote(
            votes,
            j,
        ) implies stands(t, j, ci, term) by {
            lemma_one_more(old_votes, voter, j as u8);
            if j != vi {
                assert(raft_model::has_vote(old_votes, j));
                assert(stands(s, j, ci, term));
            }
        }
    }
    // Other candidates of the term do not hold the voter's vote.
    assert forall|i: int| #[trigger]
        is_candidate(t, i) && i != ci implies is_candidate(s, i) && t.nodes[i].votes
        == s.nodes[i].votes && t.nodes[i].term == s.nodes[i].term by {}
    assert forall|i: int| #[trigger]
        is_candidate(t, i) && i != ci && t.nodes[i].term == term implies votes & t.nodes[i].votes
        == 0 && t.nodes[i].votes & votes == 0 by {
        assert(is_candidate(s, i));
        let b = s.nodes[i].votes;
        lemma_free_voter(m, s, b, i, cand, voter);
        assert(exclusive(s, old_votes, ci, term));
        lemma_apart_more(old_votes, b, voter);
    }
    assert forall|i: int| #[trigger] is_candidate(t, i) implies backed(
        m,
        t,
        t.nodes[i].votes,
        i,
        t.nodes[i].term,
    ) && exclusive(t, t.nodes[i].votes, i, t.nodes[i].term) by {
        if i != ci {
            assert(is_candidate(s, i));
            assert(backed(m, s, s.nodes[i].votes, i, s.nodes[i].term));
            assert forall|x: int| #[trigger]
                is_candidate(t, x) && x != i && t.nodes[x].term == t.nodes[i].term implies
                t.nodes[i].votes & t.nodes[x].votes == 0 by {
                if x != ci {
                    assert(is_candidate(s, x));
                    assert(exclusive(s, s.nodes[i].votes, i, s.nodes[i].term));
                }
            }
        }
    }
    // Quorums of other leaders do not hold it either.
    assert forall|y: int, q: u8|
        0 <= y < s.leader_of.len() && #[trigger] s.leader_of[y] != NOBODY && #[trigger] quorum(
            m,
            s,
            s.leader_of[y] as int,
            y as u8,
            q,
        ) implies quorum(m, t, s.leader_of[y] as int, y as u8, q) && (y == term && s.leader_of[y]
        != cand as i8 ==> q & votes == 0) by {
        let c = s.leader_of[y] as int;
        assert(0 <= c);
        assert(backed(m, s, q, c, y as u8));
        if c == ci && y as u8 == term {
            assert(backed(m, t, q, c, y as u8)) by {
                assert forall|j: int| 0 <= j < m.members && #[trigger] raft_model::has_vote(
                    q,
                    j,
                ) implies stands(t, j, c, y as u8) by {
                    assert(stands(s, j, c, y as u8));
                }
            }
        }
        if y as u8 == term && c != ci {
            lemma_free_voter(m, s, q, c, cand, voter);
            assert(q & old_votes == 0);
            assert(old_votes & q == 0) by (bit_vector)
                requires
                    q & old_votes == 0,
            ;
            lemma_apart_more(old_votes, q, voter);
        }
        assert forall|x: int| #[trigger]
            is_candidate(t, x) && x != c && t.nodes[x].term == y as u8 implies q & t.nodes[x].votes
            == 0 by {
            if x != ci {
                assert(is_candidate(s, x));
            }
        }
    }
    if won {
        let first = s.leader_of[term as int];
        if first != NOBODY && first != cand as i8 {
            let q = choose|q: u8| #[trigger] quorum(m, s, first as int, term, q);
            assert(quorum(m, s, s.leader_of[term as int] as int, (term as int) as u8, q));
            assert(q & votes == 0);
            lemma_majorities_meet(q, votes, m.members);
            assert(false);
        }
    }
    assert(!t.violated);
    assert forall|y: int| 0 <= y < t.leader_of.len() && #[trigger] t.leader_of[y] != NOBODY implies
        0 <= t.leader_of[y] && exists|q: u8| #[trigger]
        quorum(m, t, t.leader_of[y] as int, y as u8, q) by {
        if won && y == term && s.leader_of[y] == NOBODY {
            assert(t.leader_of[y] == cand as i8);
            assert(t.leader_of[y] as int == ci);
            assert(y as u8 == term);
            assert(exclusive(t, votes, ci, term));
            assert(quorum(m, t, ci, term, votes));
        } else {
            assert(t.leader_of[y] == s.leader_of[y]);
            let c = s.leader_of[y] as int;
            let q = choose|q: u8| #[trigger] quorum(m, s, c, y as u8, q);
            assert(quorum(m, s, s.leader_of[y] as int, y as u8, q));
            assert(quorum(m, t, c, y as u8, q));
        }
    }
}

proof fn lemma_grants(s: StateView, i: int, n: int, a: RaftAction)
    requires
        0 <= i < s.nodes.len() <= 8,
        0 <= n <= s.nodes.len(),
        raft_model::grants(s, i, n).contains(a),
    ensures
        a matches RaftAction::Grant { cand, voter } && cand == i && voter < n && voter != i,
    decreases n,
{
    let g = raft_model::grants(s, i, n);
    if n > 0 {
        let p = raft_model::grants(s, i, n - 1);
        let k = choose|k: int| 0 <= k < g.len() && g[k] == a;
        if k < p.len() {
            assert(p[k] == a);
            lemma_grants(s, i, n - 1, a);
        }
    }
}

proof fn lemma_step_downs(s: StateView, i: int, n: int, a: RaftAction)
    requires
        0 <= i < s.nodes.len() <= 8,
        0 <= n <= s.nodes.len(),
        raft_model::step_downs(s, i, n).contains(a),
    ensures
        a matches RaftAction::StepDown { node, peer } && node == i && peer < n
            && s.nodes[peer as int].term > s.nodes[i].term,
    decreases n,
{
    let g = raft_model::step_downs(s, i, n);
    if n > 0 {
        let p = raft_model::step_downs(s, i, n - 1);
        let k = choose|k: int| 0 <= k < g.len() && g[k] == a;
        if k < p.len() {
            assert(p[k] == a);
            lemma_step_downs(s, i, n - 1, a);
        }
    }
}

/// What can happen, by what it needs.
pub open spec fn enabled(m: ModelView, s: StateView, a: RaftAction) -> bool {
    match a {
        RaftAction::StartElection { node } => node < m.members && s.nodes[node as int].term
            < m.term_bound,
        RaftAction::Grant { cand, voter } => is_candidate(s, cand as int) && voter < m.members
            && cand != voter,
        RaftAction::StepDown { node, peer } => node < m.members && peer < m.members
            && s.nodes[peer as int].term > s.nodes[node as int].term,
        RaftAction::Restart { node } => restart_enabled(m, s, node),
    }
}

pub open spec fn restart_enabled(m: ModelView, s: StateView, node: u8) -> bool {
    match m.schedule {
        ScheduleView::Fixed(seq) => s.sched_pos < seq.len() && node == seq[s.sched_pos as int],
        ScheduleView::Exhaustive => node < m.members && s.restarts_done < m.max_restarts,
    }
}

proof fn lemma_protocol(m: ModelView, s: StateView, n: int, a: RaftAction)
    requires
        raft_model::state_ok(m, s),
        0 <= n <= s.nodes.len(),
        raft_model::protocol(m, s, n).contains(a),
    ensures
        enabled(m, s, a),
        !(a is Restart),
    decreases n,
{
    if n > 0 {
        let p = raft_model::protocol(m, s, n - 1);
        let g = raft_model::protocol(m, s, n);
        let i = n - 1;
        let x = s.nodes[i];
        let e: Seq<RaftAction> = if x.role != Role::Leader && x.term < m.term_bound {
            seq![RaftAction::StartElection { node: i as u8 }]
        } else {
            Seq::empty()
        };
        let len = s.nodes.len() as int;
        let gr: Seq<RaftAction> = if x.role == Role::Candidate {
            raft_model::grants(s, i, len)
        } else {
            Seq::empty()
        };
        let sd = raft_model::step_downs(s, i, len);
        assert(g == p + (e + gr + sd));
        let k = choose|k: int| 0 <= k < g.len() && g[k] == a;
        if k < p.len() {
            assert(p[k] == a);
            lemma_protocol(m, s, n - 1, a);
        } else if k < p.len() + e.len() {
            assert(e[k - p.len()] == a);
        } else if k < p.len() + e.len() + gr.len() {
            assert(gr[k - p.len() - e.len()] == a);
            lemma_grants(s, i, len, a);
        } else {
            assert(sd[k - p.len() - e.len() - gr.len()] == a);
            lemma_step_downs(s, i, len, a);
        }
    }
}

/// Every action that is offered can be taken: it names nodes of the model and
/// runs over no counter. (A fixed schedule must name members, and not go on
/// where the counter ends.)
pub proof fn law_offered_actions_can_be_taken(m: ModelView, s: StateView, a: RaftAction)
    requires
        raft_model::state_ok(m, s),
        raft_model::possible(m, s).contains(a),
        m.schedule matches ScheduleView::Fixed(seq) ==> (s.sched_pos < u8::MAX || seq.len()
            <= u8::MAX) && forall|i: int| 0 <= i < seq.len() ==> #[trigger] seq[i] < m.members,
    ensures
        enabled(m, s, a),
        raft_model::action_ok(m, s, a),
{
    let r = raft_model::restarts(m, s);
    let p = raft_model::protocol(m, s, s.nodes.len() as int);
    let all = raft_model::possible(m, s);
    let k = choose|k: int| 0 <= k < all.len() && all[k] == a;
    if k < r.len() {
        assert(r[k] == a);
    } else {
        assert(p[k - r.len()] == a);
        lemma_protocol(m, s, s.nodes.len() as int, a);
    }
}

/// A step from a safe state leads to a safe one, unless a restart loses a
/// vote.
pub proof fn law_safe_step(m: ModelView, s: StateView, a: RaftAction)
    requires
        safe(m, s),
        enabled(m, s, a),
        raft_model::action_ok(m, s, a),
        m.fix != 0 || !(a is Restart),
        raft_model::next_of(m, s, a) is Some,
    ensures
        safe(m, raft_model::next_of(m, s, a)->Some_0),
{
    let t = raft_model::next_of(m, s, a)->Some_0;
    match a {
        RaftAction::StartElection { node } => {
            lemma_election_step(m, s, node);
        },
        RaftAction::Grant { cand, voter } => {
            lemma_grant_step(m, s, cand, voter);
        },
        RaftAction::StepDown { node, peer } => {
            assert forall|j: int| 0 <= j < m.members implies #[trigger] moved_on(s, t, j) by {}
            assert forall|i: int| #[trigger] is_candidate(t, i) implies is_candidate(s, i)
                && t.nodes[i].term == s.nodes[i].term && t.nodes[i].votes == s.nodes[i].votes by {}
            lemma_quiet_step(m, s, t);
        },
        RaftAction::Restart { node } => {
            assert forall|j: int| 0 <= j < m.members implies #[trigger] moved_on(s, t, j) by {}
            assert forall|i: int| #[trigger] is_candidate(t, i) implies is_candidate(s, i)
                && t.nodes[i].term == s.nodes[i].term && t.nodes[i].votes == s.nodes[i].votes by {}
            lemma_quiet_step(m, s, t);
        },
    }
}

/// The state behind the first `n` actions of a path from the start.
pub open spec fn reached(m: ModelView, path: Seq<RaftAction>, n: int) -> StateView
    decreases n,
{
    if n <= 0 {
        raft_model::initial(m)
    } else {
        let s = reached(m, path, n - 1);
        match raft_model::next_of(m, s, path[n - 1]) {
            Some(t) => t,
            None => s,
        }
    }
}

/// Each action of the path is offered where it is taken.
pub open spec fn is_path(m: ModelView, path: Seq<RaftAction>) -> bool {
    forall|i: int|
        0 <= i < path.len() ==> raft_model::possible(m, reached(m, path, i)).contains(
            #[trigger] path[i],
        )
}

proof fn lemma_reached(m: ModelView, path: Seq<RaftAction>, n: int)
    requires
        m.members <= 8,
        m.schedule matches ScheduleView::Fixed(seq) ==> seq.len() <= u8::MAX && forall|i: int|
            0 <= i < seq.len() ==> #[trigger] seq[i] < m.members,
        m.fix != 0,
        is_path(m, path),
        0 <= n <= path.len(),
    ensures
        safe(m, reached(m, path, n)),
    decreases n,
{
    if n == 0 {
        law_safe_at_start(m);
    } else {
        lemma_reached(m, path, n - 1);
        let s = reached(m, path, n - 1);
        let a = path[n - 1];
        assert(raft_model::possible(m, s).contains(a));
        law_offered_actions_can_be_taken(m, s, a);
        if raft_model::next_of(m, s, a) is Some {
            law_safe_step(m, s, a);
        }
    }
}

/// Election safety: where a vote outlives a restart, no path whatever reaches
/// a state in which two nodes have won the same term.
pub proof fn law_election_safety(m: ModelView, path: Seq<RaftAction>, n: int)
    requires
        m.members <= 8,
        m.schedule matches ScheduleView::Fixed(seq) ==> seq.len() <= u8::MAX && forall|i: int|
            0 <= i < seq.len() ==> #[trigger] seq[i] < m.members,
        m.fix != 0,
        is_path(m, path),
        0 <= n <= path.len(),
    ensures
        !reached(m, path, n).violated,
{
    lemma_reached(m, path, n);
}

/// Without restarts election safety holds at every fix level.
pub proof fn law_safe_without_restarts(m: ModelView, path: Seq<RaftAction>, n: int)
    requires
        m.members <= 8,
        m.schedule == ScheduleView::Fixed(Seq::empty()) || (m.schedule == ScheduleView::Exhaustive
            && m.max_restarts == 0),
        is_path(m, path),
        0 <= n <= path.len(),
    ensures
        !reached(m, path, n).violated,
    decreases n,
{
    lemma_no_restarts(m, path, n);
}

proof fn lemma_no_restarts(m: ModelView, path: Seq<RaftAction>, n: int)
    requires
        m.members <= 8,
        m.schedule == ScheduleView::Fixed(Seq::empty()) || (m.schedule == ScheduleView::Exhaustive
            && m.max_restarts == 0),
        is_path(m, path),
        0 <= n <= path.len(),
    ensures
        safe(m, reached(m, path, n)),
    decreases n,
{
    if n == 0 {
        law_safe_at_start(m);
    } else {
        lemma_no_restarts(m, path, n - 1);
        let s = reached(m, path, n - 1);
        let a = path[n - 1];
        assert(raft_model::possible(m, s).contains(a));
        law_offered_actions_can_be_taken(m, s, a);
        if raft_model::next_of(m, s, a) is Some {
            law_safe_step(m, s, a);
        }
    }
}

} // verus!
