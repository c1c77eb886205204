//! A state-space model of leader election in Raft: what can happen in a state,
//! and the state behind it.
//!
//! There is no time in it: any node that does not lead may start an election
//! at any step, and any candidate's request may reach any voter at any step.
//! The request, the vote and its counting are one step. A node that restarts
//! loses its role and its tally and keeps its term; whether it keeps its vote
//! is what the fix level decides.

use vstd::prelude::*;

verus! {

/// No vote, or no leader.
pub const NOBODY: i8 = -1;

#[derive(Clone, Copy, Debug, PartialEq, Eq, Hash, PartialOrd, Ord, Structural)]
pub enum Role {
    Follower,
    Candidate,
    Leader,
}

#[derive(Clone, Copy, Debug, PartialEq, Eq, Hash, PartialOrd, Ord, Structural)]
pub struct RNode {
    pub term: u8,
    pub role: Role,
    pub voted_for: i8,
    /// The votes that a candidate was given, one bit for each node.
    pub votes: u8,
}

#[derive(Clone, Debug, PartialEq, Eq, Hash)]
pub struct RaftState {
    pub nodes: Vec<RNode>,
    /// For each term the first node that won it.
    pub leader_of: Vec<i8>,
    /// Whether two nodes won the same term.
    pub violated: bool,
    /// The next of the scheduled restarts.
    pub sched_pos: u8,
    /// The restarts so far, where they are not scheduled.
    pub restarts_done: u8,
}

pub struct StateView {
    pub nodes: Seq<RNode>,
    pub leader_of: Seq<i8>,
    pub violated: bool,
    pub sched_pos: u8,
    pub restarts_done: u8,
}

impl View for RaftState {
    type V = StateView;

    open spec fn view(&self) -> StateView {
        StateView {
            nodes: self.nodes@,
            leader_of: self.leader_of@,
            violated: self.violated,
            sched_pos: self.sched_pos,
            restarts_done: self.restarts_done,
        }
    }
}

#[allow(inconsistent_fields)]
#[derive(Clone, Copy, Debug, PartialEq, Eq, Hash, Structural)]
pub enum RaftAction {
    /// A node that does not lead becomes candidate for the next term.
    StartElection { node: u8 },
    /// The request of a candidate reaches a voter.
    Grant { cand: u8, voter: u8 },
    /// A node sees the higher term of a peer.
    StepDown { node: u8, peer: u8 },
    /// A node crashes and restarts.
    Restart { node: u8 },
}

#[derive(Clone, Debug)]
pub enum RestartSchedule {
    /// These nodes restart, in this order.
    Fixed(Vec<u8>),
    /// Any node may restart at any time, so and so often in all.
    Exhaustive,
}

pub enum ScheduleView {
    Fixed(Seq<u8>),
    Exhaustive,
}

impl View for RestartSchedule {
    type V = ScheduleView;

    open spec fn view(&self) -> ScheduleView {
        match *self {
            RestartSchedule::Fixed(v) => ScheduleView::Fixed(v@),
            RestartSchedule::Exhaustive => ScheduleView::Exhaustive,
        }
    }
}

pub struct RaftModel {
    pub members: u8,
    /// 0 where a restart loses the vote.
    pub fix: u8,
    /// No election is started beyond this term.
    pub term_bound: u8,
    pub schedule: RestartSchedule,
    pub max_restarts: u8,
}

pub struct ModelView {
    pub members: u8,
    pub fix: u8,
    pub term_bound: u8,
    pub schedule: ScheduleView,
    pub max_restarts: u8,
}

impl View for RaftModel {
    type V = ModelView;

    open spec fn view(&self) -> ModelView {
        ModelView {
            members: self.members,
            fix: self.fix,
            term_bound: self.term_bound,
            schedule: self.schedule@,
            max_restarts: self.max_restarts,
        }
    }
}

/// How many bits are set.
pub open spec fn ones(x: u8) -> int {
    (x & 1) + ((x >> 1) & 1) + ((x >> 2) & 1) + ((x >> 3) & 1) + ((x >> 4) & 1) + ((x >> 5) & 1)
        + ((x >> 6) & 1) + ((x >> 7) & 1)
}

/// Whether the votes are more than half of the members'.
pub open spec fn is_majority(m: ModelView, votes: u8) -> bool {
    ones(votes) * 2 > m.members
}

/// Whether `votes` holds the vote of the node `j`.
pub open spec fn has_vote(votes: u8, j: int) -> bool {
    votes & (1u8 << (j as u8)) != 0
}

pub open spec fn first_node() -> RNode {
    RNode { term: 0, role: Role::Follower, voted_for: NOBODY, votes: 0 }
}

/// The state at the start.
pub open spec fn initial(m: ModelView) -> StateView {
    StateView {
        nodes: Seq::new(m.members as nat, |i: int| first_node()),
        leader_of: Seq::new((m.term_bound + 1) as nat, |i: int| NOBODY),
        violated: false,
        sched_pos: 0,
        restarts_done: 0,
    }
}

/// Where restarts may strike.
pub open spec fn restarts(m: ModelView, s: StateView) -> Seq<RaftAction> {
    match m.schedule {
        ScheduleView::Fixed(seq) => if s.sched_pos < seq.len() {
            seq![RaftAction::Restart { node: seq[s.sched_pos as int] }]
        } else {
            Seq::empty()
        },
        ScheduleView::Exhaustive => if s.restarts_done < m.max_restarts {
            Seq::new(m.members as nat, |i: int| RaftAction::Restart { node: i as u8 })
        } else {
            Seq::empty()
        },
    }
}

/// Whether the request of the candidate `i` would change anything at `j`.
pub open spec fn may_grant(s: StateView, i: int, j: int) -> bool {
    let a = s.nodes[i];
    let b = s.nodes[j];
    i != j && (a.term > b.term || (a.term == b.term && (b.voted_for == NOBODY || b.voted_for
        == i as i8) && !has_vote(a.votes, j)))
}

pub open spec fn grants(s: StateView, i: int, n: int) -> Seq<RaftAction>
    decreases n,
{
    if n <= 0 {
        Seq::empty()
    } else if may_grant(s, i, n - 1) {
        grants(s, i, n - 1).push(RaftAction::Grant { cand: i as u8, voter: (n - 1) as u8 })
    } else {
        grants(s, i, n - 1)
    }
}

pub open spec fn step_downs(s: StateView, i: int, n: int) -> Seq<RaftAction>
    decreases n,
{
    if n <= 0 {
        Seq::empty()
    } else if i != n - 1 && s.nodes[n - 1].term > s.nodes[i].term {
        step_downs(s, i, n - 1).push(RaftAction::StepDown { node: i as u8, peer: (n - 1) as u8 })
    } else {
        step_downs(s, i, n - 1)
    }
}

/// What the node `i` can do.
pub open spec fn node_actions(m: ModelView, s: StateView, i: int) -> Seq<RaftAction> {
    let a = s.nodes[i];
    let n = s.nodes.len() as int;
    (if a.role != Role::Leader && a.term < m.term_bound {
        seq![RaftAction::StartElection { node: i as u8 }]
    } else {
        Seq::empty()
    }) + (if a.role == Role::Candidate {
        grants(s, i, n)
    } else {
        Seq::empty()
    }) + step_downs(s, i, n)
}

pub open spec fn protocol(m: ModelView, s: StateView, n: int) -> Seq<RaftAction>
    decreases n,
{
    if n <= 0 {
        Seq::empty()
    } else {
        protocol(m, s, n - 1) + node_actions(m, s, n - 1)
    }
}

/// Everything that can happen in a state; nothing once a violation was found.
pub open spec fn possible(m: ModelView, s: StateView) -> Seq<RaftAction> {
    if s.violated {
        Seq::empty()
    } else {
        restarts(m, s) + protocol(m, s, s.nodes.len() as int)
    }
}

/// The state behind the start of an election.
pub open spec fn elected(s: StateView, node: u8) -> StateView {
    let n = s.nodes[node as int];
    StateView {
        nodes: s.nodes.update(
            node as int,
            RNode {
                term: (n.term + 1) as u8,
                role: Role::Candidate,
                voted_for: node as i8,
                votes: 1u8 << node,
            },
        ),
        ..s
    }
}

/// A node that adopts the higher `term`.
pub open spec fn stepped_down(term: u8) -> RNode {
    RNode { term, role: Role::Follower, voted_for: NOBODY, votes: 0 }
}

/// A voter that the request of a candidate for `term` reached.
pub open spec fn asked(v: RNode, term: u8) -> RNode {
    if term > v.term {
        stepped_down(term)
    } else {
        v
    }
}

/// A candidate that counts one more vote.
pub open spec fn counted(m: ModelView, c: RNode, voter: u8) -> RNode {
    let votes = c.votes | (1u8 << voter);
    RNode {
        votes,
        role: if is_majority(m, votes) {
            Role::Leader
        } else {
            c.role
        },
        ..c
    }
}

/// The state behind a request for a vote; `None` where the vote is refused.
pub open spec fn granted(m: ModelView, s: StateView, cand: u8, voter: u8) -> Option<StateView> {
    let term = s.nodes[cand as int].term;
    let v = asked(s.nodes[voter as int], term);
    if term == v.term && (v.voted_for == NOBODY || v.voted_for == cand as i8) {
        let nodes = s.nodes.update(voter as int, RNode { voted_for: cand as i8, ..v });
        let c = nodes[cand as int];
        if c.role == Role::Candidate && c.term == term {
            let d = counted(m, c, voter);
            let won = d.role == Role::Leader;
            let first = s.leader_of[term as int];
            Some(
                StateView {
                    nodes: nodes.update(cand as int, d),
                    leader_of: if won && first == NOBODY {
                        s.leader_of.update(term as int, cand as i8)
                    } else {
                        s.leader_of
                    },
                    violated: s.violated || (won && first != NOBODY && first != cand as i8),
                    ..s
                },
            )
        } else {
            Some(StateView { nodes, ..s })
        }
    } else {
        None
    }
}

/// The state behind a restart.
pub open spec fn restarted(m: ModelView, s: StateView, node: u8) -> StateView {
    let n = s.nodes[node as int];
    let t = StateView {
        nodes: s.nodes.update(
            node as int,
            RNode {
                role: Role::Follower,
                votes: 0,
                voted_for: if m.fix == 0 {
                    NOBODY
                } else {
                    n.voted_for
                },
                ..n
            },
        ),
        ..s
    };
    match m.schedule {
        ScheduleView::Fixed(_) => StateView { sched_pos: (s.sched_pos + 1) as u8, ..t },
        ScheduleView::Exhaustive => StateView {
            restarts_done: (s.restarts_done + 1) as u8,
            ..t
        },
    }
}

/// The state behind an action.
pub open spec fn outcome(m: ModelView, s: StateView, a: RaftAction) -> Option<StateView> {
    match a {
        RaftAction::StartElection { node } => Some(elected(s, node)),
        RaftAction::Grant { cand, voter } => granted(m, s, cand, voter),
        RaftAction::StepDown { node, peer } => Some(
            StateView {
                nodes: s.nodes.update(node as int, stepped_down(s.nodes[peer as int].term)),
                ..s
            },
        ),
        RaftAction::Restart { node } => Some(restarted(m, s, node)),
    }
}

/// The state behind an action, where it is another one.
pub open spec fn next_of(m: ModelView, s: StateView, a: RaftAction) -> Option<StateView> {
    match outcome(m, s, a) {
        Some(t) => if t == s {
            None
        } else {
            Some(t)
        },
        None => None,
    }
}

/// The state belongs to the model.
pub open spec fn state_ok(m: ModelView, s: StateView) -> bool {
    &&& m.members <= 8
    &&& s.nodes.len() == m.members
    &&& s.leader_of.len() == m.term_bound + 1
    &&& forall|i: int| 0 <= i < s.nodes.len() ==> (#[trigger] s.nodes[i]).term <= m.term_bound
}

/// The action can be taken: it names nodes of the model, and no counter is at
/// its end.
pub open spec fn action_ok(m: ModelView, s: StateView, a: RaftAction) -> bool {
    match a {
        RaftAction::StartElection { node } => node < m.members && s.nodes[node as int].term
            < m.term_bound,
        RaftAction::Grant { cand, voter } => cand < m.members && voter < m.members,
        RaftAction::StepDown { node, peer } => node < m.members && peer < m.members,
        RaftAction::Restart { node } => node < m.members && (match m.schedule {
            ScheduleView::Fixed(_) => s.sched_pos < u8::MAX,
            ScheduleView::Exhaustive => s.restarts_done < u8::MAX,
        }),
    }
}

fn count_ones(x: u8) -> (n: u32)
    ensures
        n == ones(x),
{
    assert(x & 1 <= 1 && (x >> 1) & 1 <= 1 && (x >> 2) & 1 <= 1 && (x >> 3) & 1 <= 1 && (x >> 4)
        & 1 <= 1 && (x >> 5) & 1 <= 1 && (x >> 6) & 1 <= 1 && (x >> 7) & 1 <= 1) by (bit_vector);
    (x & 1) as u32 + ((x >> 1) & 1) as u32 + ((x >> 2) & 1) as u32 + ((x >> 3) & 1) as u32 + ((x
        >> 4) & 1) as u32 + ((x >> 5) & 1) as u32 + ((x >> 6) & 1) as u32 + ((x >> 7) & 1) as u32
}

fn copy_nodes(v: &Vec<RNode>) -> (r: Vec<RNode>)
    ensures
        r@ == v@,
{
    let mut r: Vec<RNode> = Vec::new();
    let mut i: usize = 0;
    while i < v.len()
        invariant
            i <= v@.len(),
            r@ == v@.take(i as int),
        decreases v@.len() - i,
    {
        r.push(v[i]);
        i = i + 1;
        assert(r@ =~= v@.take(i as int));
    }
    assert(r@ =~= v@);
    r
}

fn copy_leaders(v: &Vec<i8>) -> (r: Vec<i8>)
    ensures
        r@ == v@,
{
    let mut r: Vec<i8> = Vec::new();
    let mut i: usize = 0;
    while i < v.len()
        invariant
            i <= v@.len(),
            r@ == v@.take(i as int),
        decreases v@.len() - i,
    {
        r.push(v[i]);
        i = i + 1;
        assert(r@ =~= v@.take(i as int));
    }
    assert(r@ =~= v@);
    r
}

fn same_nodes(a: &Vec<RNode>, b: &Vec<RNode>) -> (r: bool)
    ensures
        r == (a@ == b@),
{
    if a.len() != b.len() {
        return false;
    }
    let mut i: usize = 0;
    while i < a.len()
        invariant
            i <= a@.len(),
            a@.len() == b@.len(),
            forall|j: int| 0 <= j < i ==> a@[j] == b@[j],
        decreases a@.len() - i,
    {
        if a[i] != b[i] {
            return false;
        }
        i = i + 1;
    }
    assert(a@ =~= b@);
    true
}

fn same_leaders(a: &Vec<i8>, b: &Vec<i8>) -> (r: bool)
    ensures
        r == (a@ == b@),
{
    if a.len() != b.len() {
        return false;
    }
    let mut i: usize = 0;
    while i < a.len()
        invariant
            i <= a@.len(),
            a@.len() == b@.len(),
            forall|j: int| 0 <= j < i ==> a@[j] == b@[j],
        decreases a@.len() - i,
    {
        if a[i] != b[i] {
            return false;
        }
        i = i + 1;
    }
    assert(a@ =~= b@);
    true
}

impl RaftState {
    /// A copy.
    pub fn copy(&self) -> (r: Self)
        ensures
            r@ == self@,
    {
        RaftState {
            nodes: copy_nodes(&self.nodes),
            leader_of: copy_leaders(&self.leader_of),
            violated: self.violated,
            sched_pos: self.sched_pos,
            restarts_done: self.restarts_done,
        }
    }

    /// Whether two states are the same.
    pub fn same(&self, other: &Self) -> (b: bool)
        ensures
            b == (self@ == other@),
    {
        self.violated == other.violated && self.sched_pos == other.sched_pos && self.restarts_done
            == other.restarts_done && same_nodes(&self.nodes, &other.nodes) && same_leaders(
            &self.leader_of,
            &other.leader_of,
        )
    }
}

fn push_action(actions: &mut Vec<RaftAction>, a: RaftAction)
    ensures
        final(actions)@ == old(actions)@.push(a),
{
    actions.push(a);
}

impl RaftModel {
    /// Whether the votes are more than half of the members'.
    fn majority(&self, votes: u8) -> (b: bool)
        ensures
            b == is_majority(self@, votes),
    {
        let n: u32 = count_ones(votes);
        assert(ones(votes) <= 8) by {
            assert((votes & 1) + ((votes >> 1) & 1) + ((votes >> 2) & 1) + ((votes >> 3) & 1) + ((
            votes >> 4) & 1) + ((votes >> 5) & 1) + ((votes >> 6) & 1) + ((votes >> 7) & 1) <= 8)
                by (bit_vector);
        }
        n * 2 > self.members as u32
    }

    /// The states to start from: one.
    #[must_use]
    pub fn init_states(&self) -> (r: Vec<RaftState>)
        ensures
            r@.len() == 1,
            r@[0]@ == initial(self@),
    {
        let mut nodes: Vec<RNode> = Vec::new();
        let mut i: u8 = 0;
        while i < self.members
            invariant
                i <= self.members,
                nodes@ == Seq::new(i as nat, |j: int| first_node()),
            decreases self.members - i,
        {
            nodes.push(RNode { term: 0, role: Role::Follower, voted_for: NOBODY, votes: 0 });
            i = i + 1;
            assert(nodes@ =~= Seq::new(i as nat, |j: int| first_node()));
        }
        let mut leader_of: Vec<i8> = Vec::new();
        let mut t: u16 = 0;
        let end: u16 = self.term_bound as u16 + 1;
        while t < end
            invariant
                t <= end,
                leader_of@ == Seq::new(t as nat, |j: int| NOBODY),
            decreases end - t,
        {
            leader_of.push(NOBODY);
            t = t + 1;
            assert(leader_of@ =~= Seq::new(t as nat, |j: int| NOBODY));
        }
        let s = RaftState { nodes, leader_of, violated: false, sched_pos: 0, restarts_done: 0 };
        assert(s@ == initial(self@));
        let mut r: Vec<RaftState> = Vec::new();
        r.push(s);
        r
    }

    fn push_restarts(&self, s: &RaftState, actions: &mut Vec<RaftAction>)
        ensures
            final(actions)@ == old(actions)@ + restarts(self@, s@),
    {
        let ghost start = actions@;
        match &self.schedule {
            RestartSchedule::Fixed(seq) => {
                let pos: usize = s.sched_pos as usize;
                if pos < seq.len() {
                    push_action(actions, RaftAction::Restart { node: seq[pos] });
                }
            },
            RestartSchedule::Exhaustive => {
                if s.restarts_done < self.max_restarts {
                    let mut n: u8 = 0;
                    let ghost all = |i: int| RaftAction::Restart { node: i as u8 };
                    assert(actions@ =~= start + Seq::new(0, all));
                    while n < self.members
                        invariant
                            n <= self.members,
                            all == (|i: int| RaftAction::Restart { node: i as u8 }),
                            actions@ == start + Seq::new(n as nat, all),
                        decreases self.members - n,
                    {
                        push_action(actions, RaftAction::Restart { node: n });
                        n = n + 1;
                        assert(actions@ =~= start + Seq::new(n as nat, all));
                    }
                }
            },
        }
        assert(actions@ =~= start + restarts(self@, s@));
    }

    fn push_grants(&self, s: &RaftState, i: usize, actions: &mut Vec<RaftAction>)
        requires
            i < s@.nodes.len() <= 8,
        ensures
            final(actions)@ == old(actions)@ + grants(s@, i as int, s@.nodes.len() as int),
    {
        let ghost start = actions@;
        let a = s.nodes[i];
        let mut j: usize = 0;
        assert(actions@ =~= start + grants(s@, i as int, 0));
        while j < s.nodes.len()
            invariant
                j <= s.nodes@.len() <= 8,
                i < s.nodes@.len(),
                a == s.nodes@[i as int],
                actions@ == start + grants(s@, i as int, j as int),
            decreases s.nodes@.len() - j,
        {
            let b = s.nodes[j];
            if i != j {
                let would: bool = a.term == b.term && (b.voted_for == NOBODY || b.voted_for
                    == i as i8) && a.votes & (1u8 << (j as u8)) == 0;
                if a.term > b.term || would {
                    push_action(actions, RaftAction::Grant { cand: i as u8, voter: j as u8 });
                }
            }
            j = j + 1;
            assert(actions@ =~= start + grants(s@, i as int, j as int));
        }
    }

    fn push_step_downs(&self, s: &RaftState, i: usize, actions: &mut Vec<RaftAction>)
        requires
            i < s@.nodes.len() <= 8,
        ensures
            final(actions)@ == old(actions)@ + step_downs(s@, i as int, s@.nodes.len() as int),
    {
        let ghost start = actions@;
        let mut j: usize = 0;
        assert(actions@ =~= start + step_downs(s@, i as int, 0));
        while j < s.nodes.len()
            invariant
                j <= s.nodes@.len() <= 8,
                i < s.nodes@.len(),
                actions@ == start + step_downs(s@, i as int, j as int),
            decreases s.nodes@.len() - j,
        {
            if i != j && s.nodes[j].term > s.nodes[i].term {
                push_action(actions, RaftAction::StepDown { node: i as u8, peer: j as u8 });
            }
            j = j + 1;
            assert(actions@ =~= start + step_downs(s@, i as int, j as int));
        }
    }

    /// Append everything that can happen in a state.
    pub fn actions(&self, s: &RaftState, actions: &mut Vec<RaftAction>)
        requires
            state_ok(self@, s@),
        ensures
            final(actions)@ == old(actions)@ + possible(self@, s@),
    {
        let ghost start = actions@;
        if s.violated {
            assert(actions@ =~= start + possible(self@, s@));
            return;
        }
        self.push_restarts(s, actions);
        let ghost head = actions@;
        let mut i: usize = 0;
        assert(actions@ =~= head + protocol(self@, s@, 0));
        while i < s.nodes.len()
            invariant
                i <= s.nodes@.len(),
                state_ok(self@, s@),
                actions@ == head + protocol(self@, s@, i as int),
            decreases s.nodes@.len() - i,
        {
            let a = s.nodes[i];
            if a.role != Role::Leader && a.term < self.term_bound {
                push_action(actions, RaftAction::StartElection { node: i as u8 });
            }
            if a.role == Role::Candidate {
                self.push_grants(s, i, actions);
            }
            self.push_step_downs(s, i, actions);
            i = i + 1;
            assert(actions@ =~= head + protocol(self@, s@, i as int));
        }
        assert(actions@ =~= start + possible(self@, s@));
    }

    /// The request of `cand` reaches `voter`; `false` where the vote is
    /// refused.
    fn grant(&self, s: &RaftState, ns: &mut RaftState, cand: u8, voter: u8) -> (b: bool)
        requires
            state_ok(self@, s@),
            old(ns)@ == s@,
            cand < self@.members,
            voter < self@.members,
        ensures
            match granted(self@, s@, cand, voter) {
                Some(t) => b && final(ns)@ == t,
                None => !b,
            },
    {
        let ci: usize = cand as usize;
        let vi: usize = voter as usize;
        let term: u8 = s.nodes[ci].term;
        let mut v = s.nodes[vi];
        if term > v.term {
            v = RNode { term, role: Role::Follower, voted_for: NOBODY, votes: 0 };
        }
        if !(term == v.term && (v.voted_for == NOBODY || v.voted_for == cand as i8)) {
            return false;
        }
        v.voted_for = cand as i8;
        ns.nodes.set(vi, v);
        let mut c = ns.nodes[ci];
        if c.role == Role::Candidate && c.term == term {
            c.votes = c.votes | (1u8 << voter);
            if self.majority(c.votes) {
                c.role = Role::Leader;
                let first: i8 = ns.leader_of[term as usize];
                if first == NOBODY {
                    ns.leader_of.set(term as usize, cand as i8);
                } else if first != cand as i8 {
                    ns.violated = true;
                }
            }
            ns.nodes.set(ci, c);
        }
        true
    }

    /// The state behind an action; `None` where nothing changes.
    pub fn next_state(&self, s: &RaftState, a: RaftAction) -> (r: Option<RaftState>)
        requires
            state_ok(self@, s@),
            action_ok(self@, s@, a),
        ensures
            match r {
                Some(t) => next_of(self@, s@, a) == Some(t@),
                None => next_of(self@, s@, a) is None,
            },
    {
        let mut ns = s.copy();
        match a {
            RaftAction::StartElection { node } => {
                let k: usize = node as usize;
                let n = RNode {
                    term: ns.nodes[k].term + 1,
                    role: Role::Candidate,
                    voted_for: node as i8,
                    votes: 1u8 << node,
                };
                ns.nodes.set(k, n);
            },
            RaftAction::Grant { cand, voter } => {
                if !self.grant(s, &mut ns, cand, voter) {
                    return None;
                }
            },
            RaftAction::StepDown { node, peer } => {
                let higher: u8 = s.nodes[peer as usize].term;
                let n = RNode { term: higher, role: Role::Follower, voted_for: NOBODY, votes: 0 };
                ns.nodes.set(node as usize, n);
            },
            RaftAction::Restart { node } => {
                let k: usize = node as usize;
                let mut n = ns.nodes[k];
                n.role = Role::Follower;
                n.votes = 0;
                if self.fix == 0 {
                    n.voted_for = NOBODY;
                }
                ns.nodes.set(k, n);
                match &self.schedule {
                    RestartSchedule::Fixed(_) => {
                        ns.sched_pos = ns.sched_pos + 1;
                    },
                    RestartSchedule::Exhaustive => {
                        ns.restarts_done = ns.restarts_done + 1;
                    },
                }
            },
        }
        if ns.same(s) {
            None
        } else {
            Some(ns)
        }
    }
}

} // verus!
