//! The events of a scenario, as time reaches them: which process to kill, and
//! what is known of each node.

use vstd::prelude::*;
use std::collections::BTreeMap;

use crate::scenario;
use crate::scenario::{ActionView, EventAction, Scenario, ScenarioView};

verus! {

/// The state of a process.
#[derive(Debug, Clone, Copy, PartialEq, Eq, Structural)]
pub enum NodeStatus {
    Idle,
    Running,
    Crashed,
    Restarting,
}

/// What is known of each node.
pub struct NodeRegistry {
    states: BTreeMap<usize, NodeStatus>,
    pids: BTreeMap<usize, u32>,
}

pub struct RegistryView {
    pub states: Map<usize, NodeStatus>,
    /// The last process of each node, or 0.
    pub pids: Map<usize, u32>,
}

impl View for NodeRegistry {
    type V = RegistryView;

    closed spec fn view(&self) -> RegistryView {
        RegistryView { states: self.states@, pids: self.pids@ }
    }
}

/// The nodes of a scenario before anything is started.
pub open spec fn registered(ids: Seq<usize>, n: int) -> RegistryView
    decreases n,
{
    if n <= 0 {
        RegistryView { states: Map::empty(), pids: Map::empty() }
    } else {
        let r = registered(ids, n - 1);
        RegistryView {
            states: r.states.insert(ids[n - 1], NodeStatus::Idle),
            pids: r.pids.insert(ids[n - 1], 0),
        }
    }
}

pub open spec fn state_of(r: RegistryView, node_id: usize) -> Option<NodeStatus> {
    if r.states.contains_key(node_id) {
        Some(r.states[node_id])
    } else {
        None
    }
}

pub open spec fn pid_of(r: RegistryView, node_id: usize) -> Option<u32> {
    if r.pids.contains_key(node_id) && r.pids[node_id] != 0 {
        Some(r.pids[node_id])
    } else {
        None
    }
}

pub open spec fn with_state(r: RegistryView, node_id: usize, s: NodeStatus) -> RegistryView {
    RegistryView { states: r.states.insert(node_id, s), ..r }
}

impl NodeRegistry {
    /// The nodes of a scenario, none of them started.
    #[must_use]
    pub fn new(scenario: &Scenario) -> (r: Self)
        ensures
            r@ == registered(scenario@.ids, scenario@.ids.len() as int),
    {
        let mut states: BTreeMap<usize, NodeStatus> = BTreeMap::new();
        let mut pids: BTreeMap<usize, u32> = BTreeMap::new();
        let ghost ids = scenario@.ids;
        let mut i: usize = 0;
        while i < scenario.nodes.len()
            invariant
                i <= scenario.nodes@.len(),
                ids == scenario::ids_of(scenario.nodes@),
                (RegistryView { states: states@, pids: pids@ }) == registered(ids, i as int),
            decreases scenario.nodes@.len() - i,
        {
            let id: usize = scenario.nodes[i].node_id;
            assert(ids[i as int] == id);
            let _s = states.insert(id, NodeStatus::Idle);
            let _p = pids.insert(id, 0);
            i = i + 1;
        }
        NodeRegistry { states, pids }
    }

    /// The node runs in this process.
    pub fn set_running(&mut self, node_id: usize, pid: u32)
        ensures
            final(self)@ == (RegistryView {
                states: old(self)@.states.insert(node_id, NodeStatus::Running),
                pids: old(self)@.pids.insert(node_id, pid),
            }),
    {
        let _s = self.states.insert(node_id, NodeStatus::Running);
        let _p = self.pids.insert(node_id, pid);
    }

    /// The node has crashed. Its process is still known, so that it can be
    /// cleaned up.
    pub fn set_crashed(&mut self, node_id: usize)
        ensures
            final(self)@ == with_state(old(self)@, node_id, NodeStatus::Crashed),
    {
        let _s = self.states.insert(node_id, NodeStatus::Crashed);
    }

    fn set_restarting(&mut self, node_id: usize)
        ensures
            final(self)@ == with_state(old(self)@, node_id, NodeStatus::Restarting),
    {
        let _s = self.states.insert(node_id, NodeStatus::Restarting);
    }

    /// The state of a node.
    #[must_use]
    pub fn state(&self, node_id: usize) -> (r: Option<NodeStatus>)
        ensures
            r == state_of(self@, node_id),
    {
        match self.states.get(&node_id) {
            Some(s) => Some(*s),
            None => None,
        }
    }

    /// The last process of a node, if it was ever started.
    #[must_use]
    pub fn pid(&self, node_id: usize) -> (r: Option<u32>)
        ensures
            r == pid_of(self@, node_id),
    {
        match self.pids.get(&node_id) {
            Some(p) => if *p != 0 {
                Some(*p)
            } else {
                None
            },
            None => None,
        }
    }
}

// ---------------------------------------------------------------------------
// Events
// ---------------------------------------------------------------------------

/// The process identifier for the system; one that does not fit names no
/// process.
pub open spec fn victim_of(pid: u32) -> Option<i32> {
    if pid <= i32::MAX {
        Some(pid as i32)
    } else {
        None
    }
}

/// What is known behind an event, and which process is to be killed.
pub open spec fn applied(r: RegistryView, a: ActionView) -> (RegistryView, Option<i32>) {
    match a {
        ActionView::Crash { node_id } => match pid_of(r, node_id) {
            Some(pid) => if state_of(r, node_id) == Some(NodeStatus::Running) {
                (with_state(r, node_id, NodeStatus::Crashed), victim_of(pid))
            } else {
                (r, None)
            },
            None => (r, None),
        },
        ActionView::Start { node_id } => (with_state(r, node_id, NodeStatus::Restarting), None),
        _ => (r, None),
    }
}

/// What there is to do now.
#[derive(Debug, Clone, Copy, PartialEq, Eq, Structural)]
pub enum Turn {
    /// Every event has happened.
    Done,
    /// The next event is not due.
    Wait,
    /// An event has happened; this process is to be killed, if any.
    Acted(Option<i32>),
}

/// How far the events of a scenario have come.
pub struct Scheduler {
    /// The next event.
    pub next: usize,
}

/// One turn: an event happens where the time has come for it.
pub open spec fn turn(s: ScenarioView, next: int, now: u64, r: RegistryView) -> (
    Turn,
    int,
    RegistryView,
) {
    if next >= s.events.len() {
        (Turn::Done, next, r)
    } else if now < s.events[next].time_ns {
        (Turn::Wait, next, r)
    } else {
        let (t, kill) = applied(r, s.events[next].action);
        (Turn::Acted(kill), next + 1, t)
    }
}

fn apply(reg: &mut NodeRegistry, a: &EventAction) -> (kill: Option<i32>)
    ensures
        (final(reg)@, kill) == applied(old(reg)@, a@),
{
    match a {
        EventAction::Crash { node_id } => {
            let running: bool = match reg.state(*node_id) {
                Some(s) => s == NodeStatus::Running,
                None => false,
            };
            match reg.pid(*node_id) {
                Some(pid) => {
                    if !running {
                        return None;
                    }
                    reg.set_crashed(*node_id);
                    if pid <= i32::MAX as u32 {
                        Some(pid as i32)
                    } else {
                        None
                    }
                },
                None => None,
            }
        },
        EventAction::Start { node_id } => {
            reg.set_restarting(*node_id);
            None
        },
        _ => None,
    }
}

impl Scheduler {
    /// At the first event.
    #[must_use]
    pub fn new() -> (r: Self)
        ensures
            r.next == 0,
    {
        Scheduler { next: 0 }
    }

    /// See to the next event of the scenario, if its time has come.
    pub fn step(&mut self, scenario: &Scenario, now: u64, reg: &mut NodeRegistry) -> (t: Turn)
        ensures
            (t, final(self).next as int, final(reg)@) == turn(
                scenario@,
                old(self).next as int,
                now,
                old(reg)@,
            ),
    {
        if self.next >= scenario.events.len() {
            return Turn::Done;
        }
        let e = &scenario.events[self.next];
        assert(scenario@.events[self.next as int] == e@);
        if now < e.time_ns {
            return Turn::Wait;
        }
        let kill: Option<i32> = apply(reg, &e.action);
        self.next = self.next + 1;
        Turn::Acted(kill)
    }
}

// ---------------------------------------------------------------------------
// Laws
// ---------------------------------------------------------------------------

/// No event comes before its time, and none is left out: behind a turn that
/// acted, the events up to it, and no others, have happened, and its time had
/// come.
pub proof fn law_events_wait_for_their_time(s: ScenarioView, next: int, now: u64, r: RegistryView)
    requires
        0 <= next <= s.events.len(),
    ensures
        ({
            let (t, after, _) = turn(s, next, now, r);
            &&& t is Acted <==> after == next + 1
            &&& t is Acted ==> next < s.events.len() && s.events[next].time_ns <= now
            &&& t is Done <==> next == s.events.len()
            &&& t is Wait ==> after == next && now < s.events[next].time_ns
        }),
{
}

/// Only a node that runs is killed, it is known as crashed from then on, and
/// no process is forgotten.
pub proof fn law_crash_kills_what_runs(r: RegistryView, node_id: usize)
    ensures
        ({
            let (t, kill) = applied(r, ActionView::Crash { node_id });
            &&& kill matches Some(p) ==> state_of(r, node_id) == Some(NodeStatus::Running)
                && pid_of(r, node_id) == Some(p as u32) && state_of(t, node_id) == Some(
                NodeStatus::Crashed,
            )
            &&& t.pids == r.pids
        }),
{
}

} // verus!
