//! The laws of a scenario: which ones make sense, and what its events do.

use vstd::prelude::*;

use crate::config_laws;
use crate::config_laws::tight;
use crate::orchestrator;
use crate::orchestrator::{NodeStatus, RegistryView};
use crate::scenario;
use crate::scenario::{ActionView, EventView, LatencyDistribution, NetworkView, ScenarioView};
use crate::text;
use crate::text_laws;
use crate::text_laws::{free_of, joined};

verus! {

// ---------------------------------------------------------------------------
// The network
// ---------------------------------------------------------------------------

proof fn lemma_starts(p: Seq<char>, s: Seq<char>)
    ensures
        scenario::starts(p + s, p),
        (p + s).skip(p.len() as int) == s,
{
    assert((p + s).take(p.len() as int) =~= p);
    assert((p + s).skip(p.len() as int) =~= s);
}

/// A latency is read as it is written; a range must not end before it starts,
/// and a mean must not be zero.
pub proof fn law_latency_is_read(n: u64, m: u64)
    ensures
        scenario::latency_of("fixed:"@ + text::dec(n as nat)) == Ok::<
            LatencyDistribution,
            Seq<char>,
        >(LatencyDistribution::Fixed { ns: n }),
        n > 0 ==> scenario::latency_of("exp:"@ + text::dec(n as nat)) == Ok::<
            LatencyDistribution,
            Seq<char>,
        >(LatencyDistribution::Exponential { mean_ns: n }),
        n == 0 ==> scenario::latency_of("exp:"@ + text::dec(n as nat)) is Err,
        n <= m ==> scenario::latency_of(
            "uniform:"@ + (text::dec(n as nat) + seq!['-'] + text::dec(m as nat)),
        ) == Ok::<LatencyDistribution, Seq<char>>(
            LatencyDistribution::Uniform { lo_ns: n, hi_ns: m },
        ),
        m < n ==> scenario::latency_of(
            "uniform:"@ + (text::dec(n as nat) + seq!['-'] + text::dec(m as nat)),
        ) is Err,
{
    reveal_strlit("fixed:");
    reveal_strlit("uniform:");
    reveal_strlit("exp:");
    let a = text::dec(n as nat);
    let b = text::dec(m as nat);
    config_laws::lemma_digits(n as nat, u64::MAX as int);
    config_laws::lemma_digits(m as nat, u64::MAX as int);
    let r = a + seq!['-'] + b;
    lemma_starts("fixed:"@, a);
    lemma_starts("exp:"@, a);
    lemma_starts("uniform:"@, r);
    text_laws::law_split_once_undoes(a, '-', b);
    let u = "uniform:"@ + r;
    assert(u[0] == 'u');
    assert(!scenario::starts(u, "fixed:"@)) by {
        assert(u.take(6)[0] == 'u');
    }
    let e = "exp:"@ + a;
    assert(e[0] == 'e');
    assert(!scenario::starts(e, "fixed:"@)) by {
        if e.len() >= 6 {
            assert(e.take(6)[0] == 'e');
        }
    }
    assert(!scenario::starts(e, "uniform:"@)) by {
        if e.len() >= 8 {
            assert(e.take(8)[0] == 'e');
        }
    }
}

/// The groups of node names, with a bar between each two groups and a plus
/// sign between each two names.
pub open spec fn partition_text(groups: Seq<Seq<Seq<char>>>) -> Seq<char> {
    joined(groups.map_values(|g: Seq<Seq<char>>| joined(g, '+')), '|')
}

/// A name that stands for itself between the separators.
pub open spec fn plain(s: Seq<char>) -> bool {
    tight(s) && free_of(s, '+') && free_of(s, '|')
}

/// A partition makes sense exactly where every name in it is the number of a
/// node.
pub proof fn law_partition_makes_sense(groups: Seq<Seq<Seq<char>>>)
    requires
        groups.len() > 0,
        forall|i: int| 0 <= i < groups.len() ==> (#[trigger] groups[i]).len() > 0,
        forall|i: int, j: int|
            0 <= i < groups.len() && 0 <= j < groups[i].len() ==> plain(#[trigger] groups[i][j]),
    ensures
        scenario::partition_fault(partition_text(groups)) is None <==> forall|i: int, j: int|
            0 <= i < groups.len() && 0 <= j < groups[i].len() ==> text::parse_uint(
                #[trigger] groups[i][j],
                10,
                usize::MAX as int,
            ) is Some,
{
    let sides = groups.map_values(|g: Seq<Seq<char>>| joined(g, '+'));
    assert forall|i: int| 0 <= i < sides.len() implies tight(#[trigger] sides[i]) && free_of(
        sides[i],
        '|',
    ) by {
        let g = groups[i];
        assert forall|j: int| 0 <= j < g.len() implies tight(#[trigger] g[j]) && free_of(
            g[j],
            '|',
        ) by {
            assert(plain(groups[i][j]));
        }
        config_laws::lemma_joined_ends(g, '+');
        config_laws::lemma_joined_free(g, '+', '|');
    }
    config_laws::lemma_joined_ends(sides, '|');
    let t = partition_text(groups);
    text_laws::law_trim_leaves(t);
    text_laws::law_split_undoes(sides, '|');
    lemma_groups_fault(groups, groups.len() as int);
}

proof fn lemma_groups_fault(groups: Seq<Seq<Seq<char>>>, n: int)
    requires
        0 <= n <= groups.len(),
        forall|i: int| 0 <= i < groups.len() ==> (#[trigger] groups[i]).len() > 0,
        forall|i: int, j: int|
            0 <= i < groups.len() && 0 <= j < groups[i].len() ==> plain(#[trigger] groups[i][j]),
    ensures
        scenario::groups_fault(groups.map_values(|g: Seq<Seq<char>>| joined(g, '+')), n) is None
            <==> forall|i: int, j: int|
            0 <= i < n && 0 <= j < groups[i].len() ==> text::parse_uint(
                #[trigger] groups[i][j],
                10,
                usize::MAX as int,
            ) is Some,
    decreases n,
{
    let sides = groups.map_values(|g: Seq<Seq<char>>| joined(g, '+'));
    if n > 0 {
        lemma_groups_fault(groups, n - 1);
        let g = groups[n - 1];
        assert(g.len() > 0);
        assert forall|j: int| 0 <= j < g.len() implies plain(#[trigger] g[j]) by {
            assert(plain(groups[n - 1][j]));
        }
        assert forall|j: int| 0 <= j < g.len() implies tight(#[trigger] g[j]) && free_of(
            g[j],
            '+',
        ) by {
            assert(plain(g[j]));
        }
        assert(sides[n - 1] == joined(g, '+'));
        config_laws::lemma_joined_ends(g, '+');
        text_laws::law_split_undoes(g, '+');
        lemma_group_fault(g, g.len() as int);
        if forall|j: int|
            0 <= j < g.len() ==> text::parse_uint(#[trigger] g[j], 10, usize::MAX as int) is Some {
            assert forall|j: int| 0 <= j < groups[n - 1].len() implies text::parse_uint(
                #[trigger] groups[n - 1][j],
                10,
                usize::MAX as int,
            ) is Some by {
                assert(text::parse_uint(g[j], 10, usize::MAX as int) is Some);
            }
        } else {
            let j = choose|j: int|
                0 <= j < g.len() && text::parse_uint(#[trigger] g[j], 10, usize::MAX as int)
                    is None;
            assert(groups[n - 1][j] == g[j]);
        }
    }
}

proof fn lemma_group_fault(g: Seq<Seq<char>>, n: int)
    requires
        0 <= n <= g.len(),
        forall|j: int| 0 <= j < g.len() ==> plain(#[trigger] g[j]),
    ensures
        scenario::group_fault(g, n) is None <==> forall|j: int|
            0 <= j < n ==> text::parse_uint(#[trigger] g[j], 10, usize::MAX as int) is Some,
    decreases n,
{
    if n > 0 {
        lemma_group_fault(g, n - 1);
        assert(plain(g[n - 1]));
    }
}

/// A number from zero to one, or none at all.
pub open spec fn likely(p: Option<u64>) -> bool {
    p matches Some(bits) ==> bits <= 0x3ff0_0000_0000_0000 || bits == 0x8000_0000_0000_0000
}

/// A network makes sense exactly where each part that it names does.
pub proof fn law_network_makes_sense(n: NetworkView)
    ensures
        scenario::network_fault(n) is None <==> {
            &&& n.latency matches Some(t) ==> scenario::latency_of(text::trim(t)) is Ok
            &&& likely(n.loss)
            &&& n.bandwidth matches Some(b) ==> b > 0
            &&& n.partitions matches Some(p) ==> scenario::partition_fault(p) is None
        },
{
}

// ---------------------------------------------------------------------------
// The whole
// ---------------------------------------------------------------------------

/// Every node that `a` names is one of the first `nodes`.
pub open spec fn concerns(a: ActionView, nodes: nat) -> bool {
    &&& a matches ActionView::Crash { node_id } ==> node_id < nodes
    &&& a matches ActionView::Start { node_id } ==> node_id < nodes
}

/// The nodes are numbered from zero, every name is that of a node, and the
/// network makes sense.
pub open spec fn sound(s: ScenarioView) -> bool {
    &&& forall|i: int| 0 <= i < s.ids.len() ==> #[trigger] s.ids[i] == i
    &&& forall|i: int|
        0 <= i < s.events.len() ==> concerns((#[trigger] s.events[i]).action, s.ids.len())
    &&& s.filesystem matches Some(v) ==> forall|i: int|
        0 <= i < v.len() ==> (#[trigger] v[i]).0 < s.ids.len()
    &&& s.time_skew matches Some(v) ==> forall|i: int|
        0 <= i < v.len() ==> (#[trigger] v[i]).0 < s.ids.len()
    &&& s.network matches Some(n) ==> scenario::network_fault(n) is None
}

proof fn lemma_numbering(ids: Seq<usize>, n: int)
    requires
        0 <= n <= ids.len(),
    ensures
        scenario::numbering_fault(ids, n) is None <==> forall|i: int|
            0 <= i < n ==> #[trigger] ids[i] == i,
    decreases n,
{
    if n > 0 {
        lemma_numbering(ids, n - 1);
    }
}

proof fn lemma_events(events: Seq<EventView>, nodes: nat, n: int)
    requires
        0 <= n <= events.len(),
    ensures
        scenario::events_fault(events, nodes, n) is None <==> forall|i: int|
            0 <= i < n ==> concerns((#[trigger] events[i]).action, nodes),
    decreases n,
{
    if n > 0 {
        lemma_events(events, nodes, n - 1);
    }
}

proof fn lemma_names(what: Seq<char>, ids: Seq<usize>, nodes: nat, n: int)
    requires
        0 <= n <= ids.len(),
    ensures
        scenario::names_fault(what, ids, nodes, n) is None <==> forall|i: int|
            0 <= i < n ==> #[trigger] ids[i] < nodes,
    decreases n,
{
    if n > 0 {
        lemma_names(what, ids, nodes, n - 1);
    }
}

proof fn lemma_keys<V>(what: Seq<char>, v: Seq<(usize, V)>, nodes: nat)
    ensures
        scenario::names_fault(what, scenario::keys_of(v), nodes, v.len() as int) is None
            <==> forall|i: int| 0 <= i < v.len() ==> (#[trigger] v[i]).0 < nodes,
{
    let ids = scenario::keys_of(v);
    lemma_names(what, ids, nodes, v.len() as int);
    if forall|i: int| 0 <= i < v.len() ==> (#[trigger] v[i]).0 < nodes {
        assert forall|i: int| 0 <= i < ids.len() implies #[trigger] ids[i] < nodes by {
            assert(v[i].0 < nodes);
        }
    } else {
        let i = choose|i: int| 0 <= i < v.len() && (#[trigger] v[i]).0 >= nodes;
        assert(ids[i] >= nodes);
    }
}

/// A scenario has no fault if and only if it is sound.
pub proof fn law_scenario_makes_sense(s: ScenarioView)
    ensures
        scenario::scenario_fault(s) is None <==> sound(s),
{
    lemma_numbering(s.ids, s.ids.len() as int);
    lemma_events(s.events, s.ids.len(), s.events.len() as int);
    if let Some(v) = s.filesystem {
        lemma_keys("filesystem faults for node "@, v, s.ids.len());
    }
    if let Some(v) = s.time_skew {
        lemma_keys("time skew for node "@, v, s.ids.len());
    }
}

proof fn lemma_placed(v: Seq<EventView>, e: EventView, x: EventView)
    ensures
        scenario::placed(v, e).contains(x) <==> v.contains(x) || x == e,
    decreases v.len(),
{
    let r = scenario::placed(v, e);
    if v.len() == 0 || v.last().time_ns <= e.time_ns {
        assert(r == v.push(e));
        lemma_pushed(v, e, x);
    } else {
        lemma_placed(v.drop_last(), e, x);
        lemma_pushed(scenario::placed(v.drop_last(), e), v.last(), x);
        lemma_pushed(v.drop_last(), v.last(), x);
        assert(v.drop_last().push(v.last()) =~= v);
    }
}

proof fn lemma_pushed(v: Seq<EventView>, e: EventView, x: EventView)
    ensures
        v.push(e).contains(x) <==> v.contains(x) || x == e,
{
    let r = v.push(e);
    if v.contains(x) {
        let k = choose|k: int| 0 <= k < v.len() && v[k] == x;
        assert(r[k] == x);
    }
    assert(r[v.len() as int] == e);
    if r.contains(x) {
        let k = choose|k: int| 0 <= k < r.len() && r[k] == x;
        if k < v.len() {
            assert(v[k] == x);
        }
    }
}

proof fn lemma_same_events(v: Seq<EventView>, x: EventView)
    ensures
        scenario::in_order(v).contains(x) <==> v.contains(x),
    decreases v.len(),
{
    if v.len() > 0 {
        lemma_same_events(v.drop_last(), x);
        lemma_placed(scenario::in_order(v.drop_last()), v.last(), x);
        lemma_pushed(v.drop_last(), v.last(), x);
        assert(v.drop_last().push(v.last()) =~= v);
    }
}

/// A scenario is taken in if and only if it is sound and every probability in
/// it is one; what is taken in has the same events and is the same otherwise.
pub proof fn law_scenario_is_taken_in(s: ScenarioView, x: EventView)
    ensures
        scenario::taken_in(s) is Ok <==> sound(s) && (s.filesystem matches Some(v) ==> forall|i: int|
            0 <= i < v.len() ==> likely((#[trigger] v[i]).1.torn_write_probability)),
        scenario::taken_in(s) matches Ok(t) ==> {
            &&& t.seed == s.seed && t.ids == s.ids && t.network == s.network
            &&& t.filesystem == s.filesystem && t.time_skew == s.time_skew
            &&& t.events.contains(x) <==> s.events.contains(x)
            &&& forall|i: int, j: int|
                0 <= i < j < t.events.len() ==> (#[trigger] t.events[i]).time_ns <= (
                #[trigger] t.events[j]).time_ns
        },
{
    let t = ScenarioView { events: scenario::in_order(s.events), ..s };
    law_scenario_makes_sense(t);
    lemma_same_events(s.events, x);
    scenario::law_events_in_order(s.events, 0);
    if let Some(v) = s.filesystem {
        lemma_torn(v, v.len() as int);
    }
    if sound(s) {
        assert forall|i: int| 0 <= i < t.events.len() implies concerns(
            (#[trigger] t.events[i]).action,
            t.ids.len(),
        ) by {
            lemma_same_events(s.events, t.events[i]);
            let k = choose|k: int| 0 <= k < s.events.len() && s.events[k] == t.events[i];
            assert(concerns(s.events[k].action, s.ids.len()));
        }
        assert(sound(t));
    }
    if sound(t) {
        assert forall|i: int| 0 <= i < s.events.len() implies concerns(
            (#[trigger] s.events[i]).action,
            s.ids.len(),
        ) by {
            lemma_same_events(s.events, s.events[i]);
            let k = choose|k: int| 0 <= k < t.events.len() && t.events[k] == s.events[i];
            assert(concerns(t.events[k].action, t.ids.len()));
        }
        assert(sound(s));
    }
}

proof fn lemma_torn(v: Seq<(usize, scenario::FileSystemFaults)>, n: int)
    requires
        0 <= n <= v.len(),
    ensures
        scenario::torn_fault(v, n) is None <==> forall|i: int|
            0 <= i < n ==> likely((#[trigger] v[i]).1.torn_write_probability),
    decreases n,
{
    if n > 0 {
        lemma_torn(v, n - 1);
    }
}

// ---------------------------------------------------------------------------
// What events do
// ---------------------------------------------------------------------------

/// Every node that is registered is idle and has no process; no other is
/// known.
pub proof fn law_registered_nodes_are_idle(ids: Seq<usize>, n: int, id: usize)
    requires
        0 <= n <= ids.len(),
    ensures
        ({
            let r = orchestrator::registered(ids, n);
            let there = exists|i: int| 0 <= i < n && #[trigger] ids[i] == id;
            &&& orchestrator::state_of(r, id) == if there {
                Some(NodeStatus::Idle)
            } else {
                None
            }
            &&& orchestrator::pid_of(r, id) is None
        }),
    decreases n,
{
    if n > 0 {
        law_registered_nodes_are_idle(ids, n - 1, id);
        assert(ids[n - 1] == ids[n - 1]);
        if exists|i: int| 0 <= i < n && #[trigger] ids[i] == id {
            let i = choose|i: int| 0 <= i < n && #[trigger] ids[i] == id;
            if i < n - 1 {
                assert(exists|i: int| 0 <= i < n - 1 && #[trigger] ids[i] == id);
            }
        }
    }
}

/// A crash kills the process of a node that runs, which is crashed from then
/// on, and does nothing to any other; a start has the node restarted and kills
/// nothing; neither touches another node, and no other event touches any.
pub proof fn law_what_events_do(r: RegistryView, id: usize, other: usize, spec: Seq<char>)
    ensures
        ({
            let (c, killed) = orchestrator::applied(r, ActionView::Crash { node_id: id });
            let runs = r.states.contains_key(id) && r.states[id] == NodeStatus::Running
                && r.pids.contains_key(id) && r.pids[id] != 0;
            &&& runs ==> c.states.contains_key(id) && c.states[id] == NodeStatus::Crashed && (
            r.pids[id] <= i32::MAX ==> killed == Some(r.pids[id] as i32))
            &&& !runs ==> c == r && killed is None
            &&& c.pids == r.pids
            &&& other != id ==> orchestrator::state_of(c, other) == orchestrator::state_of(r, other)
        }),
        ({
            let (s, killed) = orchestrator::applied(r, ActionView::Start { node_id: id });
            &&& s.states.contains_key(id) && s.states[id] == NodeStatus::Restarting
            &&& killed is None
            &&& s.pids == r.pids
            &&& other != id ==> orchestrator::state_of(s, other) == orchestrator::state_of(r, other)
        }),
        orchestrator::applied(r, ActionView::ActivatePartition { spec }) == (r, None::<i32>),
        orchestrator::applied(r, ActionView::ClearPartition) == (r, None::<i32>),
{
}

/// The next event happens as soon as its time has come, and then alone; before
/// that nothing happens.
pub proof fn law_turns(s: ScenarioView, next: int, now: u64, r: RegistryView)
    requires
        0 <= next,
    ensures
        ({
            let (t, after, q) = orchestrator::turn(s, next, now, r);
            &&& t is Done <==> s.events.len() <= next
            &&& t is Wait <==> next < s.events.len() && now < s.events[next].time_ns
            &&& t is Acted ==> after == next + 1 && q == orchestrator::applied(
                r,
                s.events[next].action,
            ).0 && t->Acted_0 == orchestrator::applied(r, s.events[next].action).1
            &&& !(t is Acted) ==> after == next && q == r
        }),
{
}

} // verus!
