//! Chord: the checker of recordings, the model, and what is said of both.

use stateright::{Checker, Model, Property};

use weft::chord::{
    between, parse_report, sent_report, ChordInvariant, InvariantKind, NodeState, Snapshot, NONE,
};
use weft::chord_model::{ChordAction, ChordModel, ChordState, SchedEvent, Schedule, Status};
use weft::chord_oracle::{
    dynamic_classes, extract, no_violation_line, outcome, plan, property_for, result_line,
    sweep_model, sweep_report, ChordPlan,
};
use weft::chord_report::{check_report, trace};
use weft::hash::to_hex;
use weft::log::{Addr, Event, Header, Log, Meta, Record, SendOutcome, FORMAT, VERSION};
use weft::monitor::Invariant;
use weft::shrink::Renew;

fn st(ident: i32, succ: i32, succ2: i32, prdc: i32, alive: bool) -> NodeState {
    NodeState {
        ident,
        date: 100,
        alive,
        succ,
        succ2,
        prdc,
    }
}

fn snap(states: &[NodeState]) -> Snapshot {
    let mut s = Snapshot::default();
    for &n in states {
        s.observe(n);
    }
    s
}

/// A recording in which the reports are sent one after the other.
fn recording(reports: &[&str]) -> Log {
    let a = Addr { ip: 1, port: 1 };
    Log {
        header: Header {
            format: FORMAT.into(),
            version: VERSION,
            seed: 7,
            net: "loss=0".into(),
            window_ns: 0,
            meta: Meta::default(),
        },
        records: reports
            .iter()
            .enumerate()
            .map(|(i, r)| Record {
                op: i as u64,
                vt: 0,
                e: Event::Send {
                    conn: 0,
                    src: a,
                    dst: a,
                    chan_seq: i as u64,
                    send_vt: 0,
                    payload: to_hex(r.as_bytes()),
                    outcome: SendOutcome::NoReceiver,
                },
                chain: String::new(),
            })
            .collect(),
    }
}

#[test]
fn between_wraps_correctly() {
    // m=6, circle 0..64
    assert!(between(6, 10, 16, 6));
    assert!(!between(6, 20, 16, 6));
    assert!(between(60, 2, 6, 6)); // wraps past 0
    assert!(!between(10, 10, 20, 6)); // strict
}

#[test]
fn ideal_ring_of_three_satisfies_all() {
    // Ordered ring 10 -> 30 -> 50 -> 10.
    let s = snap(&[
        st(10, 30, 50, 50, true),
        st(30, 50, 10, 10, true),
        st(50, 10, 30, 30, true),
    ]);
    assert_eq!(s.ring_members(), vec![10, 30, 50]);
    assert!(
        s.check(6).is_empty(),
        "ideal ring must satisfy every invariant"
    );
}

#[test]
fn appendage_connected_to_ring_is_fine() {
    // 20 is an appendage whose succ is ring member 30.
    let s = snap(&[
        st(10, 30, 50, 50, true),
        st(30, 50, 10, 10, true),
        st(50, 10, 30, 30, true),
        st(20, 30, 50, NONE, true),
    ]);
    assert_eq!(s.ring_members(), vec![10, 30, 50]);
    assert!(s.check(6).is_empty());
}

#[test]
fn fig6_gap_skips_a_member_and_breaks_the_ring() {
    let s = snap(&[
        st(6, 10, 40, 60, true),  // succ=10 dead -> bestSucc=40 (skips 12)
        st(40, 60, 6, 6, true),   // 40 -> 60
        st(60, 6, 40, 40, true),  // 60 -> 6   (cycle 6->40->60->6)
        st(12, 40, 60, 10, true), // 12 -> 40, but nobody points to 12
        st(10, NONE, NONE, NONE, false),
    ]);
    assert!(s.ring_members().contains(&6));
    assert!(
        !s.ring_members().contains(&12),
        "12 was skipped out of the ring"
    );
}

#[test]
fn no_cycle_means_at_least_one_ring_fires() {
    // A pure chain with no cycle: 10 -> 30 -> 50 -> (dead), nothing loops.
    let s = snap(&[
        st(10, 30, 55, NONE, true),
        st(30, 50, 55, 10, true),
        st(50, 55, 55, 30, true), // succ 55 dead, succ2 55 dead -> bestSucc NONE
        st(55, NONE, NONE, NONE, false),
    ]);
    assert!(s.ring_members().is_empty());
    let v = s.check(6);
    assert_eq!(v.len(), 1);
    assert_eq!(v[0].kind, InvariantKind::AtLeastOneRing);
}

#[test]
fn split_ring_violates_at_most_one_ring() {
    // Two disjoint cycles: {10,30} and {40,50}.
    let s = snap(&[
        st(10, 30, 30, 30, true),
        st(30, 10, 10, 10, true),
        st(40, 50, 50, 50, true),
        st(50, 40, 40, 40, true),
    ]);
    assert_eq!(s.ring_members(), vec![10, 30, 40, 50]);
    let v = s.check(6);
    assert!(v.iter().any(|x| x.kind == InvariantKind::AtMostOneRing));
}

#[test]
fn disconnected_appendage_violates_connected_appendages() {
    // Ring 10->30->50->10 healthy; 20 is an appendage whose succ is dead
    // and succ2 is dead -> bestSucc NONE -> cannot reach ring.
    let s = snap(&[
        st(10, 30, 50, 50, true),
        st(30, 50, 10, 10, true),
        st(50, 10, 30, 30, true),
        st(20, 63, 63, NONE, true),
        st(63, NONE, NONE, NONE, false),
    ]);
    assert_eq!(s.ring_members(), vec![10, 30, 50]);
    let v = s.check(6);
    assert!(v
        .iter()
        .any(|x| x.kind == InvariantKind::ConnectedAppendages));
}

#[test]
fn a_ring_out_of_order_names_the_member_in_between() {
    // 10 -> 50 -> 30 -> 10: 30 lies between 10 and 50.
    let s = snap(&[
        st(10, 50, 30, 30, true),
        st(50, 30, 10, 10, true),
        st(30, 10, 50, 50, true),
    ]);
    let v = s.check(6);
    assert_eq!(v[0].kind, InvariantKind::OrderedRing);
    assert_eq!(v[0].detail, "ring member 30 lies between adjacent 10 -> 50");
    assert_eq!(v[0].kind.name(), "OrderedRing");
    assert!(v[0].kind.is_correctness_critical());
}

#[test]
fn reports_are_read_and_the_dead_stay_dead() {
    let r = parse_report("RPT 22 3 1 43 1 -1").unwrap();
    assert_eq!(
        r,
        NodeState {
            ident: 22,
            date: 3,
            alive: true,
            succ: 43,
            succ2: 1,
            prdc: -1
        }
    );
    assert!(parse_report("RPT 22 3 1 43 1").is_none());
    assert!(parse_report("HELLO").is_none());
    let mut s = Snapshot::default();
    s.observe(r);
    s.observe(NodeState { alive: false, date: 4, ..r });
    s.observe(NodeState { alive: true, date: 9, ..r });
    assert!(s.live().is_empty());
}

#[test]
fn only_what_is_sent_is_a_sent_report() {
    let log = recording(&["RPT 1 0 1 22 43 43", "noise"]);
    assert_eq!(sent_report(&log.records[0].e).unwrap().ident, 1);
    assert!(sent_report(&log.records[1].e).is_none());
    assert!(sent_report(&Event::Connect { conn: 1 }).is_none());
}

const RING: [&str; 3] = [
    "RPT 1 0 1 22 43 43",
    "RPT 22 0 1 43 1 1",
    "RPT 43 0 1 1 22 22",
];

#[test]
fn a_failure_may_not_strand_a_node() {
    let ok = recording(&[RING[0], RING[1], RING[2], "RPT 22 5 0 43 1 1"]);
    assert!(Snapshot::failure_assumption_held(&ok));
    let bad = recording(&[
        RING[0],
        RING[1],
        RING[2],
        "RPT 22 5 0 43 1 1",
        "RPT 43 6 0 1 22 22",
    ]);
    assert!(!Snapshot::failure_assumption_held(&bad));
}

#[test]
fn the_check_report_has_a_code_for_each_verdict() {
    let (text, code) = check_report(&recording(&RING), "r.log", 6);
    assert_eq!(code, 0);
    assert!(text.contains("recording : r.log  (seed 7, net loss=0)\n"));
    assert!(text.contains("ring members: [1, 22, 43]\n"));
    assert!(text.contains("  node   1: succ= 22 succ2= 43 prdc= 43 bestSucc= 22 [ring]\n"));
    assert!(text.contains("HELD at every failure"));
    assert!(text.contains("verdict   : OK"));

    let (text, code) = check_report(&recording(&["RPT 1 0 1 -1 -1 -1"]), "r.log", 6);
    assert_eq!(code, 2);
    assert!(text.contains("verdict   : VIOLATION"));
    assert!(text.contains(
        "  ✗ AtLeastOneRing : no ring member: the best-successor graph has no cycle\n"
    ));

    let stranded = recording(&[
        RING[0],
        RING[1],
        RING[2],
        "RPT 22 5 0 43 1 1",
        "RPT 43 6 0 1 22 22",
    ]);
    let (text, code) = check_report(&stranded, "r.log", 6);
    assert_eq!(code, 3);
    assert!(text.contains("verdict   : DISCARD"));
    assert!(text.contains("  node  22: FAILED\n"));
}

#[test]
fn the_trace_names_the_break_that_stays() {
    let log = recording(&[
        RING[0],
        RING[1],
        RING[2],
        RING[2], // nothing new
        "RPT 43 1 1 -1 -1 22",
        "RPT 22 2 0 43 1 1",
    ]);
    let text = trace(&log, "r.log");
    assert!(text.starts_with("=== CHORD STATE TRACE: r.log (seed 7) ===\n"));
    assert!(text.contains("op     2 node  43  succ=  1 succ2= 22 prdc= 22  ring=[1, 22, 43]\n"));
    assert!(!text.contains("op     3 "));
    assert!(text.contains("op     5 node  22  *** FAILED ***  ring=[]\n"));
    assert!(text.ends_with(
        "AtLeastOneRing broke permanently at op 4 and never recovered through the quiescent tail.\n"
    ));
}

#[test]
fn the_rule_fires_on_the_event_that_breaks_the_ring() {
    let mut rule = ChordInvariant::new(6, InvariantKind::AtLeastOneRing);
    assert_eq!(rule.name(), "AtLeastOneRing");
    let enqueued = |report: &str| Event::Send {
        conn: 0,
        src: Addr { ip: 1, port: 1 },
        dst: Addr { ip: 1, port: 2 },
        chan_seq: 0,
        send_vt: 0,
        payload: to_hex(report.as_bytes()),
        outcome: SendOutcome::Enqueued {
            to_conn: 0,
            deliv_ns: 0,
            tie: 0,
        },
    };
    assert_eq!(rule.on_event(0, 0, &enqueued("RPT 5 0 1 5 5 5")), None);
    assert!(rule.on_event(1, 0, &enqueued("RPT 5 1 1 -1 -1 5")).is_some());
    // A renewed rule knows of nothing.
    let mut again = rule.renew();
    assert_eq!(again.on_event(0, 0, &Event::Connect { conn: 0 }), None);
}

// ---- the model ------------------------------------------------------------

struct Searched(ChordModel);

impl Model for Searched {
    type State = ChordState;
    type Action = ChordAction;

    fn init_states(&self) -> Vec<ChordState> {
        self.0.init_states()
    }

    fn actions(&self, s: &ChordState, out: &mut Vec<ChordAction>) {
        self.0.actions(s, out);
    }

    fn next_state(&self, s: &ChordState, a: ChordAction) -> Option<ChordState> {
        self.0.next_state(s, a)
    }

    fn properties(&self) -> Vec<Property<Self>> {
        vec![
            Property::<Self>::sometimes("violation-after-schedule", |m, s| m.0.ends_broken(s)),
            Property::<Self>::sometimes("alor-after-schedule", |m, s| m.0.ends_without_ring(s)),
            Property::<Self>::sometimes("connapp-after-schedule", |m, s| {
                m.0.ends_disconnected(s)
            }),
            Property::<Self>::sometimes("ordered-or-split-after-schedule", |m, s| {
                m.0.ends_disordered(s)
            }),
        ]
    }
}

fn model(fix: u8, schedule: Schedule) -> ChordModel {
    // Base {1,22,43}, appendages {4,25,46}, m=6.
    ChordModel {
        m: 6,
        idents: vec![1, 4, 22, 25, 43, 46],
        base: vec![1, 22, 43],
        fix,
        schedule,
        max_fails: 3,
    }
}

fn all_join_then_fail() -> Schedule {
    Schedule::Fixed(vec![
        SchedEvent::Join(4),
        SchedEvent::Join(25),
        SchedEvent::Join(46),
        SchedEvent::Fail(25),
        SchedEvent::Fail(4),
        SchedEvent::Fail(46),
    ])
}

#[test]
fn base_ring_alone_is_quiescent_and_correct() {
    let m = model(0, Schedule::Fixed(vec![]));
    let init = &m.init_states()[0];
    assert!(m.invariants_hold(init));
    let checker = Searched(m).checker().spawn_bfs().join();
    assert!(checker.discovery("violation-after-schedule").is_none());
}

#[test]
fn level0_join_fail_schedule_can_break_the_ring() {
    let m = model(0, all_join_then_fail());
    let checker = Searched(m).checker().spawn_bfs().join();
    assert!(
        checker.discovery("violation-after-schedule").is_some(),
        "level 0 must be breakable under perfect detection (Zave)"
    );
}

/// A state of a model with six nodes and a fixed schedule as one number: the
/// place in the schedule, which says who is a member and who is dead, and
/// three pointers a node.
fn number(code: &[u8; 64], s: &ChordState) -> u64 {
    let mut k = u64::from(s.sched_pos) + 1;
    for n in &s.nodes {
        k = k << 3 | u64::from(code[(n.succ & 63) as usize]);
        k = k << 3 | u64::from(code[(n.succ2 & 63) as usize]);
        k = k << 3 | u64::from(code[(n.prdc & 63) as usize]);
    }
    k
}

/// Visit every state that can be reached. Answers how many there are, and what
/// is violated in any of them once the schedule is done.
fn visit_all(m: &ChordModel) -> (usize, Vec<&'static str>) {
    let mut code = [6u8; 64];
    for (i, x) in m.idents.iter().enumerate() {
        code[*x as usize] = i as u8;
    }
    let mut room = vec![0u64; 1 << 24];
    let table = room.as_mut_slice();
    let mask = table.len() - 1;
    let (mut count, mut found) = (0, Vec::new());
    let mut stack = Vec::new();
    let mut new = |t: ChordState, stack: &mut Vec<ChordState>| {
        let k = number(&code, &t);
        let mut i = (k.wrapping_mul(0x9E37_79B9_7F4A_7C15) >> 40) as usize;
        while table[i] != 0 && table[i] != k {
            i = (i + 1) & mask;
        }
        if table[i] == 0 {
            table[i] = k;
            count += 1;
            stack.push(t);
        }
    };
    for s in m.init_states() {
        new(s, &mut stack);
    }
    let mut actions = Vec::new();
    while let Some(s) = stack.pop() {
        if m.schedule_done(&s) {
            for v in m.violated_invariants(&s) {
                if !found.contains(&v) {
                    found.push(v);
                }
            }
        }
        actions.clear();
        m.actions(&s, &mut actions);
        for a in &actions {
            if let Some(t) = m.next_state(&s, *a) {
                new(t, &mut stack);
            }
        }
    }
    (count, found)
}

#[test]
fn level2_perfect_detection_excludes_ring_loss_but_not_splits() {
    let m = model(2, all_join_then_fail());
    let (states, found) = visit_all(&m);
    assert_eq!(states, 4_297_207);
    assert!(
        !found.contains(&"AtLeastOneRing"),
        "(a) AtLeastOneRing must be exhaustively safe at level 2 under \
         perfect detection"
    );
    assert!(
        !found.contains(&"ConnectedAppendages"),
        "(a) ConnectedAppendages must be exhaustively safe at level 2 \
         under perfect detection"
    );
    assert!(
        found.contains(&"OrderedRing") || found.contains(&"AtMostOneRing"),
        "(b) the split/misorder class must remain reachable at level 2 \
         (liveness discipline alone does not close it)"
    );
}

#[test]
fn a_node_joins_behind_the_member_it_follows() {
    let m = model(0, Schedule::Fixed(vec![SchedEvent::Join(4)]));
    let s = &m.init_states()[0];
    assert!(!m.schedule_done(s));
    let mut actions = Vec::new();
    m.actions(s, &mut actions);
    assert_eq!(actions, vec![ChordAction::Join { node: 1, via: 0 }]);
    let t = m.next_state(s, actions[0]).unwrap();
    assert_eq!(t.nodes[1].status, Status::Member);
    assert_eq!((t.nodes[1].succ, t.nodes[1].succ2), (22, -1));
    assert_eq!(t.sched_pos, 1);
    assert!(m.schedule_done(&t));
    assert!(m.invariants_hold(&t));
    assert!(m.next_state(&t, ChordAction::Flush { node: 1 }).is_none());
}

// ---- the oracle -----------------------------------------------------------

const RUN: [&str; 9] = [
    "RPT 43 0 1 1 22 22",
    "RPT 1 0 1 22 43 43",
    "RPT 22 0 1 43 1 1",
    "RPT 25 0 1 -1 -1 -1",
    "RPT 4 0 1 -1 -1 -1",
    "RPT 25 3 1 43 -1 -1",
    "RPT 4 2 1 22 -1 -1",
    "RPT 25 6 0 43 -1 -1",
    "RPT 4 6 0 22 -1 -1",
];

#[test]
fn the_schedule_is_read_off_the_reports() {
    let x = extract(&recording(&RUN)).unwrap();
    assert_eq!(x.idents, vec![1, 4, 22, 25, 43]);
    assert_eq!(x.base, vec![1, 22, 43]);
    assert_eq!(
        x.schedule,
        vec![
            SchedEvent::Join(4),
            SchedEvent::Join(25),
            SchedEvent::Fail(4),
            SchedEvent::Fail(25),
        ]
    );
    assert!(extract(&recording(&["noise"])).is_none());
}

#[test]
fn what_is_violated_decides_what_is_searched() {
    assert!(dynamic_classes(&recording(&RUN), 6).is_empty());
    assert!(matches!(
        plan(&recording(&RUN), "p", 0, 6),
        Ok(ChordPlan::Settled(line)) if line == "p\tNO_DYNAMIC_VIOLATION\t-"
    ));
    assert!(matches!(
        plan(&recording(&[]), "p", 0, 6),
        Err(e) if e == "p: no reports in recording"
    ));
    let broken = recording(&["RPT 1 0 1 -1 -1 -1"]);
    match plan(&broken, "p", 2, 6) {
        Ok(ChordPlan::Search { model, classes }) => {
            assert_eq!(classes, vec!["AtLeastOneRing"]);
            assert_eq!((model.m, model.fix, model.max_fails), (6, 2, 3));
            assert_eq!(model.idents, vec![1]);
        }
        _ => panic!("a violated recording is searched for"),
    }
    let split = recording(&[
        "RPT 10 0 1 30 30 30",
        "RPT 30 0 1 10 10 10",
        "RPT 20 0 1 50 50 50",
        "RPT 50 0 1 20 20 20",
        "RPT 60 0 1 -1 -1 -1",
    ]);
    assert_eq!(
        dynamic_classes(&split, 6),
        vec!["AtMostOneRing", "ConnectedAppendages", "OrderedRing"]
    );
}

#[test]
fn verdicts_and_lines() {
    assert_eq!(property_for("AtLeastOneRing"), "alor-after-schedule");
    assert_eq!(property_for("ConnectedAppendages"), "connapp-after-schedule");
    assert_eq!(property_for("AtMostOneRing"), "ordered-or-split-after-schedule");
    assert_eq!(outcome(true, false), "BOTH_CONFIRM");
    assert_eq!(outcome(false, true), "DYNAMIC_ONLY");
    assert_eq!(outcome(false, false), "UNDECIDED");
    assert_eq!(no_violation_line("x"), "x\tNO_DYNAMIC_VIOLATION\t-");
    assert_eq!(
        result_line(
            "x",
            &vec!["AtLeastOneRing", "OrderedRing"],
            &vec![true, false],
            true,
            12,
            4
        ),
        "x\tAtLeastOneRing=BOTH_CONFIRM,OrderedRing=DYNAMIC_ONLY\tstates=12 sched=4 events"
    );
    assert_eq!(
        sweep_report(1, 9, false, true, false, false),
        "exhaustive fix=1: states=9 exhausted=false\n  alor-after-schedule: REACHABLE\n  \
         connapp-after-schedule: not found (BOUNDED — state budget hit, not exhaustive)\n  \
         ordered-or-split-after-schedule: not found (BOUNDED — state budget hit, not \
         exhaustive)\n"
    );
    let m = sweep_model(2, 6);
    assert_eq!(m.idents, vec![1, 4, 22, 25, 43, 46]);
    assert!(matches!(m.schedule, Schedule::Exhaustive));
    // Without a fixed schedule, any appendage may join, and none of the base
    // may fail.
    let mut actions = Vec::new();
    m.actions(&m.init_states()[0], &mut actions);
    assert_eq!(
        actions,
        vec![
            ChordAction::Join { node: 1, via: 0 },
            ChordAction::Join { node: 3, via: 2 },
            ChordAction::Join { node: 5, via: 4 },
        ]
    );
}
