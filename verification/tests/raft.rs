//! Raft: the checker of recordings, the model, and what is said of both.

use stateright::{Checker, Model, Property};

use weft::hash::to_hex;
use weft::log::{Addr, Event, Header, Log, Meta, Record, SendOutcome, FORMAT, VERSION};
use weft::raft::{check, parse_report, RaftReport, Verdict};
use weft::raft_model::{RaftAction, RaftModel, RaftState, RestartSchedule, Role};
use weft::raft_oracle::{
    extract, plan, result_line, sweep_model, sweep_report, top_node, RaftPlan,
};
use weft::raft_report::check_report;

fn recording(reports: &[&str]) -> Log {
    let a = Addr { ip: 1, port: 1 };
    Log {
        header: Header {
            format: FORMAT.into(),
            version: VERSION,
            seed: 9,
            net: String::new(),
            window_ns: 0,
            meta: Meta::default(),
        },
        records: reports
            .iter()
            .enumerate()
            .map(|(i, r)| Record {
                op: i as u64,
                vt: 0,
                e: Event::Send {
                    conn: 0,
                    src: a,
                    dst: a,
                    chan_seq: i as u64,
                    send_vt: 0,
                    payload: to_hex(r.as_bytes()),
                    outcome: SendOutcome::NoReceiver,
                },
                chain: String::new(),
            })
            .collect(),
    }
}

#[test]
fn parses_reports() {
    let r = parse_report("RPT 3 17 1 5 2 3").unwrap();
    assert_eq!(
        r,
        RaftReport {
            node: 3,
            date: 17,
            alive: true,
            term: 5,
            role: 2,
            voted_for: 3
        }
    );
    assert!(parse_report("RV 5 2").is_none());
    assert!(parse_report("RPT 3 17").is_none());
}

fn verdict_of(reports: &[(i32, i32, i32, bool)]) -> Verdict {
    // (node, term, role, alive) — fed through the same parse + observe
    // path check() uses on real recordings.
    let mut v = Verdict::default();
    for (op, (node, term, role, alive)) in reports.iter().enumerate() {
        let text = format!("RPT {node} 0 {} {term} {role} -1", i32::from(*alive));
        v.observe(op as u64, parse_report(&text).unwrap());
    }
    v
}

#[test]
fn one_leader_per_term_is_safe() {
    let v = verdict_of(&[(0, 1, 2, true), (0, 1, 2, true), (1, 2, 2, true)]);
    assert!(v.violations.is_empty());
    assert!(!v.uninformative());
    assert_eq!(v.leaders_by_term[&1], vec![0]);
    assert_eq!(v.leaders_by_term[&2], vec![1]);
}

#[test]
fn two_leaders_same_term_is_violation() {
    let v = verdict_of(&[(0, 3, 2, true), (2, 3, 2, true)]);
    assert_eq!(v.violations.len(), 1);
    assert_eq!(v.violations[0].term, 3);
    assert_eq!(v.violations[0].leaders, vec![0, 2]);
}

#[test]
fn no_leader_at_all_is_uninformative() {
    let v = verdict_of(&[(0, 1, 1, true), (1, 1, 0, true), (2, 1, 0, false)]);
    assert!(v.uninformative());
    assert_eq!(v.restarts, 1);
}

#[test]
fn a_third_leader_is_no_second_violation() {
    let v = verdict_of(&[(0, 3, 2, true), (2, 3, 2, true), (1, 3, 2, true)]);
    assert_eq!(v.violations.len(), 1);
    assert_eq!(v.violations[0].at_op, 1);
    assert_eq!(v.leaders_by_term[&3], vec![0, 2, 1]);
}

#[test]
fn an_election_check_has_a_code_for_each_verdict() {
    let (text, code) = check_report(&recording(&["RPT 0 1 1 12 2 0", "RPT 1 2 1 2 2 1"]), "r");
    assert_eq!(code, 0);
    assert!(text.contains("recording : r  (seed 9, net )\n"));
    assert!(text.contains("reports   : 2 state reports, 0 crash-restarts\n"));
    assert!(text.contains("term    2  leaders: [1]\nterm   12  leaders: [0]\n"));
    let (text, code) = check_report(&recording(&["RPT 0 1 1 1 2 0", "RPT 1 2 1 1 2 1"]), "r");
    assert_eq!(code, 2);
    assert!(text.contains("  ✗ term 1: leaders [0, 1] (second leader at op 1)\n"));
    let (text, code) = check_report(&recording(&["RPT 0 1 1 1 0 0"]), "r");
    assert_eq!(code, 3);
    assert!(text.contains("verdict   : DISCARD"));
}

// ---- the model ------------------------------------------------------------

struct Searched(RaftModel);

impl Model for Searched {
    type State = RaftState;
    type Action = RaftAction;

    fn init_states(&self) -> Vec<RaftState> {
        self.0.init_states()
    }

    fn actions(&self, s: &RaftState, out: &mut Vec<RaftAction>) {
        self.0.actions(s, out);
    }

    fn next_state(&self, s: &RaftState, a: RaftAction) -> Option<RaftState> {
        self.0.next_state(s, a)
    }

    fn properties(&self) -> Vec<Property<Self>> {
        vec![Property::<Self>::sometimes(
            "election-safety-violated",
            |_, s| s.violated,
        )]
    }
}

fn model(fix: u8, schedule: RestartSchedule) -> RaftModel {
    RaftModel {
        members: 5,
        fix,
        term_bound: 2,
        schedule,
        max_restarts: 3,
    }
}

#[test]
fn volatile_vote_with_one_restart_breaks_election_safety() {
    // One voter restarting mid-term is enough at fix 0: it can grant
    // its term-1 vote twice.
    let m = model(0, RestartSchedule::Fixed(vec![1]));
    let checker = Searched(m).checker().spawn_bfs().join();
    assert!(
        checker.discovery("election-safety-violated").is_some(),
        "fix 0 must reach two leaders in one term with a restart"
    );
}

#[test]
fn persistent_vote_is_exhaustively_safe_under_same_restarts() {
    let m = model(1, RestartSchedule::Fixed(vec![1]));
    let checker = Searched(m).checker().spawn_bfs().join();
    assert!(
        checker.discovery("election-safety-violated").is_none(),
        "fix 1 must be exhaustively safe for the same schedule"
    );
}

#[test]
fn no_restarts_is_safe_even_with_volatile_votes() {
    // Without a restart, fix 0 and fix 1 coincide; safety must hold.
    let m = model(0, RestartSchedule::Fixed(vec![]));
    let checker = Searched(m).checker().spawn_bfs().join();
    assert!(checker.discovery("election-safety-violated").is_none());
}

#[test]
fn an_election_starts_with_a_vote_for_oneself() {
    let m = model(1, RestartSchedule::Fixed(vec![]));
    let s = &m.init_states()[0];
    let mut actions = Vec::new();
    m.actions(s, &mut actions);
    assert_eq!(actions.len(), 5);
    let t = m.next_state(s, actions[0]).unwrap();
    assert_eq!(t.nodes[0].role, Role::Candidate);
    assert_eq!((t.nodes[0].term, t.nodes[0].voted_for), (1, 0));
    assert!(!t.violated);
}

// ---- the oracle -----------------------------------------------------------

const RUN: [&str; 5] = [
    "RPT 0 1 1 1 2 0",
    "RPT 2 9 0 1 0 0",
    "RPT 1 4 0 1 0 0",
    "RPT 1 5 1 1 2 1",
    "RPT 2 9 1 300 0 0",
];

#[test]
fn the_restarts_are_read_off_the_reports() {
    let log = recording(&RUN);
    assert_eq!(top_node(&log), 2);
    let x = extract(&log).unwrap();
    assert_eq!((x.members, x.max_term), (3, 255));
    assert_eq!(x.restarts, vec![1, 2]);
    assert!(extract(&recording(&["RPT 0 1 1 1 2 0"])).is_none());
    assert_eq!(check(&log).violations.len(), 1);
}

#[test]
fn plans_and_lines() {
    match plan(&recording(&RUN), "p", 1) {
        Ok(RaftPlan::Search(m)) => {
            assert_eq!((m.members, m.fix, m.term_bound, m.max_restarts), (3, 1, 255, 0));
        }
        _ => panic!("a violated recording is searched for"),
    }
    assert!(matches!(
        plan(&recording(&["RPT 1 1 1 1 2 0"]), "p", 1),
        Ok(RaftPlan::Settled(line)) if line == "p\tNO_DYNAMIC_VIOLATION\t-"
    ));
    assert_eq!(
        result_line("p", false, true, 5, 2, 4),
        "p\tElectionSafety=DYNAMIC_ONLY\tstates=5 restarts=2 term_bound=4"
    );
    assert_eq!(
        sweep_report(0, 2, 7, true, false),
        "exhaustive fix=0 restarts<=2 term_bound=3: states=7 exhausted=true \
         ElectionSafety-violation: unreachable (exhaustive within bounds)\n"
    );
    let m = sweep_model(0, 2);
    assert_eq!((m.members, m.term_bound, m.max_restarts), (5, 3, 2));
}
