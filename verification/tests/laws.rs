//! One instance of each of the laws that no other test is an instance of.

use serde_json::Value;

use weft::broker::{BrokerState, Observed};
use weft::bytes::{split_lines, unpack};
use weft::chord::{NodeState, Snapshot};
use weft::chord_model::{ChordModel, SchedEvent, Schedule, Status};
use weft::config::{self, loss_values};
use weft::fault::{Latency, Partition, TailTable};
use weft::fuzz::{invariant_set, run_fuzz, seeds, try_seed, Sweep};
use weft::fuzz_config::{ConfigFields, FuzzConfig};
use weft::input::{execute, OpInput};
use weft::log::{
    Addr, Event, Header, Log, LogError, Meta, Record, RecvOutcome, SendOutcome, FORMAT, VERSION,
};
use weft::monitor::{BuiltIn, Invariant, PerChannelFifo};
use weft::netcore::{Core, SendResult};
use weft::raft::{RaftReport, Verdict};
use weft::raft_model::{RaftModel, RestartSchedule};
use weft::recorder::Recorder;
use weft::replay::{replay_log, ReplayOutcome};
use weft::shrink::{shrink, ViolationKey};
use weft::text::{dec_text, read_uint};
use weft::window::{SeqSend, WindowSequencer};
use weft::wire::{ToBroker, VAddr};
use weft::workload::{generate, Workload};

// ---- reading a log --------------------------------------------------------

fn text_at(v: &Value, key: &str) -> Result<String, String> {
    v.get(key)
        .and_then(Value::as_str)
        .map(str::to_string)
        .ok_or_else(|| format!("no text at {key}"))
}

fn number_at(v: &Value, key: &str) -> Result<u64, String> {
    v.get(key)
        .and_then(Value::as_u64)
        .ok_or_else(|| format!("no number at {key}"))
}

fn addr_at(v: &Value, key: &str) -> Result<Addr, String> {
    let a = v.get(key).ok_or_else(|| format!("no address at {key}"))?;
    Ok(Addr {
        ip: u32::try_from(number_at(a, "ip")?).map_err(|e| e.to_string())?,
        port: u16::try_from(number_at(a, "port")?).map_err(|e| e.to_string())?,
    })
}

fn header_of(line: &str) -> Result<Header, String> {
    let v: Value = serde_json::from_str(line).map_err(|e| e.to_string())?;
    let meta = v.get("meta").cloned().unwrap_or(Value::Null);
    Ok(Header {
        format: text_at(&v, "format")?,
        version: u32::try_from(number_at(&v, "version")?).map_err(|e| e.to_string())?,
        seed: number_at(&v, "seed")?,
        net: text_at(&v, "net")?,
        window_ns: number_at(&v, "window_ns").unwrap_or(0),
        meta: Meta {
            recorded_unix_ms: number_at(&meta, "recorded_unix_ms").ok(),
            weft_version: text_at(&meta, "weft_version").ok(),
            label: text_at(&meta, "label").ok(),
        },
    })
}

fn event_of(v: &Value) -> Result<Event, String> {
    let conn = number_at(v, "conn");
    let outcome = v.get("outcome").cloned().unwrap_or(Value::Null);
    Ok(match text_at(v, "k")?.as_str() {
        "connect" => Event::Connect { conn: conn? },
        "hello" => Event::Hello {
            conn: conn?,
            node: number_at(v, "node")? as u32,
        },
        "bind" => Event::Bind {
            conn: conn?,
            addr: addr_at(v, "addr")?,
        },
        "send" => Event::Send {
            conn: conn?,
            src: addr_at(v, "src")?,
            dst: addr_at(v, "dst")?,
            chan_seq: number_at(v, "chan_seq")?,
            send_vt: number_at(v, "send_vt").unwrap_or(0),
            payload: text_at(v, "payload")?,
            outcome: match text_at(&outcome, "kind")?.as_str() {
                "dropped" => SendOutcome::Dropped,
                "no_receiver" => SendOutcome::NoReceiver,
                "enqueued" => SendOutcome::Enqueued {
                    to_conn: number_at(&outcome, "to_conn")?,
                    deliv_ns: number_at(&outcome, "deliv_ns")?,
                    tie: number_at(&outcome, "tie")?,
                },
                other => return Err(format!("unknown outcome {other}")),
            },
        },
        "recv" => Event::Recv {
            conn: conn?,
            blocking: v.get("blocking").and_then(Value::as_bool).ok_or("blocking")?,
            outcome: match text_at(&outcome, "kind")?.as_str() {
                "empty" => RecvOutcome::Empty,
                "delivered" => RecvOutcome::Delivered {
                    src: addr_at(&outcome, "src")?,
                    dst: addr_at(&outcome, "dst")?,
                    deliv_ns: number_at(&outcome, "deliv_ns")?,
                    tie: number_at(&outcome, "tie")?,
                    payload: text_at(&outcome, "payload")?,
                },
                other => return Err(format!("unknown outcome {other}")),
            },
        },
        "disconnect" => Event::Disconnect { conn: conn? },
        "violation" => Event::Violation {
            rule: text_at(v, "invariant")?,
            message: text_at(v, "message")?,
        },
        "end" => Event::End {
            events: number_at(v, "events")?,
            sent: number_at(v, "sent")?,
            dropped: number_at(v, "dropped")?,
        },
        other => return Err(format!("unknown event {other}")),
    })
}

fn record_of(line: &str) -> Result<Record, String> {
    let v: Value = serde_json::from_str(line).map_err(|e| e.to_string())?;
    Ok(Record {
        op: number_at(&v, "op")?,
        vt: number_at(&v, "vt")?,
        e: event_of(v.get("e").ok_or("no event")?)?,
        chain: text_at(&v, "chain")?,
    })
}

fn read_log(file: &[u8]) -> Result<Log, LogError> {
    let raw = unpack(file.to_vec()).map_err(LogError::Io)?;
    let (lines, cut) = split_lines(&raw);
    let header = match lines.first() {
        Some(l) => header_of(l),
        None => Err(String::new()),
    };
    let parsed = lines.iter().skip(1).map(|l| record_of(l)).collect();
    let cut = if cut { Some("not text".to_string()) } else { None };
    Log::from_lines(&lines, cut, header, parsed)
}

fn readings(spec: &str) -> Vec<Option<u64>> {
    loss_values(spec)
        .into_iter()
        .map(|v| v.and_then(|t| t.parse::<f64>().ok()).map(f64::to_bits))
        .collect()
}

fn no_tails() -> TailTable {
    TailTable { rows: vec![] }
}

fn replay<I: Invariant>(log: &Log, rules: Vec<I>, until: Option<u64>) -> ReplayOutcome {
    replay_log(log, &readings(&log.header.net), rules, until, &no_tails()).unwrap()
}

fn no_rules() -> Vec<PerChannelFifo> {
    vec![]
}

fn addr(node: u32, port: u16) -> VAddr {
    VAddr::new(0x7f00_0001 + node, port)
}

fn both() -> Vec<BuiltIn> {
    invariant_set(&vec!["fifo".to_string(), "dup".to_string()])
}

fn raised(seed: u64, net: &str, ops: &Vec<OpInput>) -> Vec<ViolationKey> {
    execute(seed, net, &readings(net), ops, both(), &no_tails())
        .unwrap()
        .violations
        .iter()
        .map(ViolationKey::of)
        .collect()
}

#[test]
fn numbers_read_back_from_their_digits() {
    for n in [0, 7, 10, 4096, u64::MAX] {
        let digits: Vec<char> = dec_text(n).chars().collect();
        assert_eq!(read_uint(&digits, 10, u64::MAX), Some(n));
    }
}

#[test]
fn a_channel_does_not_notice_the_others() {
    let net = "latency=uniform:1000-100000,loss=0.2";
    let run = |noisy: bool| -> Vec<SendResult> {
        let mut core = Core::new(config::parse(5, net, &readings(net)).unwrap());
        core.connect(0);
        core.bind(0, addr(0, 1));
        let mut out = Vec::new();
        for i in 0..20u8 {
            if noisy {
                core.send(addr(2, 9), addr(0, 1), &[i], 0, &no_tails());
            }
            out.push(core.send(addr(1, 9), addr(0, 1), &[i], 0, &no_tails()).1);
        }
        out
    };
    let times = |v: Vec<SendResult>| -> Vec<Option<u64>> {
        v.into_iter()
            .map(|r| match r {
                SendResult::Enqueued { deliv_ns, .. } => Some(deliv_ns),
                _ => None,
            })
            .collect()
    };
    assert_eq!(times(run(false)), times(run(true)));
}

#[test]
fn no_fate_is_sooner_than_the_least_delay() {
    for net in ["latency=fixed:700", "latency=uniform:300-900", "bandwidth=1000000"] {
        let m = config::parse(3, net, &readings(net)).unwrap();
        let least = m.min_delay_ns();
        for seq in 0..50 {
            let f = m.fate(addr(0, 1), addr(1, 1), seq, 20, 0);
            assert!(!f.dropped && f.delay_ns >= least);
        }
    }
    assert_eq!(Latency::Uniform { lo: 300, hi: 900 }.min_ns(), 300);
}

#[test]
fn a_cut_goes_both_ways() {
    let p = Partition::from_groups(vec![vec![0, 1], vec![2]]);
    for a in 0..5 {
        for b in 0..5 {
            assert_eq!(p.blocked(a, b), p.blocked(b, a));
        }
    }
    assert!(p.blocked(0, 2) && p.blocked(2, 3) && !p.blocked(0, 1) && !p.blocked(3, 4));
}

#[test]
fn nothing_is_delivered_twice_and_nothing_overtakes_without_variance() {
    let ops = generate(&Workload {
        nodes: 3,
        sends: 40,
        payload_len: 4,
        workload_seed: 8,
    });
    for seed in 0..10 {
        let found = raised(seed, "latency=uniform:0-8000,loss=0.1", &ops);
        assert!(found.iter().all(|k| k.rule != "no-duplicate-delivery"));
        assert!(raised(seed, "latency=fixed:500,loss=0.1", &ops).is_empty());
        assert!(raised(seed, "", &ops).is_empty());
    }
}

#[test]
fn what_is_shrunk_is_pared_fails_and_cannot_lose_one_more() {
    let net = "latency=uniform:0-8000";
    let ops = generate(&Workload {
        nodes: 3,
        sends: 20,
        payload_len: 4,
        workload_seed: 1,
    });
    let seed = (0..100)
        .find(|s| !raised(*s, net, &ops).is_empty())
        .unwrap();
    let key = raised(seed, net, &ops).remove(0);
    let (small, stats) = shrink(
        seed,
        net,
        &readings(net),
        &ops,
        &both(),
        &key,
        &no_tails(),
    );
    assert!(!stats.budget_exhausted);
    // Operations were only left out, and payloads cut.
    let lighter = |a: &OpInput, b: &OpInput| match (a.clone(), b.clone()) {
        (
            OpInput::Send {
                conn,
                src,
                dst,
                payload,
            },
            OpInput::Send {
                conn: c,
                src: s,
                dst: d,
                payload: p,
            },
        ) => (conn, src, dst) == (c, s, d) && p.starts_with(&payload),
        (x, y) => x == y,
    };
    let mut rest = ops.iter();
    assert!(small.iter().all(|o| rest.any(|p| lighter(o, p))));
    assert!(raised(seed, net, &small).contains(&key));
    for i in 0..small.len() {
        if matches!(small[i], OpInput::Connect { .. }) {
            continue;
        }
        let mut less = small.clone();
        less.remove(i);
        assert!(!raised(seed, net, &less).contains(&key), "{i} is not needed");
    }
}

#[test]
fn idle_connections_take_no_part_in_a_failure() {
    let net = "latency=uniform:0-8000";
    let ops = generate(&Workload {
        nodes: 3,
        sends: 20,
        payload_len: 4,
        workload_seed: 1,
    });
    let mut padded = vec![OpInput::Connect { conn: 70 }];
    for o in &ops {
        padded.push(o.clone());
        padded.push(OpInput::Connect { conn: 71 });
    }
    for seed in 0..20 {
        assert_eq!(raised(seed, net, &ops), raised(seed, net, &padded));
    }
}

#[test]
fn a_replay_up_to_an_operation_is_that_of_the_log_cut_behind_it() {
    let mut w = Windowed::start();
    for conn in 0..3 {
        w.join(conn);
    }
    w.say(0, ToBroker::Bind { addr: addr(0, 1) });
    w.send(2, 20);
    w.send(1, 10);
    for conn in 0..3 {
        w.leave(conn);
    }
    let log = w.finish();
    for until in 0..log.records.len() {
        let cut = Log {
            header: log.header.clone(),
            records: log.records[..=until].to_vec(),
        };
        let a = replay(&log, vec![PerChannelFifo::new()], Some(until as u64));
        let b = replay(&cut, vec![PerChannelFifo::new()], None);
        assert_eq!(a.ops_replayed, b.ops_replayed);
        assert_eq!(a.identical, b.identical);
        assert_eq!(a.divergence.is_some(), b.divergence.is_some());
        assert_eq!(a.stream_digest, b.stream_digest);
        if a.identical {
            assert_eq!(a.ops_replayed, until as u64 + 1);
        }
    }
}

#[test]
fn a_sweep_finds_what_its_seeds_raise() {
    let mut cfg = FuzzConfig::fill(
        ConfigFields {
            comment: None,
            net: "latency=uniform:0-8000".to_string(),
            seed_start: Some(3),
            seed_count: Some(5),
            jobs: None,
            time_budget_secs: None,
            invariants: None,
            workload: None,
            out_dir: None,
            shrink: None,
            regression_seeds: None,
        },
        2,
    );
    cfg.regression_seeds = vec![90];
    let ops = generate(&cfg.workload.resolve());
    let queue = seeds(&cfg);
    assert_eq!(queue, vec![90, 3, 4, 5, 6, 7]);
    let mut sweep = Sweep::new();
    let mut failing = 0;
    for s in &queue {
        let v = try_seed(&cfg, &readings(&cfg.net), &ops, *s, &no_tails());
        failing += u64::from(!v.is_empty());
        sweep.note(*s, &v);
    }
    assert_eq!((sweep.tested, sweep.failed), (6, failing));
    for hit in sweep.findings() {
        for s in &queue {
            assert_eq!(
                hit.seeds.contains(s),
                raised(*s, &cfg.net, &ops).contains(&hit.key)
            );
        }
        assert!(hit.seeds.windows(2).all(|w| w[0] < w[1]));
    }
}

#[test]
fn whatever_is_offered_can_be_taken_and_lives_only_go_on() {
    let m = ChordModel {
        m: 6,
        idents: vec![1, 4, 22, 25, 43, 46],
        base: vec![1, 22, 43],
        fix: 2,
        schedule: Schedule::Fixed(vec![
            SchedEvent::Join(4),
            SchedEvent::Join(25),
            SchedEvent::Fail(4),
        ]),
        max_fails: 3,
    };
    let age = |s: Status| match s {
        Status::Out => 0,
        Status::Member => 1,
        Status::Dead => 2,
    };
    let mut rng = 7u64;
    for _ in 0..50 {
        let mut s = m.init_states().remove(0);
        for _ in 0..60 {
            let mut actions = Vec::new();
            m.actions(&s, &mut actions);
            let mut next = Vec::new();
            for a in &actions {
                next.push(m.next_state(&s, *a).expect("offered"));
            }
            for t in &next {
                for (x, y) in s.nodes.iter().zip(&t.nodes) {
                    assert!(age(x.status) <= age(y.status));
                }
                assert!(!m.violated_invariants(t).contains(&"AtLeastOneRing"));
            }
            if next.is_empty() {
                break;
            }
            let i = weft::abi::splitmix64(&mut rng) as usize % next.len();
            s = next.swap_remove(i);
        }
    }
}

#[test]
fn votes_that_survive_restarts_elect_one_leader_a_term() {
    let m = RaftModel {
        members: 3,
        fix: 1,
        term_bound: 3,
        schedule: RestartSchedule::Exhaustive,
        max_restarts: 4,
    };
    let mut rng = 11u64;
    for _ in 0..200 {
        let mut s = m.init_states().remove(0);
        assert!(!s.violated);
        for _ in 0..60 {
            let mut actions = Vec::new();
            m.actions(&s, &mut actions);
            if actions.is_empty() {
                break;
            }
            let a = actions[weft::abi::splitmix64(&mut rng) as usize % actions.len()];
            s = m.next_state(&s, a).expect("offered");
            assert!(!s.violated);
        }
    }
}

// ---- recorded runs of a windowed broker -----------------------------------

const NET: &str = "latency=fixed:100";

struct Windowed {
    broker: BrokerState,
    recorder: Recorder<PerChannelFifo>,
}

impl Windowed {
    fn start() -> Self {
        let header = Header {
            format: FORMAT.into(),
            version: VERSION,
            seed: 7,
            net: NET.into(),
            window_ns: 100,
            meta: Meta::default(),
        };
        Windowed {
            broker: BrokerState::new(config::parse(7, NET, &readings(NET)).unwrap(), 100),
            recorder: Recorder::create(&header, vec![PerChannelFifo::new()]),
        }
    }

    fn see(&mut self, events: Vec<(u64, Observed)>) {
        for (vt, e) in &events {
            self.recorder.observe(*vt, e);
        }
    }

    fn join(&mut self, conn: u64) {
        let events = self.broker.connect(conn);
        self.see(events);
        self.say(
            conn,
            ToBroker::Hello {
                node_id: conn as u32,
                host_id: 0,
            },
        );
    }

    fn say(&mut self, conn: u64, m: ToBroker) {
        let s = self.broker.handle(conn, m, &no_tails());
        self.see(s.events);
    }

    fn send(&mut self, conn: u64, local_vt: u64) {
        self.say(
            conn,
            ToBroker::Send {
                src: addr(conn as u32, 1),
                dst: addr(0, 1),
                payload: vec![local_vt as u8],
                local_vt,
            },
        );
    }

    fn ask(&mut self, conn: u64, blocking: bool, local_vt: u64) {
        self.say(
            conn,
            ToBroker::Recv {
                addr: addr(0, 1),
                blocking,
                local_vt,
            },
        );
    }

    fn leave(&mut self, conn: u64) {
        self.say(conn, ToBroker::Goodbye);
        let events = self.broker.disconnect(conn, &no_tails());
        self.see(events);
    }

    fn finish(self) -> Log {
        let (text, _) = self.recorder.finish();
        read_log(text.as_bytes()).unwrap()
    }
}

#[test]
fn a_windowed_run_replays_where_its_recording_tells_all() {
    let mut w = Windowed::start();
    for conn in 0..3 {
        w.join(conn);
    }
    w.say(0, ToBroker::Bind { addr: addr(0, 1) });
    w.ask(0, true, 0);
    w.send(2, 20);
    w.send(1, 10);
    w.leave(1);
    w.leave(2);
    w.ask(0, true, 0);
    w.ask(0, true, 0);
    w.leave(0);
    let log = w.finish();
    let sends: Vec<&Event> = log
        .records
        .iter()
        .map(|r| &r.e)
        .filter(|e| matches!(e, Event::Send { .. }))
        .collect();
    assert_eq!(sends.len(), 2);
    let out = replay(&log, vec![PerChannelFifo::new()], None);
    assert!(out.identical, "{:?}", out.divergence);
    assert_eq!(out.stream_digest, log.stream_digest());
}

#[test]
fn a_receive_before_the_time_of_what_waits_is_not_told() {
    let mut w = Windowed::start();
    for conn in 0..2 {
        w.join(conn);
    }
    w.say(0, ToBroker::Bind { addr: addr(0, 1) });
    w.send(1, 10);
    w.leave(1);
    // Delivered at 110: at 105 it has not come, although it was sealed.
    w.say(0, ToBroker::Frontier { local_vt: 105 });
    w.ask(0, false, 105);
    let log = w.finish();
    assert!(log.records.iter().any(|r| matches!(
        r.e,
        Event::Recv {
            outcome: RecvOutcome::Empty,
            ..
        }
    )));
    assert!(!replay(&log, no_rules(), None).identical);
}

#[test]
fn sends_for_a_connection_that_ends_are_not_told() {
    let mut w = Windowed::start();
    for conn in 0..2 {
        w.join(conn);
    }
    w.say(0, ToBroker::Bind { addr: addr(0, 1) });
    w.send(1, 10);
    w.leave(1);
    w.leave(0);
    let log = w.finish();
    assert!(log.records.iter().any(|r| matches!(
        r.e,
        Event::Send {
            outcome: SendOutcome::NoReceiver,
            ..
        }
    )));
    assert!(!replay(&log, no_rules(), None).identical);
}

/// Three connections send; `order` says whose call comes next.
fn sealed_in_order(order: &[u64]) -> (Vec<SeqSend>, u64) {
    let mut s = WindowSequencer::new(100);
    let mut at = [0u64; 3];
    for &c in order {
        if at[c as usize] == 0 {
            s.register(c, 0, c as u32);
        } else {
            let vt = 40 * at[c as usize];
            s.admit_send(c, vt, addr(c as u32, 1), addr(0, 1), vec![c as u8])
                .unwrap();
        }
        at[c as usize] += 1;
    }
    let out = s.seal();
    (out, s.horizon())
}

#[test]
fn any_two_interleavings_seal_alike() {
    let first: Vec<u64> = [vec![0; 6], vec![1; 6], vec![2; 6]].concat();
    let expected = sealed_in_order(&first);
    assert_eq!(expected.1, 200);
    assert_eq!(expected.0.len(), 12);
    let mut rng = 3u64;
    for _ in 0..30 {
        let mut left = [6usize; 3];
        let mut order = Vec::new();
        while order.len() < 18 {
            let c = weft::abi::splitmix64(&mut rng) as usize % 3;
            if left[c] > 0 {
                left[c] -= 1;
                order.push(c as u64);
            }
        }
        assert_eq!(sealed_in_order(&order), expected);
    }
}

#[test]
fn payloads_take_no_part_in_a_failure_without_bandwidth() {
    let net = "latency=uniform:0-8000";
    let ops = generate(&Workload {
        nodes: 3,
        sends: 20,
        payload_len: 40,
        workload_seed: 1,
    });
    let short: Vec<OpInput> = ops
        .iter()
        .map(|o| match o.clone() {
            OpInput::Send { conn, src, dst, payload } => OpInput::Send {
                conn,
                src,
                dst,
                payload: payload[..1].to_vec(),
            },
            other => other,
        })
        .collect();
    assert_ne!(ops, short);
    for seed in 0..20 {
        assert_eq!(raised(seed, net, &ops), raised(seed, net, &short));
    }
}

#[test]
fn sends_are_numbered_by_channel_and_by_schedule() {
    let net = "loss=0.3";
    let mut core = Core::new(config::parse(5, net, &readings(net)).unwrap());
    core.connect(0);
    core.connect(1);
    core.bind(0, addr(0, 1));
    core.bind(1, addr(0, 1));
    let (mut here, mut there, mut scheduled) = (0, 0, 0);
    for i in 0..40u8 {
        let (dst, count) = if i % 3 == 0 {
            (addr(2, 1), &mut there)
        } else {
            (addr(0, 1), &mut here)
        };
        let (seq, r) = core.send(addr(1, 9), dst, &[i], 7, &no_tails());
        assert_eq!(seq, *count);
        *count += 1;
        if let SendResult::Enqueued { to_conn, deliv_ns, tie } = r {
            assert_eq!((to_conn, deliv_ns, tie), (1, 7, scheduled));
            scheduled += 1;
        }
    }
    assert!(scheduled > 0 && scheduled < here);
}

#[test]
fn a_verdict_sums_up_its_reports() {
    let report = |node: i32, term: i32, alive: bool, role: i32| RaftReport {
        node,
        date: 0,
        alive,
        term,
        role,
        voted_for: -1,
    };
    let mut v = Verdict::default();
    for (op, r) in [
        (3, report(1, 1, true, 2)),
        (4, report(1, 1, false, 2)),
        (5, report(2, 2, true, 2)),
        (6, report(1, 1, true, 2)),
        (7, report(3, 1, true, 1)),
        (8, report(3, 1, true, 2)),
        (9, report(2, 1, true, 2)),
    ] {
        v.observe(op, r);
    }
    assert_eq!((v.reports, v.restarts), (7, 1));
    assert_eq!(v.leaders_by_term[&1], vec![1, 3, 2]);
    assert_eq!(v.leaders_by_term[&2], vec![2]);
    assert_eq!(v.violations.len(), 1);
    assert_eq!(v.violations[0].term, 1);
    assert_eq!(v.violations[0].leaders, vec![1, 3]);
    assert_eq!(v.violations[0].at_op, 8);
}

#[test]
fn the_newest_report_counts_and_the_dead_stay_dead() {
    let report = |ident: i32, date: i32, alive: bool, succ: i32| NodeState {
        ident,
        date,
        alive,
        succ,
        succ2: -1,
        prdc: -1,
    };
    let mut s = Snapshot::default();
    for r in [
        report(4, 5, true, 1),
        report(9, 1, true, 4),
        report(4, 7, true, 2),
        report(4, 6, true, 3),
        report(4, 7, true, 8),
        report(9, 3, false, 4),
        report(9, 8, true, 4),
    ] {
        s.observe(r);
    }
    assert_eq!(s.live(), vec![report(4, 7, true, 8)]);
}

#[test]
fn the_model_and_a_snapshot_of_it_violate_the_same() {
    let m = ChordModel {
        m: 6,
        idents: vec![1, 4, 22, 25, 43, 46],
        base: vec![1, 22, 43],
        fix: 0,
        schedule: Schedule::Exhaustive,
        max_fails: 3,
    };
    let mut rng = 5u64;
    let mut broken = 0;
    for _ in 0..300 {
        let mut s = m.init_states().remove(0);
        for _ in 0..40 {
            let mut snap = Snapshot::default();
            for (ident, n) in m.idents.iter().zip(&s.nodes) {
                if n.status != Status::Out {
                    snap.observe(NodeState {
                        ident: i32::from(*ident),
                        date: 0,
                        alive: n.status == Status::Member,
                        succ: i32::from(n.succ),
                        succ2: i32::from(n.succ2),
                        prdc: i32::from(n.prdc),
                    });
                }
            }
            let mut seen: Vec<&str> = snap.check(m.m).iter().map(|v| v.kind.name()).collect();
            seen.sort_unstable();
            seen.dedup();
            let mut named = m.violated_invariants(&s);
            named.sort_unstable();
            assert_eq!(seen, named);
            assert_eq!(m.invariants_hold(&s), named.is_empty());
            broken += usize::from(!named.is_empty());
            let mut actions = Vec::new();
            m.actions(&s, &mut actions);
            if actions.is_empty() {
                break;
            }
            let a = actions[weft::abi::splitmix64(&mut rng) as usize % actions.len()];
            s = m.next_state(&s, a).expect("offered");
        }
    }
    assert!(broken > 0);
}

#[test]
fn a_divergence_is_the_first_and_its_texts_differ() {
    let mut w = Windowed::start();
    for conn in 0..3 {
        w.join(conn);
    }
    w.say(0, ToBroker::Bind { addr: addr(0, 1) });
    for conn in 0..3 {
        w.leave(conn);
    }
    let mut log = w.finish();
    let at = log.records.len() - 2;
    log.records[at].vt += 1;
    let out = replay(&log, no_rules(), None);
    let d = out.divergence.expect("the time was changed");
    assert_eq!(d.op, at as u64);
    assert_eq!(out.ops_replayed, d.op + 1);
    assert_ne!(d.recorded, d.replayed);
    for until in 0..d.op {
        let short = replay(&log, no_rules(), Some(until));
        assert!(short.identical && short.divergence.is_none());
        assert_eq!(short.ops_replayed, until + 1);
    }
}

#[test]
fn a_run_does_not_depend_on_its_workers_or_its_directory() {
    let fields = |jobs: usize, out: &str| ConfigFields {
        comment: None,
        net: "latency=uniform:0-8000".to_string(),
        seed_start: Some(3),
        seed_count: Some(12),
        jobs: Some(jobs),
        time_budget_secs: None,
        invariants: None,
        workload: None,
        out_dir: Some(out.to_string()),
        shrink: None,
        regression_seeds: None,
    };
    let clock = || 0u64;
    let run = |jobs: usize, out: &str| {
        let cfg = FuzzConfig::fill(fields(jobs, out), 2);
        run_fuzz(&cfg, &readings(&cfg.net), &clock, &no_tails())
    };
    let (a, logs) = run(1, "here");
    let (b, again) = run(8, "there");
    assert!(!a.violations.is_empty());
    assert_eq!(a, b);
    assert_eq!(logs, again);
    for f in &a.violations {
        assert!(f.seeds_hit.windows(2).all(|w| w[0] < w[1]));
        assert_eq!(f.seed, f.seeds_hit[0]);
    }
}
