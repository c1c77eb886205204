//! Workloads, executions, shrinking and whole fuzz runs.

use serde_json::Value;

use weft::abi::splitmix64;
use weft::bytes::{split_lines, unpack};
use weft::config::{self, loss_values};
use weft::fault::TailTable;
use weft::fuzz::{next_seed, run_fuzz, sanitize, seeds, time_is_up, FuzzReport, Repro, Sweep};
use weft::fuzz_config::{ConfigFields, FuzzConfig, WorkloadFields};
use weft::input::{execute, execute_and_record, OpInput};
use weft::log::{
    Addr, Event, Header, Log, LogError, Meta, Record, RecvOutcome, SendOutcome,
};
use weft::monitor::{
    BuiltIn, FnInvariant, Invariant, NoDuplicateDelivery, PerChannelFifo, StatefulInvariant,
    ViolationRecord,
};
use weft::replay::{replay_log, ReplayOutcome};
use weft::shrink::{shrink, ViolationKey};
use weft::wire::VAddr;
use weft::workload::{generate, node_addr, Workload};

// ---- reading a log --------------------------------------------------------

fn text_at(v: &Value, key: &str) -> Result<String, String> {
    v.get(key)
        .and_then(Value::as_str)
        .map(str::to_string)
        .ok_or_else(|| format!("no text at {key}"))
}

fn number_at(v: &Value, key: &str) -> Result<u64, String> {
    v.get(key)
        .and_then(Value::as_u64)
        .ok_or_else(|| format!("no number at {key}"))
}

fn addr_at(v: &Value, key: &str) -> Result<Addr, String> {
    let a = v.get(key).ok_or_else(|| format!("no address at {key}"))?;
    Ok(Addr {
        ip: u32::try_from(number_at(a, "ip")?).map_err(|e| e.to_string())?,
        port: u16::try_from(number_at(a, "port")?).map_err(|e| e.to_string())?,
    })
}

fn header_of(line: &str) -> Result<Header, String> {
    let v: Value = serde_json::from_str(line).map_err(|e| e.to_string())?;
    let meta = v.get("meta").cloned().unwrap_or(Value::Null);
    Ok(Header {
        format: text_at(&v, "format")?,
        version: u32::try_from(number_at(&v, "version")?).map_err(|e| e.to_string())?,
        seed: number_at(&v, "seed")?,
        net: text_at(&v, "net")?,
        window_ns: number_at(&v, "window_ns").unwrap_or(0),
        meta: Meta {
            recorded_unix_ms: number_at(&meta, "recorded_unix_ms").ok(),
            weft_version: text_at(&meta, "weft_version").ok(),
            label: text_at(&meta, "label").ok(),
        },
    })
}

fn event_of(v: &Value) -> Result<Event, String> {
    let conn = number_at(v, "conn");
    let outcome = v.get("outcome").cloned().unwrap_or(Value::Null);
    Ok(match text_at(v, "k")?.as_str() {
        "connect" => Event::Connect { conn: conn? },
        "hello" => Event::Hello {
            conn: conn?,
            node: number_at(v, "node")? as u32,
        },
        "bind" => Event::Bind {
            conn: conn?,
            addr: addr_at(v, "addr")?,
        },
        "send" => Event::Send {
            conn: conn?,
            src: addr_at(v, "src")?,
            dst: addr_at(v, "dst")?,
            chan_seq: number_at(v, "chan_seq")?,
            send_vt: number_at(v, "send_vt").unwrap_or(0),
            payload: text_at(v, "payload")?,
            outcome: match text_at(&outcome, "kind")?.as_str() {
                "dropped" => SendOutcome::Dropped,
                "no_receiver" => SendOutcome::NoReceiver,
                "enqueued" => SendOutcome::Enqueued {
                    to_conn: number_at(&outcome, "to_conn")?,
                    deliv_ns: number_at(&outcome, "deliv_ns")?,
                    tie: number_at(&outcome, "tie")?,
                },
                other => return Err(format!("unknown outcome {other}")),
            },
        },
        "recv" => Event::Recv {
            conn: conn?,
            blocking: v.get("blocking").and_then(Value::as_bool).ok_or("blocking")?,
            outcome: match text_at(&outcome, "kind")?.as_str() {
                "empty" => RecvOutcome::Empty,
                "delivered" => RecvOutcome::Delivered {
                    src: addr_at(&outcome, "src")?,
                    dst: addr_at(&outcome, "dst")?,
                    deliv_ns: number_at(&outcome, "deliv_ns")?,
                    tie: number_at(&outcome, "tie")?,
                    payload: text_at(&outcome, "payload")?,
                },
                other => return Err(format!("unknown outcome {other}")),
            },
        },
        "disconnect" => Event::Disconnect { conn: conn? },
        "violation" => Event::Violation {
            rule: text_at(v, "invariant")?,
            message: text_at(v, "message")?,
        },
        "end" => Event::End {
            events: number_at(v, "events")?,
            sent: number_at(v, "sent")?,
            dropped: number_at(v, "dropped")?,
        },
        other => return Err(format!("unknown event {other}")),
    })
}

fn record_of(line: &str) -> Result<Record, String> {
    let v: Value = serde_json::from_str(line).map_err(|e| e.to_string())?;
    Ok(Record {
        op: number_at(&v, "op")?,
        vt: number_at(&v, "vt")?,
        e: event_of(v.get("e").ok_or("no event")?)?,
        chain: text_at(&v, "chain")?,
    })
}

fn read_log(file: &[u8]) -> Result<Log, LogError> {
    let raw = unpack(file.to_vec()).map_err(LogError::Io)?;
    let (lines, cut) = split_lines(&raw);
    let header = match lines.first() {
        Some(l) => header_of(l),
        None => Err(String::new()),
    };
    let parsed = lines.iter().skip(1).map(|l| record_of(l)).collect();
    let cut = if cut { Some("not text".to_string()) } else { None };
    Log::from_lines(&lines, cut, header, parsed)
}

fn readings(spec: &str) -> Vec<Option<u64>> {
    loss_values(spec)
        .into_iter()
        .map(|v| v.and_then(|t| t.parse::<f64>().ok()).map(f64::to_bits))
        .collect()
}

fn no_tails() -> TailTable {
    TailTable { rows: vec![] }
}

fn replay<I: Invariant>(log: &Log, rules: Vec<I>, until: Option<u64>) -> ReplayOutcome {
    replay_log(log, &readings(&log.header.net), rules, until, &no_tails()).unwrap()
}

fn no_rules() -> Vec<PerChannelFifo> {
    vec![]
}

fn addr(node: u32, port: u16) -> VAddr {
    VAddr::new(0x7f00_0001 + node, port)
}

// ---- workloads ------------------------------------------------------------

#[test]
fn generation_is_deterministic_and_seed_sensitive() {
    let w = Workload::default();
    assert_eq!(generate(&w), generate(&w));
    let other = Workload {
        workload_seed: 1,
        ..w
    };
    assert_ne!(generate(&w), generate(&other));
}

#[test]
fn every_node_connects_and_binds() {
    let w = Workload {
        nodes: 3,
        ..Workload::default()
    };
    let ops = generate(&w);
    for n in 0..3u64 {
        assert!(ops.contains(&OpInput::Connect { conn: n }));
    }
    for n in 0..3u32 {
        assert!(ops.contains(&OpInput::Bind {
            conn: u64::from(n),
            addr: node_addr(n)
        }));
    }
    // Every node drains as often as anything was sent, at the end.
    let tail = &ops[ops.len() - 72..];
    assert!(tail.iter().all(|o| matches!(o, OpInput::Recv { .. })));
    let sends = ops.iter().filter(|o| matches!(o, OpInput::Send { .. }));
    assert_eq!(sends.count(), 24);
}

// ---- executions -----------------------------------------------------------

fn burst_ops(n: u32) -> Vec<OpInput> {
    let mut ops = vec![
        OpInput::Connect { conn: 0 },
        OpInput::Bind {
            conn: 0,
            addr: addr(0, 100),
        },
    ];
    for i in 0..n {
        ops.push(OpInput::Send {
            conn: 1,
            src: addr(1, 200),
            dst: addr(0, 100),
            payload: i.to_le_bytes().to_vec(),
        });
    }
    for _ in 0..n {
        ops.push(OpInput::Recv {
            conn: 0,
            blocking: false,
        });
    }
    ops
}

#[test]
fn execute_is_deterministic() {
    let ops = burst_ops(20);
    let net = "latency=uniform:1000-100000";
    let run = || {
        let out = execute(
            3,
            net,
            &readings(net),
            &ops,
            vec![PerChannelFifo::new()],
            &no_tails(),
        )
        .unwrap();
        (out.events, out.violations, out.stats, out.final_vt)
    };
    let a = run();
    assert_eq!(a, run());
    assert!(!a.1.is_empty(), "burst under variance must reorder");
}

#[test]
fn recorded_execution_replays_and_round_trips_inputs() {
    let ops = burst_ops(12);
    let net = "latency=uniform:1000-100000";
    let (text, _) =
        execute_and_record(3, net, &readings(net), &ops, no_rules(), "t", &no_tails()).unwrap();
    let log = read_log(text.as_bytes()).unwrap();
    let replayed = replay(&log, no_rules(), None);
    assert!(replayed.identical, "{:?}", replayed.divergence);
    // Inputs extracted from the recorded log equal the inputs we ran.
    assert_eq!(OpInput::from_log(&log), ops);
    assert_eq!(log.header.meta.label.as_deref(), Some("t"));
}

#[test]
fn an_execution_under_bad_conditions_says_why() {
    let run = |net: &str| {
        execute(1, net, &readings(net), &burst_ops(1), no_rules(), &no_tails())
            .err()
            .unwrap()
    };
    assert_eq!(run("x"), "network clause \"x\" is not key=value");
}

// ---- shrinking: known minima ----------------------------------------------

const SEED: u64 = 11;
const NET: &str = "latency=uniform:1000-100000";

/// Find a source port whose channel to `dst` inverts its first two datagrams'
/// delivery order under (SEED, NET): delay(seq 0) > delay(seq 1).
fn inverted_channel(dst: VAddr, src_node: u32) -> VAddr {
    let model = config::parse(SEED, NET, &readings(NET)).unwrap();
    for port in 1000..u16::MAX {
        let src = addr(src_node, port);
        let f0 = model.fate(src, dst, 0, 1, 0);
        let f1 = model.fate(src, dst, 1, 1, 0);
        if !f0.dropped && !f1.dropped && f0.delay_ns > f1.delay_ns {
            return src;
        }
    }
    panic!("no inverted channel found (statistically impossible)");
}

/// Deterministic noise: `count` ops across `noise_conns` connections, each
/// bound to its own port, sending only among themselves.
fn noise_ops(count: usize, noise_conns: u64, mut rng: u64) -> Vec<OpInput> {
    let mut ops = Vec::new();
    let base_conn = 100u64; // far from trigger conns
    for c in 0..noise_conns {
        let conn = base_conn + c;
        let port = 20_000 + (c as u16) * 7;
        ops.push(OpInput::Connect { conn });
        ops.push(OpInput::Bind {
            conn,
            addr: addr(3, port),
        });
    }
    while ops.len() < count {
        let c = splitmix64(&mut rng) % noise_conns;
        let conn = base_conn + c;
        let port = 20_000 + (c as u16) * 7;
        if splitmix64(&mut rng) % 3 == 0 {
            ops.push(OpInput::Recv {
                conn,
                blocking: false,
            });
        } else {
            let payload = splitmix64(&mut rng).to_le_bytes().to_vec();
            ops.push(OpInput::Send {
                conn,
                src: addr(4, 500 + (splitmix64(&mut rng) % 90) as u16),
                dst: addr(3, port),
                payload,
            });
        }
    }
    ops
}

/// Bury `trigger` inside `noise`, preserving the trigger's relative order.
fn bury(trigger: &[OpInput], noise: Vec<OpInput>) -> Vec<OpInput> {
    let mut out = Vec::with_capacity(trigger.len() + noise.len());
    let stride = noise.len() / (trigger.len() + 1);
    let mut noise_iter = noise.into_iter();
    for t in trigger {
        for _ in 0..stride {
            if let Some(n) = noise_iter.next() {
                out.push(n);
            }
        }
        out.push(t.clone());
    }
    out.extend(noise_iter);
    out
}

fn key_for<I: Invariant>(
    seed: u64,
    net: &str,
    ops: &Vec<OpInput>,
    rules: Vec<I>,
    name: &str,
    subject_contains: &str,
) -> ViolationKey {
    let out = execute(seed, net, &readings(net), ops, rules, &no_tails()).unwrap();
    out.violations
        .iter()
        .map(ViolationKey::of)
        .find(|k| k.rule == name && k.subject.contains(subject_contains))
        .expect("constructed trigger must fire")
}

/// FIFO reorder: the known minimum is exactly
/// `[Connect, Bind, Send(seq0), Send(seq1), Recv, Recv]`.
#[test]
fn case_a_fifo_pair_buried_in_300_noise_ops() {
    let dst = addr(0, 100);
    let src = inverted_channel(dst, 1);
    let trigger = vec![
        OpInput::Connect { conn: 0 },
        OpInput::Bind { conn: 0, addr: dst },
        OpInput::Send {
            conn: 1,
            src,
            dst,
            payload: vec![0xa0],
        },
        OpInput::Send {
            conn: 1,
            src,
            dst,
            payload: vec![0xa1],
        },
        OpInput::Recv {
            conn: 0,
            blocking: false,
        },
        OpInput::Recv {
            conn: 0,
            blocking: false,
        },
    ];
    let buried = bury(&trigger, noise_ops(300, 4, 7));
    assert!(buried.len() > 300);

    let rules = || vec![PerChannelFifo::new()];
    let target = key_for(
        SEED,
        NET,
        &buried,
        rules(),
        "per-channel-fifo",
        &src.text(),
    );

    let (min_ops, stats) = shrink(
        SEED,
        NET,
        &readings(NET),
        &buried,
        &rules(),
        &target,
        &no_tails(),
    );
    assert_eq!(min_ops, trigger, "must converge to the exact known minimum");
    assert_eq!(stats.ops_after, 6);
    assert!(
        !stats.budget_exhausted,
        "took {} executions",
        stats.executions
    );

    // The reproducer must record to a log that replays clean and still fails.
    let (text, violations) = execute_and_record(
        SEED,
        NET,
        &readings(NET),
        &min_ops,
        rules(),
        "ground-truth-a",
        &no_tails(),
    )
    .unwrap();
    assert!(violations.iter().any(|v| ViolationKey::of(v) == target));
    let log = read_log(text.as_bytes()).unwrap();
    let out = replay(&log, rules(), None);
    assert!(out.identical);
}

/// A rule with no state of its own.
fn no_poison(_op: u64, _vt: u64, e: &Event) -> Option<String> {
    if let Event::Recv {
        outcome: RecvOutcome::Delivered { payload, .. },
        ..
    } = e
    {
        if payload == "dd" {
            return Some("poison byte 0xdd was delivered".into());
        }
    }
    None
}

/// Poison payload: a single delivery chain. The known minimum is exactly
/// `[Connect, Bind, Send(0xdd), Recv]`.
#[test]
fn case_b_poison_payload_buried_in_400_noise_ops() {
    let dst = addr(0, 130);
    let src = addr(1, 4242);
    let trigger = vec![
        OpInput::Connect { conn: 9 },
        OpInput::Bind { conn: 9, addr: dst },
        OpInput::Send {
            conn: 8,
            src,
            dst,
            payload: vec![0xdd],
        },
        OpInput::Recv {
            conn: 9,
            blocking: false,
        },
    ];
    let buried = bury(&trigger, noise_ops(400, 5, 21));

    let poison = || vec![FnInvariant::new("no-poison-delivery", no_poison)];
    let target = key_for(SEED, NET, &buried, poison(), "no-poison-delivery", "");
    assert_eq!(target.rule, "no-poison-delivery");
    let (min_ops, stats) = shrink(
        SEED,
        NET,
        &readings(NET),
        &buried,
        &poison(),
        &target,
        &no_tails(),
    );
    assert_eq!(min_ops, trigger, "must converge to the exact known minimum");
    assert!(!stats.budget_exhausted);
    assert!(stats.executions < 4000);
}

/// Whether A was enqueued, and whether it was delivered.
type Flight = (bool, bool);

fn overtaken(s: Flight, _op: u64, _vt: u64, e: &Event) -> (Flight, Option<String>) {
    let (mut a_sent, mut a_delivered) = s;
    match e {
        Event::Send {
            payload,
            outcome: SendOutcome::Enqueued { .. },
            ..
        } if payload == "aa" => {
            a_sent = true;
        }
        Event::Recv {
            outcome: RecvOutcome::Delivered { payload, .. },
            ..
        } => {
            if payload == "aa" {
                a_delivered = true;
            } else if payload == "bb" && a_sent && !a_delivered {
                return (
                    s,
                    Some("B delivered while A (sent earlier) still in flight".into()),
                );
            }
        }
        _ => {}
    }
    ((a_sent, a_delivered), None)
}

/// Two-fault combination: B overtakes A. Both sends are load-bearing, and the
/// known minimum is exactly `[Connect, Bind, Send(A), Send(B), Recv]`.
#[test]
fn case_c_two_fault_combination_buried_in_350_noise_ops() {
    let dst = addr(0, 160);
    let src = inverted_channel(dst, 2); // seq0 (A) slower than seq1 (B)
    let trigger = vec![
        OpInput::Connect { conn: 3 },
        OpInput::Bind { conn: 3, addr: dst },
        OpInput::Send {
            conn: 4,
            src,
            dst,
            payload: vec![0xaa],
        },
        OpInput::Send {
            conn: 4,
            src,
            dst,
            payload: vec![0xbb],
        },
        OpInput::Recv {
            conn: 3,
            blocking: false,
        },
    ];
    let buried = bury(&trigger, noise_ops(350, 4, 33));

    let overtake = || {
        vec![StatefulInvariant::new(
            "b-overtakes-a",
            (false, false),
            overtaken,
        )]
    };
    let target = key_for(SEED, NET, &buried, overtake(), "b-overtakes-a", "");
    let (min_ops, stats) = shrink(
        SEED,
        NET,
        &readings(NET),
        &buried,
        &overtake(),
        &target,
        &no_tails(),
    );
    assert_eq!(min_ops, trigger, "must converge to the exact known minimum");
    assert!(!stats.budget_exhausted);

    // The minimum keeps both faults visible: the send that was overtaken and
    // the send that overtook it.
    let sends: Vec<_> = min_ops
        .iter()
        .filter(|o| matches!(o, OpInput::Send { .. }))
        .collect();
    assert_eq!(
        sends.len(),
        2,
        "a 'minimal' repro without both sends lost the story"
    );
}

// ---- configurations -------------------------------------------------------

const KNOWN: [&str; 11] = [
    "//",
    "net",
    "seed_start",
    "seed_count",
    "jobs",
    "time_budget_secs",
    "invariants",
    "workload",
    "out_dir",
    "shrink",
    "regression_seeds",
];

fn texts(v: &Value) -> Vec<String> {
    v.as_array()
        .unwrap()
        .iter()
        .map(|x| x.as_str().unwrap().to_string())
        .collect()
}

fn from_json(json: &str) -> Result<FuzzConfig, String> {
    let v: Value = serde_json::from_str(json).map_err(|e| e.to_string())?;
    for key in v.as_object().unwrap().keys() {
        if !KNOWN.contains(&key.as_str()) {
            return Err(format!("unknown field {key}"));
        }
    }
    let n = |key: &str| v.get(key).and_then(Value::as_u64);
    let cfg = FuzzConfig::fill(
        ConfigFields {
            comment: text_at(&v, "//").ok(),
            net: text_at(&v, "net")?,
            seed_start: n("seed_start"),
            seed_count: n("seed_count"),
            jobs: n("jobs").map(|x| x as usize),
            time_budget_secs: n("time_budget_secs"),
            invariants: v.get("invariants").map(texts),
            workload: v.get("workload").map(|w| WorkloadFields {
                nodes: number_at(w, "nodes").ok().map(|x| x as u32),
                sends: number_at(w, "sends").ok().map(|x| x as u32),
                payload_len: number_at(w, "payload_len").ok().map(|x| x as usize),
                workload_seed: number_at(w, "workload_seed").ok(),
            }),
            out_dir: text_at(&v, "out_dir").ok(),
            shrink: v.get("shrink").and_then(Value::as_bool),
            regression_seeds: None,
        },
        4,
    );
    cfg.validate(&readings(&cfg.net))?;
    Ok(cfg)
}

#[test]
fn minimal_config_gets_defaults() {
    let cfg = from_json(r#"{"net":"latency=uniform:0-5000"}"#).unwrap();
    assert_eq!(cfg.seed_count, 1000);
    assert_eq!(cfg.invariants, vec!["fifo", "dup"]);
    assert!(cfg.shrink);
    assert_eq!(cfg.workload.nodes, 2);
}

#[test]
fn bad_fields_are_named() {
    assert!(from_json(r#"{"net":"latency=bogus"}"#)
        .unwrap_err()
        .contains("net"));
    assert!(from_json(r#"{"net":"","invariants":["nope"]}"#)
        .unwrap_err()
        .contains("nope"));
    // Typos are rejected, not ignored.
    assert!(from_json(r#"{"net":"","seedcount":5}"#)
        .unwrap_err()
        .contains("seedcount"));
}

#[test]
fn every_unusable_description_is_named() {
    let says = |j: &str| from_json(j).unwrap_err();
    assert_eq!(
        says(r#"{"net":"","seed_count":0}"#),
        "config: seed_count must be at least 1"
    );
    assert_eq!(
        says(r#"{"net":"","jobs":0}"#),
        "config: jobs must be at least 1"
    );
    assert_eq!(
        says(r#"{"net":"","invariants":[]}"#),
        "config: at least one invariant is required (fifo, dup)"
    );
    assert_eq!(
        says(r#"{"net":"","invariants":["fifo","n\"o"]}"#),
        "config: unknown invariant \"n\\\"o\" (known: fifo, dup)"
    );
    assert_eq!(
        says(r#"{"net":"","workload":{"nodes":1}}"#),
        "config: workload.nodes must be at least 2"
    );
}

// ---- whole runs -----------------------------------------------------------

fn config() -> FuzzConfig {
    from_json(
        r#"{
            "net": "latency=uniform:0-8000,loss=0.02",
            "seed_start": 0,
            "seed_count": 60,
            "jobs": 4,
            "invariants": ["fifo", "dup"],
            "workload": { "nodes": 3, "sends": 30, "payload_len": 4 }
        }"#,
    )
    .unwrap()
}

fn run(cfg: &FuzzConfig) -> (FuzzReport, Vec<Repro>) {
    let started = std::time::Instant::now();
    let clock = move || started.elapsed().as_secs();
    run_fuzz(cfg, &readings(&cfg.net), &clock, &no_tails())
}

#[test]
fn full_loop_finds_shrinks_and_reproduces() {
    let cfg = config();
    let (mut report, repros) = run(&cfg);

    assert_eq!(report.seeds_tested, 60);
    assert!(
        !report.violations.is_empty(),
        "a 30-send burst under uniform 0-8000ns latency must reorder somewhere"
    );
    assert!(report.seeds_failed > 0);
    assert_eq!(repros.len(), report.violations.len());

    for (f, repro) in report.violations.iter().zip(&repros) {
        // Every distinct violation carries a shrunk reproducer.
        let stats = f.shrink.expect("shrinking was enabled");
        assert!(
            stats.ops_after < stats.ops_before,
            "{}: no reduction ({} ops)",
            f.key.text(),
            stats.ops_after
        );
        // Its log replays byte-identically and still fails the same way.
        assert!(repro.file.ends_with(".weftlog"));
        let log = read_log(repro.log.as_bytes()).unwrap();
        let out = replay(
            &log,
            vec![
                BuiltIn::Fifo(PerChannelFifo::new()),
                BuiltIn::Dup(NoDuplicateDelivery::new()),
            ],
            None,
        );
        assert!(out.identical, "{}: {:?}", f.key.text(), out.divergence);
        assert!(
            out.violations.iter().any(|v| ViolationKey::of(v) == f.key),
            "{}: reproducer lost its violation",
            f.key.text()
        );
        // The reproducer is drastically smaller but keeps the full story.
        assert!(
            stats.ops_after >= 4,
            "cannot violate FIFO with fewer than 2 sends + 2 recvs"
        );
    }

    // The report names everything a human needs, once the logs are written.
    for (f, repro) in report.violations.iter_mut().zip(&repros) {
        f.log_path = Some(format!("{}/{}", cfg.out_dir, repro.file));
    }
    let text = report.render(&cfg, "0.1");
    assert!(text.contains("distinct violation"));
    assert!(text.contains("weft replay"));
    assert!(text.contains("shrunk"));
    assert!(!report.regression_seeds().is_empty());
}

#[test]
fn fuzz_results_are_deterministic_across_runs() {
    let (r1, _) = run(&config());
    let (r2, _) = run(&config());

    let keys1: Vec<String> = r1.violations.iter().map(|f| f.key.text()).collect();
    let keys2: Vec<String> = r2.violations.iter().map(|f| f.key.text()).collect();
    assert_eq!(
        keys1, keys2,
        "distinct violations must not depend on thread timing"
    );
    for (a, b) in r1.violations.iter().zip(&r2.violations) {
        assert_eq!(a.seed, b.seed, "representative seed must be stable");
        assert_eq!(a.seeds_hit, b.seeds_hit);
        assert_eq!(
            a.shrink.unwrap().ops_after,
            b.shrink.unwrap().ops_after,
            "shrunk size must be stable"
        );
    }
}

#[test]
fn regression_seeds_are_checked_even_under_zero_budget_pressure() {
    // A budget too small to sweep anything still tests the regression seeds
    // (they are queued first).
    let mut cfg = config();
    let (baseline, _) = run(&cfg);
    let regressions = baseline.regression_seeds();
    assert!(!regressions.is_empty());

    cfg.regression_seeds = regressions.clone();
    cfg.seed_count = 1_000_000; // absurd sweep that the budget will cut short
    cfg.time_budget_secs = 1;
    let (rerun, _) = run(&cfg);
    assert!(rerun.budget_exhausted || rerun.seeds_tested >= regressions.len() as u64);
    assert!(
        !rerun.violations.is_empty(),
        "regression seeds must re-detect their violations"
    );
}

#[test]
fn a_clock_that_is_late_from_the_start_skips_no_regression_seed() {
    let mut cfg = config();
    let (baseline, _) = run(&cfg);
    cfg.regression_seeds = baseline.regression_seeds();
    cfg.time_budget_secs = 1;
    let late = || 7u64;
    let (report, _) = run_fuzz(&cfg, &readings(&cfg.net), &late, &no_tails());
    assert_eq!(report.seeds_tested, cfg.regression_seeds.len() as u64);
    assert!(report.budget_exhausted);
    assert!(!report.violations.is_empty());
    // Without a budget the clock does not matter.
    cfg.time_budget_secs = 0;
    let (report, _) = run_fuzz(&cfg, &readings(&cfg.net), &late, &no_tails());
    assert_eq!(
        report.seeds_tested,
        60 + cfg.regression_seeds.len() as u64
    );
    assert!(!report.budget_exhausted);
}

#[test]
fn the_next_seed_is_that_of_its_place_while_there_is_time() {
    let queue = vec![90, 91, 3, 4];
    assert_eq!(next_seed(&queue, 2, 1, true), Some(91));
    assert_eq!(next_seed(&queue, 2, 2, true), None);
    assert_eq!(next_seed(&queue, 2, 2, false), Some(3));
    assert_eq!(next_seed(&queue, 2, 4, false), None);
    let mut cfg = config();
    assert!(!time_is_up(&cfg, u64::MAX));
    cfg.time_budget_secs = 5;
    assert!(!time_is_up(&cfg, 4) && time_is_up(&cfg, 5));
}

#[test]
fn a_run_takes_numbers_that_a_file_may_not_state() {
    let mut cfg = config();
    cfg.seed_count = 0;
    cfg.jobs = 0;
    let (report, repros) = run(&cfg);
    assert_eq!((report.seeds_tested, report.seeds_failed), (0, 0));
    assert!(report.violations.is_empty() && repros.is_empty());
    let mut cfg = config();
    cfg.invariants = vec![];
    cfg.workload.nodes = 1;
    let (report, _) = run(&cfg);
    assert_eq!((report.seeds_tested, report.seeds_failed), (60, 0));
}

fn violation(rule: &str, message: &str) -> ViolationRecord {
    ViolationRecord {
        rule: rule.into(),
        op: 1,
        vt: 2,
        message: message.into(),
        event: Event::Connect { conn: 1 },
    }
}

#[test]
fn a_sweep_counts_each_seed_and_each_failure_once() {
    let mut s = Sweep::new();
    s.note(9, &vec![violation("r", "x"), violation("r", "y")]);
    s.note(4, &vec![]);
    s.note(2, &vec![violation("r", "z"), violation("q", "w")]);
    let hits = s.findings();
    assert_eq!(hits.len(), 2);
    assert_eq!(hits[0].key.text(), hits[0].key.text());
    let r = hits.iter().find(|h| h.key.rule == "r").unwrap();
    assert_eq!(r.seeds, vec![2, 9]);
    let q = hits.iter().find(|h| h.key.rule == "q").unwrap();
    assert_eq!((q.seeds.clone(), q.message.as_str()), (vec![2], "w"));
}

#[test]
fn file_names_hold_plain_characters_only() {
    assert_eq!(sanitize("a:b->c d"), "a-b-c-d");
    assert_eq!(sanitize("::x::"), "x");
}

#[test]
fn seeds_that_failed_before_come_first() {
    let mut cfg = config();
    cfg.seed_start = 5;
    cfg.seed_count = 4;
    cfg.regression_seeds = vec![7, 100, 7];
    assert_eq!(seeds(&cfg), vec![7, 100, 7, 5, 6, 7, 8]);
}
