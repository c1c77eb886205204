//! Command lines, and what a run of a cluster decides.

use weft::abi::Strategy;
use weft::cluster::{
    choose_shim, exit_status, judge, node_env, on_exit, part, record_header, recorded_line,
    spawn_range, stats_report, supervise, target_env, window_warning, EnvValue, EnvVar, Exit,
    Glance, Lags, Next, Part, Stats, DISCARD,
};
use weft::config::loss_values;
use weft::fuzz::FuzzReport;
use weft::fuzz_cmd;
use weft::fuzz_config::{ConfigFields, FuzzConfig};
use weft::log::{Event, Header, Log, Meta, FORMAT, VERSION};
use weft::monitor::ViolationRecord;
use weft::replay::{Divergence, ReplayOutcome};
use weft::replay_cmd;
use weft::run;
use weft::run_cmd;

fn os(args: &[&str]) -> Vec<Vec<u8>> {
    args.iter().map(|a| a.as_bytes().to_vec()).collect()
}

fn rows(args: &[Vec<u8>]) -> Vec<Vec<Option<u64>>> {
    args.iter()
        .map(|a| match std::str::from_utf8(a) {
            Ok(t) => loss_values(t)
                .into_iter()
                .map(|v| v.and_then(|x| x.parse::<f64>().ok()).map(f64::to_bits))
                .collect(),
            Err(_) => vec![],
        })
        .collect()
}

fn parse_run(args: &[&str]) -> Result<run::RunOpts, String> {
    let a = os(args);
    run::parse_args(&a, &rows(&a))
}

fn parse_cmd(args: &[&str]) -> Result<run_cmd::RunOpts, String> {
    let a = os(args);
    run_cmd::parse_args(&a, &rows(&a))
}

fn refused(args: &[&str]) -> String {
    match parse_cmd(args) {
        Err(e) => e,
        Ok(_) => panic!("accepted"),
    }
}

#[test]
fn version_matches_manifest() {
    assert_eq!(weft::version(), "0.1.0");
}

// ---- run ------------------------------------------------------------------

#[test]
fn run_parses_full_command_line() {
    let opts = parse_run(&["--seed", "0x2a", "--trace", "--", "prog", "-x", "1"])
        .ok()
        .unwrap();
    assert_eq!(opts.seed, 42);
    assert!(opts.trace);
    assert_eq!(opts.program, os(&["prog", "-x", "1"]));
}

#[test]
fn run_rejects_missing_seed_and_missing_program() {
    assert!(parse_run(&["--", "prog"])
        .err()
        .unwrap()
        .contains("--seed is required"));
    assert!(parse_run(&["--seed", "1"])
        .err()
        .unwrap()
        .contains("no program"));
    assert!(parse_run(&["--seed", "zzz", "--", "p"]).is_err());
}

#[test]
fn run_parses_scheduler_flags() {
    let opts = parse_run(&[
        "--seed",
        "1",
        "--strategy",
        "rr",
        "--no-sched",
        "--stats",
        "--",
        "p",
    ])
    .ok()
    .unwrap();
    assert_eq!(opts.strategy, Strategy::RoundRobin);
    assert!(opts.no_sched);
    assert!(opts.stats);
    assert!(parse_run(&["--seed", "1", "--strategy", "bogus", "--", "p"]).is_err());
    // Strategy defaults to Random when unspecified.
    assert_eq!(
        parse_run(&["--seed", "1", "--", "p"]).ok().unwrap().strategy,
        Strategy::Random
    );
}

#[test]
fn run_program_args_after_separator_are_untouched() {
    let opts = parse_run(&["--seed", "7", "--", "prog", "--seed", "--trace"])
        .ok()
        .unwrap();
    assert_eq!(opts.program, os(&["prog", "--seed", "--trace"]));
    assert!(!opts.trace);
}

#[test]
fn run_cmd_parses_full_command_line() {
    let opts = parse_cmd(&["--seed", "0x2a", "--trace", "--", "prog", "-x", "1"])
        .ok()
        .unwrap();
    assert_eq!(opts.seed, 42);
    assert!(opts.trace);
    assert_eq!(opts.program, os(&["prog", "-x", "1"]));
}

#[test]
fn run_cmd_rejects_missing_seed_and_missing_program() {
    assert!(refused(&["--", "prog"]).contains("--seed is required"));
    assert!(refused(&["--seed", "1"]).contains("no program"));
    assert!(parse_cmd(&["--seed", "zzz", "--", "p"]).is_err());
}

#[test]
fn run_cmd_parses_scheduler_flags() {
    let opts = parse_cmd(&[
        "--seed",
        "1",
        "--strategy",
        "rr",
        "--no-sched",
        "--stats",
        "--",
        "p",
    ])
    .ok()
    .unwrap();
    assert_eq!(opts.strategy, Strategy::RoundRobin);
    assert!(opts.no_sched);
    assert!(opts.stats);
    assert!(parse_cmd(&["--seed", "1", "--strategy", "bogus", "--", "p"]).is_err());
    // Strategy defaults to Random when unspecified.
    assert_eq!(
        parse_cmd(&["--seed", "1", "--", "p"]).ok().unwrap().strategy,
        Strategy::Random
    );
}

#[test]
fn run_cmd_program_args_after_separator_are_untouched() {
    let opts = parse_cmd(&["--seed", "7", "--", "prog", "--seed", "--trace"])
        .ok()
        .unwrap();
    assert_eq!(opts.program, os(&["prog", "--seed", "--trace"]));
    assert!(!opts.trace);
}

#[test]
fn every_option_of_a_run_is_read() {
    let o = parse_cmd(&[
        "--seed", "1", "--net", "loss=0.5", "--nodes", "4", "--window", "100", "--record", "r.log",
        "--watchdog", "9", "--window-ops", "5", "--listen", "0:1", "--spawn", "1-2", "--host-id",
        "3", "--shim", "s.so", "--verbose", "--", "p",
    ])
    .ok()
    .unwrap();
    assert_eq!(o.net.as_deref(), Some("loss=0.5"));
    assert_eq!((o.nodes, o.window, o.watchdog, o.window_ops), (4, 100, 9, 5));
    assert_eq!(o.record, Some(b"r.log".to_vec()));
    assert_eq!(o.listen.as_deref(), Some("0:1"));
    assert_eq!(o.broker, None);
    assert_eq!((o.spawn, o.host_id), (Some((1, 2)), 3));
    assert_eq!(o.shim, Some(b"s.so".to_vec()));
    assert!(o.trace);
    // The options of a recorded run are not those of a plain one.
    assert!(parse_run(&["--seed", "1", "--net", "", "--record", "r", "--", "p"])
        .err()
        .unwrap()
        .contains("unknown or misplaced argument \"--record\""));
}

#[test]
fn every_mistake_in_a_run_is_named() {
    let with = |more: &[&str]| {
        let mut a = vec!["--seed", "1"];
        a.extend_from_slice(more);
        a.extend_from_slice(&["--", "p"]);
        refused(&a)
    };
    assert_eq!(refused(&["--seed"]), "--seed requires a value");
    assert_eq!(
        refused(&["--seed", "x"]),
        "--seed \"x\": invalid decimal seed"
    );
    assert_eq!(
        with(&["--net", "bogus"]),
        "--net: network clause \"bogus\" is not key=value"
    );
    assert_eq!(with(&["--nodes", "0"]), "--nodes must be in 1..=64");
    assert_eq!(
        with(&["--nodes", "x"]),
        "--nodes \"x\" is not a positive integer"
    );
    assert_eq!(with(&["--window", "0"]), "--window width must be non-zero (ns)");
    assert_eq!(
        with(&["--spawn", "3"]),
        "--spawn \"3\" is not LO-HI (e.g. 0-2)"
    );
    assert_eq!(with(&["--spawn", "3-1"]), "--spawn \"3-1\": LO must be <= HI");
    assert_eq!(
        with(&["--nodes", "2"]),
        "--nodes requires --net (nodes communicate through the broker)"
    );
    assert_eq!(
        with(&["--record", "r"]),
        "--record requires --net (recording captures broker operations)"
    );
    assert_eq!(
        with(&["--net", "", "--window-ops", "3"]),
        "--window-ops requires --window (it bounds a window's buffer)"
    );
    assert_eq!(
        with(&["--net", "", "--listen", "a", "--broker", "b"]),
        "--listen and --broker are mutually exclusive (host or join, not both)"
    );
    assert_eq!(
        with(&["--net", "", "--broker", "b", "--record", "r"]),
        "--record needs the hosting side (--listen); the joining side has no broker"
    );
    assert_eq!(
        with(&["--net", "", "--nodes", "2", "--spawn", "0-2"]),
        "--spawn id 2 is out of range for --nodes 2"
    );
    assert_eq!(refused(&["-h"]), run_cmd::RUN_USAGE);
    // An argument that is no text is shown as well as can be.
    let raw = vec![vec![0xff, b'a']];
    assert_eq!(
        run_cmd::parse_args(&raw, &vec![vec![]]).err().unwrap(),
        "unknown or misplaced argument \"\u{fffd}a\" (put the program after `--`)"
    );
    let raw = vec![b"--seed".to_vec(), vec![0xff]];
    assert_eq!(
        run_cmd::parse_args(&raw, &vec![vec![None], vec![]]).err().unwrap(),
        "--seed value is not UTF-8"
    );
}

// ---- a cluster ------------------------------------------------------------

fn shown(v: &[EnvVar]) -> Vec<(String, String)> {
    v.iter()
        .map(|x| {
            (
                x.name.to_string(),
                match &x.value {
                    EnvValue::Text(s) => s.clone(),
                    EnvValue::Raw(b) => String::from_utf8(b.clone()).unwrap(),
                },
            )
        })
        .collect()
}

fn pair(a: &str, b: &str) -> (String, String) {
    (a.to_string(), b.to_string())
}

#[test]
fn each_node_is_told_what_it_needs() {
    let o = parse_cmd(&[
        "--seed", "5", "--net", "loss=0", "--nodes", "3", "--window", "50", "--host-id", "2",
        "--stats", "--no-sched", "--", "p",
    ])
    .ok()
    .unwrap();
    assert_eq!(
        shown(&target_env(&o, &b"s.so".to_vec(), &Some(b"x.so".to_vec()))),
        vec![
            pair("LD_PRELOAD", "s.so:x.so"),
            pair("WEFT_SEED", "5"),
            pair("WEFT_STRATEGY", "random"),
            pair("WEFT_SCHED_STATS", "1"),
            pair("WEFT_SCHED", "0"),
        ]
    );
    assert_eq!(
        shown(&node_env(&o, 1, &b"/tmp/b".to_vec())),
        vec![
            pair("WEFT_BROKER", "/tmp/b"),
            pair("WEFT_NODE_ID", "1"),
            pair("WEFT_NET", "loss=0"),
            pair("WEFT_WINDOW_NS", "50"),
            pair("WEFT_HOST_ID", "2"),
        ]
    );
    assert_eq!(
        shown(&target_env(&o, &b"s.so".to_vec(), &Some(vec![])))[0],
        pair("LD_PRELOAD", "s.so")
    );
    assert_eq!(spawn_range(&o), (0, 2));
    assert_eq!(part(&o), Part::Local);
    let h = record_header(&o);
    assert_eq!((h.seed, h.window_ns, h.net.as_str()), (5, 50, "loss=0"));
    assert_eq!(h.meta.weft_version.as_deref(), Some("0.1.0"));
}

#[test]
fn exits_decide_the_code() {
    assert_eq!(on_exit(0, 1, &Exit::Code(0), 0), (0, None));
    assert_eq!(on_exit(7, 1, &Exit::Code(0), 0), (7, None));
    assert_eq!(
        on_exit(0, 1, &Exit::Code(-4), 0),
        (-4, Some("weft: node 1 exited with -4".to_string()))
    );
    assert_eq!(
        on_exit(0, 2, &Exit::Signal, 0),
        (128, Some("weft: node 2 exited with 128".to_string()))
    );
    assert_eq!(
        on_exit(0, 2, &Exit::Signal, 9),
        (
            DISCARD,
            Some("weft: node 2 crashed (signal); run discarded".to_string())
        )
    );
    assert_eq!(
        on_exit(0, 3, &Exit::Lost("gone".into()), 0),
        (1, Some("weft: node 3 wait failed: gone".to_string()))
    );
    assert_eq!(exit_status(0), 0);
    assert_eq!(exit_status(255), 255);
    assert_eq!(exit_status(256), 1);
    assert_eq!(exit_status(-4), 1);
}

#[test]
fn a_run_is_discarded_and_never_made_to_pass() {
    let o = parse_cmd(&[
        "--seed", "1", "--net", "", "--window", "5", "--watchdog", "3", "--listen", "a", "--", "p",
    ])
    .ok()
    .unwrap();
    let calm = Glance {
        drained: false,
        violated: false,
        deadlocked: false,
        sent: 4,
    };
    let next = |g: Glance, running: usize, last: u64, idle: u64| {
        supervise(&o, 0, running, &Some(g), last, idle)
    };
    assert!(matches!(next(calm, 1, 4, 2), Next::Wait { progress: false }));
    assert!(matches!(next(calm, 1, 3, 9), Next::Wait { progress: true }));
    // Others are still at it.
    assert!(matches!(next(calm, 0, 3, 0), Next::Wait { .. }));
    let done = Glance { drained: true, ..calm };
    assert!(matches!(next(done, 0, 4, 0), Next::Stop { code: 0, note: None }));
    assert!(matches!(
        next(calm, 1, 4, 3),
        Next::Stop { code: DISCARD, note: Some(n) }
            if n == "[weft] watchdog: no broker progress for 3s (deadlock or wedged guest); run discarded"
    ));
    let stuck = Glance { deadlocked: true, ..calm };
    assert!(matches!(
        next(stuck, 1, 0, 0),
        Next::Stop { code: DISCARD, note: Some(n) } if n.starts_with("[weft] deadlock")
    ));
    let broken = Glance { violated: true, ..calm };
    assert!(matches!(next(broken, 1, 0, 0), Next::Stop { code: 0, note: None }));
    assert_eq!(
        judge(0, &Some("late op".to_string())),
        (
            DISCARD,
            Some("[weft] protocol violation: late op; run discarded".to_string())
        )
    );
    assert_eq!(judge(4, &None), (4, None));
}

#[test]
fn what_a_run_says() {
    assert_eq!(window_warning(100, 100), None);
    assert_eq!(
        window_warning(100, 7).unwrap(),
        "[weft] warning: --window 100 ns exceeds the network's minimum latency 7 ns; windowed \
         request/reply can deadlock (need lookahead >= window)"
    );
    let s = Stats {
        sent: 9,
        dropped: 2,
        max_skew_ns: 5,
    };
    let lags = Lags::new();
    assert_eq!(
        stats_report(0, &Some(s), &lags),
        "[weft] network: 9 datagram(s) sent, 2 dropped\n"
    );
    assert_eq!(
        stats_report(1, &Some(s), &lags),
        "[weft] network: 9 datagram(s) sent, 2 dropped\n[weft] max clock skew: 5 ns\n"
    );
    let mut lags = lags;
    for (host, node, ns) in [(1, 0, 4), (0, 7, 9), (0, 2, 30), (0, 7, 11), (0, 7, 3)] {
        lags.note(host, node, ns);
    }
    assert_eq!(
        stats_report(1, &Some(s), &lags),
        "[weft] network: 9 datagram(s) sent, 2 dropped\n[weft] max clock skew: 5 ns\n\
         [weft] frontier lag host 0 node 2: max 30 ns\n\
         [weft] frontier lag host 0 node 7: max 11 ns\n\
         [weft] frontier lag host 1 node 0: max 4 ns\n"
    );
    assert!(stats_report(1, &None, &lags).contains("hosting side"));
    assert_eq!(
        recorded_line("r"),
        "[weft] recorded to r (verify: weft replay r)"
    );
    let tried = vec!["a".to_string(), "b".to_string()];
    assert_eq!(choose_shim(&tried, &vec![false, true]), Ok(1));
    assert_eq!(
        choose_shim(&tried, &vec![false, false]),
        Err(
            "cannot find libweft_shim.so; tried: a, b. Build it with `cargo build -p weft-shim` \
             or point --shim / WEFT_SHIM at it"
                .to_string()
        )
    );
}

// ---- replay ---------------------------------------------------------------

fn parse_replay(args: &[&str]) -> Result<replay_cmd::ReplayOpts, String> {
    replay_cmd::parse_args(&os(args))
}

#[test]
fn parses_log_until_and_checks() {
    let o = parse_replay(&["r.weftlog", "--until", "9", "--check", "fifo,dup"])
        .ok()
        .unwrap();
    assert_eq!(o.log, b"r.weftlog".to_vec());
    assert_eq!(o.until, Some(9));
    assert_eq!(o.checks, vec!["fifo", "dup"]);
}

#[test]
fn check_all_expands_and_unknown_is_rejected() {
    let o = parse_replay(&["l", "--check", "all"]).ok().unwrap();
    assert_eq!(o.checks, vec!["fifo", "dup"]);
    assert!(parse_replay(&["l", "--check", "bogus"]).is_err());
}

#[test]
fn missing_log_is_an_error() {
    assert!(parse_replay(&[]).err().unwrap().contains("no log file"));
}

#[test]
fn every_mistake_in_a_replay_is_named() {
    let says = |a: &[&str]| parse_replay(a).err().unwrap();
    assert_eq!(says(&["--until"]), "--until requires an op index");
    assert_eq!(says(&["--until", "x"]), "--until \"x\": not a u64");
    assert_eq!(says(&["--check"]), "--check requires a list");
    assert_eq!(
        says(&["--check", "fifo,,nope"]),
        "--check: unknown invariant \"nope\""
    );
    assert!(says(&["a", "b"]).starts_with("unexpected argument \"b\"\n\nUsage:"));
    assert_eq!(says(&["--help"]), replay_cmd::REPLAY_USAGE);
}

fn empty_log() -> Log {
    Log {
        header: Header {
            format: FORMAT.into(),
            version: VERSION,
            seed: 3,
            net: String::new(),
            window_ns: 0,
            meta: Meta::default(),
        },
        records: vec![],
    }
}

#[test]
fn a_replay_ends_in_one_of_three_codes() {
    let mut o = ReplayOutcome {
        identical: true,
        ops_replayed: 4,
        divergence: None,
        violations: vec![],
        stream_digest: 0xab,
    };
    let c = replay_cmd::conclude(&o, &empty_log(), "p", true);
    assert_eq!(c.code, 0);
    assert_eq!(
        c.out,
        "replay identical: 4 op(s), stream digest 00000000000000ab (partial: --until)\n"
    );
    o.violations.push(ViolationRecord {
        rule: "per-channel-fifo".into(),
        op: 2,
        vt: 7,
        message: "late".into(),
        event: Event::Connect { conn: 1 },
    });
    let c = replay_cmd::conclude(&o, &empty_log(), "p", false);
    assert_eq!(c.code, 2);
    assert!(c.out.contains("per-channel-fifo"));
    assert!(c.out.ends_with("1 invariant violation(s)\n"));
    o.divergence = Some(Divergence {
        op: 2,
        recorded: "a".into(),
        replayed: "b".into(),
    });
    let c = replay_cmd::conclude(&o, &empty_log(), "p", false);
    assert_eq!((c.code, c.out.as_str()), (1, ""));
    assert!(c
        .err
        .starts_with("weft replay: DIVERGED at op 2\n  recorded: a\n  replayed: b\n"));
}

// ---- fuzz -----------------------------------------------------------------

fn parse_fuzz(args: &[&str]) -> Result<fuzz_cmd::FuzzOpts, String> {
    fuzz_cmd::parse_args(&os(args))
}

#[test]
fn parses_config_and_overrides() {
    let o = parse_fuzz(&[
        "--config",
        "f.json",
        "--seeds",
        "5:100",
        "--jobs",
        "8",
        "--no-shrink",
        "--time-budget",
        "30",
        "--out",
        "outdir",
        "--regressions",
        "r.json",
    ])
    .unwrap();
    assert_eq!(o.config, "f.json");
    assert_eq!(o.seeds, Some((5, 100)));
    assert_eq!(o.jobs, Some(8));
    assert!(o.no_shrink);
    assert_eq!(o.time_budget, Some(30));
    assert_eq!(o.regressions.as_deref(), Some("r.json"));
}

#[test]
fn config_is_required_and_seeds_validated() {
    assert!(parse_fuzz(&[])
        .unwrap_err()
        .contains("--config is required"));
    assert!(parse_fuzz(&["--config", "f", "--seeds", "banana"])
        .unwrap_err()
        .contains("START:COUNT"));
}

#[test]
fn every_mistake_in_a_fuzz_run_is_named() {
    let says = |a: &[&str]| parse_fuzz(a).unwrap_err();
    assert_eq!(says(&["--config"]), "--config requires a value");
    assert_eq!(
        fuzz_cmd::parse_args(&vec![b"--out".to_vec(), vec![0xff]]).unwrap_err(),
        "--out value is not UTF-8"
    );
    assert_eq!(says(&["--seeds", "x:1"]), "--seeds start \"x\": not a u64");
    assert_eq!(says(&["--seeds", "1:y"]), "--seeds count \"y\": not a u64");
    assert_eq!(
        says(&["--time-budget", "t"]),
        "--time-budget \"t\": not seconds"
    );
    assert_eq!(says(&["--jobs", "-1"]), "--jobs \"-1\": not a count");
    assert!(says(&["zip"]).starts_with("unexpected argument \"zip\"\n\nUsage:"));
    assert_eq!(says(&["-h"]), fuzz_cmd::FUZZ_USAGE);
}

#[test]
fn options_override_the_configuration() {
    let mut cfg = FuzzConfig::fill(
        ConfigFields {
            comment: None,
            net: String::new(),
            seed_start: None,
            seed_count: None,
            jobs: None,
            time_budget_secs: None,
            invariants: None,
            workload: None,
            out_dir: None,
            shrink: None,
            regression_seeds: Some(vec![9]),
        },
        4,
    );
    let o = parse_fuzz(&[
        "--config", "f", "--seeds", "5:100", "--jobs", "8", "--no-shrink", "--out", "d",
    ])
    .unwrap();
    fuzz_cmd::override_config(&mut cfg, &o, &vec![3, 9]);
    assert_eq!((cfg.seed_start, cfg.seed_count, cfg.jobs), (5, 100, 8));
    assert_eq!(cfg.time_budget_secs, 0);
    assert_eq!(cfg.out_dir, "d");
    assert!(!cfg.shrink);
    assert_eq!(cfg.regression_seeds, vec![9, 3, 9]);
    let report = FuzzReport {
        seeds_tested: 1,
        seeds_failed: 0,
        violations: vec![],
        budget_exhausted: false,
    };
    assert_eq!(fuzz_cmd::refreshed_seeds(&report, &cfg), vec![3, 9]);
    assert_eq!(fuzz_cmd::exit_code(&report), 0);
}
