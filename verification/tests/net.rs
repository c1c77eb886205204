//! Seeds, hashes, the wire, network conditions, fates, the routing core and
//! the windowed sequencer.

use weft::abi::{expand_seed, parse_seed, push_le, splitmix64, Domain, Strategy};
use weft::config::{loss_values, parse, ParseError};
use weft::fault::{FaultModel, Latency, Loss, Partition, TailSource, TailTable};
use weft::hash::{fnv1a, fnv1a_once, from_hex, to_hex, FNV_OFFSET};
use weft::netcore::{Core, RecvResult, SendResult};
use weft::window::{ConnId, SeqError, SeqSend, WindowSequencer, INFINITY};
use weft::wire::{
    frame_len, read_from_broker, read_to_broker, write_from_broker, write_to_broker, FromBroker,
    ToBroker, VAddr, WireError,
};

fn readings(spec: &str) -> Vec<Option<u64>> {
    loss_values(spec)
        .into_iter()
        .map(|v| v.and_then(|t| t.parse::<f64>().ok()).map(f64::to_bits))
        .collect()
}

fn conditions(seed: u64, spec: &str) -> Result<FaultModel, ParseError> {
    parse(seed, spec, &readings(spec))
}

fn none() -> TailTable {
    TailTable { rows: vec![] }
}

fn loss(p: f64) -> Loss {
    Loss::from_bits(p.to_bits()).unwrap()
}

// ---- seeds ----------------------------------------------------------------

#[test]
fn seed_parsing() {
    assert_eq!(parse_seed("42"), Ok(42));
    assert_eq!(parse_seed("0xff"), Ok(255));
    assert_eq!(parse_seed("0XFF"), Ok(255));
    assert_eq!(parse_seed(" 7 "), Ok(7));
    assert!(parse_seed("").is_err());
    assert!(parse_seed("nope").is_err());
    assert!(parse_seed("0x").is_err());
}

#[test]
fn seed_errors_are_told_apart() {
    assert_eq!(parse_seed("  "), Err("empty seed"));
    assert_eq!(parse_seed("0xg"), Err("invalid hex seed"));
    assert_eq!(parse_seed("-1"), Err("invalid decimal seed"));
    assert_eq!(parse_seed("18446744073709551615"), Ok(u64::MAX));
    assert_eq!(parse_seed("18446744073709551616"), Err("invalid decimal seed"));
}

#[test]
fn expand_seed_is_deterministic_and_seed_sensitive() {
    assert_eq!(expand_seed(1), expand_seed(1));
    assert_ne!(expand_seed(1), expand_seed(2));
    assert_ne!(expand_seed(0), [0u8; 32]);
}

#[test]
fn splitmix_reference_vector() {
    let mut s = 0u64;
    assert_eq!(splitmix64(&mut s), 0xE220_A839_7B1D_CDAF);
}

#[test]
fn a_key_is_four_outputs_in_little_endian() {
    let key = expand_seed(0);
    let mut s = 0u64;
    let mut want = Vec::new();
    for _ in 0..4 {
        push_le(&mut want, splitmix64(&mut s), 8);
    }
    assert_eq!(key.to_vec(), want);
    assert_eq!(want[0], 0xAF);
}

#[test]
fn strategies_round_trip() {
    for s in [Strategy::Random, Strategy::RoundRobin] {
        assert_eq!(Strategy::parse(s.name()), Ok(s));
    }
    assert_eq!(Strategy::parse(" Round-Robin "), Ok(Strategy::RoundRobin));
    assert_eq!(Strategy::default(), Strategy::Random);
    assert_eq!(
        Strategy::parse("fair"),
        Err("unknown strategy (expected 'random' or 'rr')")
    );
    assert_ne!(Domain::LibcRand.stream(), Domain::Scheduler.stream());
}

// ---- hashes ---------------------------------------------------------------

#[test]
fn fnv_reference_vector() {
    assert_eq!(fnv1a_once(b"a"), 0xaf63_dc4c_8601_ec8c);
    assert_eq!(fnv1a_once(b""), FNV_OFFSET);
}

#[test]
fn fnv_continues_where_it_left_off() {
    assert_eq!(fnv1a(fnv1a_once(b"foo"), b"bar"), fnv1a_once(b"foobar"));
}

#[test]
fn hex_round_trip() {
    let data = [0u8, 1, 15, 16, 127, 128, 255];
    assert_eq!(from_hex(&to_hex(&data)).unwrap(), data);
    assert_eq!(from_hex("0"), None); // odd length
    assert_eq!(from_hex("zz"), None); // not hex
    assert_eq!(from_hex(""), Some(Vec::new()));
    assert_eq!(to_hex(&data), "00010f107f80ff");
}

// ---- the wire -------------------------------------------------------------

#[test]
fn round_trips_all_messages() {
    let a = VAddr::new(0x7f00_0001, 5000);
    let b = VAddr::new(0x7f00_0002, 6000);
    let tb = [
        ToBroker::Hello {
            node_id: 3,
            host_id: 2,
        },
        ToBroker::Bind { addr: a },
        ToBroker::Send {
            src: a,
            dst: b,
            payload: vec![1, 2, 3, 255],
            local_vt: 42,
        },
        ToBroker::Recv {
            addr: a,
            blocking: true,
            local_vt: 7,
        },
        ToBroker::Goodbye,
    ];
    for m in tb {
        assert_eq!(ToBroker::decode(&m.encode()), Some(m));
    }
    let fb = [
        FromBroker::Ack { vt: 1 },
        FromBroker::Deliver {
            src: a,
            dst: b,
            payload: vec![9, 8, 7],
            vt: 99,
        },
        FromBroker::Empty { vt: 100 },
    ];
    for m in fb {
        assert_eq!(FromBroker::decode(&m.encode()), Some(m));
    }
}

#[test]
fn framing_round_trip() {
    let mut buf = Vec::new();
    let m = ToBroker::Send {
        src: VAddr::new(1, 2),
        dst: VAddr::new(3, 4),
        payload: b"hello world".to_vec(),
        local_vt: 0,
    };
    write_to_broker(&mut buf, &m).unwrap();
    assert_eq!(read_to_broker(&buf).unwrap(), m);
}

#[test]
fn node_of_address() {
    assert_eq!(VAddr::new(0x7f00_0001, 0).node_of(), 0);
    assert_eq!(VAddr::new(0x7f00_0003, 0).node_of(), 2);
}

#[test]
fn short_and_unknown_messages_are_refused() {
    assert_eq!(ToBroker::decode(&[]), None);
    assert_eq!(ToBroker::decode(&[200]), None);
    let mut cut = ToBroker::Frontier { local_vt: 9 }.encode();
    assert_eq!(
        ToBroker::decode(&cut),
        Some(ToBroker::Frontier { local_vt: 9 })
    );
    cut.pop();
    assert_eq!(ToBroker::decode(&cut), None);
    let mut buf = Vec::new();
    write_from_broker(&mut buf, &FromBroker::Empty { vt: 5 }).unwrap();
    assert_eq!(
        read_from_broker(&buf).unwrap(),
        FromBroker::Empty { vt: 5 }
    );
    assert!(read_from_broker(&buf[..3]).is_err());
    assert_eq!(frame_len(&[0xff, 0xff, 0xff, 0xff]), Err(WireError::TooLarge));
    assert_eq!(VAddr::new(0x7f00_0001, 80).text(), "127.0.0.1:80");
}

// ---- network conditions ---------------------------------------------------

#[test]
fn parses_full_spec() {
    let m = conditions(
        9,
        "latency=uniform:1000-5000,loss=0.1,bw=2000000,partition=0+1|2",
    )
    .unwrap();
    assert_eq!(m.latency, Latency::Uniform { lo: 1000, hi: 5000 });
    assert!((f64::from_bits(m.loss.bits) - 0.1).abs() < 1e-9);
    assert_eq!(m.bandwidth_bps, 2_000_000);
    assert!(m.partition.blocked(0, 2));
    assert!(!m.partition.blocked(0, 1));
}

#[test]
fn empty_spec_is_reliable() {
    let m = conditions(1, "").unwrap();
    assert_eq!(m.latency, Latency::Fixed(0));
    assert!(f64::from_bits(m.loss.bits).abs() < 1e-9);
}

#[test]
fn rejects_garbage() {
    assert!(matches!(
        conditions(1, "loss=2.0"),
        Err(ParseError::InvalidLoss(_))
    ));
    assert!(matches!(
        conditions(1, "latency=weird:5"),
        Err(ParseError::InvalidLatency(..))
    ));
    assert!(matches!(
        conditions(1, "nope=1"),
        Err(ParseError::UnknownKey(_))
    ));
    assert!(matches!(
        conditions(1, "latency=uniform:5"),
        Err(ParseError::InvalidLatency(..))
    ));
}

#[test]
fn every_condition_error_says_what_is_wrong() {
    let says = |spec: &str| conditions(1, spec).unwrap_err().text();
    assert_eq!(says("junk"), "network clause \"junk\" is not key=value");
    assert_eq!(says("nope=1"), "unknown network key \"nope\"");
    assert_eq!(
        says("latency=uniform:9-3"),
        "latency \"uniform:9-3\": hi<lo (3<9)"
    );
    assert_eq!(
        says("loss=nan"),
        "loss \"nan\" is not a probability in [0,1]"
    );
    assert_eq!(says("bw=fast"), "bw \"fast\" is not an integer");
    assert_eq!(says("partition=0+x"), "partition: bad node id \"x\"");
    // Quotes in a value are escaped.
    assert_eq!(says("a\"b"), "network clause \"a\\\"b\" is not key=value");
}

// ---- fates ----------------------------------------------------------------

fn node(n: u8, p: u16) -> VAddr {
    VAddr::new(0x7f00_0000 | u32::from(n), p)
}

#[test]
fn fate_is_deterministic_in_identity() {
    let m = FaultModel {
        seed: 42,
        latency: Latency::Uniform { lo: 1000, hi: 5000 },
        loss: loss(0.2),
        bandwidth_bps: 0,
        partition: Partition::none(),
    };
    let a = node(1, 100);
    let b = node(2, 200);
    for seq in 0..1000 {
        assert_eq!(m.fate(a, b, seq, 64, 0), m.fate(a, b, seq, 64, 0));
    }
}

#[test]
fn different_seeds_change_fate() {
    let a = node(1, 100);
    let b = node(2, 200);
    let mk = |seed| FaultModel {
        seed,
        latency: Latency::Uniform { lo: 0, hi: 10_000 },
        loss: loss(0.3),
        bandwidth_bps: 0,
        partition: Partition::none(),
    };
    let one: Vec<_> = (0..200).map(|s| mk(1).fate(a, b, s, 64, 0)).collect();
    let two: Vec<_> = (0..200).map(|s| mk(2).fate(a, b, s, 64, 0)).collect();
    assert_ne!(one, two);
}

#[test]
fn loss_probability_is_roughly_honored() {
    let a = node(1, 100);
    let b = node(2, 200);
    let m = FaultModel {
        seed: 7,
        latency: Latency::Fixed(0),
        loss: loss(0.25),
        bandwidth_bps: 0,
        partition: Partition::none(),
    };
    let dropped = (0..10_000)
        .filter(|s| m.fate(a, b, *s, 64, 0).dropped)
        .count();
    assert!((2000..3000).contains(&dropped), "dropped={dropped}");
}

#[test]
fn partition_blocks_across_groups_only() {
    let p = Partition::from_groups(vec![vec![0, 1]]);
    assert!(!p.blocked(0, 1)); // same group
    assert!(!p.blocked(2, 3)); // both in "rest"
    assert!(p.blocked(0, 2)); // across
    assert!(p.blocked(1, 3));
}

#[test]
fn bandwidth_adds_serialization_delay() {
    let m = FaultModel {
        seed: 1,
        latency: Latency::Fixed(1000),
        loss: Loss::zero(),
        bandwidth_bps: 1_000_000, // 1 MB/s → 1000 bytes = 1ms = 1_000_000ns
        partition: Partition::none(),
    };
    let f = m.fate(node(1, 1), node(2, 2), 0, 1000, 0);
    assert!(!f.dropped);
    assert_eq!(f.delay_ns, 1000 + 1_000_000);
}

#[test]
fn a_loss_of_zero_loses_nothing_and_one_everything() {
    let mut m = FaultModel::reliable(5);
    for s in 0..100 {
        assert!(!m.fate(node(1, 1), node(2, 2), s, 1, 0).dropped);
    }
    m.loss = loss(1.0);
    for s in 0..100 {
        assert!(m.fate(node(1, 1), node(2, 2), s, 1, 0).dropped);
    }
    assert_eq!(Loss::from_bits(1.5f64.to_bits()), None);
    assert_eq!(Loss::from_bits((-0.1f64).to_bits()), None);
    assert_eq!(Loss::from_bits(f64::NAN.to_bits()), None);
    assert!(Loss::from_bits((-0.0f64).to_bits()).is_some());
}

#[test]
fn the_loss_threshold_is_that_of_doubles() {
    // A deviate is k / 2^53; it is below the probability as doubles compare.
    for p in [0.5f64, 0.1, 1e-3, 1.0 / 3.0, 1.0, 0.0] {
        for k in [0u64, 1, 9_007_199_254_740, 900_719_925_474_099, 900_719_925_474_100,
            3_002_399_751_580_330, 4_503_599_627_370_495, 4_503_599_627_370_496,
            9_007_199_254_740_991] {
            let u = (k as f64) / ((1u64 << 53) as f64);
            assert_eq!(loss(p).exceeds(k), u < p, "p={p} k={k}");
        }
    }
}

#[test]
fn uniform_samples_round_like_doubles() {
    for (lo, hi) in [(1000u64, 100_000u64), (0, 8000), (7, 7), (0, u64::MAX)] {
        for k in [0u64, 1, 12_345_678_901, 4_503_599_627_370_497, 9_007_199_254_740_991] {
            let u = (k as f64) / ((1u64 << 53) as f64);
            let want = lo.saturating_add((u * ((hi - lo) as f64)) as u64);
            assert_eq!(
                Latency::Uniform { lo, hi }.sample(k, 0),
                want.min(hi),
                "lo={lo} hi={hi} k={k}"
            );
        }
    }
    assert_eq!(Latency::Fixed(9).sample(3, 0), 9);
    // An exponential draw comes from outside, and is cut at twenty means.
    assert_eq!(Latency::Exponential { mean: 10 }.sample(3, 55), 55);
    assert_eq!(Latency::Exponential { mean: 10 }.sample(3, 5000), 200);
    assert_eq!(Latency::Uniform { lo: 4, hi: 9 }.min_ns(), 4);
    assert_eq!(Latency::Exponential { mean: 10 }.min_ns(), 0);
}

#[test]
fn exponential_draws_are_asked_for_by_mean_and_deviate() {
    let m = conditions(3, "latency=exp:1000").unwrap();
    let (a, b) = (node(1, 1), node(2, 2));
    let (mean, k) = m.tail_draw(a, b, 0).unwrap();
    assert_eq!(mean, 1000);
    let table = TailTable {
        rows: vec![(mean, k, 777)],
    };
    assert_eq!(table.tail(mean, k), 777);
    assert_eq!(table.tail(mean + 1, k), 0);
    assert_eq!(m.fate(a, b, 0, 1, table.tail(mean, k)).delay_ns, 777);
    assert_eq!(FaultModel::reliable(1).tail_draw(a, b, 0), None);
}

// ---- the core -------------------------------------------------------------

fn addr(n: u32, p: u16) -> VAddr {
    VAddr::new(0x7f00_0001 + n, p)
}

fn model(seed: u64) -> FaultModel {
    FaultModel {
        seed,
        latency: Latency::Uniform {
            lo: 1_000,
            hi: 100_000,
        },
        loss: Loss::zero(),
        bandwidth_bps: 0,
        partition: Partition::none(),
    }
}

#[test]
fn identical_op_sequences_produce_identical_decisions() {
    let run = || {
        let mut c = Core::new(model(3));
        c.connect(0);
        c.connect(1);
        c.bind(0, addr(0, 100));
        let mut sends = Vec::new();
        for i in 0u32..20 {
            sends.push(c.send(addr(1, 200), addr(0, 100), &i.to_le_bytes(), 0, &none()));
        }
        let mut delivered = Vec::new();
        while let RecvResult::Delivered { tie, payload, .. } = c.recv(0) {
            delivered.push((tie, payload));
        }
        (sends, delivered, c.vt(), c.stats())
    };
    assert_eq!(run(), run());
}

#[test]
fn unbound_destination_consumes_seq_but_not_tie() {
    let mut c = Core::new(model(1));
    c.connect(0);
    let (seq0, r0) = c.send(addr(1, 9), addr(0, 100), b"x", 0, &none());
    assert_eq!((seq0, r0), (0, SendResult::NoReceiver));
    // Now bind and send again on the same channel: seq advanced, and the
    // first real enqueue takes tie 0 (no tie was burned on the miss).
    c.bind(0, addr(0, 100));
    let (seq1, r1) = c.send(addr(1, 9), addr(0, 100), b"y", 0, &none());
    assert_eq!(seq1, 1);
    assert!(matches!(r1, SendResult::Enqueued { tie: 0, .. }), "{r1:?}");
}

#[test]
fn recv_pops_smallest_delivery_time_then_tie() {
    let mut c = Core::new(FaultModel::reliable(0));
    c.connect(0);
    c.bind(0, addr(0, 1));
    // Reliable model: every delay is 0, so pops are pure tie order (FIFO).
    for i in 0u8..5 {
        c.send(addr(1, 2), addr(0, 1), &[i], 0, &none());
    }
    let mut got = Vec::new();
    while let RecvResult::Delivered { payload, .. } = c.recv(0) {
        got.push(payload[0]);
    }
    assert_eq!(got, vec![0, 1, 2, 3, 4]);
}

#[test]
fn vt_tracks_the_largest_scheduled_delivery() {
    let mut c = Core::new(model(7));
    c.connect(0);
    c.bind(0, addr(0, 1));
    assert_eq!(c.vt(), 0);
    let mut max = 0;
    for i in 0u32..10 {
        if let (_, SendResult::Enqueued { deliv_ns, .. }) =
            c.send(addr(1, 2), addr(0, 1), &i.to_le_bytes(), 0, &none())
        {
            max = max.max(deliv_ns);
        }
        assert_eq!(c.vt(), max);
    }
    assert!(max > 0);
}

#[test]
fn delivery_time_is_anchored_to_send_vt() {
    let mut c = Core::new(FaultModel::reliable(0));
    c.connect(0);
    c.bind(0, addr(0, 1));
    // Enqueue out of send-time order: vt 500 first, then vt 100.
    let (_, r_late) = c.send(addr(1, 2), addr(0, 1), b"late", 500, &none());
    let (_, r_early) = c.send(addr(1, 2), addr(0, 1), b"early", 100, &none());
    assert!(matches!(r_late, SendResult::Enqueued { deliv_ns: 500, .. }));
    assert!(matches!(
        r_early,
        SendResult::Enqueued { deliv_ns: 100, .. }
    ));
    // Smallest deliv (100 = "early") pops first even though it was sent
    // second; vt tracks the largest scheduled delivery.
    let first = c.recv(0);
    assert!(matches!(&first, RecvResult::Delivered { payload, .. } if payload == b"early"));
    assert_eq!(c.vt(), 500);
}

#[test]
fn disconnect_releases_bindings_and_queue() {
    let mut c = Core::new(FaultModel::reliable(0));
    c.connect(0);
    c.bind(0, addr(0, 1));
    c.send(addr(1, 2), addr(0, 1), b"pending", 0, &none());
    c.disconnect(0);
    assert_eq!(c.recv(0), RecvResult::Empty);
    let (_, r) = c.send(addr(1, 2), addr(0, 1), b"gone", 0, &none());
    assert_eq!(r, SendResult::NoReceiver);
}

#[test]
fn a_bounded_receive_stops_at_its_bound() {
    let mut c = Core::new(FaultModel::reliable(0));
    c.connect(0);
    c.bind(0, addr(0, 1));
    c.send(addr(1, 2), addr(0, 1), b"x", 100, &none());
    assert!(c.has_pending(0) && c.any_queued() && c.is_connected(0));
    assert_eq!(c.recv_before(0, 100), RecvResult::Empty);
    assert!(matches!(
        c.recv_before(0, 101),
        RecvResult::Delivered { deliv_ns: 100, .. }
    ));
    assert!(!c.has_pending(0) && !c.any_queued());
    assert_eq!(c.stats(), (1, 0));
}

// ---- the sequencer --------------------------------------------------------

enum Act {
    Reg(ConnId, u32, u32),
    Send(ConnId, u64, u16), // conn, local_vt, payload tag
    Frontier(ConnId, u64),
    Seal,
}

fn collect(assigned: Vec<SeqSend>, out: &mut Vec<(ConnId, u64, u16, u64)>) {
    for op in assigned {
        let tag = u16::from(op.payload[0]);
        out.push((op.conn, op.local_vt, tag, op.conn_seq));
    }
}

fn run(width: u64, script: &[Act]) -> Vec<(ConnId, u64, u16, u64)> {
    let mut s = WindowSequencer::new(width);
    let mut out = Vec::new();
    for a in script {
        match a {
            Act::Reg(c, h, n) => s.register(*c, *h, *n),
            Act::Send(c, vt, tag) => {
                s.admit_send(*c, *vt, addr(0, 1), addr(1, 2), vec![*tag as u8])
                    .expect("admit");
            }
            Act::Frontier(c, f) => s.declare_frontier(*c, *f).expect("frontier"),
            Act::Seal => collect(s.seal(), &mut out),
        }
    }
    // Final drain: everyone releases, seal the rest.
    collect(s.seal(), &mut out);
    out
}

#[test]
fn assignment_is_independent_of_arrival_order() {
    let width = 100;
    let a_first = [
        Act::Reg(0, 0, 0),
        Act::Reg(1, 1, 1),
        Act::Send(0, 10, b'a'.into()),
        Act::Send(0, 60, b'b'.into()),
        Act::Send(1, 20, b'c'.into()),
        Act::Send(1, 90, b'd'.into()),
        Act::Frontier(0, 1000),
        Act::Frontier(1, 1000),
    ];
    let b_first = [
        Act::Reg(1, 1, 1),
        Act::Reg(0, 0, 0),
        Act::Send(1, 20, b'c'.into()),
        Act::Send(0, 10, b'a'.into()),
        Act::Send(1, 90, b'd'.into()),
        Act::Send(0, 60, b'b'.into()),
        Act::Frontier(1, 1000),
        Act::Frontier(0, 1000),
    ];
    let out_a = run(width, &a_first);
    let out_b = run(width, &b_first);
    assert_eq!(out_a, out_b, "arrival order changed the assignment");
    // And the order is the sort-key order: vt 10,20,60,90.
    let vts: Vec<u64> = out_a.iter().map(|t| t.1).collect();
    assert_eq!(vts, vec![10, 20, 60, 90]);
}

#[test]
fn equal_local_vt_breaks_by_host_then_node() {
    let width = 100;
    let script = [
        Act::Reg(0, 2, 9),
        Act::Reg(1, 0, 5),
        Act::Reg(2, 0, 1),
        Act::Send(0, 50, b'x'.into()), // host 2
        Act::Send(1, 50, b'y'.into()), // host 0 node 5
        Act::Send(2, 50, b'z'.into()), // host 0 node 1
        Act::Frontier(0, 1000),
        Act::Frontier(1, 1000),
        Act::Frontier(2, 1000),
    ];
    let out = run(width, &script);
    let tags: Vec<u16> = out.iter().map(|t| t.2).collect();
    // (0,1)=z, (0,5)=y, (2,9)=x
    assert_eq!(
        tags,
        vec![u16::from(b'z'), u16::from(b'y'), u16::from(b'x')]
    );
}

#[test]
fn incremental_sealing_matches_one_shot() {
    let width = 100;
    let base = [
        Act::Reg(0, 0, 0),
        Act::Reg(1, 1, 1),
        Act::Send(0, 10, b'a'.into()),
        Act::Send(1, 20, b'b'.into()),
        Act::Frontier(0, 150),
        Act::Frontier(1, 150),
        Act::Send(0, 160, b'c'.into()),
        Act::Send(1, 170, b'd'.into()),
        Act::Frontier(0, 1000),
        Act::Frontier(1, 1000),
    ];
    let one_shot = run(width, &base);
    // Interleave Seal after each step.
    let mut stepwise_script = Vec::new();
    for a in base {
        stepwise_script.push(a);
        stepwise_script.push(Act::Seal);
    }
    let stepwise = run(width, &stepwise_script);
    assert_eq!(one_shot, stepwise);
    let vts: Vec<u64> = one_shot.iter().map(|t| t.1).collect();
    assert_eq!(vts, vec![10, 20, 160, 170]);
}

#[test]
fn a_window_holds_until_the_laggard_frontier_crosses() {
    // Window 0 = [0,100). It must not seal while conn 1 is still below 100.
    let width = 100;
    let mut s = WindowSequencer::new(width);
    s.register(0, 0, 0);
    s.register(1, 1, 1);
    s.admit_send(0, 10, addr(0, 1), addr(1, 2), vec![1])
        .unwrap();
    s.declare_frontier(0, 500).unwrap(); // conn 0 way ahead
                                         // conn 1 still at frontier 0 → nothing seals.
    assert!(
        s.seal().is_empty(),
        "sealed with a laggard below the window"
    );
    assert_eq!(s.horizon(), 0);
    // conn 1 crosses the window boundary → window 0 seals.
    s.declare_frontier(1, 100).unwrap();
    let out = s.seal();
    assert_eq!(out.len(), 1);
    assert_eq!(s.horizon(), 100);
}

#[test]
fn blocking_recv_releases_the_frontier() {
    let width = 100;
    let mut s = WindowSequencer::new(width);
    s.register(0, 0, 0); // sender
    s.register(1, 1, 1); // receiver, will block
    s.admit_send(0, 30, addr(0, 1), addr(1, 2), vec![7])
        .unwrap();
    s.declare_frontier(0, 1000).unwrap();
    assert!(s.seal().is_empty(), "receiver at frontier 0 blocks sealing");
    s.block(1, 0); // receiver enters blocking recv -> effective frontier +inf
    let out = s.seal();
    assert_eq!(out.len(), 1, "release-on-block did not free the window");
}

#[test]
fn wake_restores_the_quorum_at_the_delivery_time() {
    let width = 100;
    let mut s = WindowSequencer::new(width);
    s.register(0, 0, 0); // sender
    s.register(1, 1, 1); // receiver
    s.block(1, 40);
    s.declare_frontier(0, 10_000).unwrap();
    s.seal();
    // Blocked receiver does not stall sealing: the sender alone bounds it.
    assert_eq!(
        s.horizon(),
        10_000,
        "blocked receiver wrongly stalled sealing"
    );

    let mut s2 = WindowSequencer::new(width);
    s2.register(0, 0, 0);
    s2.register(1, 1, 1);
    s2.block(1, 40);
    s2.wake(1, 250);
    s2.declare_frontier(0, 10_000).unwrap();
    s2.seal();
    assert_eq!(s2.horizon(), 200, "woken receiver must bound the horizon");
}

#[test]
fn quiescence_when_all_release() {
    let width = 100;
    let mut s = WindowSequencer::new(width);
    s.register(0, 0, 0);
    s.admit_send(0, 5, addr(0, 1), addr(1, 2), vec![1]).unwrap();
    assert!(!s.is_quiescent());
    s.close(0);
    let out = s.seal();
    assert_eq!(out.len(), 1);
    assert_eq!(s.horizon(), INFINITY);
    assert!(s.is_quiescent());
}

#[test]
fn non_monotone_local_vt_is_rejected() {
    let mut s = WindowSequencer::new(100);
    s.register(0, 0, 0);
    s.admit_send(0, 50, addr(0, 1), addr(1, 2), vec![1])
        .unwrap();
    let err = s
        .admit_send(0, 40, addr(0, 1), addr(1, 2), vec![2])
        .unwrap_err();
    assert_eq!(
        err,
        SeqError::NonMonotone {
            conn: 0,
            prev: 50,
            got: 40
        }
    );
}

#[test]
fn nothing_is_admitted_once_everything_is_sealed() {
    let mut s = WindowSequencer::new(100);
    s.register(0, 0, 0);
    s.close(0);
    assert!(s.seal().is_empty());
    assert_eq!(s.horizon(), INFINITY);
    for local_vt in [5, INFINITY] {
        assert_eq!(
            s.admit_send(0, local_vt, VAddr::new(1, 1), VAddr::new(2, 2), vec![1]),
            Err(SeqError::LateOp {
                conn: 0,
                local_vt,
                horizon: INFINITY
            })
        );
    }
}

#[test]
fn op_in_a_sealed_window_is_rejected() {
    let mut s = WindowSequencer::new(100);
    s.register(0, 0, 0);
    s.register(1, 1, 1);
    s.declare_frontier(0, 300).unwrap();
    s.declare_frontier(1, 300).unwrap();
    s.seal(); // horizon → 300
    assert_eq!(s.horizon(), 300);
    let err = s
        .admit_send(1, 250, addr(0, 1), addr(1, 2), vec![1])
        .unwrap_err();
    assert!(
        matches!(err, SeqError::LateOp { horizon: 300, .. }),
        "{err:?}"
    );
}

#[test]
fn unknown_connection_is_rejected() {
    let mut s = WindowSequencer::new(100);
    let err = s
        .admit_send(9, 10, addr(0, 1), addr(1, 2), vec![1])
        .unwrap_err();
    assert_eq!(err, SeqError::UnknownConn(9));
}

#[test]
fn a_deadlock_is_everyone_blocked_with_nothing_buffered() {
    let mut s = WindowSequencer::new(100);
    assert!(!s.deadlocked());
    s.register(0, 0, 0);
    s.register(1, 0, 1);
    s.block(0, 0);
    assert!(!s.deadlocked());
    s.block(1, 0);
    assert!(s.deadlocked());
    s.touch_frontier(1, 5);
    s.wake(1, 50);
    assert!(!s.deadlocked());
}
