//! The broker: what it answers, and that the order of arrival does not matter
//! where windows seal.

use weft::broker::{BrokerState, Observed, Step};
use weft::config::{self, loss_values};
use weft::fault::{TailSource, TailTable};
use weft::netcore::{Core, RecvResult};
use weft::wire::{FromBroker, ToBroker, VAddr};

fn readings(spec: &str) -> Vec<Option<u64>> {
    loss_values(spec)
        .into_iter()
        .map(|v| v.and_then(|t| t.parse::<f64>().ok()).map(f64::to_bits))
        .collect()
}

fn no_tails() -> TailTable {
    TailTable { rows: vec![] }
}

/// A broker, with the requests that wait in it.
struct Net {
    broker: BrokerState,
    next: u64,
    waiting: Vec<(u64, VAddr)>,
    woken: Vec<(u64, Vec<u8>)>,
    recording: Vec<(u64, Vec<u8>)>,
}

fn start_windowed(seed: u64, spec: &str, window_ns: u64) -> Net {
    Net {
        broker: BrokerState::new(
            config::parse(seed, spec, &readings(spec)).unwrap(),
            window_ns,
        ),
        next: 0,
        waiting: vec![],
        woken: vec![],
        recording: vec![],
    }
}

fn start_broker(seed: u64, spec: &str) -> Net {
    start_windowed(seed, spec, 0)
}

fn addr(node: u32, port: u16) -> VAddr {
    VAddr::new(0x7f00_0001 + node, port)
}

fn ask(addr: VAddr, blocking: bool) -> ToBroker {
    ToBroker::Recv {
        addr,
        blocking,
        local_vt: 0,
    }
}

impl Net {
    fn record(&mut self, events: Vec<(u64, Observed)>) {
        for (_vt, e) in events {
            if let Observed::Send {
                send_vt, payload, ..
            } = e
            {
                self.recording.push((send_vt, payload));
            }
        }
    }

    /// Try again whatever waits.
    fn wake(&mut self) {
        for (conn, a) in std::mem::take(&mut self.waiting) {
            let s = self.broker.poll_recv(conn, true);
            self.take(conn, Some(a), s);
        }
    }

    fn take(&mut self, conn: u64, a: Option<VAddr>, s: Step) -> Option<FromBroker> {
        assert!(s.rejected.is_none());
        self.record(s.events);
        if s.wait {
            assert!(s.reply.is_none());
            self.waiting.push((conn, a.unwrap()));
        }
        if let (Some(_), Some(FromBroker::Deliver { payload, .. })) = (a, &s.reply) {
            self.woken.push((conn, payload.clone()));
        }
        s.reply
    }

    fn call(&mut self, conn: u64, m: ToBroker) -> Option<FromBroker> {
        let a = match &m {
            ToBroker::Recv {
                addr,
                blocking: true,
                ..
            } => Some(*addr),
            _ => None,
        };
        let s = self.broker.handle(conn, m, &no_tails());
        let notify = s.notify;
        let r = self.take(conn, a, s);
        if notify {
            self.wake();
        }
        r
    }

    fn connect(&mut self, node: u32) -> u64 {
        let conn = self.next;
        self.next += 1;
        let events = self.broker.connect(conn);
        self.record(events);
        assert!(matches!(
            self.call(
                conn,
                ToBroker::Hello {
                    node_id: node,
                    host_id: 0
                }
            ),
            Some(FromBroker::Ack { .. })
        ));
        conn
    }

    fn bind(&mut self, conn: u64, addr: VAddr) {
        assert!(matches!(
            self.call(conn, ToBroker::Bind { addr }),
            Some(FromBroker::Ack { .. })
        ));
    }

    fn send_at(&mut self, conn: u64, src: VAddr, dst: VAddr, payload: &[u8], local_vt: u64) {
        let m = ToBroker::Send {
            src,
            dst,
            payload: payload.to_vec(),
            local_vt,
        };
        assert!(matches!(self.call(conn, m), Some(FromBroker::Ack { .. })));
    }

    fn send(&mut self, conn: u64, src: VAddr, dst: VAddr, payload: &[u8]) {
        self.send_at(conn, src, dst, payload, 0);
    }

    fn try_recv(&mut self, conn: u64, addr: VAddr) -> Option<Vec<u8>> {
        match self.call(conn, ask(addr, false)) {
            Some(FromBroker::Deliver { payload, .. }) => Some(payload),
            Some(FromBroker::Empty { .. }) => None,
            other => panic!("unexpected {other:?}"),
        }
    }

    fn drain(&mut self, conn: u64, a: VAddr) -> Vec<Vec<u8>> {
        let mut out = Vec::new();
        while let Some(p) = self.try_recv(conn, a) {
            out.push(p);
        }
        out
    }

    fn leave(&mut self, conn: u64) {
        let events = self.broker.disconnect(conn, &no_tails());
        self.record(events);
        self.wake();
    }
}

#[test]
fn reliable_delivery_round_trip() {
    let mut net = start_broker(1, "");
    let rx = net.connect(0);
    let tx = net.connect(1);
    let (ra, ta) = (addr(0, 100), addr(1, 200));
    net.bind(rx, ra);
    net.bind(tx, ta);
    net.send(tx, ta, ra, b"hello");
    assert_eq!(net.try_recv(rx, ra), Some(b"hello".to_vec()));
    assert_eq!(net.try_recv(rx, ra), None);
}

#[test]
fn loss_is_deterministic_and_roughly_matches_probability() {
    const N: usize = 400;
    let survivors = |seed: u64| {
        let mut net = start_broker(seed, "loss=0.5");
        let rx = net.connect(0);
        let tx = net.connect(1);
        let (ra, ta) = (addr(0, 100), addr(1, 200));
        net.bind(rx, ra);
        net.bind(tx, ta);
        for i in 0..N {
            net.send(tx, ta, ra, &u32::try_from(i).unwrap().to_le_bytes());
        }
        net.drain(rx, ra)
    };
    let first = survivors(9);
    let again = survivors(9);
    assert_eq!(first, again, "same seed must lose the same datagrams");
    // ~50% with generous slack.
    assert!(
        (100..300).contains(&first.len()),
        "survived {}",
        first.len()
    );
    let other = survivors(10);
    assert_ne!(
        first, other,
        "different seed should lose different datagrams"
    );
}

#[test]
fn latency_variance_reorders_deterministically() {
    let ordering = |seed: u64| {
        let mut net = start_broker(seed, "latency=uniform:1000-100000");
        let rx = net.connect(0);
        let tx = net.connect(1);
        let (ra, ta) = (addr(0, 100), addr(1, 200));
        net.bind(rx, ra);
        net.bind(tx, ta);
        for i in 0u32..20 {
            net.send(tx, ta, ra, &i.to_le_bytes());
        }
        net.drain(rx, ra)
    };
    let first = ordering(3);
    assert_eq!(first, ordering(3));
    assert_eq!(first.len(), 20, "no loss configured; nothing may vanish");
    let in_order: Vec<Vec<u8>> = (0u32..20).map(|i| i.to_le_bytes().to_vec()).collect();
    assert_ne!(
        first, in_order,
        "uniform latency over a burst should reorder"
    );
}

#[test]
fn partition_blocks_and_heals_by_respawning_broker() {
    // Partitioned: 0 alone, 1 alone.
    let mut net = start_broker(5, "partition=0|1");
    let rx = net.connect(0);
    let tx = net.connect(1);
    let (ra, ta) = (addr(0, 100), addr(1, 200));
    net.bind(rx, ra);
    net.bind(tx, ta);
    net.send(tx, ta, ra, b"blocked");
    assert_eq!(
        net.try_recv(rx, ra),
        None,
        "cross-partition datagram must drop"
    );

    // Same-side traffic still flows: node 1 to node 1.
    let rx1 = net.connect(1);
    let rb = addr(1, 300);
    net.bind(rx1, rb);
    net.send(tx, ta, rb, b"same side");
    assert_eq!(net.try_recv(rx1, rb), Some(b"same side".to_vec()));
}

#[test]
fn nodes_join_and_leave_mid_scenario() {
    let mut net = start_broker(7, "");
    let tx = net.connect(1);
    let ta = addr(1, 200);
    net.bind(tx, ta);

    // Send to an address nobody has bound yet: silently discarded, like UDP
    // to a closed port.
    let ra = addr(0, 100);
    net.send(tx, ta, ra, b"early");

    // Node 0 joins late, binds, and only sees traffic sent after its bind.
    let rx = net.connect(0);
    net.bind(rx, ra);
    net.send(tx, ta, ra, b"on time");
    assert_eq!(net.drain(rx, ra), vec![b"on time".to_vec()]);

    // Node 0 leaves: its binding disappears, and new traffic to it is
    // discarded rather than wedging the broker.
    net.leave(rx);
    net.send(tx, ta, ra, b"to the departed");

    // A fresh connection can re-claim the same address.
    let rx2 = net.connect(0);
    net.bind(rx2, ra);
    net.send(tx, ta, ra, b"rejoined");
    assert_eq!(net.drain(rx2, ra), vec![b"rejoined".to_vec()]);
}

#[test]
fn blocking_recv_wakes_on_send() {
    let mut net = start_broker(11, "");
    let rx = net.connect(0);
    let ra = addr(0, 100);
    net.bind(rx, ra);

    // The request parks in the broker until the send below.
    assert_eq!(net.call(rx, ask(ra, true)), None);
    assert_eq!(net.waiting, vec![(rx, ra)]);

    let tx = net.connect(1);
    let ta = addr(1, 200);
    net.bind(tx, ta);
    net.send(tx, ta, ra, b"wake up");
    assert_eq!(net.woken, vec![(rx, b"wake up".to_vec())]);
    assert!(net.waiting.is_empty());
}

// ---- a replica that takes whatever comes last -----------------------------

/// Exponential draws by the natural logarithm.
struct Logarithm;

impl TailSource for Logarithm {
    fn tail_of(&self, mean: u64, k: u64) -> u64 {
        self.tail(mean, k)
    }

    fn tail(&self, mean: u64, k: u64) -> u64 {
        let u = k as f64 / (1u64 << 53) as f64;
        (-(mean as f64) * (1.0 - u).ln()) as u64
    }
}

/// Send the versions 1 to 8 to a replica that keeps the one it got last.
/// Answers what it says in the end, and its exit code.
fn kvreplica(seed: u64, spec: &str) -> (String, i32) {
    let mut core = Core::new(config::parse(seed, spec, &readings(spec)).unwrap());
    let (dst, src) = (addr(0, 100), addr(0, 200));
    core.connect(0);
    core.bind(0, dst);
    for version in 1u8..=8 {
        core.send(src, dst, &[version], 0, &Logarithm);
    }
    let mut last = 0;
    while let RecvResult::Delivered { payload, .. } = core.recv(0) {
        last = payload[0];
    }
    let stale = i32::from(last != 8);
    (format!("final={last} expected=8 stale={stale}\n"), stale)
}

/// A reliable network never triggers the bug, whatever the seed: the defect
/// needs reordering, and a zero-variance network can't reorder.
#[test]
fn reliable_network_never_reorders() {
    for seed in [0, 1, 9, 42] {
        let (out, code) = kvreplica(seed, "");
        assert_eq!(out, "final=8 expected=8 stale=0\n");
        assert_eq!(code, 0);
    }
}

#[test]
fn exponential_latency_is_reproducible_per_seed() {
    for seed in 0..6 {
        let (first, _) = kvreplica(seed, "latency=exp:20000");
        let (again, _) = kvreplica(seed, "latency=exp:20000");
        assert_eq!(
            first, again,
            "seed {seed} not reproducible under exp latency"
        );
    }
}

#[test]
fn latency_variance_makes_some_seed_read_stale() {
    let stale = |net: &str| (0..20).filter(|s| kvreplica(*s, net).1 == 1).count();
    assert!(stale("latency=uniform:1000-50000") > 0);
    assert!(stale("latency=exp:20000") > 0);
    assert_eq!(stale("latency=fixed:5000"), 0);
}

// ---- windows --------------------------------------------------------------

const WINDOW_NS: u64 = 100;
// The least latency has to be as long as the window, or a receiver's
// reactivation bound equals a send's own time and stalls its delivery.
const NET_SPEC: &str = "latency=fixed:100";

/// Run the same two-sender scenario. `swap` flips which sender's datagram
/// reaches the broker first. The two senders sit in the same window; sender A
/// emits at 10, sender B at 20.
#[allow(clippy::type_complexity)]
fn run_scenario(swap: bool) -> (Vec<(u64, Vec<u8>)>, Vec<Vec<u8>>) {
    let mut net = start_windowed(7, NET_SPEC, WINDOW_NS);
    let rx = net.connect(0);
    let ra = addr(0, 100);
    net.bind(rx, ra);
    let tx_a = net.connect(1);
    let ta = addr(1, 200);
    net.bind(tx_a, ta);
    let tx_b = net.connect(2);
    let tb = addr(2, 300);
    net.bind(tx_b, tb);

    // The receiver asks, leaving the sealing quorum; there is nothing yet.
    assert_eq!(net.call(rx, ask(ra, true)), Some(FromBroker::Empty { vt: 100 }));
    if swap {
        net.send_at(tx_b, tb, ra, b"b", 20);
        net.send_at(tx_a, ta, ra, b"a", 10);
    } else {
        net.send_at(tx_a, ta, ra, b"a", 10);
        net.send_at(tx_b, tb, ra, b"b", 20);
    }

    // With both closed and the receiver waiting, every window seals, and the
    // receiver finds both when it asks again.
    net.leave(tx_a);
    net.leave(tx_b);
    for _ in 0..2 {
        assert!(matches!(
            net.call(rx, ask(ra, true)),
            Some(FromBroker::Deliver { .. })
        ));
    }
    let delivered = net.woken.iter().map(|(_, p)| p.clone()).collect();
    (net.recording, delivered)
}

#[test]
fn recording_is_independent_of_arrival_order() {
    let (rec_ab, deliv_ab) = run_scenario(false);
    let (rec_ba, deliv_ba) = run_scenario(true);

    // The recording is the sealed (virtual-time) order, not arrival order.
    assert_eq!(
        rec_ab,
        vec![(10, b"a".to_vec()), (20, b"b".to_vec())],
        "sealed order must be by (local_vt): a@10 then b@20"
    );
    assert_eq!(
        rec_ab, rec_ba,
        "opposite arrival orders produced different recordings"
    );
    assert_eq!(
        deliv_ab,
        vec![b"a".to_vec(), b"b".to_vec()],
        "delivered order must follow anchored delivery times"
    );
    assert_eq!(
        deliv_ab, deliv_ba,
        "opposite arrival orders produced different delivery"
    );
}

#[test]
fn a_send_into_the_past_is_refused_and_stays_a_violation() {
    let mut b = BrokerState::new(
        config::parse(1, NET_SPEC, &readings(NET_SPEC)).unwrap(),
        WINDOW_NS,
    );
    b.connect(0);
    b.handle(
        0,
        ToBroker::Hello {
            node_id: 0,
            host_id: 0,
        },
        &no_tails(),
    );
    b.handle(0, ToBroker::Frontier { local_vt: 500 }, &no_tails());
    assert_eq!(b.violation(), None);
    let s = b.handle(
        0,
        ToBroker::Send {
            src: addr(0, 1),
            dst: addr(1, 1),
            payload: vec![],
            local_vt: 10,
        },
        &no_tails(),
    );
    assert!(s.rejected.is_some());
    let why = b.violation().unwrap();
    assert!(why.contains("10"), "{why}");
    // Another connection that ends without a goodbye changes nothing.
    b.disconnect(0, &no_tails());
    assert_eq!(b.violation(), Some(why));
}

#[test]
fn windows_wait_until_every_expected_node_has_joined() {
    let mut net = start_windowed(7, NET_SPEC, WINDOW_NS);
    net.broker.expect_nodes(2);
    let tx = net.connect(0);
    net.send_at(tx, addr(0, 1), addr(1, 1), b"x", 10);
    net.call(tx, ToBroker::Frontier { local_vt: 1000 });
    assert!(net.recording.is_empty());
    let other = net.connect(1);
    net.call(other, ToBroker::Frontier { local_vt: 1000 });
    assert_eq!(net.recording, vec![(10, b"x".to_vec())]);
    assert!(!net.broker.cluster_drained(2));
    for c in [tx, other] {
        assert_eq!(net.call(c, ToBroker::Goodbye), None);
        net.leave(c);
    }
    assert_eq!(net.broker.violation(), None);
    assert!(net.broker.cluster_drained(2));
    assert!(!net.broker.cluster_drained(3));
    assert_eq!(net.broker.stats(), (1, 0));
}

#[test]
fn a_node_that_fills_a_window_is_a_violation() {
    let mut net = start_windowed(7, NET_SPEC, WINDOW_NS);
    net.broker.limit_window_ops(2);
    let tx = net.connect(0);
    let other = net.connect(1);
    for at in [0, 1, WINDOW_NS, WINDOW_NS + 1] {
        net.send_at(tx, addr(0, 1), addr(1, 1), b"x", at);
    }
    net.send_at(other, addr(1, 1), addr(0, 1), b"y", WINDOW_NS);
    assert_eq!(net.broker.violation(), None);
    net.send_at(tx, addr(0, 1), addr(1, 1), b"x", WINDOW_NS + 2);
    assert_eq!(
        net.broker.violation().unwrap(),
        "node 0 of host 0 buffered more than 2 sends in one window"
    );

    // Without a limit the same is accepted.
    let mut net = start_windowed(7, NET_SPEC, WINDOW_NS);
    let tx = net.connect(0);
    for _ in 0..50 {
        net.send_at(tx, addr(0, 1), addr(1, 1), b"x", 3);
    }
    assert_eq!(net.broker.violation(), None);
}

#[test]
fn lags_are_counted_from_the_furthest_frontier() {
    let mut net = start_windowed(7, NET_SPEC, WINDOW_NS);
    assert!(net.broker.frontier_lags().is_empty());
    let conns: Vec<u64> = (0..3).map(|n| net.connect(n)).collect();
    for (c, at) in [(0, 700), (1, 200), (2, 40)] {
        net.call(conns[c], ToBroker::Frontier { local_vt: at });
    }
    let mut lags = net.broker.frontier_lags();
    lags.sort();
    assert_eq!(lags, vec![(0, 0, 0), (0, 1, 500), (0, 2, 660)]);
    assert!(start_broker(7, NET_SPEC).broker.frontier_lags().is_empty());
}
