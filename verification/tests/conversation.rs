//! Nodes that ask and answer over a windowed broker.

use weft::abi::splitmix64;
use weft::broker::{BrokerState, Observed};
use weft::config::{self, loss_values};
use weft::fault::TailTable;
use weft::window::{SeqError, INFINITY};
use weft::wire::{FromBroker, ToBroker, VAddr};

fn readings(spec: &str) -> Vec<Option<u64>> {
    loss_values(spec)
        .into_iter()
        .map(|v| v.and_then(|t| t.parse::<f64>().ok()).map(f64::to_bits))
        .collect()
}

fn no_tails() -> TailTable {
    TailTable { rows: vec![] }
}

fn addr(node: u32) -> VAddr {
    VAddr::new(0x7f00_0001 + node, 100)
}

fn start(seed: u64, spec: &str, window_ns: u64) -> BrokerState {
    BrokerState::new(config::parse(seed, spec, &readings(spec)).unwrap(), window_ns)
}

fn join(b: &mut BrokerState, conn: u64, node: u32) {
    b.connect(conn);
    hello(b, conn, node);
    b.handle(conn, ToBroker::Bind { addr: addr(node) }, &no_tails());
}

fn hello(b: &mut BrokerState, conn: u64, node: u32) {
    let m = ToBroker::Hello {
        node_id: node,
        host_id: node,
    };
    let s = b.handle(conn, m, &no_tails());
    assert!(matches!(s.reply, Some(FromBroker::Ack { .. })));
}

fn send(b: &mut BrokerState, from: u32, to: u32, at: u64) -> Option<SeqError> {
    let m = ToBroker::Send {
        src: addr(from),
        dst: addr(to),
        payload: vec![from as u8],
        local_vt: at,
    };
    b.handle(u64::from(from), m, &no_tails()).rejected
}

fn recv(b: &mut BrokerState, node: u32, blocking: bool, at: u64) -> FromBroker {
    let m = ToBroker::Recv {
        addr: addr(node),
        blocking,
        local_vt: at,
    };
    b.handle(u64::from(node), m, &no_tails()).reply.unwrap()
}

/// When a blocking receive at `at` gives a datagram.
fn due(b: &mut BrokerState, node: u32, at: u64) -> Option<u64> {
    match recv(b, node, true, at) {
        FromBroker::Deliver { vt, .. } => Some(vt),
        FromBroker::Empty { .. } => None,
        other => panic!("unexpected {other:?}"),
    }
}

// ---- one exchange, step by step -------------------------------------------

#[test]
fn a_reply_from_the_time_of_the_delivery_is_accepted() {
    let mut b = start(1, "latency=fixed:100", 100);
    join(&mut b, 0, 0);
    join(&mut b, 1, 1);
    assert_eq!(due(&mut b, 1, 0), None);
    assert_eq!(send(&mut b, 0, 1, 10), None);
    assert_eq!(due(&mut b, 0, 10), None);
    assert_eq!(due(&mut b, 1, 0), Some(110));
    assert_eq!(send(&mut b, 1, 0, 110), None);
    assert_eq!(due(&mut b, 1, 110), None);
    assert_eq!(due(&mut b, 0, 10), Some(210));
    assert_eq!(b.violation(), None);
    assert!(!b.deadlock_check());
}

#[test]
fn a_reply_from_before_the_delivery_is_refused() {
    let mut b = start(1, "latency=fixed:100", 100);
    join(&mut b, 0, 0);
    join(&mut b, 1, 1);
    assert_eq!(due(&mut b, 1, 0), None);
    assert_eq!(send(&mut b, 0, 1, 10), None);
    assert_eq!(due(&mut b, 0, 10), None);
    assert_eq!(due(&mut b, 1, 0), Some(110));
    assert!(matches!(
        send(&mut b, 1, 0, 109),
        Some(SeqError::NonMonotone { prev: 110, got: 109, .. })
    ));
    assert!(b.violation().is_some());
}

#[test]
fn every_delivery_lies_below_the_horizon_that_an_empty_poll_names() {
    let mut b = start(1, "latency=fixed:100", 100);
    join(&mut b, 0, 0);
    join(&mut b, 1, 1);
    assert_eq!(send(&mut b, 0, 1, 10), None);
    // Node 0 may send at 10 again, so nothing below 0 + 100 is open any more.
    assert_eq!(recv(&mut b, 1, false, 40), FromBroker::Empty { vt: 100 });
    // Once both are past 100, so is every send to come: its window is sealed.
    b.handle(0, ToBroker::Frontier { local_vt: 120 }, &no_tails());
    assert_eq!(recv(&mut b, 1, false, 105), FromBroker::Empty { vt: 200 });
    assert!(matches!(recv(&mut b, 1, false, 111), FromBroker::Deliver { vt: 110, .. }));
    // What comes later is delivered at 200 or behind.
    assert_eq!(send(&mut b, 0, 1, 120), None);
    b.handle(0, ToBroker::Frontier { local_vt: 400 }, &no_tails());
    assert!(matches!(recv(&mut b, 1, false, 300), FromBroker::Deliver { vt: 220, .. }));
}

#[test]
fn a_poll_beside_nodes_that_wait_is_final() {
    let mut b = start(1, "latency=fixed:100", 100);
    join(&mut b, 0, 0);
    join(&mut b, 1, 1);
    assert_eq!(due(&mut b, 0, 0), None);
    // Node 0 speaks again only when node 1 has, from 550 on.
    assert_eq!(recv(&mut b, 1, false, 550), FromBroker::Empty { vt: 600 });
    assert_eq!(send(&mut b, 1, 0, 550), None);
    assert_eq!(recv(&mut b, 1, false, 650), FromBroker::Empty { vt: 700 });
    assert_eq!(due(&mut b, 0, 0), Some(650));
    assert_eq!(b.violation(), None);
}

#[test]
fn nodes_that_all_wait_for_nothing_are_deadlocked() {
    let mut b = start(1, "latency=fixed:100", 100);
    join(&mut b, 0, 0);
    join(&mut b, 1, 1);
    assert!(!b.deadlock_check());
    assert_eq!(due(&mut b, 0, 0), None);
    assert!(!b.deadlock_check());
    assert_eq!(recv(&mut b, 1, true, 0), FromBroker::Empty { vt: INFINITY });
    assert!(b.deadlock_check());
    assert_eq!(b.violation(), None);
}

#[test]
fn windows_wider_than_the_least_delay_stall() {
    // At 10 both ends of the exchange lie in the first window, which cannot
    // seal while the answer may come into it.
    let mut b = start(1, "latency=fixed:10", 100);
    join(&mut b, 0, 0);
    join(&mut b, 1, 1);
    assert_eq!(send(&mut b, 0, 1, 10), None);
    for _ in 0..10 {
        assert_eq!(due(&mut b, 0, 10), None);
        assert_eq!(due(&mut b, 1, 0), None);
    }
    assert!(!b.deadlock_check());
    assert_eq!(b.violation(), None);
}

// ---- joining --------------------------------------------------------------

#[test]
fn a_node_that_joins_again_is_a_violation() {
    let mut b = start(1, "latency=fixed:100", 100);
    join(&mut b, 0, 0);
    join(&mut b, 1, 1);
    b.handle(1, ToBroker::Goodbye, &no_tails());
    b.disconnect(1, &no_tails());
    assert_eq!(b.violation(), None);
    b.connect(2);
    hello(&mut b, 2, 1);
    assert_eq!(
        b.violation().unwrap(),
        "conn 2 joined again as node 1 (reconnect splice)"
    );

    // So is a connection that joins twice.
    let mut b = start(1, "latency=fixed:100", 100);
    join(&mut b, 0, 0);
    hello(&mut b, 0, 7);
    assert_eq!(
        b.violation().unwrap(),
        "conn 0 joined again as node 7 (reconnect splice)"
    );

    // On a single host there is no order that it could upset.
    let mut b = start(1, "latency=fixed:100", 0);
    join(&mut b, 0, 0);
    hello(&mut b, 0, 0);
    assert_eq!(b.violation(), None);
}

// ---- many nodes -----------------------------------------------------------

/// Four nodes each send to the next one a few times and leave; `order` draws
/// whose turn it is at the broker. Gives the sends as they were recorded.
fn round_robin(mut order: u64) -> Vec<Sent> {
    let mut b = start(3, "latency=fixed:100", 100);
    b.expect_nodes(4);
    let mut sent = Vec::new();
    for node in 0..4 {
        join(&mut b, u64::from(node), node);
    }
    let mut done = [0u32; 4];
    while done.iter().any(|d| *d < 8) {
        let node = (splitmix64(&mut order) % 4) as u32;
        let conn = u64::from(node);
        let turn = done[node as usize];
        if turn >= 8 {
            continue;
        }
        done[node as usize] += 1;
        let at = u64::from(turn * (30 + 20 * (node % 3)));
        let events = if turn == 7 {
            b.handle(conn, ToBroker::Goodbye, &no_tails());
            b.disconnect(conn, &no_tails())
        } else if turn == 3 {
            b.handle(conn, ToBroker::Frontier { local_vt: at }, &no_tails()).events
        } else {
            let m = ToBroker::Send {
                src: addr(node),
                dst: addr((node + 1) % 4),
                payload: vec![node as u8, turn as u8],
                local_vt: at,
            };
            let s = b.handle(conn, m, &no_tails());
            assert_eq!(s.rejected, None);
            s.events
        };
        sent.extend(sends_of(events));
    }
    assert_eq!(b.violation(), None);
    sent
}

#[test]
fn the_same_sends_are_recorded_in_the_same_order() {
    let first = round_robin(0);
    assert_eq!(first.len(), 24);
    for node in 0..3u8 {
        assert_eq!(first[node as usize], (0, addr(node.into()), addr((u32::from(node) + 1) % 4), vec![node, 0]));
    }
    assert!(first.windows(2).all(|w| w[0].0 <= w[1].0));
    for order in 1..30 {
        assert_eq!(round_robin(order), first);
    }
}

// ---- ping-pong ------------------------------------------------------------

/// One end of a ping-pong: it sends where it has the ball, waits for the other
/// end where it has not, and leaves when it has had the ball often enough.
struct End {
    node: u32,
    clock: u64,
    ball: Option<Vec<u8>>,
    sends: usize,
    receives: usize,
    left: bool,
    said: Vec<String>,
}

type Sent = (u64, VAddr, VAddr, Vec<u8>);

fn sends_of(events: Vec<(u64, Observed)>) -> Vec<Sent> {
    events
        .into_iter()
        .filter_map(|(_, o)| match o {
            Observed::Send {
                src,
                dst,
                payload,
                send_vt,
                ..
            } => Some((send_vt, src, dst, payload)),
            _ => None,
        })
        .collect()
}

/// Play until both ends have sent and received `rounds` times; `order` draws
/// whose turn it is at the broker. Gives what was said and the sends as they
/// were recorded.
fn pingpong(
    seed: u64,
    net: &str,
    window: u64,
    mut order: u64,
    rounds: usize,
) -> (Vec<String>, Vec<Sent>) {
    let mut b = start(seed, net, window);
    b.expect_nodes(2);
    let mut sent = Vec::new();
    let mut rng = seed;
    let mut ends: Vec<End> = (0..2)
        .map(|node| End {
            node,
            clock: 1 + splitmix64(&mut rng) % 1000,
            ball: None,
            sends: rounds,
            receives: rounds,
            left: false,
            said: vec![],
        })
        .collect();
    ends[0].ball = Some(splitmix64(&mut rng).to_le_bytes().to_vec());
    for e in &ends {
        join(&mut b, u64::from(e.node), e.node);
    }
    for _ in 0..100 * rounds {
        let e = &mut ends[(splitmix64(&mut order) % 2) as usize];
        let conn = u64::from(e.node);
        if e.left {
            continue;
        }
        if e.sends == 0 && e.receives == 0 {
            e.left = true;
            b.handle(conn, ToBroker::Goodbye, &no_tails());
            sent.extend(sends_of(b.disconnect(conn, &no_tails())));
            continue;
        }
        let m = match e.ball.take() {
            Some(ball) => {
                e.sends -= 1;
                let word = if e.node == 0 { "PING" } else { "PONG" };
                e.said.push(format!("{word}:{ball:?}"));
                ToBroker::Send {
                    src: addr(e.node),
                    dst: addr(1 - e.node),
                    payload: ball,
                    local_vt: e.clock,
                }
            }
            None => ToBroker::Recv {
                addr: addr(e.node),
                blocking: true,
                local_vt: e.clock,
            },
        };
        let s = b.handle(conn, m, &no_tails());
        assert_eq!(s.rejected, None);
        if let Some(FromBroker::Deliver { payload, vt, .. }) = s.reply {
            e.clock = e.clock.max(vt);
            e.receives -= 1;
            e.ball = Some(payload.iter().map(|x| x.wrapping_add(1)).collect());
        }
        sent.extend(sends_of(s.events));
    }
    assert!(ends.iter().all(|e| e.left), "did not complete");
    assert_eq!(b.violation(), None);
    assert!(b.cluster_drained(2));
    let said = ends.into_iter().flat_map(|e| e.said).collect();
    (said, sent)
}

#[test]
fn windowed_multihost_pingpong_is_live_and_deterministic() {
    let net = "latency=fixed:1000000";
    let (first, _) = pingpong(42, net, 1_000_000, 0, 8);
    assert_eq!(first.len(), 16);
    assert!(first[0].starts_with("PING:") && first[8].starts_with("PONG:"));
    for order in 1..6 {
        let (again, _) = pingpong(42, net, 1_000_000, order, 8);
        assert_eq!(first, again, "windowed run not deterministic");
    }
    let (other, _) = pingpong(7, net, 1_000_000, 0, 8);
    assert_ne!(first, other, "different seed should differ");
}

#[test]
fn windowed_recording_send_order_is_identical_across_runs() {
    for net in ["latency=fixed:1000000", "latency=uniform:1000000-3000000"] {
        let (_, first) = pingpong(42, net, 1_000_000, 0, 8);
        assert!(!first.is_empty(), "recording contains no sends");
        assert!(first.windows(2).all(|w| w[0].0 <= w[1].0), "not in the order of time");
        for order in 1..20 {
            let (_, again) = pingpong(42, net, 1_000_000, order, 8);
            assert_eq!(first, again, "same-seed windowed runs recorded different send sequences");
        }
    }
}
