//! Deterministic workloads: a sequence of operations made from a workload
//! seed alone. The fault seed plays no part in it, so that every fault seed
//! meets the same client behaviour.

use vstd::prelude::*;

use crate::abi;
use crate::abi::{push_le, splitmix64};
use crate::input;
use crate::input::{OpInput, OpView};
use crate::wire::VAddr;

verus! {

/// The shape of a workload.
#[derive(Clone, Copy, PartialEq, Eq, Debug, Structural)]
pub struct Workload {
    /// How many nodes there are; each has one connection. At least two count.
    pub nodes: u32,
    /// How many datagrams are sent.
    pub sends: u32,
    /// The length of each payload; at least one byte.
    pub payload_len: usize,
    /// What the sequence is made from.
    pub workload_seed: u64,
}

impl Default for Workload {
    fn default() -> (w: Self)
        ensures
            w == (Workload { nodes: 2, sends: 24, payload_len: 4, workload_seed: 0 }),
    {
        Workload { nodes: 2, sends: 24, payload_len: 4, workload_seed: 0 }
    }
}

/// The address that node 0 receives at, without its port.
pub const FIRST_IP: u32 = 0x7f00_0001;

/// The port that nodes receive at.
pub const NODE_PORT: u16 = 100;

pub open spec fn addr_of(node: u32) -> VAddr {
    VAddr { ip: (FIRST_IP + node) as u32, port: NODE_PORT }
}

/// The address at which a node receives.
#[must_use]
pub fn node_addr(node: u32) -> (a: VAddr)
    requires
        FIRST_IP + node <= u32::MAX,
    ensures
        a == addr_of(node),
{
    VAddr { ip: FIRST_IP + node, port: NODE_PORT }
}

/// The first `n` nodes connect, name themselves and bind.
pub open spec fn setup(n: int) -> Seq<OpView>
    decreases n,
{
    if n <= 0 {
        Seq::empty()
    } else {
        let node = (n - 1) as u32;
        setup(n - 1).push(OpView::Connect { conn: node as u64 }).push(
            OpView::Hello { conn: node as u64, node },
        ).push(OpView::Bind { conn: node as u64, addr: addr_of(node) })
    }
}

/// The payload of the `i`-th datagram: its number, in as many bytes as there
/// is room for up to four, and zeros.
pub open spec fn payload_of(i: u32, len: nat) -> Seq<u8> {
    let n = if len == 0 {
        1
    } else {
        len
    };
    let tag: nat = if n < 4 {
        n
    } else {
        4
    };
    abi::le_bytes(i as nat, tag) + Seq::new((n - tag) as nat, |j: int| 0u8)
}

/// A node drawn from a state of the generator.
pub open spec fn drawn(rng: u64, nodes: u32) -> u32 {
    (abi::splitmix_out(rng) as u32) % nodes
}

/// The destination: a drawn node, or the next one where that is the source.
pub open spec fn destination(src: u32, d: u32, nodes: u32) -> u32 {
    if d == src {
        ((d + 1) as u32) % nodes
    } else {
        d
    }
}

/// The generator and the operations behind the first `k` datagrams: each is
/// sent between two drawn nodes, and now and then a drawn node is polled.
pub open spec fn stream(seed: u64, nodes: u32, len: nat, k: int) -> (u64, Seq<OpView>)
    decreases k,
{
    if k <= 0 {
        (seed, Seq::empty())
    } else {
        let (r0, ops) = stream(seed, nodes, len, k - 1);
        let r1 = abi::splitmix_next(r0);
        let r2 = abi::splitmix_next(r1);
        let r3 = abi::splitmix_next(r2);
        let src = drawn(r0, nodes);
        let dst = destination(src, drawn(r1, nodes), nodes);
        let sent = ops.push(
            OpView::Send {
                conn: src as u64,
                src: addr_of(src),
                dst: addr_of(dst),
                payload: payload_of((k - 1) as u32, len),
            },
        );
        if abi::splitmix_out(r2) % 4 == 0 {
            (
                abi::splitmix_next(r3),
                sent.push(OpView::Recv { conn: drawn(r3, nodes) as u64, blocking: false }),
            )
        } else {
            (r3, sent)
        }
    }
}

/// `polls` receives on `conn`.
pub open spec fn polls_of(conn: u64, polls: nat) -> Seq<OpView> {
    Seq::new(polls, |i: int| OpView::Recv { conn, blocking: false })
}

/// For each of the first `n` nodes, enough receives to empty its queue.
pub open spec fn drain(n: int, sends: u32) -> Seq<OpView>
    decreases n,
{
    if n <= 0 {
        Seq::empty()
    } else {
        drain(n - 1, sends) + polls_of((n - 1) as u64, sends as nat)
    }
}

pub open spec fn node_count(w: Workload) -> u32 {
    if w.nodes < 2 {
        2
    } else {
        w.nodes
    }
}

/// The operations of a workload.
pub open spec fn generated(w: Workload) -> Seq<OpView> {
    let nodes = node_count(w);
    setup(nodes as int) + stream(
        w.workload_seed ^ 0x9e37_79b9_7f4a_7c15,
        nodes,
        w.payload_len as nat,
        w.sends as int,
    ).1 + drain(nodes as int, w.sends)
}

/// The nodes of the workload have addresses.
pub open spec fn addressable(w: Workload) -> bool {
    FIRST_IP + node_count(w) - 1 <= u32::MAX
}

fn payload(i: u32, len: usize) -> (p: Vec<u8>)
    ensures
        p@ == payload_of(i, len as nat),
{
    let n: usize = if len == 0 {
        1
    } else {
        len
    };
    let tag: usize = if n < 4 {
        n
    } else {
        4
    };
    let mut p: Vec<u8> = Vec::new();
    push_le(&mut p, i as u64, tag);
    proof {
        abi::lemma_le_len(i as nat, tag as nat);
    }
    let ghost head = p@;
    assert(p@ =~= head + Seq::new(0, |j: int| 0u8));
    while p.len() < n
        invariant
            tag <= p@.len() <= n,
            p@ == head + Seq::new((p@.len() - tag) as nat, |j: int| 0u8),
            head.len() == tag,
        decreases n - p@.len(),
    {
        p.push(0);
        assert(p@ =~= head + Seq::new((p@.len() - tag) as nat, |j: int| 0u8));
    }
    p
}

fn push_op(ops: &mut Vec<OpInput>, o: OpInput)
    ensures
        input::op_views(final(ops)@) == input::op_views(old(ops)@).push(o@),
{
    ops.push(o);
    assert(input::op_views(ops@) =~= input::op_views(old(ops)@).push(o@));
}

fn push_setup(ops: &mut Vec<OpInput>, nodes: u32)
    requires
        FIRST_IP + nodes - 1 <= u32::MAX,
    ensures
        input::op_views(final(ops)@) == input::op_views(old(ops)@) + setup(nodes as int),
{
    let ghost start = input::op_views(ops@);
    let mut n: u32 = 0;
    assert(start =~= start + setup(0));
    while n < nodes
        invariant
            n <= nodes,
            FIRST_IP + nodes - 1 <= u32::MAX,
            input::op_views(ops@) == start + setup(n as int),
        decreases nodes - n,
    {
        push_op(ops, OpInput::Connect { conn: n as u64 });
        push_op(ops, OpInput::Hello { conn: n as u64, node: n });
        push_op(ops, OpInput::Bind { conn: n as u64, addr: node_addr(n) });
        n = n + 1;
        assert(input::op_views(ops@) =~= start + setup(n as int));
    }
}

fn push_stream(ops: &mut Vec<OpInput>, seed: u64, nodes: u32, len: usize, sends: u32)
    requires
        nodes >= 2,
        FIRST_IP + nodes - 1 <= u32::MAX,
    ensures
        input::op_views(final(ops)@) == input::op_views(old(ops)@) + stream(
            seed,
            nodes,
            len as nat,
            sends as int,
        ).1,
{
    let ghost start = input::op_views(ops@);
    let mut rng: u64 = seed;
    let mut i: u32 = 0;
    assert(start =~= start + stream(seed, nodes, len as nat, 0).1);
    while i < sends
        invariant
            i <= sends,
            nodes >= 2,
            FIRST_IP + nodes - 1 <= u32::MAX,
            rng == stream(seed, nodes, len as nat, i as int).0,
            input::op_views(ops@) == start + stream(seed, nodes, len as nat, i as int).1,
        decreases sends - i,
    {
        let src: u32 = (splitmix64(&mut rng) as u32) % nodes;
        let d: u32 = (splitmix64(&mut rng) as u32) % nodes;
        let dst: u32 = if d == src {
            (d + 1) % nodes
        } else {
            d
        };
        push_op(
            ops,
            OpInput::Send {
                conn: src as u64,
                src: node_addr(src),
                dst: node_addr(dst),
                payload: payload(i, len),
            },
        );
        if splitmix64(&mut rng) % 4 == 0 {
            let who: u32 = (splitmix64(&mut rng) as u32) % nodes;
            push_op(ops, OpInput::Recv { conn: who as u64, blocking: false });
        }
        i = i + 1;
        assert(input::op_views(ops@) =~= start + stream(seed, nodes, len as nat, i as int).1);
    }
}

fn push_polls(ops: &mut Vec<OpInput>, conn: u64, polls: u32)
    ensures
        input::op_views(final(ops)@) == input::op_views(old(ops)@) + polls_of(conn, polls as nat),
{
    let ghost start = input::op_views(ops@);
    let mut i: u32 = 0;
    assert(start =~= start + polls_of(conn, 0));
    while i < polls
        invariant
            i <= polls,
            input::op_views(ops@) == start + polls_of(conn, i as nat),
        decreases polls - i,
    {
        push_op(ops, OpInput::Recv { conn, blocking: false });
        i = i + 1;
        assert(input::op_views(ops@) =~= start + polls_of(conn, i as nat));
    }
}

fn push_drain(ops: &mut Vec<OpInput>, nodes: u32, sends: u32)
    ensures
        input::op_views(final(ops)@) == input::op_views(old(ops)@) + drain(nodes as int, sends),
{
    let ghost start = input::op_views(ops@);
    let mut n: u32 = 0;
    assert(start =~= start + drain(0, sends));
    while n < nodes
        invariant
            n <= nodes,
            input::op_views(ops@) == start + drain(n as int, sends),
        decreases nodes - n,
    {
        push_polls(ops, n as u64, sends);
        n = n + 1;
        assert(input::op_views(ops@) =~= start + drain(n as int, sends));
    }
}

/// The operations of a workload: every node connects and binds, then the
/// datagrams with receives in between, then receives until all is delivered.
#[must_use]
pub fn generate(w: &Workload) -> (ops: Vec<OpInput>)
    requires
        addressable(*w),
    ensures
        input::op_views(ops@) == generated(*w),
{
    let nodes: u32 = if w.nodes < 2 {
        2
    } else {
        w.nodes
    };
    let seed: u64 = w.workload_seed ^ 0x9e37_79b9_7f4a_7c15;
    let mut ops: Vec<OpInput> = Vec::new();
    assert(input::op_views(ops@) =~= Seq::<OpView>::empty());
    push_setup(&mut ops, nodes);
    push_stream(&mut ops, seed, nodes, w.payload_len, w.sends);
    push_drain(&mut ops, nodes, w.sends);
    assert(input::op_views(ops@) =~= generated(*w));
    ops
}

// ---------------------------------------------------------------------------
// Laws
// ---------------------------------------------------------------------------

proof fn lemma_setup(n: int, node: u32)
    requires
        node < n <= u32::MAX,
    ensures
        setup(n).contains(OpView::Connect { conn: node as u64 }),
        setup(n).contains(OpView::Bind { conn: node as u64, addr: addr_of(node) }),
    decreases n,
{
    let s = setup(n);
    let p = setup(n - 1);
    if node == n - 1 {
        assert(s[p.len() as int] == (OpView::Connect { conn: node as u64 }));
        assert(s[p.len() as int + 2] == (OpView::Bind { conn: node as u64, addr: addr_of(node) }));
    } else {
        lemma_setup(n - 1, node);
        let c = OpView::Connect { conn: node as u64 };
        let b = OpView::Bind { conn: node as u64, addr: addr_of(node) };
        let i = choose|i: int| 0 <= i < p.len() && p[i] == c;
        let j = choose|j: int| 0 <= j < p.len() && p[j] == b;
        assert(s[i] == c);
        assert(s[j] == b);
    }
}

/// Every node connects and binds its address.
pub proof fn law_every_node_joins(w: Workload, node: u32)
    requires
        node < node_count(w),
    ensures
        generated(w).contains(OpView::Connect { conn: node as u64 }),
        generated(w).contains(OpView::Bind { conn: node as u64, addr: addr_of(node) }),
{
    let nodes = node_count(w) as int;
    lemma_setup(nodes, node);
    let s = setup(nodes);
    let g = generated(w);
    let c = OpView::Connect { conn: node as u64 };
    let b = OpView::Bind { conn: node as u64, addr: addr_of(node) };
    let i = choose|i: int| 0 <= i < s.len() && s[i] == c;
    let j = choose|j: int| 0 <= j < s.len() && s[j] == b;
    assert(g[i] == c);
    assert(g[j] == b);
}

/// A datagram between two different nodes of the workload, from the sender's
/// own address.
pub open spec fn proper_send(o: OpView, nodes: u32) -> bool {
    o matches OpView::Send { conn, src, dst, payload } ==> exists|a: u32, b: u32|
        a < nodes && b < nodes && a != b && conn == a as u64 && #[trigger] addr_of(a) == src
            && #[trigger] addr_of(b) == dst
}

pub open spec fn all_proper(ops: Seq<OpView>, nodes: u32) -> bool {
    forall|i: int| 0 <= i < ops.len() ==> proper_send(#[trigger] ops[i], nodes)
}

proof fn lemma_setup_proper(n: int, nodes: u32)
    ensures
        all_proper(setup(n), nodes),
    decreases n,
{
    if n > 0 {
        lemma_setup_proper(n - 1, nodes);
    }
}

proof fn lemma_drain_proper(n: int, sends: u32, nodes: u32)
    ensures
        all_proper(drain(n, sends), nodes),
    decreases n,
{
    if n > 0 {
        lemma_drain_proper(n - 1, sends, nodes);
        let p = drain(n - 1, sends);
        let d = drain(n, sends);
        assert forall|i: int| 0 <= i < d.len() implies proper_send(#[trigger] d[i], nodes) by {
            if i < p.len() {
                assert(d[i] == p[i]);
            }
        }
    }
}

proof fn lemma_draws(r: u64, q: u64, nodes: u32)
    requires
        nodes >= 2,
    ensures
        drawn(r, nodes) < nodes,
        destination(drawn(r, nodes), drawn(q, nodes), nodes) < nodes,
        destination(drawn(r, nodes), drawn(q, nodes), nodes) != drawn(r, nodes),
{
    let x = abi::splitmix_out(r) as u32;
    let y = abi::splitmix_out(q) as u32;
    assert(x % nodes < nodes && y % nodes < nodes) by (nonlinear_arith)
        requires
            nodes >= 2,
    ;
    let d = drawn(q, nodes);
    if d + 1 < nodes {
        vstd::arithmetic::div_mod::lemma_small_mod((d + 1) as nat, nodes as nat);
    } else {
        assert(d + 1 == nodes);
        vstd::arithmetic::div_mod::lemma_mod_self_0(nodes as int);
    }
}

proof fn lemma_stream_proper(seed: u64, nodes: u32, len: nat, k: int)
    requires
        nodes >= 2,
    ensures
        all_proper(stream(seed, nodes, len, k).1, nodes),
    decreases k,
{
    if k > 0 {
        lemma_stream_proper(seed, nodes, len, k - 1);
        let (r0, ops) = stream(seed, nodes, len, k - 1);
        let r1 = abi::splitmix_next(r0);
        let src = drawn(r0, nodes);
        let dst = destination(src, drawn(r1, nodes), nodes);
        lemma_draws(r0, r1, nodes);
        let o = OpView::Send {
            conn: src as u64,
            src: addr_of(src),
            dst: addr_of(dst),
            payload: payload_of((k - 1) as u32, len),
        };
        assert(proper_send(o, nodes));
        let s = stream(seed, nodes, len, k).1;
        assert forall|i: int| 0 <= i < s.len() implies proper_send(#[trigger] s[i], nodes) by {
            if i < ops.len() {
                assert(s[i] == ops[i]);
            } else if i == ops.len() {
                assert(s[i] == o);
            }
        }
    }
}

/// Every datagram goes between two different nodes, from the address that
/// the sender receives at.
pub proof fn law_sends_are_proper(w: Workload)
    ensures
        all_proper(generated(w), node_count(w)),
{
    let nodes = node_count(w);
    let seed = w.workload_seed ^ 0x9e37_79b9_7f4a_7c15;
    lemma_setup_proper(nodes as int, nodes);
    lemma_stream_proper(seed, nodes, w.payload_len as nat, w.sends as int);
    lemma_drain_proper(nodes as int, w.sends, nodes);
    let a = setup(nodes as int);
    let b = stream(seed, nodes, w.payload_len as nat, w.sends as int).1;
    let c = drain(nodes as int, w.sends);
    let g = generated(w);
    assert forall|i: int| 0 <= i < g.len() implies proper_send(#[trigger] g[i], nodes) by {
        if i < a.len() {
            assert(g[i] == a[i]);
        } else if i < a.len() + b.len() {
            assert(g[i] == b[i - a.len()]);
        } else {
            assert(g[i] == c[i - a.len() - b.len()]);
        }
    }
}

} // verus!
