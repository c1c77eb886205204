//! The laws of the wire: where in a message each number stands, byte by byte,
//! and of the totals that end a recording.

use vstd::prelude::*;

use crate::abi;
use crate::log;
use crate::log::{EventView, HeaderView, SendOutcome};
use crate::wire;
use crate::wire::{FromBrokerView, ToBrokerView, VAddr, WireError};

verus! {

/// The number in two bytes from `i` on, the lowest first.
pub open spec fn two(b: Seq<u8>, i: int) -> int {
    b[i] + 0x100 * b[i + 1]
}

/// The number in four bytes from `i` on, the lowest first.
pub open spec fn four(b: Seq<u8>, i: int) -> int {
    two(b, i) + 0x1_0000 * two(b, i + 2)
}

/// The number in eight bytes from `i` on, the lowest first.
pub open spec fn eight(b: Seq<u8>, i: int) -> int {
    four(b, i) + 0x1_0000_0000 * four(b, i + 4)
}

/// The address in six bytes from `i` on.
pub open spec fn address(b: Seq<u8>, i: int, a: VAddr) -> bool {
    four(b, i) == a.ip && two(b, i + 4) == a.port
}

proof fn lemma_two(x: nat)
    requires
        x < 0x1_0000,
    ensures
        abi::le_bytes(x, 2).len() == 2,
        two(abi::le_bytes(x, 2), 0) == x,
{
    reveal_with_fuel(abi::le_bytes, 3);
}

proof fn lemma_four(x: nat)
    requires
        x < 0x1_0000_0000,
    ensures
        abi::le_bytes(x, 4).len() == 4,
        four(abi::le_bytes(x, 4), 0) == x,
{
    reveal_with_fuel(abi::le_bytes, 5);
}

proof fn lemma_eight(x: nat)
    requires
        x < 0x1_0000_0000_0000_0000,
    ensures
        abi::le_bytes(x, 8).len() == 8,
        eight(abi::le_bytes(x, 8), 0) == x,
{
    reveal_with_fuel(abi::le_bytes, 9);
}

proof fn lemma_address(a: VAddr)
    ensures
        wire::addr_bytes(a).len() == 6,
        address(wire::addr_bytes(a), 0, a),
{
    lemma_four(a.ip as nat);
    lemma_two(a.port as nat);
    let b = wire::addr_bytes(a);
    let x = abi::le_bytes(a.ip as nat, 4);
    let y = abi::le_bytes(a.port as nat, 2);
    assert(b[0] == x[0] && b[1] == x[1] && b[2] == x[2] && b[3] == x[3]);
    assert(b[4] == y[0] && b[5] == y[1]);
}

/// A frame is the length of the message in four bytes, and the message.
pub proof fn law_frame(p: Seq<u8>)
    requires
        p.len() < 0x1_0000_0000,
    ensures
        wire::framed(p).len() == p.len() + 4,
        four(wire::framed(p), 0) == p.len(),
        wire::framed(p).skip(4) == p,
{
    lemma_four(p.len());
    let f = wire::framed(p);
    let x = abi::le_bytes(p.len(), 4);
    assert(f[0] == x[0] && f[1] == x[1] && f[2] == x[2] && f[3] == x[3]);
    assert(f.skip(4) =~= p);
}

/// A hello is a one, the node and the host.
pub proof fn law_hello_bytes(node_id: u32, host_id: u32)
    ensures
        ({
            let b = wire::to_broker_bytes(ToBrokerView::Hello { node_id, host_id });
            b.len() == 9 && b[0] == 1 && four(b, 1) == node_id && four(b, 5) == host_id
        }),
{
    lemma_four(node_id as nat);
    lemma_four(host_id as nat);
    let b = wire::to_broker_bytes(ToBrokerView::Hello { node_id, host_id });
    let x = abi::le_bytes(node_id as nat, 4);
    let y = abi::le_bytes(host_id as nat, 4);
    assert(b[1] == x[0] && b[2] == x[1] && b[3] == x[2] && b[4] == x[3]);
    assert(b[5] == y[0] && b[6] == y[1] && b[7] == y[2] && b[8] == y[3]);
}

/// To take an address is a two and the address.
pub proof fn law_bind_bytes(addr: VAddr)
    ensures
        ({
            let b = wire::to_broker_bytes(ToBrokerView::Bind { addr });
            b.len() == 7 && b[0] == 2 && address(b, 1, addr)
        }),
{
    lemma_address(addr);
    let b = wire::to_broker_bytes(ToBrokerView::Bind { addr });
    let x = wire::addr_bytes(addr);
    assert(b[1] == x[0] && b[2] == x[1] && b[3] == x[2] && b[4] == x[3] && b[5] == x[4] && b[6]
        == x[5]);
}

/// A datagram is its tag, the address it comes from, the one it goes to, its
/// length in four bytes, itself, and its time.
proof fn lemma_datagram(tag: u8, src: VAddr, dst: VAddr, payload: Seq<u8>, vt: u64)
    requires
        payload.len() < 0x1_0000_0000,
    ensures
        ({
            let b = wire::datagram_bytes(tag, src, dst, payload, vt);
            let n = payload.len() as int;
            &&& b.len() == n + 25
            &&& b[0] == tag
            &&& address(b, 1, src)
            &&& address(b, 7, dst)
            &&& four(b, 13) == n
            &&& b.subrange(17, 17 + n) == payload
            &&& eight(b, 17 + n) == vt
        }),
{
    let b = wire::datagram_bytes(tag, src, dst, payload, vt);
    let n = payload.len() as int;
    lemma_address(src);
    lemma_address(dst);
    lemma_four(payload.len());
    lemma_eight(vt as nat);
    let x = wire::addr_bytes(src);
    let y = wire::addr_bytes(dst);
    let c = abi::le_bytes(payload.len(), 4);
    let t = abi::le_bytes(vt as nat, 8);
    assert(b[1] == x[0] && b[2] == x[1] && b[3] == x[2] && b[4] == x[3] && b[5] == x[4] && b[6]
        == x[5]);
    assert(b[7] == y[0] && b[8] == y[1] && b[9] == y[2] && b[10] == y[3] && b[11] == y[4] && b[12]
        == y[5]);
    assert(b[13] == c[0] && b[14] == c[1] && b[15] == c[2] && b[16] == c[3]);
    assert(b.subrange(17, 17 + n) =~= payload);
    assert(b[17 + n] == t[0] && b[18 + n] == t[1] && b[19 + n] == t[2] && b[20 + n] == t[3] && b[21
        + n] == t[4] && b[22 + n] == t[5] && b[23 + n] == t[6] && b[24 + n] == t[7]);
}

/// A send is a three and the datagram; a delivery is a two and the datagram.
pub proof fn law_datagram_bytes(src: VAddr, dst: VAddr, payload: Seq<u8>, vt: u64)
    requires
        payload.len() < 0x1_0000_0000,
    ensures
        ({
            let b = wire::to_broker_bytes(ToBrokerView::Send { src, dst, payload, local_vt: vt });
            let n = payload.len() as int;
            &&& b.len() == n + 25 && b[0] == 3
            &&& address(b, 1, src) && address(b, 7, dst)
            &&& four(b, 13) == n && b.subrange(17, 17 + n) == payload && eight(b, 17 + n) == vt
        }),
        ({
            let b = wire::from_broker_bytes(FromBrokerView::Deliver { src, dst, payload, vt });
            let n = payload.len() as int;
            &&& b.len() == n + 25 && b[0] == 2
            &&& address(b, 1, src) && address(b, 7, dst)
            &&& four(b, 13) == n && b.subrange(17, 17 + n) == payload && eight(b, 17 + n) == vt
        }),
{
    lemma_datagram(3, src, dst, payload, vt);
    lemma_datagram(2, src, dst, payload, vt);
}

/// A receive is a four, the address, whether it waits, and the time; a promise
/// is a five and the time; a goodbye is a six.
pub proof fn law_other_request_bytes(addr: VAddr, blocking: bool, vt: u64)
    ensures
        ({
            let b = wire::to_broker_bytes(ToBrokerView::Recv { addr, blocking, local_vt: vt });
            &&& b.len() == 16 && b[0] == 4
            &&& address(b, 1, addr)
            &&& b[7] == if blocking {
                1u8
            } else {
                0u8
            }
            &&& eight(b, 8) == vt
        }),
        ({
            let b = wire::to_broker_bytes(ToBrokerView::Frontier { local_vt: vt });
            b.len() == 9 && b[0] == 5 && eight(b, 1) == vt
        }),
        wire::to_broker_bytes(ToBrokerView::Goodbye) == seq![6u8],
{
    lemma_address(addr);
    lemma_eight(vt as nat);
    let b = wire::to_broker_bytes(ToBrokerView::Recv { addr, blocking, local_vt: vt });
    let x = wire::addr_bytes(addr);
    let t = abi::le_bytes(vt as nat, 8);
    assert(b[1] == x[0] && b[2] == x[1] && b[3] == x[2] && b[4] == x[3] && b[5] == x[4] && b[6]
        == x[5]);
    assert(b[8] == t[0] && b[9] == t[1] && b[10] == t[2] && b[11] == t[3] && b[12] == t[4] && b[13]
        == t[5] && b[14] == t[6] && b[15] == t[7]);
    let c = wire::to_broker_bytes(ToBrokerView::Frontier { local_vt: vt });
    assert(c[1] == t[0] && c[2] == t[1] && c[3] == t[2] && c[4] == t[3] && c[5] == t[4] && c[6]
        == t[5] && c[7] == t[6] && c[8] == t[7]);
}

/// An acknowledgement is a one and the time; that there is nothing is a three
/// and the time.
pub proof fn law_other_reply_bytes(vt: u64)
    ensures
        ({
            let b = wire::from_broker_bytes(FromBrokerView::Ack { vt });
            b.len() == 9 && b[0] == 1 && eight(b, 1) == vt
        }),
        ({
            let b = wire::from_broker_bytes(FromBrokerView::Empty { vt });
            b.len() == 9 && b[0] == 3 && eight(b, 1) == vt
        }),
{
    lemma_eight(vt as nat);
    let t = abi::le_bytes(vt as nat, 8);
    let a = wire::from_broker_bytes(FromBrokerView::Ack { vt });
    let c = wire::from_broker_bytes(FromBrokerView::Empty { vt });
    assert(a[1] == t[0] && a[2] == t[1] && a[3] == t[2] && a[4] == t[3] && a[5] == t[4] && a[6]
        == t[5] && a[7] == t[6] && a[8] == t[7]);
    assert(c[1] == t[0] && c[2] == t[1] && c[3] == t[2] && c[4] == t[3] && c[5] == t[4] && c[6]
        == t[5] && c[7] == t[6] && c[8] == t[7]);
}

// ---------------------------------------------------------------------------
// Totals
// ---------------------------------------------------------------------------

/// How many of the events are sends, and how many of these were dropped.
pub open spec fn counted(events: Seq<(u64, EventView)>, n: int) -> (nat, nat)
    decreases n,
{
    if n <= 0 {
        (0, 0)
    } else {
        let (s, d) = counted(events, n - 1);
        match events[n - 1].1 {
            EventView::Send { outcome: SendOutcome::Dropped, .. } => (s + 1, d + 1),
            EventView::Send { .. } => (s + 1, d),
            _ => (s, d),
        }
    }
}

proof fn lemma_counted(h: HeaderView, events: Seq<(u64, EventView)>, n: int)
    requires
        0 <= n <= events.len() < u64::MAX,
    ensures
        ({
            let w = log::written(h, events, n);
            &&& w.sent == counted(events, n).0
            &&& w.dropped == counted(events, n).1
            &&& w.next_op == n
            &&& counted(events, n).1 <= counted(events, n).0 <= n
        }),
    decreases n,
{
    if n > 0 {
        lemma_counted(h, events, n - 1);
    }
}

/// A recording ends with how many events it holds, its end included, how many
/// datagrams were sent and how many of them were dropped.
pub proof fn law_totals(h: HeaderView, events: Seq<(u64, EventView)>)
    requires
        events.len() < u64::MAX,
    ensures
        ({
            let e = log::end_event(log::written(h, events, events.len() as int));
            &&& e is End
            &&& e->events == events.len() + 1
            &&& e->sent == counted(events, events.len() as int).0
            &&& e->dropped == counted(events, events.len() as int).1
        }),
{
    lemma_counted(h, events, events.len() as int);
}

/// Each event is put down with its place in the recording and its time.
pub proof fn law_records_are_numbered(
    h: HeaderView,
    events: Seq<(u64, EventView)>,
    n: int,
    vt: u64,
    e: EventView,
)
    requires
        0 <= n <= events.len() < u64::MAX,
    ensures
        ({
            let r = log::next_record(log::written(h, events, n), vt, e);
            r.op == n && r.vt == vt && r.e == e
        }),
{
    lemma_counted(h, events, n);
}

// ---------------------------------------------------------------------------
// Reading
// ---------------------------------------------------------------------------

proof fn lemma_read_two(b: Seq<u8>, i: int)
    requires
        0 <= i,
        i + 2 <= b.len(),
    ensures
        wire::uint_at(b, i, 2) == two(b, i),
{
    reveal_with_fuel(abi::le_value, 3);
    let s = b.subrange(i, i + 2);
    assert(s[0] == b[i] && s[1] == b[i + 1]);
    assert(s.drop_first().drop_first() =~= Seq::<u8>::empty());
    assert(s.drop_first()[0] == b[i + 1]);
}

proof fn lemma_read_four(b: Seq<u8>, i: int)
    requires
        0 <= i,
        i + 4 <= b.len(),
    ensures
        wire::uint_at(b, i, 4) == four(b, i),
{
    let s = b.subrange(i, i + 4);
    let s1 = s.drop_first();
    let s2 = s1.drop_first();
    assert(s[0] == b[i] && s1[0] == b[i + 1]);
    assert(s2 =~= b.subrange(i + 2, i + 4));
    lemma_read_two(b, i + 2);
    assert(abi::le_value(s) == s[0] + 256 * abi::le_value(s1));
    assert(abi::le_value(s1) == s1[0] + 256 * abi::le_value(s2));
}

proof fn lemma_read_eight(b: Seq<u8>, i: int)
    requires
        0 <= i,
        i + 8 <= b.len(),
    ensures
        wire::uint_at(b, i, 8) == eight(b, i),
{
    let s = b.subrange(i, i + 8);
    let s1 = s.drop_first();
    let s2 = s1.drop_first();
    let s3 = s2.drop_first();
    let s4 = s3.drop_first();
    assert(s[0] == b[i] && s1[0] == b[i + 1] && s2[0] == b[i + 2] && s3[0] == b[i + 3]);
    assert(s4 =~= b.subrange(i + 4, i + 8));
    lemma_read_four(b, i + 4);
    assert(abi::le_value(s) == s[0] + 256 * abi::le_value(s1));
    assert(abi::le_value(s1) == s1[0] + 256 * abi::le_value(s2));
    assert(abi::le_value(s2) == s2[0] + 256 * abi::le_value(s3));
    assert(abi::le_value(s3) == s3[0] + 256 * abi::le_value(s4));
}

/// A frame is read where it is whole and its length is no more than 16 MiB: one
/// that says it is longer is too large, and one that ends too soon is short;
/// what stands behind it is left alone.
pub proof fn law_frame_is_read(b: Seq<u8>)
    ensures
        b.len() < 4 ==> wire::unframed(b) == Err::<Seq<u8>, WireError>(WireError::Short),
        b.len() >= 4 && four(b, 0) > 0x100_0000 ==> wire::unframed(b) == Err::<
            Seq<u8>,
            WireError,
        >(WireError::TooLarge),
        b.len() >= 4 && four(b, 0) <= 0x100_0000 && b.len() < 4 + four(b, 0) ==> wire::unframed(b)
            == Err::<Seq<u8>, WireError>(WireError::Short),
        b.len() >= 4 && four(b, 0) <= 0x100_0000 && 4 + four(b, 0) <= b.len() ==> wire::unframed(b)
            == Ok::<Seq<u8>, WireError>(b.subrange(4, 4 + four(b, 0))),
{
    if b.len() >= 4 {
        lemma_read_four(b, 0);
    }
}

/// A request is read by its first byte and refused where it ends too soon or
/// starts with no tag there is.
pub proof fn law_request_is_read(b: Seq<u8>)
    requires
        b.len() > 0,
    ensures
        ({
            let r = wire::to_broker_of(b);
            &&& b[0] == 0 || b[0] > 6 ==> r is None
            &&& b[0] == 1 ==> (r is Some <==> b.len() >= 9) && (r is Some ==> r.unwrap() is Hello
                && r.unwrap()->node_id == four(b, 1) && r.unwrap()->host_id == four(b, 5))
            &&& b[0] == 2 ==> (r is Some <==> b.len() >= 7) && (r is Some ==> r.unwrap() is Bind
                && address(b, 1, r.unwrap()->Bind_addr))
            &&& b[0] == 4 ==> (r is Some <==> b.len() >= 16) && (r is Some ==> r.unwrap() is Recv
                && address(b, 1, r.unwrap()->Recv_addr) && (r.unwrap()->blocking <==> b[7] != 0)
                && r.unwrap()->Recv_local_vt == eight(b, 8))
            &&& b[0] == 5 ==> (r is Some <==> b.len() >= 9) && (r is Some ==> r.unwrap() is Frontier
                && r.unwrap()->Frontier_local_vt == eight(b, 1))
            &&& b[0] == 6 ==> r == Some(ToBrokerView::Goodbye)
        }),
{
    let n = b.len();
    if n >= 7 {
        lemma_read_four(b, 1);
        lemma_read_two(b, 5);
    }
    if n >= 9 {
        lemma_read_four(b, 5);
        lemma_read_eight(b, 1);
    }
    if n >= 16 {
        lemma_read_eight(b, 8);
    }
}

/// A datagram is read from where it stands, and refused where it ends too soon.
pub proof fn law_datagram_is_read(b: Seq<u8>)
    requires
        b.len() > 0,
    ensures
        b[0] == 3 ==> {
            let r = wire::to_broker_of(b);
            let n = four(b, 13);
            &&& r is Some <==> b.len() >= 17 && b.len() >= 25 + n
            &&& r is Some ==> r.unwrap() is Send && address(b, 1, r.unwrap()->src) && address(
                b,
                7,
                r.unwrap()->dst,
            ) && r.unwrap()->payload == b.subrange(17, 17 + n) && r.unwrap()->Send_local_vt
                == eight(b, 17 + n)
        },
{
    if b.len() >= 17 {
        lemma_read_four(b, 1);
        lemma_read_two(b, 5);
        lemma_read_four(b, 7);
        lemma_read_two(b, 11);
        lemma_read_four(b, 13);
        let n = four(b, 13);
        if b.len() >= 25 + n {
            lemma_read_eight(b, 17 + n);
        }
    }
}

} // verus!
