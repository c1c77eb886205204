//! The length-prefixed protocol spoken between a node and the broker: a
//! four-byte little-endian length, a one-byte tag, then the message fields.

use vstd::prelude::*;

use crate::abi;
use crate::abi::push_le;
use crate::amap::Key;
use crate::text;
use crate::text::push_dec;

verus! {

/// A virtual network address: an IPv4 address in host byte order and a port.
#[derive(Clone, Copy, PartialEq, Eq, Hash, Debug, Structural)]
pub struct VAddr {
    pub ip: u32,
    pub port: u16,
}

/// The node index that `ip` stands for: node `n` owns `127.0.0.(n + 1)`. A
/// last octet of zero gives the largest index.
pub open spec fn node_of_ip(ip: u32) -> u32 {
    if ip % 256 == 0 {
        u32::MAX
    } else {
        (ip % 256 - 1) as u32
    }
}

/// `a.b.c.d:port`.
pub open spec fn addr_text(ip: u32, port: u16) -> Seq<char> {
    text::dec((ip / 0x100_0000) as nat) + seq!['.'] + text::dec((ip / 0x1_0000 % 256) as nat)
        + seq!['.'] + text::dec((ip / 0x100 % 256) as nat) + seq!['.'] + text::dec(
        (ip % 256) as nat,
    ) + seq![':'] + text::dec(port as nat)
}

impl VAddr {
    #[must_use]
    pub fn new(ip: u32, port: u16) -> (r: Self)
        ensures
            r == (VAddr { ip, port }),
    {
        VAddr { ip, port }
    }

    /// The node index this address belongs to.
    #[must_use]
    pub fn node_of(self) -> (r: u32)
        ensures
            r == node_of_ip(self.ip),
    {
        let ip: u32 = self.ip;
        assert(ip & 0xff == ip % 256) by (bit_vector);
        (ip & 0xff).wrapping_sub(1)
    }

    /// The address as text, `a.b.c.d:port`.
    #[must_use]
    pub fn text(&self) -> (s: String)
        ensures
            s@ == addr_text(self.ip, self.port),
    {
        let mut s = String::new();
        push_addr_text(&mut s, self.ip, self.port);
        assert(s@ =~= addr_text(self.ip, self.port));
        s
    }
}

impl Key for VAddr {
    fn same(&self, other: &Self) -> (b: bool) {
        self.ip == other.ip && self.port == other.port
    }
}

/// Append an address as text.
pub fn push_addr_text(out: &mut String, ip: u32, port: u16)
    ensures
        final(out)@ == old(out)@ + addr_text(ip, port),
{
    push_dec(out, (ip / 0x100_0000) as u64);
    out.push('.');
    push_dec(out, (ip / 0x1_0000 % 256) as u64);
    out.push('.');
    push_dec(out, (ip / 0x100 % 256) as u64);
    out.push('.');
    push_dec(out, (ip % 256) as u64);
    out.push(':');
    push_dec(out, port as u64);
    assert(out@ =~= old(out)@ + addr_text(ip, port));
}

/// Messages that a node sends to the broker.
#[derive(Clone, PartialEq, Eq, Debug)]
pub enum ToBroker {
    /// The first message: the node and the host it runs on. The pair feeds
    /// the order in which a windowed run assigns sends.
    Hello { node_id: u32, host_id: u32 },
    /// Claim `addr` as this connection's receive address.
    Bind { addr: VAddr },
    /// Send a datagram at the sender's local virtual time.
    Send { src: VAddr, dst: VAddr, payload: Vec<u8>, local_vt: u64 },
    /// Ask for the next datagram delivered to `addr`; `blocking` asks the
    /// broker to hold the request until there is one.
    Recv { addr: VAddr, blocking: bool, local_vt: u64 },
    /// A promise to send nothing below `local_vt`.
    Frontier { local_vt: u64 },
    /// A clean farewell; the broker does not reply.
    Goodbye,
}

/// Messages that the broker sends back. `vt` is the broker's virtual clock.
#[derive(Clone, PartialEq, Eq, Debug)]
pub enum FromBroker {
    /// Acknowledges a message that asks for nothing.
    Ack { vt: u64 },
    /// A delivered datagram.
    Deliver { src: VAddr, dst: VAddr, payload: Vec<u8>, vt: u64 },
    /// There was no datagram for a `Recv` that does not wait.
    Empty { vt: u64 },
}

/// What a [`ToBroker`] says, with the payload as a sequence.
pub enum ToBrokerView {
    Hello { node_id: u32, host_id: u32 },
    Bind { addr: VAddr },
    Send { src: VAddr, dst: VAddr, payload: Seq<u8>, local_vt: u64 },
    Recv { addr: VAddr, blocking: bool, local_vt: u64 },
    Frontier { local_vt: u64 },
    Goodbye,
}

/// What a [`FromBroker`] says, with the payload as a sequence.
pub enum FromBrokerView {
    Ack { vt: u64 },
    Deliver { src: VAddr, dst: VAddr, payload: Seq<u8>, vt: u64 },
    Empty { vt: u64 },
}

impl View for ToBroker {
    type V = ToBrokerView;

    open spec fn view(&self) -> ToBrokerView {
        match *self {
            ToBroker::Hello { node_id, host_id } => ToBrokerView::Hello { node_id, host_id },
            ToBroker::Bind { addr } => ToBrokerView::Bind { addr },
            ToBroker::Send { src, dst, payload, local_vt } => ToBrokerView::Send {
                src,
                dst,
                payload: payload@,
                local_vt,
            },
            ToBroker::Recv { addr, blocking, local_vt } => ToBrokerView::Recv {
                addr,
                blocking,
                local_vt,
            },
            ToBroker::Frontier { local_vt } => ToBrokerView::Frontier { local_vt },
            ToBroker::Goodbye => ToBrokerView::Goodbye,
        }
    }
}

impl View for FromBroker {
    type V = FromBrokerView;

    open spec fn view(&self) -> FromBrokerView {
        match *self {
            FromBroker::Ack { vt } => FromBrokerView::Ack { vt },
            FromBroker::Deliver { src, dst, payload, vt } => FromBrokerView::Deliver {
                src,
                dst,
                payload: payload@,
                vt,
            },
            FromBroker::Empty { vt } => FromBrokerView::Empty { vt },
        }
    }
}

// --- encoding ----------------------------------------------------------------

pub open spec fn addr_bytes(a: VAddr) -> Seq<u8> {
    abi::le_bytes(a.ip as nat, 4) + abi::le_bytes(a.port as nat, 2)
}

/// A byte string behind its length; a length beyond 32 bits is written as the
/// largest one.
pub open spec fn counted_bytes(b: Seq<u8>) -> Seq<u8> {
    let n = if b.len() <= u32::MAX {
        b.len()
    } else {
        u32::MAX as nat
    };
    abi::le_bytes(n, 4) + b
}

pub open spec fn datagram_bytes(tag: u8, src: VAddr, dst: VAddr, payload: Seq<u8>, vt: u64) -> Seq<
    u8,
> {
    seq![tag] + addr_bytes(src) + addr_bytes(dst) + counted_bytes(payload) + abi::le_bytes(
        vt as nat,
        8,
    )
}

pub open spec fn to_broker_bytes(m: ToBrokerView) -> Seq<u8> {
    match m {
        ToBrokerView::Hello { node_id, host_id } => seq![1u8] + abi::le_bytes(node_id as nat, 4)
            + abi::le_bytes(host_id as nat, 4),
        ToBrokerView::Bind { addr } => seq![2u8] + addr_bytes(addr),
        ToBrokerView::Send { src, dst, payload, local_vt } => datagram_bytes(
            3,
            src,
            dst,
            payload,
            local_vt,
        ),
        ToBrokerView::Recv { addr, blocking, local_vt } => seq![4u8] + addr_bytes(addr) + seq![
            if blocking {
                1u8
            } else {
                0u8
            },
        ] + abi::le_bytes(local_vt as nat, 8),
        ToBrokerView::Frontier { local_vt } => seq![5u8] + abi::le_bytes(local_vt as nat, 8),
        ToBrokerView::Goodbye => seq![6u8],
    }
}

pub open spec fn from_broker_bytes(m: FromBrokerView) -> Seq<u8> {
    match m {
        FromBrokerView::Ack { vt } => seq![1u8] + abi::le_bytes(vt as nat, 8),
        FromBrokerView::Deliver { src, dst, payload, vt } => datagram_bytes(
            2,
            src,
            dst,
            payload,
            vt,
        ),
        FromBrokerView::Empty { vt } => seq![3u8] + abi::le_bytes(vt as nat, 8),
    }
}

fn put_addr(buf: &mut Vec<u8>, a: VAddr)
    ensures
        final(buf)@ == old(buf)@ + addr_bytes(a),
{
    push_le(buf, a.ip as u64, 4);
    push_le(buf, a.port as u64, 2);
    assert(buf@ =~= old(buf)@ + addr_bytes(a));
}

fn put_raw(buf: &mut Vec<u8>, b: &Vec<u8>)
    ensures
        final(buf)@ == old(buf)@ + b@,
{
    let ghost start = buf@;
    let mut i: usize = 0;
    assert(buf@ =~= start + b@.take(0));
    while i < b.len()
        invariant
            i <= b@.len(),
            buf@ == start + b@.take(i as int),
        decreases b@.len() - i,
    {
        buf.push(b[i]);
        assert(buf@ =~= start + b@.take(i as int + 1));
        i = i + 1;
    }
    assert(b@.take(i as int) =~= b@);
}

fn put_bytes(buf: &mut Vec<u8>, b: &Vec<u8>)
    ensures
        final(buf)@ == old(buf)@ + counted_bytes(b@),
{
    let n: u64 = if b.len() as u64 <= u32::MAX as u64 {
        b.len() as u64
    } else {
        u32::MAX as u64
    };
    push_le(buf, n, 4);
    put_raw(buf, b);
    assert(buf@ =~= old(buf)@ + counted_bytes(b@));
}

fn put_datagram(tag: u8, src: VAddr, dst: VAddr, payload: &Vec<u8>, vt: u64) -> (b: Vec<u8>)
    ensures
        b@ == datagram_bytes(tag, src, dst, payload@, vt),
{
    let mut b: Vec<u8> = Vec::new();
    b.push(tag);
    put_addr(&mut b, src);
    put_addr(&mut b, dst);
    put_bytes(&mut b, payload);
    push_le(&mut b, vt, 8);
    assert(b@ =~= datagram_bytes(tag, src, dst, payload@, vt));
    b
}

// --- decoding ----------------------------------------------------------------

/// The number in the `n` bytes from `i`.
pub open spec fn uint_at(b: Seq<u8>, i: int, n: int) -> nat {
    abi::le_value(b.subrange(i, i + n))
}

pub open spec fn addr_at(b: Seq<u8>, i: int) -> VAddr {
    VAddr { ip: uint_at(b, i, 4) as u32, port: uint_at(b, i + 4, 2) as u16 }
}

/// The fields of a datagram message: source, destination, payload and time,
/// where `b` is long enough to hold them.
pub open spec fn datagram_of(b: Seq<u8>) -> Option<(VAddr, VAddr, Seq<u8>, u64)> {
    if b.len() < 17 {
        None
    } else {
        let n = uint_at(b, 13, 4) as int;
        if b.len() < 17 + n + 8 {
            None
        } else {
            Some(
                (
                    addr_at(b, 1),
                    addr_at(b, 7),
                    b.subrange(17, 17 + n),
                    uint_at(b, 17 + n, 8) as u64,
                ),
            )
        }
    }
}

/// The message that `b` starts with: the tag picks the layout, and bytes
/// behind the last field are ignored.
pub open spec fn to_broker_of(b: Seq<u8>) -> Option<ToBrokerView> {
    if b.len() == 0 {
        None
    } else if b[0] == 1 {
        if b.len() >= 9 {
            Some(
                ToBrokerView::Hello {
                    node_id: uint_at(b, 1, 4) as u32,
                    host_id: uint_at(b, 5, 4) as u32,
                },
            )
        } else {
            None
        }
    } else if b[0] == 2 {
        if b.len() >= 7 {
            Some(ToBrokerView::Bind { addr: addr_at(b, 1) })
        } else {
            None
        }
    } else if b[0] == 3 {
        match datagram_of(b) {
            Some((src, dst, payload, local_vt)) => Some(
                ToBrokerView::Send { src, dst, payload, local_vt },
            ),
            None => None,
        }
    } else if b[0] == 4 {
        if b.len() >= 16 {
            Some(
                ToBrokerView::Recv {
                    addr: addr_at(b, 1),
                    blocking: b[7] != 0,
                    local_vt: uint_at(b, 8, 8) as u64,
                },
            )
        } else {
            None
        }
    } else if b[0] == 5 {
        if b.len() >= 9 {
            Some(ToBrokerView::Frontier { local_vt: uint_at(b, 1, 8) as u64 })
        } else {
            None
        }
    } else if b[0] == 6 {
        Some(ToBrokerView::Goodbye)
    } else {
        None
    }
}

/// The message that `b` starts with, from the broker.
pub open spec fn from_broker_of(b: Seq<u8>) -> Option<FromBrokerView> {
    if b.len() == 0 {
        None
    } else if b[0] == 1 {
        if b.len() >= 9 {
            Some(FromBrokerView::Ack { vt: uint_at(b, 1, 8) as u64 })
        } else {
            None
        }
    } else if b[0] == 2 {
        match datagram_of(b) {
            Some((src, dst, payload, vt)) => Some(
                FromBrokerView::Deliver { src, dst, payload, vt },
            ),
            None => None,
        }
    } else if b[0] == 3 {
        if b.len() >= 9 {
            Some(FromBrokerView::Empty { vt: uint_at(b, 1, 8) as u64 })
        } else {
            None
        }
    } else {
        None
    }
}

proof fn lemma_uint_bound(b: Seq<u8>, i: int, n: int)
    requires
        0 <= i,
        0 <= n,
        i + n <= b.len(),
    ensures
        uint_at(b, i, n) < abi::pow256(n as nat),
{
    abi::lemma_le_value_bound(b.subrange(i, i + n));
}

/// The number in the `n` bytes from `i`.
fn get_uint(b: &[u8], i: usize, n: usize) -> (r: u64)
    requires
        n <= 8,
        i + n <= b@.len(),
    ensures
        r == uint_at(b@, i as int, n as int),
        n == 4 ==> r <= u32::MAX,
        n == 2 ==> r <= u16::MAX,
{
    let total: usize = b.len();
    let mut v: u64 = 0;
    let mut k: usize = n;
    proof {
        assert(b@.subrange(i + n, i + n) =~= Seq::<u8>::empty());
    }
    while k > 0
        invariant
            k <= n <= 8,
            i + n <= b@.len(),
            total == b@.len(),
            v == abi::le_value(b@.subrange(i + k, i + n)),
        decreases k,
    {
        proof {
            let s = b@.subrange(i + k - 1, i + n);
            assert(s.drop_first() =~= b@.subrange(i + k, i + n));
            abi::lemma_le_value_bound(s);
            lemma_pow256_mono((n - k + 1) as nat, 8);
            reveal_with_fuel(abi::pow256, 9);
        }
        v = v * 256 + b[i + k - 1] as u64;
        k = k - 1;
    }
    proof {
        lemma_uint_bound(b@, i as int, n as int);
        reveal_with_fuel(abi::pow256, 9);
    }
    v
}

proof fn lemma_pow256_mono(a: nat, b: nat)
    requires
        a <= b,
    ensures
        abi::pow256(a) <= abi::pow256(b),
        abi::pow256(a) >= 1,
    decreases b,
{
    if a < b {
        lemma_pow256_mono(a, (b - 1) as nat);
    } else if a > 0 {
        lemma_pow256_mono((a - 1) as nat, (b - 1) as nat);
    }
}

fn get_addr(b: &[u8], i: usize) -> (a: VAddr)
    requires
        i + 6 <= b@.len(),
    ensures
        a == addr_at(b@, i as int),
{
    let total: usize = b.len();
    assert(i + 6 <= total);
    VAddr { ip: get_uint(b, i, 4) as u32, port: get_uint(b, i + 4, 2) as u16 }
}

fn get_datagram(b: &[u8]) -> (r: Option<(VAddr, VAddr, Vec<u8>, u64)>)
    ensures
        match r {
            Some((src, dst, payload, vt)) => datagram_of(b@) == Some((src, dst, payload@, vt)),
            None => datagram_of(b@) is None,
        },
{
    if b.len() < 17 {
        return None;
    }
    let n: u64 = get_uint(b, 13, 4);
    if ((b.len() - 17) as u64) < n + 8 {
        return None;
    }
    let n: usize = n as usize;
    let payload = get_range(b, 17, 17 + n);
    Some((get_addr(b, 1), get_addr(b, 7), payload, get_uint(b, 17 + n, 8)))
}

/// A copy of `b[lo..hi]`.
pub fn get_range(b: &[u8], lo: usize, hi: usize) -> (r: Vec<u8>)
    requires
        lo <= hi <= b@.len(),
    ensures
        r@ == b@.subrange(lo as int, hi as int),
{
    let mut r: Vec<u8> = Vec::new();
    let mut i: usize = lo;
    while i < hi
        invariant
            lo <= i <= hi <= b@.len(),
            r@ == b@.subrange(lo as int, i as int),
        decreases hi - i,
    {
        r.push(b[i]);
        assert(b@.subrange(lo as int, i as int + 1) =~= b@.subrange(lo as int, i as int).push(
            b@[i as int],
        ));
        i = i + 1;
    }
    r
}

impl ToBroker {
    /// The message as bytes.
    #[must_use]
    pub fn encode(&self) -> (b: Vec<u8>)
        ensures
            b@ == to_broker_bytes(self@),
    {
        let mut b: Vec<u8> = Vec::new();
        match self {
            ToBroker::Hello { node_id, host_id } => {
                b.push(1);
                push_le(&mut b, *node_id as u64, 4);
                push_le(&mut b, *host_id as u64, 4);
            },
            ToBroker::Bind { addr } => {
                b.push(2);
                put_addr(&mut b, *addr);
            },
            ToBroker::Send { src, dst, payload, local_vt } => {
                b = put_datagram(3, *src, *dst, payload, *local_vt);
            },
            ToBroker::Recv { addr, blocking, local_vt } => {
                b.push(4);
                put_addr(&mut b, *addr);
                b.push(
                    if *blocking {
                        1u8
                    } else {
                        0u8
                    },
                );
                push_le(&mut b, *local_vt, 8);
            },
            ToBroker::Frontier { local_vt } => {
                b.push(5);
                push_le(&mut b, *local_vt, 8);
            },
            ToBroker::Goodbye => {
                b.push(6);
            },
        }
        assert(b@ =~= to_broker_bytes(self@));
        b
    }

    /// Read a message; `None` on an unknown tag or missing bytes.
    #[must_use]
    pub fn decode(buf: &[u8]) -> (r: Option<Self>)
        ensures
            match r {
                Some(m) => to_broker_of(buf@) == Some(m@),
                None => to_broker_of(buf@) is None,
            },
    {
        if buf.len() == 0 {
            return None;
        }
        let tag: u8 = buf[0];
        if tag == 1 {
            if buf.len() < 9 {
                return None;
            }
            Some(
                ToBroker::Hello {
                    node_id: get_uint(buf, 1, 4) as u32,
                    host_id: get_uint(buf, 5, 4) as u32,
                },
            )
        } else if tag == 2 {
            if buf.len() < 7 {
                return None;
            }
            Some(ToBroker::Bind { addr: get_addr(buf, 1) })
        } else if tag == 3 {
            match get_datagram(buf) {
                Some((src, dst, payload, local_vt)) => Some(
                    ToBroker::Send { src, dst, payload, local_vt },
                ),
                None => None,
            }
        } else if tag == 4 {
            if buf.len() < 16 {
                return None;
            }
            Some(
                ToBroker::Recv {
                    addr: get_addr(buf, 1),
                    blocking: buf[7] != 0,
                    local_vt: get_uint(buf, 8, 8),
                },
            )
        } else if tag == 5 {
            if buf.len() < 9 {
                return None;
            }
            Some(ToBroker::Frontier { local_vt: get_uint(buf, 1, 8) })
        } else if tag == 6 {
            Some(ToBroker::Goodbye)
        } else {
            None
        }
    }
}

impl FromBroker {
    /// The message as bytes.
    #[must_use]
    pub fn encode(&self) -> (b: Vec<u8>)
        ensures
            b@ == from_broker_bytes(self@),
    {
        let mut b: Vec<u8> = Vec::new();
        match self {
            FromBroker::Ack { vt } => {
                b.push(1);
                push_le(&mut b, *vt, 8);
            },
            FromBroker::Deliver { src, dst, payload, vt } => {
                b = put_datagram(2, *src, *dst, payload, *vt);
            },
            FromBroker::Empty { vt } => {
                b.push(3);
                push_le(&mut b, *vt, 8);
            },
        }
        assert(b@ =~= from_broker_bytes(self@));
        b
    }

    /// Read a message; `None` on an unknown tag or missing bytes.
    #[must_use]
    pub fn decode(buf: &[u8]) -> (r: Option<Self>)
        ensures
            match r {
                Some(m) => from_broker_of(buf@) == Some(m@),
                None => from_broker_of(buf@) is None,
            },
    {
        if buf.len() == 0 {
            return None;
        }
        let tag: u8 = buf[0];
        if tag == 2 {
            match get_datagram(buf) {
                Some((src, dst, payload, vt)) => Some(FromBroker::Deliver { src, dst, payload, vt }),
                None => None,
            }
        } else if tag == 1 || tag == 3 {
            if buf.len() < 9 {
                return None;
            }
            let vt: u64 = get_uint(buf, 1, 8);
            if tag == 1 {
                Some(FromBroker::Ack { vt })
            } else {
                Some(FromBroker::Empty { vt })
            }
        } else {
            None
        }
    }
}

// --- the round trip ----------------------------------------------------------

proof fn lemma_uint_field(b: Seq<u8>, i: int, x: nat, n: nat, front: Seq<u8>, back: Seq<u8>)
    requires
        b == front + abi::le_bytes(x, n) + back,
        i == front.len(),
        x < abi::pow256(n),
    ensures
        uint_at(b, i, n as int) == x,
{
    abi::lemma_le_round_trip(x, n);
    assert(b.subrange(i, i + n) =~= abi::le_bytes(x, n));
}

proof fn lemma_addr_field(b: Seq<u8>, i: int, a: VAddr, front: Seq<u8>, back: Seq<u8>)
    requires
        b == front + addr_bytes(a) + back,
        i == front.len(),
    ensures
        addr_at(b, i) == a,
{
    reveal_with_fuel(abi::pow256, 5);
    abi::lemma_le_len(a.ip as nat, 4);
    abi::lemma_le_len(a.port as nat, 2);
    let ip = abi::le_bytes(a.ip as nat, 4);
    let port = abi::le_bytes(a.port as nat, 2);
    assert(b =~= front + ip + (port + back));
    lemma_uint_field(b, i, a.ip as nat, 4, front, port + back);
    assert(b =~= (front + ip) + port + back);
    lemma_uint_field(b, i + 4, a.port as nat, 2, front + ip, back);
}

proof fn lemma_datagram(tag: u8, src: VAddr, dst: VAddr, payload: Seq<u8>, vt: u64, tail: Seq<u8>)
    requires
        payload.len() <= u32::MAX,
    ensures
        datagram_of(datagram_bytes(tag, src, dst, payload, vt) + tail) == Some(
            (src, dst, payload, vt),
        ),
{
    reveal_with_fuel(abi::pow256, 9);
    let b = datagram_bytes(tag, src, dst, payload, vt) + tail;
    let t = seq![tag];
    let s = addr_bytes(src);
    let d = addr_bytes(dst);
    let n = abi::le_bytes(payload.len(), 4);
    let v = abi::le_bytes(vt as nat, 8);
    abi::lemma_le_len(src.ip as nat, 4);
    abi::lemma_le_len(src.port as nat, 2);
    abi::lemma_le_len(dst.ip as nat, 4);
    abi::lemma_le_len(dst.port as nat, 2);
    abi::lemma_le_len(payload.len(), 4);
    abi::lemma_le_len(vt as nat, 8);
    assert(b =~= t + s + (d + n + payload + v + tail));
    lemma_addr_field(b, 1, src, t, d + n + payload + v + tail);
    assert(b =~= (t + s) + d + (n + payload + v + tail));
    lemma_addr_field(b, 7, dst, t + s, n + payload + v + tail);
    assert(b =~= (t + s + d) + n + (payload + v + tail));
    lemma_uint_field(b, 13, payload.len(), 4, t + s + d, payload + v + tail);
    assert(b.subrange(17, 17 + payload.len() as int) =~= payload);
    assert(b =~= (t + s + d + n + payload) + v + tail);
    lemma_uint_field(b, 17 + payload.len() as int, vt as nat, 8, t + s + d + n + payload, tail);
}

/// The length of a payload that a message can carry: its length field has 32
/// bits.
pub open spec fn to_broker_fits(m: ToBrokerView) -> bool {
    m matches ToBrokerView::Send { payload, .. } ==> payload.len() <= u32::MAX
}

pub open spec fn from_broker_fits(m: FromBrokerView) -> bool {
    m matches FromBrokerView::Deliver { payload, .. } ==> payload.len() <= u32::MAX
}

/// A message to the broker is read back from its bytes, whatever follows them.
pub proof fn law_to_broker_round_trip(m: ToBrokerView, tail: Seq<u8>)
    requires
        to_broker_fits(m),
    ensures
        to_broker_of(to_broker_bytes(m) + tail) == Some(m),
{
    reveal_with_fuel(abi::pow256, 9);
    let b = to_broker_bytes(m) + tail;
    match m {
        ToBrokerView::Hello { node_id, host_id } => {
            let x = abi::le_bytes(node_id as nat, 4);
            let y = abi::le_bytes(host_id as nat, 4);
            abi::lemma_le_len(node_id as nat, 4);
            abi::lemma_le_len(host_id as nat, 4);
            assert(b =~= seq![1u8] + x + (y + tail));
            lemma_uint_field(b, 1, node_id as nat, 4, seq![1u8], y + tail);
            assert(b =~= (seq![1u8] + x) + y + tail);
            lemma_uint_field(b, 5, host_id as nat, 4, seq![1u8] + x, tail);
        },
        ToBrokerView::Bind { addr } => {
            abi::lemma_le_len(addr.ip as nat, 4);
            abi::lemma_le_len(addr.port as nat, 2);
            lemma_addr_field(b, 1, addr, seq![2u8], tail);
        },
        ToBrokerView::Send { src, dst, payload, local_vt } => {
            lemma_datagram(3, src, dst, payload, local_vt, tail);
        },
        ToBrokerView::Recv { addr, blocking, local_vt } => {
            let a = addr_bytes(addr);
            let f = seq![
                if blocking {
                    1u8
                } else {
                    0u8
                },
            ];
            let v = abi::le_bytes(local_vt as nat, 8);
            abi::lemma_le_len(addr.ip as nat, 4);
            abi::lemma_le_len(addr.port as nat, 2);
            abi::lemma_le_len(local_vt as nat, 8);
            assert(b =~= seq![4u8] + a + (f + v + tail));
            lemma_addr_field(b, 1, addr, seq![4u8], f + v + tail);
            assert(b =~= (seq![4u8] + a + f) + v + tail);
            lemma_uint_field(b, 8, local_vt as nat, 8, seq![4u8] + a + f, tail);
        },
        ToBrokerView::Frontier { local_vt } => {
            abi::lemma_le_len(local_vt as nat, 8);
            lemma_uint_field(b, 1, local_vt as nat, 8, seq![5u8], tail);
        },
        ToBrokerView::Goodbye => {},
    }
}

/// A message from the broker is read back from its bytes, whatever follows
/// them.
pub proof fn law_from_broker_round_trip(m: FromBrokerView, tail: Seq<u8>)
    requires
        from_broker_fits(m),
    ensures
        from_broker_of(from_broker_bytes(m) + tail) == Some(m),
{
    reveal_with_fuel(abi::pow256, 9);
    let b = from_broker_bytes(m) + tail;
    match m {
        FromBrokerView::Ack { vt } => {
            abi::lemma_le_len(vt as nat, 8);
            lemma_uint_field(b, 1, vt as nat, 8, seq![1u8], tail);
        },
        FromBrokerView::Deliver { src, dst, payload, vt } => {
            lemma_datagram(2, src, dst, payload, vt, tail);
        },
        FromBrokerView::Empty { vt } => {
            abi::lemma_le_len(vt as nat, 8);
            lemma_uint_field(b, 1, vt as nat, 8, seq![3u8], tail);
        },
    }
}

// --- framing -----------------------------------------------------------------

/// The cap on a frame that is read, so that a corrupt length cannot ask for a
/// huge allocation.
pub const MAX_FRAME: u32 = 16 * 1024 * 1024;

/// Why a frame cannot be written or read.
#[derive(Clone, Copy, PartialEq, Eq, Debug, Structural)]
pub enum WireError {
    /// The frame is longer than its length field, or than [`MAX_FRAME`].
    TooLarge,
    /// The bytes end before the frame does.
    Short,
    /// The frame holds no message.
    Malformed,
}

/// A payload behind its length.
pub open spec fn framed(p: Seq<u8>) -> Seq<u8> {
    abi::le_bytes(p.len(), 4) + p
}

/// The payload of the frame that `b` starts with.
pub open spec fn unframed(b: Seq<u8>) -> Result<Seq<u8>, WireError> {
    if b.len() < 4 {
        Err(WireError::Short)
    } else if uint_at(b, 0, 4) > MAX_FRAME {
        Err(WireError::TooLarge)
    } else if b.len() < 4 + uint_at(b, 0, 4) {
        Err(WireError::Short)
    } else {
        Ok(b.subrange(4, 4 + uint_at(b, 0, 4) as int))
    }
}

/// Append a frame that holds `payload`; nothing is written when it is too
/// long for the length field.
fn write_frame(w: &mut Vec<u8>, payload: &Vec<u8>) -> (r: Result<(), WireError>)
    ensures
        match r {
            Ok(_) => payload@.len() <= u32::MAX && final(w)@ == old(w)@ + framed(payload@),
            Err(e) => payload@.len() > u32::MAX && e == WireError::TooLarge && final(w)@
                == old(w)@,
        },
{
    if payload.len() as u64 > u32::MAX as u64 {
        return Err(WireError::TooLarge);
    }
    push_le(w, payload.len() as u64, 4);
    put_raw(w, payload);
    assert(w@ =~= old(w)@ + framed(payload@));
    Ok(())
}

/// The length of the frame whose first four bytes are `header`.
pub fn frame_len(header: &[u8]) -> (r: Result<usize, WireError>)
    ensures
        match r {
            Ok(n) => header@.len() >= 4 && n == uint_at(header@, 0, 4) && n <= MAX_FRAME,
            Err(WireError::Short) => header@.len() < 4,
            Err(e) => e == WireError::TooLarge && header@.len() >= 4 && uint_at(header@, 0, 4)
                > MAX_FRAME,
        },
{
    if header.len() < 4 {
        return Err(WireError::Short);
    }
    let n: u64 = get_uint(header, 0, 4);
    if n > MAX_FRAME as u64 {
        return Err(WireError::TooLarge);
    }
    Ok(n as usize)
}

fn read_frame(r: &[u8]) -> (f: Result<Vec<u8>, WireError>)
    ensures
        match f {
            Ok(p) => unframed(r@) == Ok::<Seq<u8>, WireError>(p@),
            Err(e) => unframed(r@) == Err::<Seq<u8>, WireError>(e),
        },
{
    match frame_len(r) {
        Ok(n) => {
            if r.len() - 4 < n {
                Err(WireError::Short)
            } else {
                Ok(get_range(r, 4, 4 + n))
            }
        },
        Err(e) => Err(e),
    }
}

/// Append a message to the broker, framed, to the bytes to be written.
pub fn write_to_broker(w: &mut Vec<u8>, m: &ToBroker) -> (r: Result<(), WireError>)
    ensures
        match r {
            Ok(_) => to_broker_bytes(m@).len() <= u32::MAX && final(w)@ == old(w)@ + framed(
                to_broker_bytes(m@),
            ),
            Err(e) => to_broker_bytes(m@).len() > u32::MAX && e == WireError::TooLarge
                && final(w)@ == old(w)@,
        },
{
    let b = m.encode();
    write_frame(w, &b)
}

/// Append a message from the broker, framed, to the bytes to be written.
pub fn write_from_broker(w: &mut Vec<u8>, m: &FromBroker) -> (r: Result<(), WireError>)
    ensures
        match r {
            Ok(_) => from_broker_bytes(m@).len() <= u32::MAX && final(w)@ == old(w)@ + framed(
                from_broker_bytes(m@),
            ),
            Err(e) => from_broker_bytes(m@).len() > u32::MAX && e == WireError::TooLarge
                && final(w)@ == old(w)@,
        },
{
    let b = m.encode();
    write_frame(w, &b)
}

/// The message in the frame that `b` starts with.
pub open spec fn framed_to_broker(b: Seq<u8>) -> Result<ToBrokerView, WireError> {
    match unframed(b) {
        Ok(p) => match to_broker_of(p) {
            Some(m) => Ok(m),
            None => Err(WireError::Malformed),
        },
        Err(e) => Err(e),
    }
}

pub open spec fn framed_from_broker(b: Seq<u8>) -> Result<FromBrokerView, WireError> {
    match unframed(b) {
        Ok(p) => match from_broker_of(p) {
            Some(m) => Ok(m),
            None => Err(WireError::Malformed),
        },
        Err(e) => Err(e),
    }
}

/// Read the message to the broker in the frame that `r` starts with.
pub fn read_to_broker(r: &[u8]) -> (m: Result<ToBroker, WireError>)
    ensures
        match m {
            Ok(x) => framed_to_broker(r@) == Ok::<ToBrokerView, WireError>(x@),
            Err(e) => framed_to_broker(r@) == Err::<ToBrokerView, WireError>(e),
        },
{
    match read_frame(r) {
        Ok(p) => match ToBroker::decode(p.as_slice()) {
            Some(x) => Ok(x),
            None => Err(WireError::Malformed),
        },
        Err(e) => Err(e),
    }
}

/// Read the message from the broker in the frame that `r` starts with.
pub fn read_from_broker(r: &[u8]) -> (m: Result<FromBroker, WireError>)
    ensures
        match m {
            Ok(x) => framed_from_broker(r@) == Ok::<FromBrokerView, WireError>(x@),
            Err(e) => framed_from_broker(r@) == Err::<FromBrokerView, WireError>(e),
        },
{
    match read_frame(r) {
        Ok(p) => match FromBroker::decode(p.as_slice()) {
            Some(x) => Ok(x),
            None => Err(WireError::Malformed),
        },
        Err(e) => Err(e),
    }
}

proof fn lemma_unframed(p: Seq<u8>, tail: Seq<u8>)
    requires
        p.len() <= MAX_FRAME,
    ensures
        unframed(framed(p) + tail) == Ok::<Seq<u8>, WireError>(p),
{
    reveal_with_fuel(abi::pow256, 5);
    let b = framed(p) + tail;
    let n = abi::le_bytes(p.len(), 4);
    abi::lemma_le_len(p.len(), 4);
    assert(b =~= Seq::<u8>::empty() + n + (p + tail));
    lemma_uint_field(b, 0, p.len(), 4, Seq::<u8>::empty(), p + tail);
    assert(b.subrange(4, 4 + p.len() as int) =~= p);
}

/// A framed message to the broker is read back, whatever follows the frame,
/// as long as the frame keeps to the cap for reading.
pub proof fn law_frame_to_broker_round_trip(m: ToBrokerView, tail: Seq<u8>)
    requires
        to_broker_bytes(m).len() <= MAX_FRAME,
    ensures
        framed_to_broker(framed(to_broker_bytes(m)) + tail) == Ok::<ToBrokerView, WireError>(m),
{
    lemma_unframed(to_broker_bytes(m), tail);
    if let ToBrokerView::Send { payload, .. } = m {
        assert(payload.len() <= to_broker_bytes(m).len());
    }
    law_to_broker_round_trip(m, Seq::empty());
    assert(to_broker_bytes(m) + Seq::<u8>::empty() =~= to_broker_bytes(m));
}

/// A framed message from the broker is read back, whatever follows the frame,
/// as long as the frame keeps to the cap for reading.
pub proof fn law_frame_from_broker_round_trip(m: FromBrokerView, tail: Seq<u8>)
    requires
        from_broker_bytes(m).len() <= MAX_FRAME,
    ensures
        framed_from_broker(framed(from_broker_bytes(m)) + tail) == Ok::<
            FromBrokerView,
            WireError,
        >(m),
{
    lemma_unframed(from_broker_bytes(m), tail);
    if let FromBrokerView::Deliver { payload, .. } = m {
        assert(payload.len() <= from_broker_bytes(m).len());
    }
    law_from_broker_round_trip(m, Seq::empty());
    assert(from_broker_bytes(m) + Seq::<u8>::empty() =~= from_broker_bytes(m));
}

} // verus!
