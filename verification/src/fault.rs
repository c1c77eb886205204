//! The seeded network fault model. The fate of a datagram is a function of the
//! run seed, the channel and the datagram's number on it, never of the order
//! in which datagrams reach the broker.

use vstd::arithmetic::power2::{lemma2_to64, lemma_pow2_strictly_increases};
use vstd::prelude::*;

use crate::abi;
use crate::abi::splitmix64;
use crate::round;
use crate::round::{scale_span, TWO53};
use crate::wire;
use crate::wire::VAddr;

verus! {

/// A latency distribution, in nanoseconds of virtual delay.
#[derive(Clone, Copy, Debug, PartialEq, Eq, Structural)]
pub enum Latency {
    /// Constant delay.
    Fixed(u64),
    /// Uniform from `lo` to `hi`.
    Uniform { lo: u64, hi: u64 },
    /// Exponential with the given mean.
    Exponential { mean: u64 },
}

/// The least delay that a distribution gives.
pub open spec fn least_delay(l: Latency) -> u64 {
    match l {
        Latency::Fixed(d) => d,
        Latency::Uniform { lo, .. } => lo,
        Latency::Exponential { .. } => 0,
    }
}

/// The delay for the deviate `k / 2^53`. An exponential delay is `tail`, the
/// inverse distribution function at that deviate, cut at twenty times the
/// mean.
pub open spec fn sampled(l: Latency, k: u64, tail: u64) -> u64 {
    match l {
        Latency::Fixed(d) => d,
        Latency::Uniform { lo, hi } => if lo <= hi {
            (lo + round::scaled((hi - lo) as nat, k as nat)) as u64
        } else {
            lo
        },
        Latency::Exponential { mean } => {
            let cap = if mean * 20 > u64::MAX {
                u64::MAX
            } else {
                (mean * 20) as u64
            };
            if tail < cap {
                tail
            } else {
                cap
            }
        },
    }
}

impl Latency {
    /// The least delay this distribution can give: the lookahead that the
    /// windowed protocol builds on.
    #[must_use]
    pub fn min_ns(self) -> (r: u64)
        ensures
            r == least_delay(self),
    {
        match self {
            Latency::Fixed(d) => d,
            Latency::Uniform { lo, hi: _ } => lo,
            Latency::Exponential { mean: _ } => 0,
        }
    }

    /// A delay for the deviate `k / 2^53`. `tail` is the exponential draw
    /// `-mean * ln(1 - k / 2^53)`, cut to an integer; the other distributions
    /// do not look at it.
    #[must_use]
    pub fn sample(self, k: u64, tail: u64) -> (r: u64)
        requires
            k < TWO53,
        ensures
            r == sampled(self, k, tail),
    {
        match self {
            Latency::Fixed(d) => d,
            Latency::Uniform { lo, hi } => {
                if lo <= hi {
                    lo + scale_span(hi - lo, k)
                } else {
                    lo
                }
            },
            Latency::Exponential { mean } => {
                let cap: u64 = capped_mul(mean, 20);
                if tail < cap {
                    tail
                } else {
                    cap
                }
            },
        }
    }
}

/// The product, or the largest number where it does not fit.
pub fn capped_mul(a: u64, b: u64) -> (r: u64)
    ensures
        r == (if a * b > u64::MAX {
            u64::MAX
        } else {
            (a * b) as u64
        }),
{
    match a.checked_mul(b) {
        Some(p) => p,
        None => u64::MAX,
    }
}

/// Where exponential draws come from: what the natural logarithm gives for a
/// mean and a deviate.
pub trait TailSource {
    /// The draw for `mean` and the deviate `k / 2^53`.
    spec fn tail_of(&self, mean: u64, k: u64) -> u64;

    fn tail(&self, mean: u64, k: u64) -> (r: u64)
        requires
            k < TWO53,
        ensures
            r == self.tail_of(mean, k),
    ;
}

/// Draws that were worked out before; 0 for any other.
#[derive(Clone, Debug)]
pub struct TailTable {
    /// Mean, deviate and draw.
    pub rows: Vec<(u64, u64, u64)>,
}

/// The draw in the first row at or after the `i`-th that fits.
pub open spec fn tabled(rows: Seq<(u64, u64, u64)>, mean: u64, k: u64, i: int) -> u64
    decreases rows.len() - i,
{
    if i < 0 || i >= rows.len() {
        0
    } else if rows[i].0 == mean && rows[i].1 == k {
        rows[i].2
    } else {
        tabled(rows, mean, k, i + 1)
    }
}

impl TailSource for TailTable {
    open spec fn tail_of(&self, mean: u64, k: u64) -> u64 {
        tabled(self.rows@, mean, k, 0)
    }

    fn tail(&self, mean: u64, k: u64) -> (r: u64) {
        let mut i: usize = 0;
        while i < self.rows.len()
            invariant
                i <= self.rows@.len(),
                tabled(self.rows@, mean, k, 0) == tabled(self.rows@, mean, k, i as int),
            decreases self.rows@.len() - i,
        {
            if self.rows[i].0 == mean && self.rows[i].1 == k {
                return self.rows[i].2;
            }
            i = i + 1;
        }
        0
    }
}

/// A sample is never below the least delay, and a uniform one stays within
/// its bounds.
pub proof fn law_sample_bounds(l: Latency, k: u64, tail: u64)
    requires
        k < TWO53,
    ensures
        least_delay(l) <= sampled(l, k, tail),
        l matches Latency::Uniform { lo, hi } ==> (lo <= hi ==> sampled(l, k, tail) <= hi),
        l matches Latency::Exponential { mean } ==> sampled(l, k, tail) <= mean * 20,
{
    if let Latency::Uniform { lo, hi } = l {
        if lo <= hi {
            round::lemma_scaled_within((hi - lo) as nat, k as nat);
        }
    }
}

// ---------------------------------------------------------------------------
// Partitions
// ---------------------------------------------------------------------------

/// A network partition: groups of nodes. Nodes in no group share one implicit
/// group of their own; without groups nothing is blocked.
#[derive(Clone, Debug, PartialEq)]
pub struct Partition {
    groups: Vec<Vec<u32>>,
}

pub open spec fn group_views(g: Seq<Vec<u32>>) -> Seq<Seq<u32>> {
    g.map_values(|v: Vec<u32>| v@)
}

impl View for Partition {
    type V = Seq<Seq<u32>>;

    closed spec fn view(&self) -> Seq<Seq<u32>> {
        group_views(self.groups@)
    }
}

/// The first group at or after the `i`-th that holds `node`; the number of
/// groups where none does.
pub open spec fn group_from(groups: Seq<Seq<u32>>, node: u32, i: int) -> int
    decreases groups.len() - i,
{
    if i < 0 || i >= groups.len() {
        groups.len() as int
    } else if groups[i].contains(node) {
        i
    } else {
        group_from(groups, node, i + 1)
    }
}

/// Whether traffic between two nodes is cut.
pub open spec fn cut(groups: Seq<Seq<u32>>, a: u32, b: u32) -> bool {
    groups.len() > 0 && group_from(groups, a, 0) != group_from(groups, b, 0)
}

impl Default for Partition {
    fn default() -> (r: Self)
        ensures
            r@ == Seq::<Seq<u32>>::empty(),
    {
        Partition::none()
    }
}

impl Partition {
    #[must_use]
    pub fn none() -> (r: Self)
        ensures
            r@ == Seq::<Seq<u32>>::empty(),
    {
        let r = Partition { groups: Vec::new() };
        assert(r@ =~= Seq::<Seq<u32>>::empty());
        r
    }

    #[must_use]
    pub fn from_groups(groups: Vec<Vec<u32>>) -> (r: Self)
        ensures
            r@ == group_views(groups@),
    {
        Partition { groups }
    }

    /// The index of the group of `node`; the number of groups for the
    /// implicit one.
    fn group_of(&self, node: u32) -> (r: usize)
        ensures
            r == group_from(self@, node, 0),
    {
        let mut i: usize = 0;
        while i < self.groups.len()
            invariant
                i <= self.groups@.len(),
                group_from(self@, node, 0) == group_from(self@, node, i as int),
            decreases self.groups@.len() - i,
        {
            assert(self@[i as int] == self.groups@[i as int]@);
            if holds(&self.groups[i], node) {
                return i;
            }
            i = i + 1;
        }
        i
    }

    /// Whether traffic from node `a` to node `b` is blocked.
    #[must_use]
    pub fn blocked(&self, a: u32, b: u32) -> (r: bool)
        ensures
            r == cut(self@, a, b),
    {
        if self.groups.len() == 0 {
            return false;
        }
        self.group_of(a) != self.group_of(b)
    }
}

fn holds(v: &Vec<u32>, x: u32) -> (b: bool)
    ensures
        b == v@.contains(x),
{
    let mut i: usize = 0;
    while i < v.len()
        invariant
            i <= v@.len(),
            forall|j: int| 0 <= j < i ==> v@[j] != x,
        decreases v@.len() - i,
    {
        if v[i] == x {
            return true;
        }
        i = i + 1;
    }
    false
}

/// A partition cuts both directions alike, and never a node from itself.
pub proof fn law_cut_symmetric(groups: Seq<Seq<u32>>, a: u32, b: u32)
    ensures
        cut(groups, a, b) == cut(groups, b, a),
        !cut(groups, a, a),
{
}

// ---------------------------------------------------------------------------
// Loss
// ---------------------------------------------------------------------------

/// Whether `k / 2^53` is less than the double-precision number with the given
/// bits. With sign 0, exponent field `e` below 2047 and fraction `m`, that
/// number is `(2^52 + m) * 2^(e - 1075)`, or `m * 2^-1074` where `e` is 0.
pub open spec fn less_than_bits(k: nat, bits: u64) -> bool {
    let e = bits / 0x10_0000_0000_0000 % 2048;
    let m = bits % 0x10_0000_0000_0000;
    if bits >= 0x8000_0000_0000_0000 {
        // A negative number, or negative zero.
        false
    } else if e == 2047 {
        // Infinity, or not a number.
        m == 0
    } else if e >= 1023 {
        // At least one.
        true
    } else if e >= 1 {
        k * vstd::arithmetic::power2::pow2((1022 - e) as nat) < 0x10_0000_0000_0000 + m
    } else {
        k * vstd::arithmetic::power2::pow2(1021) < m
    }
}

/// A loss probability, held by the bits of its double-precision form.
#[derive(Clone, Copy, Debug, PartialEq, Eq, Structural)]
pub struct Loss {
    pub bits: u64,
}

/// Whether the bits write a number from zero to one.
pub open spec fn is_probability(bits: u64) -> bool {
    bits <= 0x3ff0_0000_0000_0000 || bits == 0x8000_0000_0000_0000
}

impl Loss {
    /// No loss.
    #[must_use]
    pub fn zero() -> (r: Self)
        ensures
            r == (Loss { bits: 0 }),
    {
        Loss { bits: 0 }
    }

    /// The probability with the given bits; `None` where they do not write a
    /// number from zero to one.
    #[must_use]
    pub fn from_bits(bits: u64) -> (r: Option<Self>)
        ensures
            r == (if is_probability(bits) {
                Some(Loss { bits })
            } else {
                None
            }),
    {
        if bits <= 0x3ff0_0000_0000_0000 || bits == 0x8000_0000_0000_0000 {
            Some(Loss { bits })
        } else {
            None
        }
    }

    /// Whether the deviate `k / 2^53` falls below the probability.
    #[must_use]
    pub fn exceeds(self, k: u64) -> (r: bool)
        requires
            k < TWO53,
        ensures
            r == less_than_bits(k as nat, self.bits),
    {
        let bits: u64 = self.bits;
        let e: u64 = bits / 0x10_0000_0000_0000 % 2048;
        let m: u64 = bits % 0x10_0000_0000_0000;
        if bits >= 0x8000_0000_0000_0000 {
            return false;
        }
        if e == 2047 {
            return m == 0;
        }
        if e >= 1023 {
            return true;
        }
        let (top, shift): (u64, u64) = if e >= 1 {
            (0x10_0000_0000_0000 + m, 1022 - e)
        } else {
            (m, 1021)
        };
        shifted_below(k, shift, top)
    }
}

/// Whether `k * 2^shift` is less than `top`.
fn shifted_below(k: u64, shift: u64, top: u64) -> (r: bool)
    requires
        top < TWO53,
        shift <= 1021,
    ensures
        r == (k * vstd::arithmetic::power2::pow2(shift as nat) < top),
{
    if k == 0 {
        assert(0 * vstd::arithmetic::power2::pow2(shift as nat) == 0) by (nonlinear_arith);
        return 0 < top;
    }
    if shift >= 53 {
        proof {
            lemma2_to64();
            if shift > 53 {
                lemma_pow2_strictly_increases(53, shift as nat);
            }
            let w = vstd::arithmetic::power2::pow2(shift as nat);
            assert(k * w >= w) by (nonlinear_arith)
                requires
                    k >= 1,
                    w >= 0,
            ;
            assert(w >= TWO53) by {
                vstd::arithmetic::power2::lemma2_to64_rest();
            }
        }
        return false;
    }
    let mut w: u128 = 1;
    let mut i: u64 = 0;
    proof {
        lemma2_to64();
    }
    while i < shift
        invariant
            i <= shift < 53,
            w == vstd::arithmetic::power2::pow2(i as nat),
            w <= 0x20_0000_0000_0000,
        decreases shift - i,
    {
        proof {
            vstd::arithmetic::power2::lemma_pow2_unfold(i as nat + 1);
            vstd::arithmetic::power2::lemma2_to64_rest();
            if i + 1 < 53 {
                lemma_pow2_strictly_increases(i as nat + 1, 53);
            }
        }
        w = w * 2;
        i = i + 1;
    }
    proof {
        assert(k * w <= 0xffff_ffff_ffff_ffff * 0x20_0000_0000_0000) by (nonlinear_arith)
            requires
                k <= 0xffff_ffff_ffff_ffff,
                w <= 0x20_0000_0000_0000,
        ;
    }
    k as u128 * w < top as u128
}

/// Zero loses nothing and one loses everything.
pub proof fn law_loss_extremes(k: u64)
    requires
        k < TWO53,
    ensures
        !less_than_bits(k as nat, 0),
        !less_than_bits(k as nat, 0x8000_0000_0000_0000),
        less_than_bits(k as nat, 0x3ff0_0000_0000_0000),
{
    assert(k * vstd::arithmetic::power2::pow2(1021) >= 0) by (nonlinear_arith);
}

// ---------------------------------------------------------------------------
// The model
// ---------------------------------------------------------------------------

/// The complete fault model.
#[derive(Clone, Debug)]
pub struct FaultModel {
    pub seed: u64,
    pub latency: Latency,
    /// The probability with which a datagram is lost, independently.
    pub loss: Loss,
    /// The bandwidth in bytes per second; 0 means unlimited. It adds to a
    /// datagram's delay the time that its bytes take.
    pub bandwidth_bps: u64,
    pub partition: Partition,
}

/// What a fault model holds.
pub struct ModelView {
    pub seed: u64,
    pub latency: Latency,
    pub loss: u64,
    pub bandwidth_bps: u64,
    pub groups: Seq<Seq<u32>>,
}

impl View for FaultModel {
    type V = ModelView;

    open spec fn view(&self) -> ModelView {
        ModelView {
            seed: self.seed,
            latency: self.latency,
            loss: self.loss.bits,
            bandwidth_bps: self.bandwidth_bps,
            groups: self.partition@,
        }
    }
}

/// What the model decides for one datagram.
#[derive(Clone, Copy, Debug, PartialEq, Eq, Structural)]
pub struct Fate {
    pub dropped: bool,
    /// Virtual nanoseconds from send to delivery; 0 where it is dropped.
    pub delay_ns: u64,
}

/// One step of mixing a value into the state of a stream.
pub open spec fn mixed_in(x: u64, v: u64) -> u64 {
    abi::splitmix_out(x ^ v.wrapping_mul(0x9E37_79B9_7F4A_7C15))
}

/// The random state of a datagram, from what identifies it.
pub open spec fn stream_of(seed: u64, src: VAddr, dst: VAddr, seq: u64) -> u64 {
    let x0 = seed ^ 0x517c_c1b7_2722_0a95;
    let x1 = mixed_in(x0, src.ip as u64);
    let x2 = mixed_in(x1, src.port as u64);
    let x3 = mixed_in(x2, dst.ip as u64);
    let x4 = mixed_in(x3, dst.port as u64);
    mixed_in(x4, seq)
}

/// The deviate that decides on loss: the top 53 bits of the first output.
pub open spec fn loss_deviate(seed: u64, src: VAddr, dst: VAddr, seq: u64) -> u64 {
    abi::splitmix_out(stream_of(seed, src, dst, seq)) / 2048
}

/// The deviate that decides on latency: the top 53 bits of the second output.
pub open spec fn latency_deviate(seed: u64, src: VAddr, dst: VAddr, seq: u64) -> u64 {
    abi::splitmix_out(abi::splitmix_next(stream_of(seed, src, dst, seq))) / 2048
}

/// The time that `len` bytes take at `bps` bytes per second, where it is
/// limited.
pub open spec fn transmission(len: nat, bps: u64) -> nat {
    if bps == 0 {
        0
    } else {
        let work: nat = if len * 1_000_000_000 > u64::MAX {
            u64::MAX as nat
        } else {
            len * 1_000_000_000
        };
        work / bps as nat
    }
}

/// The fate of the `seq`-th datagram from `src` to `dst`, of `len` bytes.
pub open spec fn fate_of(
    m: ModelView,
    src: VAddr,
    dst: VAddr,
    seq: u64,
    len: nat,
    tail: u64,
) -> Fate {
    if cut(m.groups, wire::node_of_ip(src.ip), wire::node_of_ip(dst.ip)) {
        Fate { dropped: true, delay_ns: 0 }
    } else if less_than_bits(loss_deviate(m.seed, src, dst, seq) as nat, m.loss) {
        Fate { dropped: true, delay_ns: 0 }
    } else {
        let d = sampled(m.latency, latency_deviate(m.seed, src, dst, seq), tail) + transmission(
            len,
            m.bandwidth_bps,
        );
        Fate {
            dropped: false,
            delay_ns: if d > u64::MAX {
                u64::MAX
            } else {
                d as u64
            },
        }
    }
}

/// The mean and the deviate of the exponential draw that a datagram needs,
/// where the latency is exponential.
pub open spec fn draw_of(m: ModelView, src: VAddr, dst: VAddr, seq: u64) -> Option<(u64, u64)> {
    match m.latency {
        Latency::Exponential { mean } => Some((mean, latency_deviate(m.seed, src, dst, seq))),
        _ => None,
    }
}

impl FaultModel {
    /// A network that loses, delays and cuts nothing.
    #[must_use]
    pub fn reliable(seed: u64) -> (r: Self)
        ensures
            r@ == (ModelView {
                seed,
                latency: Latency::Fixed(0),
                loss: 0,
                bandwidth_bps: 0,
                groups: Seq::empty(),
            }),
    {
        FaultModel {
            seed,
            latency: Latency::Fixed(0),
            loss: Loss::zero(),
            bandwidth_bps: 0,
            partition: Partition::none(),
        }
    }

    /// The least delay of a datagram that is not dropped: bandwidth only adds
    /// to the latency.
    #[must_use]
    pub fn min_delay_ns(&self) -> (r: u64)
        ensures
            r == least_delay(self@.latency),
    {
        self.latency.min_ns()
    }

    /// The mean and the deviate `k / 2^53` of the exponential draw that the
    /// `seq`-th datagram on a channel needs; `None` where the latency is not
    /// exponential.
    #[must_use]
    pub fn tail_draw(&self, src: VAddr, dst: VAddr, seq: u64) -> (r: Option<(u64, u64)>)
        ensures
            r == draw_of(self@, src, dst, seq),
            r is Some ==> r.unwrap().1 < TWO53,
    {
        match self.latency {
            Latency::Exponential { mean } => {
                let mut state: u64 = channel_stream(self.seed, src, dst, seq);
                let _first: u64 = deviate(&mut state);
                Some((mean, deviate(&mut state)))
            },
            _ => None,
        }
    }

    /// Decide the fate of the `seq`-th datagram on the channel from `src` to
    /// `dst`, carrying `len` bytes. `tail` is the exponential draw that
    /// [`FaultModel::tail_draw`] asks for, where it asks for one.
    #[must_use]
    pub fn fate(&self, src: VAddr, dst: VAddr, seq: u64, len: usize, tail: u64) -> (r: Fate)
        ensures
            r == fate_of(self@, src, dst, seq, len as nat, tail),
    {
        if self.partition.blocked(src.node_of(), dst.node_of()) {
            return Fate { dropped: true, delay_ns: 0 };
        }
        let mut state: u64 = channel_stream(self.seed, src, dst, seq);
        if self.loss.exceeds(deviate(&mut state)) {
            return Fate { dropped: true, delay_ns: 0 };
        }
        let mut delay: u64 = self.latency.sample(deviate(&mut state), tail);
        if self.bandwidth_bps != 0 {
            let work: u64 = capped_mul(len as u64, 1_000_000_000);
            delay = delay.saturating_add(work / self.bandwidth_bps);
        }
        Fate { dropped: false, delay_ns: delay }
    }
}

/// Derive an independent random state from a datagram's identity.
fn channel_stream(seed: u64, src: VAddr, dst: VAddr, seq: u64) -> (r: u64)
    ensures
        r == stream_of(seed, src, dst, seq),
{
    let x0: u64 = seed ^ 0x517c_c1b7_2722_0a95;
    let x1: u64 = mix_in(x0, src.ip as u64);
    let x2: u64 = mix_in(x1, src.port as u64);
    let x3: u64 = mix_in(x2, dst.ip as u64);
    let x4: u64 = mix_in(x3, dst.port as u64);
    mix_in(x4, seq)
}

fn mix_in(x: u64, v: u64) -> (r: u64)
    ensures
        r == mixed_in(x, v),
{
    let mut y: u64 = x ^ v.wrapping_mul(0x9E37_79B9_7F4A_7C15);
    splitmix64(&mut y)
}

/// The next deviate from `state`: its top 53 bits, as a number of `2^-53`.
fn deviate(state: &mut u64) -> (k: u64)
    ensures
        *final(state) == abi::splitmix_next(*old(state)),
        k == abi::splitmix_out(*old(state)) / 2048,
        k < TWO53,
{
    splitmix64(state) / 2048
}

/// A datagram that is not dropped is delayed by no less than the model's
/// least delay.
pub proof fn law_lookahead(m: ModelView, src: VAddr, dst: VAddr, seq: u64, len: nat, tail: u64)
    ensures
        !fate_of(m, src, dst, seq, len, tail).dropped ==> least_delay(m.latency) <= fate_of(
            m,
            src,
            dst,
            seq,
            len,
            tail,
        ).delay_ns,
{
    let k = latency_deviate(m.seed, src, dst, seq);
    assert(k < TWO53);
    law_sample_bounds(m.latency, k, tail);
}

/// A datagram across a partition is dropped, whatever else the model says.
pub proof fn law_partition_drops(
    m: ModelView,
    src: VAddr,
    dst: VAddr,
    seq: u64,
    len: nat,
    tail: u64,
)
    requires
        cut(m.groups, wire::node_of_ip(src.ip), wire::node_of_ip(dst.ip)),
    ensures
        fate_of(m, src, dst, seq, len, tail) == (Fate { dropped: true, delay_ns: 0 }),
{
}

} // verus!
