//! The laws of the network: what a description of it sets, and what becomes of
//! a datagram.

use vstd::arithmetic::power2::pow2;
use vstd::prelude::*;

use crate::abi;
use crate::fault;
use crate::fault::{Latency, ModelView};
use crate::round;
use crate::wire;
use crate::wire::VAddr;

verus! {

// ---------------------------------------------------------------------------
// Partitions
// ---------------------------------------------------------------------------

/// The first group that names either node names both; or none names either.
pub open spec fn together(groups: Seq<Seq<u32>>, a: u32, b: u32) -> bool {
    ||| forall|i: int|
        0 <= i < groups.len() ==> !(#[trigger] groups[i]).contains(a) && !groups[i].contains(b)
    ||| exists|i: int|
        0 <= i < groups.len() && (#[trigger] groups[i]).contains(a) && groups[i].contains(b) && (
        forall|j: int|
            0 <= j < i ==> !(#[trigger] groups[j]).contains(a) && !groups[j].contains(b))
}

proof fn lemma_group(groups: Seq<Seq<u32>>, node: u32, i: int)
    requires
        0 <= i <= groups.len(),
    ensures
        i <= fault::group_from(groups, node, i) <= groups.len(),
        forall|j: int|
            i <= j < fault::group_from(groups, node, i) ==> !(#[trigger] groups[j]).contains(node),
        fault::group_from(groups, node, i) < groups.len() ==> groups[fault::group_from(
            groups,
            node,
            i,
        )].contains(node),
    decreases groups.len() - i,
{
    if i < groups.len() && !groups[i].contains(node) {
        lemma_group(groups, node, i + 1);
    }
}

/// Two nodes are cut off from each other exactly where there are groups and
/// they are not together.
pub proof fn law_cut(groups: Seq<Seq<u32>>, a: u32, b: u32)
    ensures
        fault::cut(groups, a, b) <==> groups.len() > 0 && !together(groups, a, b),
{
    lemma_group(groups, a, 0);
    lemma_group(groups, b, 0);
    let p = fault::group_from(groups, a, 0);
    let q = fault::group_from(groups, b, 0);
    if p == q {
        if p < groups.len() {
            assert(groups[p].contains(a) && groups[p].contains(b));
        }
    } else {
        if p < groups.len() {
            assert(groups[p].contains(a));
        }
        if q < groups.len() {
            assert(groups[q].contains(b));
        }
        if exists|i: int|
            0 <= i < groups.len() && (#[trigger] groups[i]).contains(a) && groups[i].contains(b) && (
            forall|j: int|
                0 <= j < i ==> !(#[trigger] groups[j]).contains(a) && !groups[j].contains(b)) {
            let i = choose|i: int|
                0 <= i < groups.len() && (#[trigger] groups[i]).contains(a) && groups[i].contains(b)
                    && (forall|j: int|
                    0 <= j < i ==> !(#[trigger] groups[j]).contains(a) && !groups[j].contains(b));
            assert(p == i && q == i);
        }
    }
}

/// The nodes have the addresses whose last part is one more than their number.
pub proof fn law_node_of_address(ip: u32, node: u32)
    requires
        node < 255,
    ensures
        ip as int % 256 == node + 1 ==> wire::node_of_ip(ip) == node,
        wire::node_of_ip(ip) == node ==> ip as int % 256 == node + 1,
{
}

// ---------------------------------------------------------------------------
// Loss
// ---------------------------------------------------------------------------

/// The bits of two to the minus `n` in double precision.
pub open spec fn halved(n: u64) -> u64 {
    ((1023 - n) * 0x10_0000_0000_0000) as u64
}

/// Of the equally likely deviates, the share that falls under a probability of
/// two to the minus `n` is just that.
pub proof fn law_loss_share(k: nat, n: u64)
    requires
        1 <= n <= 53,
    ensures
        fault::less_than_bits(k, halved(n)) <==> k < pow2((53 - n) as nat),
{
    let bits = halved(n);
    assert(bits / 0x10_0000_0000_0000 == 1023 - n);
    assert(bits % 0x10_0000_0000_0000 == 0);
    assert(bits < 0x8000_0000_0000_0000);
    let e = bits / 0x10_0000_0000_0000 % 2048;
    assert(e == 1023 - n);
    vstd::arithmetic::power2::lemma2_to64_rest();
    vstd::arithmetic::power2::lemma_pow2_adds((53 - n) as nat, (n - 1) as nat);
    assert(pow2(52) == 0x10_0000_0000_0000);
    vstd::arithmetic::power2::lemma_pow2_pos((n - 1) as nat);
    let q = pow2((n - 1) as nat);
    let p = pow2((53 - n) as nat);
    assert((k * q < p * q) <==> k < p) by (nonlinear_arith)
        requires
            q > 0,
    ;
}

/// What a lower deviate survives, a higher one survives; and where a
/// probability loses a datagram, a higher one loses it too.
pub proof fn law_loss_grows(k: nat, j: nat, low: u64, high: u64)
    requires
        k <= j,
        low <= high <= 0x3ff0_0000_0000_0000,
    ensures
        fault::less_than_bits(j, low) ==> fault::less_than_bits(k, high),
{
    let e = low / 0x10_0000_0000_0000 % 2048;
    let f = high / 0x10_0000_0000_0000 % 2048;
    let m = low % 0x10_0000_0000_0000;
    let o = high % 0x10_0000_0000_0000;
    assert(e == low / 0x10_0000_0000_0000 && f == high / 0x10_0000_0000_0000);
    assert(e <= f);
    assert(e == f ==> m <= o);
    if fault::less_than_bits(j, low) && f < 1023 {
        let x: nat = if e >= 1 {
            (1022 - e) as nat
        } else {
            1021
        };
        let y: nat = if f >= 1 {
            (1022 - f) as nat
        } else {
            1021
        };
        let p = pow2(x);
        let q = pow2(y);
        assert(y <= x);
        if y < x {
            vstd::arithmetic::power2::lemma_pow2_strictly_increases(y, x);
            vstd::arithmetic::power2::lemma_pow2_adds(1, (x - 1) as nat);
            vstd::arithmetic::power2::lemma2_to64();
            if y < x - 1 {
                vstd::arithmetic::power2::lemma_pow2_strictly_increases(y, (x - 1) as nat);
            }
            assert(2 * q <= p);
            // The lower number is below two to the 53, the higher at least
            // two to the 52.
            assert(k * q <= j * q && 2 * (j * q) <= j * p) by (nonlinear_arith)
                requires
                    k <= j,
                    2 * q <= p,
            ;
        } else {
            assert(k * q <= j * p) by (nonlinear_arith)
                requires
                    k <= j,
                    q == p,
            ;
        }
    }
}

// ---------------------------------------------------------------------------
// Delay
// ---------------------------------------------------------------------------

/// A datagram is lost for a cut or by chance, and chance has no part in it
/// without loss; one that arrives took its latency and the time on the line.
pub proof fn law_fate(m: ModelView, src: VAddr, dst: VAddr, seq: u64, len: nat, tail: u64)
    requires
        len * 1_000_000_000 <= u64::MAX,
    ensures
        ({
            let f = fault::fate_of(m, src, dst, seq, len, tail);
            let apart = m.groups.len() > 0 && !together(
                m.groups,
                wire::node_of_ip(src.ip),
                wire::node_of_ip(dst.ip),
            );
            let bps = m.bandwidth_bps;
            &&& apart ==> f.dropped
            &&& m.loss == 0x3ff0_0000_0000_0000 ==> f.dropped
            &&& m.loss == 0 && !apart ==> !f.dropped
            &&& f.dropped ==> f.delay_ns == 0
            &&& !f.dropped && bps == 0 ==> {
                &&& m.latency matches Latency::Fixed(d) ==> f.delay_ns == d
                &&& m.latency matches Latency::Uniform { lo, hi } ==> (lo <= hi ==> lo <= f.delay_ns
                    <= hi)
                &&& m.latency matches Latency::Exponential { mean } ==> f.delay_ns <= mean * 20 && (
                tail <= mean * 20 ==> f.delay_ns == tail)
            }
            &&& !f.dropped && bps > 0 && f.delay_ns < u64::MAX ==> {
                let g = fault::fate_of(
                    ModelView { bandwidth_bps: 0, ..m },
                    src,
                    dst,
                    seq,
                    len,
                    tail,
                );
                &&& !g.dropped
                &&& (f.delay_ns - g.delay_ns) * bps <= len * 1_000_000_000
                &&& len * 1_000_000_000 < (f.delay_ns - g.delay_ns + 1) * bps
            }
        }),
{
    law_cut(m.groups, wire::node_of_ip(src.ip), wire::node_of_ip(dst.ip));
    let k = fault::loss_deviate(m.seed, src, dst, seq);
    fault::law_loss_extremes(k);
    let u = fault::latency_deviate(m.seed, src, dst, seq);
    fault::law_sample_bounds(m.latency, u, tail);
    let bps = m.bandwidth_bps as nat;
    if bps > 0 {
        let work: nat = len * 1_000_000_000;
        assert((work / bps) * bps <= work < (work / bps + 1) * bps) by (nonlinear_arith)
            requires
                bps > 0,
                work >= 0,
        ;
    }
}

/// A uniform delay is spread over its range in proportion to the deviate, to
/// within a nanosecond or two.
pub proof fn law_uniform_in_proportion(lo: u64, hi: u64, k: u64, tail: u64)
    requires
        lo <= hi,
        hi - lo < 0x20_0000_0000_0000,
        k < 0x20_0000_0000_0000,
    ensures
        ({
            let d = fault::sampled(Latency::Uniform { lo, hi }, k, tail);
            &&& (d - lo - 1) * 0x20_0000_0000_0000 <= (hi - lo) * k
            &&& (hi - lo) * k < (d - lo + 2) * 0x20_0000_0000_0000
        }),
{
    let span = (hi - lo) as nat;
    let t: int = 0x20_0000_0000_0000;
    round::lemma_scaled_within(span, k as nat);
    round::lemma_round53(span);
    let x = span * k as nat;
    assert(x < t * t) by (nonlinear_arith)
        requires
            span < t,
            k < t,
            x == span * k,
    ;
    round::lemma_unit(x);
    round::lemma_round53(x);
    let p = round::unit_of(x) as int;
    let half = t / 2;
    if x >= t {
        assert(p <= 2 * t) by (nonlinear_arith)
            requires
                half * p <= x,
                x < t * t,
                half == t / 2,
                t == 0x20_0000_0000_0000,
        ;
    }
    assert(p <= 2 * t) by {
        if x < t {
            assert(round::excess(x) == 0);
            vstd::arithmetic::power2::lemma2_to64();
        }
    }
    let r = round::round53(x) as int;
    let s = r / t;
    assert(s * t <= r < (s + 1) * t) by (nonlinear_arith)
        requires
            s == r / t,
            t == 0x20_0000_0000_0000,
    ;
}

// ---------------------------------------------------------------------------
// Chance
// ---------------------------------------------------------------------------

proof fn lemma_odd(a: u64, b: u64, c: u64, inverse: u64, turns: nat)
    requires
        c * inverse == 1 + turns * 0x1_0000_0000_0000_0000,
        a.wrapping_mul(c) == b.wrapping_mul(c),
    ensures
        a == b,
{
    let n: int = 0x1_0000_0000_0000_0000;
    lemma_odd_undone(a as int, c as int, inverse as int, turns as int, n);
    lemma_odd_undone(b as int, c as int, inverse as int, turns as int, n);
}

proof fn lemma_odd_undone(a: int, c: int, inverse: int, turns: int, n: int)
    requires
        n > 0,
        0 <= a < n,
        c * inverse == 1 + turns * n,
    ensures
        ((a * c) % n * inverse) % n == a,
{
    vstd::arithmetic::div_mod::lemma_mul_mod_noop_left(a * c, inverse, n);
    assert(a * c * inverse == n * (a * turns) + a) by (nonlinear_arith)
        requires
            c * inverse == 1 + turns * n,
    ;
    vstd::arithmetic::div_mod::lemma_mod_multiples_vanish(a * turns, a, n);
    vstd::arithmetic::div_mod::lemma_small_mod(a as nat, n as nat);
}

/// The generator loses nothing of its state: different states put out
/// different numbers and go on to different states.
pub proof fn law_generator_keeps_apart(s: u64, t: u64)
    requires
        s != t,
    ensures
        abi::splitmix_out(s) != abi::splitmix_out(t),
        abi::splitmix_next(s) != abi::splitmix_next(t),
{
    if abi::splitmix_out(s) == abi::splitmix_out(t) {
        let x = abi::splitmix_next(s);
        let y = abi::splitmix_next(t);
        let p = x ^ (x >> 30);
        let q = y ^ (y >> 30);
        let a = p.wrapping_mul(0xBF58_476D_1CE4_E5B9);
        let b = q.wrapping_mul(0xBF58_476D_1CE4_E5B9);
        let f = a ^ (a >> 27);
        let g = b ^ (b >> 27);
        let c = f.wrapping_mul(0x94D0_49BB_1331_11EB);
        let d = g.wrapping_mul(0x94D0_49BB_1331_11EB);
        assert(c ^ (c >> 31) == d ^ (d >> 31) ==> c == d) by (bit_vector);
        lemma_odd(f, g, 0x94D0_49BB_1331_11EB, 0x3196_42b2_d24d_8ec3, 2077064247507883091);
        assert(a ^ (a >> 27) == b ^ (b >> 27) ==> a == b) by (bit_vector);
        lemma_odd(p, q, 0xBF58_476D_1CE4_E5B9, 0x96de_1b17_3f11_9089, 8125545580553827436);
        assert(x ^ (x >> 30) == y ^ (y >> 30) ==> x == y) by (bit_vector);
    }
}

proof fn lemma_mixed(x: u64, y: u64, v: u64, w: u64)
    ensures
        x != y ==> fault::mixed_in(x, v) != fault::mixed_in(y, v),
        v != w ==> fault::mixed_in(x, v) != fault::mixed_in(x, w),
{
    let a = v.wrapping_mul(0x9E37_79B9_7F4A_7C15);
    let b = w.wrapping_mul(0x9E37_79B9_7F4A_7C15);
    if x != y {
        assert(x != y ==> x ^ a != y ^ a) by (bit_vector);
        law_generator_keeps_apart(x ^ a, y ^ a);
    }
    if v != w {
        if a == b {
            lemma_odd(v, w, 0x9E37_79B9_7F4A_7C15, 0xf1de_83e1_9937_733d, 10771413168148108919);
        }
        assert(a != b ==> x ^ a != x ^ b) by (bit_vector);
        law_generator_keeps_apart(x ^ a, x ^ b);
    }
}

/// Chance falls anew for every seed, sender, receiver and datagram: two
/// datagrams that differ in one of these alone draw from different states.
pub proof fn law_each_datagram_has_its_own_chance(
    seed: u64,
    other_seed: u64,
    src: VAddr,
    other_src: VAddr,
    dst: VAddr,
    other_dst: VAddr,
    seq: u64,
    other_seq: u64,
)
    ensures
        seed != other_seed ==> fault::stream_of(seed, src, dst, seq) != fault::stream_of(
            other_seed,
            src,
            dst,
            seq,
        ),
        src.ip != other_src.ip && src.port == other_src.port || src.ip == other_src.ip && src.port
            != other_src.port ==> fault::stream_of(seed, src, dst, seq) != fault::stream_of(
            seed,
            other_src,
            dst,
            seq,
        ),
        dst.ip != other_dst.ip && dst.port == other_dst.port || dst.ip == other_dst.ip && dst.port
            != other_dst.port ==> fault::stream_of(seed, src, dst, seq) != fault::stream_of(
            seed,
            src,
            other_dst,
            seq,
        ),
        seq != other_seq ==> fault::stream_of(seed, src, dst, seq) != fault::stream_of(
            seed,
            src,
            dst,
            other_seq,
        ),
{
    lemma_stream(seed, other_seed, src, src, dst, dst, seq, seq);
    lemma_stream(seed, seed, src, other_src, dst, dst, seq, seq);
    lemma_stream(seed, seed, src, src, dst, other_dst, seq, seq);
    lemma_stream(seed, seed, src, src, dst, dst, seq, other_seq);
}

proof fn lemma_stream(
    s: u64,
    t: u64,
    src: VAddr,
    tsrc: VAddr,
    dst: VAddr,
    tdst: VAddr,
    seq: u64,
    tseq: u64,
)
    ensures
        s != t && src == tsrc && dst == tdst && seq == tseq ==> fault::stream_of(s, src, dst, seq)
            != fault::stream_of(t, tsrc, tdst, tseq),
        s == t && (src.ip != tsrc.ip && src.port == tsrc.port || src.ip == tsrc.ip && src.port
            != tsrc.port) && dst == tdst && seq == tseq ==> fault::stream_of(s, src, dst, seq)
            != fault::stream_of(t, tsrc, tdst, tseq),
        s == t && src == tsrc && (dst.ip != tdst.ip && dst.port == tdst.port || dst.ip == tdst.ip
            && dst.port != tdst.port) && seq == tseq ==> fault::stream_of(s, src, dst, seq)
            != fault::stream_of(t, tsrc, tdst, tseq),
        s == t && src == tsrc && dst == tdst && seq != tseq ==> fault::stream_of(s, src, dst, seq)
            != fault::stream_of(t, tsrc, tdst, tseq),
{
    let x0 = s ^ 0x517c_c1b7_2722_0a95;
    let y0 = t ^ 0x517c_c1b7_2722_0a95;
    assert(s != t ==> s ^ 0x517c_c1b7_2722_0a95 != t ^ 0x517c_c1b7_2722_0a95) by (bit_vector);
    let x1 = fault::mixed_in(x0, src.ip as u64);
    let y1 = fault::mixed_in(y0, tsrc.ip as u64);
    lemma_mixed(x0, y0, src.ip as u64, tsrc.ip as u64);
    let x2 = fault::mixed_in(x1, src.port as u64);
    let y2 = fault::mixed_in(y1, tsrc.port as u64);
    lemma_mixed(x1, y1, src.port as u64, tsrc.port as u64);
    let x3 = fault::mixed_in(x2, dst.ip as u64);
    let y3 = fault::mixed_in(y2, tdst.ip as u64);
    lemma_mixed(x2, y2, dst.ip as u64, tdst.ip as u64);
    let x4 = fault::mixed_in(x3, dst.port as u64);
    let y4 = fault::mixed_in(y3, tdst.port as u64);
    lemma_mixed(x3, y3, dst.port as u64, tdst.port as u64);
    lemma_mixed(x4, y4, seq, tseq);
}

} // verus!
