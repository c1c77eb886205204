//! Rounding to 53 significant bits, as binary floating point does it, and the
//! scaling of a span by a 53-bit fraction.

use vstd::arithmetic::div_mod::{lemma_div_denominator, lemma_fundamental_div_mod};
use vstd::arithmetic::mul::lemma_mul_is_commutative;
use vstd::arithmetic::power2::{
    lemma2_to64, lemma2_to64_rest, lemma_pow2_adds, lemma_pow2_pos, lemma_pow2_strictly_increases,
    lemma_pow2_unfold,
};
use vstd::prelude::*;

verus! {

/// 2 to the power of 53.
pub const TWO53: u64 = 0x20_0000_0000_0000;

/// How many bits `x` has beyond its 53 most significant ones.
pub open spec fn excess(x: nat) -> nat
    decreases x,
{
    if x < TWO53 {
        0
    } else {
        1 + excess(x / 2)
    }
}

/// The weight of the last bit that rounding keeps.
pub open spec fn unit_of(x: nat) -> nat {
    vstd::arithmetic::power2::pow2(excess(x))
}

/// `x` rounded to 53 significant bits, to nearest, ties to even.
pub open spec fn round53(x: nat) -> nat {
    let p = unit_of(x);
    let q = x / p;
    let r = x % p;
    if 2 * r < p || (2 * r == p && q % 2 == 0) {
        q * p
    } else {
        (q + 1) * p
    }
}

/// A span scaled by `k / 2^53` the way double precision does it: the span is
/// rounded, multiplied, rounded again, and cut to an integer.
pub open spec fn scaled(span: nat, k: nat) -> nat {
    round53(round53(span) * k) / TWO53 as nat
}

pub proof fn lemma_unit(x: nat)
    ensures
        unit_of(x) >= 1,
        x < TWO53 * unit_of(x),
        x >= TWO53 ==> x >= (TWO53 / 2) * unit_of(x),
        x < TWO53 <==> excess(x) == 0,
    decreases x,
{
    lemma2_to64();
    lemma_pow2_pos(excess(x));
    if x >= TWO53 {
        lemma_unit(x / 2);
        lemma_pow2_unfold(excess(x));
        let p = unit_of(x / 2);
        assert(unit_of(x) == 2 * p);
        assert(x < TWO53 * (2 * p)) by (nonlinear_arith)
            requires
                x / 2 < TWO53 * p,
        ;
        if x / 2 >= TWO53 {
            assert(x >= (TWO53 / 2) * (2 * p)) by (nonlinear_arith)
                requires
                    x / 2 >= (TWO53 / 2) * p,
            ;
        } else {
            assert(p == 1);
        }
    }
}

pub proof fn lemma_round53(x: nat)
    ensures
        x < TWO53 ==> round53(x) == x,
        round53(x) <= x ==> 2 * (x - round53(x)) <= unit_of(x),
        round53(x) >= x ==> 2 * (round53(x) - x) <= unit_of(x),
        exists|q: nat| #[trigger] (q * unit_of(x)) == round53(x) && q <= TWO53 && (x >= TWO53 ==> q
            >= TWO53 / 2),
{
    lemma_unit(x);
    let p = unit_of(x);
    let q = x / p;
    let r = x % p;
    lemma_fundamental_div_mod(x as int, p as int);
    assert(x == p * q + r);
    lemma_mul_is_commutative(p as int, q as int);
    assert((q + 1) * p == q * p + p) by (nonlinear_arith);
    assert(q < TWO53) by (nonlinear_arith)
        requires
            x < TWO53 * p,
            x == p * q + r,
            r >= 0,
            p >= 1,
    ;
    if x >= TWO53 {
        assert(q >= TWO53 / 2) by (nonlinear_arith)
            requires
                x >= (TWO53 / 2) * p,
                x == p * q + r,
                r < p,
                p >= 1,
        ;
    } else {
        lemma2_to64();
        assert(p == 1);
        assert(r == 0) by (nonlinear_arith)
            requires
                r == x % p,
                p == 1,
        ;
        assert(q * p == q) by (nonlinear_arith)
            requires
                p == 1,
        ;
    }
    if 2 * r < p || (2 * r == p && q % 2 == 0) {
        assert(q * unit_of(x) == round53(x));
    } else {
        let q1: nat = q + 1;
        assert(q1 * unit_of(x) == round53(x));
    }
}

/// A span scaled by a fraction below one stays within the span.
pub proof fn lemma_scaled_within(span: nat, k: nat)
    requires
        k < TWO53,
    ensures
        scaled(span, k) <= span,
{
    let f = round53(span);
    let p = unit_of(span);
    let x = f * k;
    let s = unit_of(x);
    lemma_unit(span);
    lemma_round53(span);
    lemma_unit(x);
    lemma_round53(x);
    let n = round53(x);
    let t = TWO53 as nat;
    assert(x <= t * f - f) by (nonlinear_arith)
        requires
            x == f * k,
            k + 1 <= t,
            f >= 0,
    ;
    if x < TWO53 {
        assert(n <= t * f);
        lemma_scaled_low(span, n, f, t);
    } else if span < TWO53 {
        // The relative error of a rounding is at most 2^-53.
        assert(n <= t * f) by (nonlinear_arith)
            requires
                n <= x || 2 * (n - x) <= s,
                x >= (t / 2) * s,
                x <= t * f - f,
                t == 0x20_0000_0000_0000,
                f >= 0,
                s >= 0,
        ;
        lemma_scaled_low(span, n, f, t);
    } else {
        lemma_scaled_high(span, k);
    }
}

proof fn lemma_scaled_low(span: nat, n: nat, f: nat, t: nat)
    requires
        n <= t * f,
        f == round53(span),
        t == TWO53,
        span < TWO53 || n < TWO53,
    ensures
        n / t <= span,
{
    lemma_round53(span);
    if span < TWO53 {
        assert(n / t <= f) by (nonlinear_arith)
            requires
                n <= t * f,
                t > 0,
        ;
    } else {
        assert(n / t == 0) by (nonlinear_arith)
            requires
                n < t,
                t > 0,
        ;
    }
}

/// The long spans, where rounding the span itself may lift it.
proof fn lemma_scaled_high(span: nat, k: nat)
    requires
        k < TWO53,
        span >= TWO53,
        round53(span) * k >= TWO53,
    ensures
        scaled(span, k) <= span,
{
    let t = TWO53 as nat;
    let h = (TWO53 / 2) as nat;
    let f = round53(span);
    let p = unit_of(span);
    let x = (f * k) as nat;
    let s = unit_of(x);
    let n = round53(x);
    lemma_unit(span);
    lemma_round53(span);
    lemma_unit(x);
    lemma_round53(x);
    lemma2_to64();
    lemma2_to64_rest();
    let q = choose|q: nat| #[trigger] (q * p) == f && q <= TWO53 && q >= TWO53 / 2;
    assert(h * p <= f <= t * p) by (nonlinear_arith)
        requires
            f == q * p,
            h <= q <= t,
    ;
    assert(x <= t * f - f) by (nonlinear_arith)
        requires
            x == f * k,
            k + 1 <= t,
    ;
    // The unit of the product is at most 2^53 units of the span.
    let a = excess(x);
    let b = excess(span);
    lemma_pow2_adds(b, 53);
    lemma_pow2_adds(b, 52);
    assert(vstd::arithmetic::power2::pow2(b + 53) == t * p) by {
        lemma_mul_is_commutative(p as int, t as int);
    }
    assert(vstd::arithmetic::power2::pow2(b + 52) == h * p) by {
        lemma_mul_is_commutative(p as int, h as int);
    }
    if a > b + 53 {
        lemma_pow2_adds(b, 54);
        if a > b + 54 {
            lemma_pow2_strictly_increases(b + 54, a);
        }
        assert(s >= 2 * (t * p)) by (nonlinear_arith)
            requires
                s >= vstd::arithmetic::power2::pow2(b + 54),
                vstd::arithmetic::power2::pow2(b + 54) == p * vstd::arithmetic::power2::pow2(54),
                vstd::arithmetic::power2::pow2(54) == 2 * t,
        ;
        assert(false) by (nonlinear_arith)
            requires
                s >= 2 * (t * p),
                x >= h * s,
                x <= t * f - f,
                f <= t * p,
                f >= 1,
                t == 2 * h,
                h == 0x10_0000_0000_0000,
        ;
    }
    if a < b + 53 {
        if a < b + 52 {
            lemma_pow2_strictly_increases(a, b + 52);
        }
        assert(s <= h * p);
        if x > t * f - t * p {
            // Then `f` is the least span with its unit and the product is exact.
            assert(q == h) by (nonlinear_arith)
                requires
                    x < t * s,
                    s <= h * p,
                    x > t * f - t * p,
                    f == q * p,
                    q >= h,
                    p >= 1,
                    t == 0x20_0000_0000_0000,
            ;
            let c = (b + 52 - a) as nat;
            lemma_pow2_adds(a, c);
            let w = vstd::arithmetic::power2::pow2(c);
            assert(x == s * (w * k)) by (nonlinear_arith)
                requires
                    x == f * k,
                    f == q * p,
                    q == h,
                    h * p == s * w,
            ;
            vstd::arithmetic::div_mod::lemma_mod_multiples_basic((w * k) as int, s as int);
            lemma_mul_is_commutative((w * k) as int, s as int);
            assert(x % s == 0);
            lemma_fundamental_div_mod(x as int, s as int);
            lemma_mul_is_commutative(s as int, (x / s) as int);
            assert(n == x);
            assert(n <= t * span) by (nonlinear_arith)
                requires
                    n == x,
                    x <= t * f - f,
                    f == h * p,
                    f <= span || 2 * (f - span) <= p,
                    t == 2 * h,
                    h > 0,
            ;
        } else {
            assert(n <= t * span) by (nonlinear_arith)
                requires
                    n <= x || 2 * (n - x) <= s,
                    s <= h * p,
                    x <= t * f - t * p,
                    f <= span || 2 * (f - span) <= p,
                    t == 2 * h,
                    h > 0,
                    p >= 0,
            ;
        }
    } else {
        assert(s == t * p);
        if x > t * f - t * p {
            // The product lies less than half a unit above the next lower step.
            let d = (q - 1) as nat;
            let r = (x - d * s) as nat;
            assert(t * f - t * p == d * s) by (nonlinear_arith)
                requires
                    s == t * p,
                    f == q * p,
                    d == q - 1,
            ;
            assert(f > h * p) by (nonlinear_arith)
                requires
                    x >= h * s,
                    s == t * p,
                    x <= t * f - f,
                    f >= 1,
            ;
            assert(2 * r < s) by (nonlinear_arith)
                requires
                    r == x - (t * f - t * p),
                    x <= t * f - f,
                    f > h * p,
                    t == 2 * h,
                    s == t * p,
            ;
            vstd::arithmetic::div_mod::lemma_fundamental_div_mod_converse(
                x as int,
                s as int,
                d as int,
                r as int,
            );
            assert(n == d * s);
            assert(n <= t * span) by (nonlinear_arith)
                requires
                    n == t * f - t * p,
                    f <= span || 2 * (f - span) <= p,
                    t > 0,
                    p >= 1,
            ;
        } else {
            assert(n <= t * span) by (nonlinear_arith)
                requires
                    n <= x || 2 * (n - x) <= s,
                    s == t * p,
                    x <= t * f - t * p,
                    f <= span || 2 * (f - span) <= p,
                    t > 0,
                    p >= 0,
            ;
        }
    }
    assert(n / t <= span) by (nonlinear_arith)
        requires
            n <= t * span,
            t > 0,
    ;
}

/// Round to 53 significant bits.
fn round_to_53(x: u128) -> (r: u128)
    requires
        x < 0x8000_0000_0000_0000_0000_0000_0000_0000,
    ensures
        r == round53(x as nat),
{
    let mut q: u128 = x;
    let mut p: u128 = 1;
    let ghost mut e: nat = 0;
    proof {
        lemma2_to64();
        assert(x as int / 1 == x);
    }
    while q >= TWO53 as u128
        invariant
            p == vstd::arithmetic::power2::pow2(e),
            p >= 1,
            q == x as nat / p as nat,
            excess(x as nat) == e + excess(q as nat),
            p <= x || p == 1,
            x < 0x8000_0000_0000_0000_0000_0000_0000_0000,
        decreases q,
    {
        proof {
            lemma_div_denominator(x as int, p as int, 2);
            lemma_mul_is_commutative(p as int, 2);
            lemma_pow2_unfold(e + 1);
            lemma_fundamental_div_mod(x as int, p as int);
            assert(2 * p <= x) by (nonlinear_arith)
                requires
                    x >= p * q,
                    q >= 2,
                    p >= 1,
            ;
            e = e + 1;
        }
        q = q / 2;
        p = p * 2;
    }
    proof {
        lemma_unit(x as nat);
        lemma_fundamental_div_mod(x as int, p as int);
        lemma_mul_is_commutative(p as int, q as int);
        assert(q * p <= x);
    }
    let r: u128 = x - q * p;
    proof {
        assert(r == x as nat % p as nat);
        assert(r < p);
    }
    if r < p - r || (r == p - r && q % 2 == 0) {
        q * p
    } else {
        proof {
            assert((q + 1) * p == q * p + p) by (nonlinear_arith);
        }
        q * p + p
    }
}

proof fn lemma_round53_bound(x: nat, bound: nat)
    requires
        x <= bound,
    ensures
        round53(x) <= 2 * bound,
{
    lemma_unit(x);
    lemma_round53(x);
    let s = unit_of(x);
    if x >= TWO53 {
        assert(round53(x) <= 2 * x) by (nonlinear_arith)
            requires
                round53(x) <= x || 2 * (round53(x) - x) <= s,
                x >= (TWO53 / 2) * s,
                s >= 1,
        ;
    }
}

/// A span scaled by `k / 2^53`.
pub fn scale_span(span: u64, k: u64) -> (r: u64)
    requires
        k < TWO53,
    ensures
        r == scaled(span as nat, k as nat),
        r <= span,
{
    let f: u128 = round_to_53(span as u128);
    proof {
        lemma_round53_bound(span as nat, span as nat);
        assert(f * k <= 0x2_0000_0000_0000_0000 * 0x20_0000_0000_0000) by (nonlinear_arith)
            requires
                f <= 0x2_0000_0000_0000_0000,
                k < 0x20_0000_0000_0000,
        ;
        assert(0x2_0000_0000_0000_0000 * 0x20_0000_0000_0000
            < 0x8000_0000_0000_0000_0000_0000_0000_0000) by (nonlinear_arith);
    }
    let n: u128 = round_to_53(f * k as u128);
    proof {
        lemma_scaled_within(span as nat, k as nat);
    }
    (n / TWO53 as u128) as u64
}

} // verus!
