//! Arithmetic on doubles is rounded to nearest, ties to even.

use crate::arithmetic_laws::lemma_excess_is_tight;
use crate::double::{
    is_finite, is_negative, magnitude, magnitude_bits, minus, negated, plus, signed, value, Double,
};
use crate::exact_laws::unit;
use crate::product::{lemma_nearest_zero, lemma_zero_magnitude, over, times};
use crate::rounding::{excess_bits, nearest_integer, nearest_magnitude, EXPONENT_UNIT, INFINITY_BITS};
use vstd::arithmetic::div_mod::lemma_fundamental_div_mod_converse;
use vstd::arithmetic::power2::{
    lemma2_to64, lemma2_to64_rest, lemma_pow2_adds, lemma_pow2_pos, lemma_pow2_unfold, pow2,
};
use vstd::prelude::*;

verus! {

/// Whether a double of magnitude `m` is what `n / d` is rounded to when its
/// last bit weighs `2^k`: it is a multiple of that weight, with no more than
/// fifty-three bits, and no fewer unless the weight is the least there is; it
/// is off by half the weight at most, and even where it is off by just that.
pub open spec fn is_rounded_at(m: nat, n: nat, d: nat, k: nat, q: nat) -> bool {
    &&& m == q * pow2(k)
    &&& q <= 0x20_0000_0000_0000
    &&& k == 0 || q >= 0x10_0000_0000_0000
    &&& -(d * pow2(k)) <= 2 * (n - m * d) <= d * pow2(k)
    &&& 2 * (n - m * d) == d * pow2(k) || 2 * (n - m * d) == -(d * pow2(k)) ==> q % 2 == 0
}

/// Whether a double of magnitude `m` is what `n / d` is rounded to.
pub open spec fn is_rounded(m: nat, n: nat, d: nat) -> bool {
    exists|k: nat, q: nat| #[trigger] is_rounded_at(m, n, d, k, q)
}

proof fn lemma_magnitude_of(k: nat, q: nat)
    requires
        q <= 0x20_0000_0000_0000,
        k == 0 || q >= 0x10_0000_0000_0000,
        k * EXPONENT_UNIT + q < INFINITY_BITS,
    ensures
        magnitude(signed(false, (k * EXPONENT_UNIT + q) as nat)) == q * pow2(k),
        magnitude(signed(true, (k * EXPONENT_UNIT + q) as nat)) == q * pow2(k),
        magnitude_bits(signed(false, (k * EXPONENT_UNIT + q) as nat)) == k * EXPONENT_UNIT + q,
        magnitude_bits(signed(true, (k * EXPONENT_UNIT + q) as nat)) == k * EXPONENT_UNIT + q,
{
    lemma2_to64();
    lemma2_to64_rest();
    let w = EXPONENT_UNIT as int;
    let bits = k * w + q;
    assert(bits >= 0) by (nonlinear_arith)
        requires
            bits == k * w + q,
            k >= 0,
            w > 0,
            q >= 0,
    ;
    let p = pow2(k);
    lemma_pow2_pos(k);
    if q < w {
        assert(k == 0);
        lemma_fundamental_div_mod_converse(bits, w, 0, q as int);
        assert(p == 1);
        assert(q * 1 == q);
    } else if q < 2 * w {
        assert(bits == (k + 1) * w + (q - w)) by (nonlinear_arith)
            requires
                bits == k * w + q,
        ;
        lemma_fundamental_div_mod_converse(bits, w, (k + 1) as int, q - w);
    } else {
        assert(bits == (k + 2) * w + 0) by (nonlinear_arith)
            requires
                bits == k * w + q,
                q == 2 * w,
        ;
        lemma_fundamental_div_mod_converse(bits, w, (k + 2) as int, 0);
        lemma_pow2_unfold((k + 1) as nat);
        assert(w * (2 * p) == q * p) by (nonlinear_arith)
            requires
                q == 2 * w,
        ;
    }
}

proof fn lemma_rounded(negative: bool, n: nat, d: nat)
    requires
        d > 0,
        nearest_magnitude(n, d) < INFINITY_BITS,
    ensures
        is_rounded(magnitude(signed(negative, nearest_magnitude(n, d))), n, d),
        magnitude_bits(signed(negative, nearest_magnitude(n, d))) == nearest_magnitude(n, d),
{
    lemma2_to64();
    lemma2_to64_rest();
    let k = excess_bits(n, d);
    lemma_excess_is_tight(n, d);
    let p = pow2(k);
    lemma_pow2_pos(k);
    let w = d * p;
    assert(w > 0) by (nonlinear_arith)
        requires
            w == d * p,
            d > 0,
            p > 0,
    ;
    let whole = n / w;
    let r = n % w;
    assert(n == whole * w + r && 0 <= r < w) by (nonlinear_arith)
        requires
            whole == n / w,
            r == n % w,
            w > 0,
    ;
    let q = nearest_integer(n, w);
    lemma_pow2_adds(53, k);
    assert(d * pow2(53 + k) == 0x20_0000_0000_0000 * w) by (nonlinear_arith)
        requires
            pow2(53 + k) == 0x20_0000_0000_0000 * p,
            w == d * p,
    ;
    assert(whole < 0x20_0000_0000_0000) by (nonlinear_arith)
        requires
            n == whole * w + r,
            n < 0x20_0000_0000_0000 * w,
            r >= 0,
            w > 0,
    ;
    if k > 0 {
        lemma_pow2_adds(52, k);
        assert(d * pow2(52 + k) == 0x10_0000_0000_0000 * w) by (nonlinear_arith)
            requires
                pow2(52 + k) == 0x10_0000_0000_0000 * p,
                w == d * p,
        ;
        assert(whole >= 0x10_0000_0000_0000) by (nonlinear_arith)
            requires
                n == whole * w + r,
                n >= 0x10_0000_0000_0000 * w,
                r < w,
                w > 0,
        ;
    }
    lemma_magnitude_of(k, q);
    let m = q * p;
    assert((q * p) * d == q * w) by (nonlinear_arith)
        requires
            w == d * p,
    ;
    assert((whole + 1) * w == whole * w + w) by (nonlinear_arith);
    assert(is_rounded_at(m, n, d, k, q));
}

/// Whether `r` is the double that the fraction `n / d` is rounded to.
pub open spec fn is_nearest(r: Double, n: int, d: int) -> bool {
    &&& d > 0
    &&& n > 0 ==> !is_negative(r) && is_rounded(magnitude(r), n as nat, d as nat)
    &&& n < 0 ==> is_negative(r) && is_rounded(magnitude(r), (-n) as nat, d as nat)
    &&& n == 0 ==> value(r) == 0
}

/// The difference of two finite numbers is the exact difference, rounded,
/// unless it is too large.
pub proof fn differences_are_rounded_to_nearest(a: Double, b: Double)
    requires
        is_finite(a),
        is_finite(b),
        is_finite(minus(a, b)),
    ensures
        is_nearest(minus(a, b), value(a) - value(b), 1),
{
    reveal(minus);
    let exact = value(a) - value(b);
    if exact == 0 {
        lemma_zero_magnitude(minus(a, b));
    } else {
        let size = (if exact < 0 {
            -exact
        } else {
            exact
        }) as nat;
        let bits = nearest_magnitude(size, 1);
        let r = signed(exact < 0, bits);
        assert(minus(a, b) == r);
        assert(bits <= INFINITY_BITS);
        assert(magnitude_bits(r) == bits);
        lemma_rounded(exact < 0, size, 1);
    }
}

/// The sum of two finite numbers is the exact sum, rounded, unless it is too
/// large.
pub proof fn sums_are_rounded_to_nearest(a: Double, b: Double)
    requires
        is_finite(a),
        is_finite(b),
        is_finite(plus(a, b)),
    ensures
        is_nearest(plus(a, b), value(a) + value(b), 1),
{
    let other = negated(b);
    assert(magnitude_bits(other) == magnitude_bits(b));
    assert(magnitude(other) == magnitude(b));
    lemma_zero_magnitude(b);
    assert(value(other) == -value(b));
    differences_are_rounded_to_nearest(a, other);
}

/// The product of two finite numbers is the exact product, rounded, unless it
/// is too large.
pub proof fn products_are_rounded_to_nearest(a: Double, b: Double)
    requires
        is_finite(a),
        is_finite(b),
        is_finite(times(a, b)),
    ensures
        is_nearest(times(a, b), value(a) * value(b), unit()),
{
    reveal(times);
    lemma_pow2_pos(1074);
    lemma_zero_magnitude(a);
    lemma_zero_magnitude(b);
    let x = magnitude(a);
    let y = magnitude(b);
    let v = value(a) * value(b);
    let negative = is_negative(a) != is_negative(b);
    assert((v >= 0 ==> v == x * y) && (v < 0 ==> -v == x * y) && (v != 0 ==> negative == (v < 0)))
        by (nonlinear_arith)
        requires
            v == value(a) * value(b),
            value(a) == (if is_negative(a) {
                -(x as int)
            } else {
                x as int
            }),
            value(b) == (if is_negative(b) {
                -(y as int)
            } else {
                y as int
            }),
            negative == (is_negative(a) != is_negative(b)),
            x >= 0,
            y >= 0,
    ;
    let bits = nearest_magnitude(x * y, pow2(1074));
    assert(bits <= INFINITY_BITS);
    assert(magnitude_bits(signed(negative, bits)) == bits);
    lemma_rounded(negative, x * y, pow2(1074));
    if v == 0 {
        lemma_nearest_zero(pow2(1074));
        lemma_zero_magnitude(times(a, b));
    }
}

/// The quotient of two finite numbers is the exact quotient, rounded, unless it
/// is too large or there is none.
pub proof fn quotients_are_rounded_to_nearest(a: Double, b: Double)
    requires
        is_finite(a),
        is_finite(b),
        value(b) != 0,
        is_finite(over(a, b)),
    ensures
        value(b) > 0 ==> is_nearest(over(a, b), value(a) * unit(), value(b)),
        value(b) < 0 ==> is_nearest(over(a, b), -(value(a) * unit()), -value(b)),
{
    reveal(over);
    lemma_pow2_pos(1074);
    lemma_zero_magnitude(a);
    lemma_zero_magnitude(b);
    let x = magnitude(a);
    let y = magnitude(b);
    let u = pow2(1074);
    let negative = is_negative(a) != is_negative(b);
    let v = value(a) * u;
    assert((v >= 0 ==> v == x * u) && (v <= 0 ==> -v == x * u) && (v != 0 ==> is_negative(a) == (v
        < 0))) by (nonlinear_arith)
        requires
            v == value(a) * u,
            value(a) == (if is_negative(a) {
                -(x as int)
            } else {
                x as int
            }),
            x >= 0,
            u > 0,
    ;
    let bits = nearest_magnitude(x * u, y);
    assert(bits <= INFINITY_BITS);
    assert(magnitude_bits(signed(negative, bits)) == bits);
    lemma_rounded(negative, x * u, y);
    if v == 0 {
        lemma_nearest_zero(y);
        lemma_zero_magnitude(over(a, b));
    }
}

} // verus!
