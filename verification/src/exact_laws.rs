//! Arithmetic on doubles where nothing is lost to rounding.

use crate::arithmetic_laws::{
    lemma_common_factor, lemma_excess_is_tight, lemma_rounds_to_itself,
};
use crate::double::{
    is_finite, is_negative, magnitude, magnitude_bits, minus, negated, plus, signed, value, Double,
};
use crate::hypotenuse::{floor_root, hypotenuse, lemma_floor_root, nearest_root};
use crate::measure::{absolute, of_natural};
use crate::product::{lemma_nearest_zero, lemma_zero_magnitude, over, times};
use crate::rounding::{
    excess_bits, lemma_pow2_grows, nearest_magnitude, EXPONENT_UNIT, INFINITY_BITS,
};
use vstd::arithmetic::div_mod::lemma_fundamental_div_mod_converse;
use vstd::arithmetic::power2::{
    lemma2_to64, lemma2_to64_rest, lemma_pow2_adds, lemma_pow2_pos, pow2,
};
use vstd::prelude::*;

verus! {

/// Whether some double has exactly this value, in units of the least positive
/// one.
pub open spec fn is_double(v: int) -> bool {
    exists|d: Double| is_finite(d) && #[trigger] value(d) == v
}

/// Whether a double is finite and has exactly this value.
pub open spec fn is_exactly(d: Double, v: int) -> bool {
    is_finite(d) && value(d) == v
}

/// One, in units of the least positive double.
pub open spec fn unit() -> int {
    pow2(1074) as int
}

/// The double that nearest rounding makes of a value that a double has is one
/// with that value.
pub(crate) proof fn lemma_kept(negative: bool, bits: nat, v: int)
    requires
        is_double(v),
        bits == nearest_magnitude(
            (if v < 0 {
                -v
            } else {
                v
            }) as nat,
            1,
        ),
        v != 0 ==> negative == (v < 0),
    ensures
        is_exactly(signed(negative, bits), v),
{
    let d = choose|d: Double| is_finite(d) && #[trigger] value(d) == v;
    lemma_rounds_to_itself(d);
    lemma_zero_magnitude(d);
    let r = signed(negative, bits);
    assert(magnitude_bits(r) == bits);
    assert(magnitude(r) == magnitude(d));
}

/// A difference that a double can hold comes out exactly.
pub proof fn a_difference_that_fits_is_exact(a: Double, b: Double)
    requires
        is_finite(a),
        is_finite(b),
        is_double(value(a) - value(b)),
    ensures
        is_exactly(minus(a, b), value(a) - value(b)),
{
    reveal(minus);
    let v = value(a) - value(b);
    if v == 0 {
        lemma_nearest_zero(1);
        lemma_kept(is_negative(a) && !is_negative(b), 0, v);
    } else if v < 0 {
        lemma_kept(true, nearest_magnitude((-v) as nat, 1), v);
    } else {
        lemma_kept(false, nearest_magnitude(v as nat, 1), v);
    }
}

/// A sum that a double can hold comes out exactly.
pub proof fn a_sum_that_fits_is_exact(a: Double, b: Double)
    requires
        is_finite(a),
        is_finite(b),
        is_double(value(a) + value(b)),
    ensures
        is_exactly(plus(a, b), value(a) + value(b)),
{
    let other = negated(b);
    assert(magnitude_bits(other) == magnitude_bits(b));
    assert(magnitude(other) == magnitude(b));
    lemma_zero_magnitude(b);
    assert(value(other) == -value(b));
    a_difference_that_fits_is_exact(a, other);
}

/// A product that a double can hold comes out exactly.
pub proof fn a_product_that_fits_is_exact(a: Double, b: Double, v: int)
    requires
        is_finite(a),
        is_finite(b),
        is_double(v),
        v * unit() == value(a) * value(b),
    ensures
        is_exactly(times(a, b), v),
{
    reveal(times);
    lemma_pow2_pos(1074);
    let m = (if v < 0 {
        -v
    } else {
        v
    }) as nat;
    let x = magnitude(a);
    let y = magnitude(b);
    let c = pow2(1074);
    lemma_zero_magnitude(a);
    lemma_zero_magnitude(b);
    assert(x * y == m * c && (v != 0 ==> (is_negative(a) != is_negative(b)) == (v < 0)))
        by (nonlinear_arith)
        requires
            v * c == value(a) * value(b),
            value(a) == (if is_negative(a) {
                -(x as int)
            } else {
                x as int
            }),
            value(b) == (if is_negative(b) {
                -(y as int)
            } else {
                y as int
            }),
            m == (if v < 0 {
                -v
            } else {
                v
            }),
            x >= 0,
            y >= 0,
            c > 0,
    ;
    lemma_common_factor(m, 1, c);
    assert(1 * c == c);
    lemma_kept(
        is_negative(a) != is_negative(b),
        nearest_magnitude(m, 1),
        v,
    );
}

/// A quotient that a double can hold comes out exactly.
pub proof fn a_quotient_that_fits_is_exact(a: Double, b: Double, v: int)
    requires
        is_finite(a),
        is_finite(b),
        value(b) != 0,
        is_double(v),
        v * value(b) == value(a) * unit(),
    ensures
        is_exactly(over(a, b), v),
{
    reveal(over);
    lemma_pow2_pos(1074);
    let m = (if v < 0 {
        -v
    } else {
        v
    }) as nat;
    let x = magnitude(a);
    let y = magnitude(b);
    let c = pow2(1074);
    lemma_zero_magnitude(a);
    lemma_zero_magnitude(b);
    assert(x * c == m * y && (v != 0 ==> (is_negative(a) != is_negative(b)) == (v < 0)))
        by (nonlinear_arith)
        requires
            v * value(b) == value(a) * c,
            value(a) == (if is_negative(a) {
                -(x as int)
            } else {
                x as int
            }),
            value(b) == (if is_negative(b) {
                -(y as int)
            } else {
                y as int
            }),
            m == (if v < 0 {
                -v
            } else {
                v
            }),
            value(b) != 0,
            x >= 0,
            y >= 0,
            c > 0,
    ;
    assert(y > 0);
    lemma_common_factor(m, 1, y);
    assert(1 * y == y);
    lemma_kept(
        is_negative(a) != is_negative(b),
        nearest_magnitude(m, 1),
        v,
    );
}

/// A root that a double can hold comes out exactly: the hypotenuse of a right
/// triangle whose sides and hypotenuse fit.
pub proof fn a_hypotenuse_that_fits_is_exact(x: Double, y: Double, v: int)
    requires
        is_finite(x),
        is_finite(y),
        v >= 0,
        is_double(v),
        v * v == value(x) * value(x) + value(y) * value(y),
    ensures
        is_exactly(hypotenuse(x, y), v),
{
    reveal(hypotenuse);
    let m = v as nat;
    let a = magnitude(x);
    let b = magnitude(y);
    let n = a * a + b * b;
    assert(n == m * m) by (nonlinear_arith)
        requires
            n == a * a + b * b,
            v * v == value(x) * value(x) + value(y) * value(y),
            value(x) == a || value(x) == -(a as int),
            value(y) == b || value(y) == -(b as int),
            m == v,
    ;
    let c = pow2(60);
    lemma_pow2_pos(60);
    lemma_pow2_adds(60, 60);
    lemma_pow2_adds(1, 60);
    lemma2_to64();
    assert(n * pow2(120) == (m * c) * (m * c)) by (nonlinear_arith)
        requires
            n == m * m,
            pow2(120) == c * c,
    ;
    let root = floor_root(n * pow2(120));
    lemma_floor_root(n * pow2(120));
    let w = m * c;
    assert(root == w) by (nonlinear_arith)
        requires
            root * root <= w * w,
            w * w < (root + 1) * (root + 1),
            root >= 0,
            w >= 0,
    ;
    assert(2 * w + 0 == m * pow2(61)) by (nonlinear_arith)
        requires
            w == m * c,
            pow2(61) == 2 * c,
    ;
    lemma_pow2_pos(61);
    lemma_common_factor(m, 1, pow2(61));
    assert(1 * pow2(61) == pow2(61));
    assert(nearest_root(n) == nearest_magnitude(m, 1));
    lemma_kept(false, nearest_root(n), v);
}

/// Taking away the sign leaves the value without its sign.
pub proof fn without_its_sign_a_number_is_as_large(d: Double)
    requires
        is_finite(d),
    ensures
        is_exactly(
            absolute(d),
            if value(d) < 0 {
                -value(d)
            } else {
                value(d)
            },
        ),
{
    let r = absolute(d);
    assert(magnitude_bits(r) == magnitude_bits(d));
    assert(magnitude(r) == magnitude(d));
    lemma_zero_magnitude(d);
}

/// What takes no more than fifty-three bits fits a double.
pub proof fn few_bits_fit(k: int, e: nat)
    requires
        -0x20_0000_0000_0000 < k < 0x20_0000_0000_0000,
        e <= 2045,
    ensures
        is_double(k * pow2(e)),
{
    lemma2_to64();
    lemma2_to64_rest();
    let size = (if k < 0 {
        -k
    } else {
        k
    }) as nat;
    let p = pow2(e);
    lemma_pow2_pos(e);
    let n = size * p;
    let x = excess_bits(n, 1);
    lemma_excess_is_tight(n, 1);
    let w = EXPONENT_UNIT as int;
    lemma_pow2_adds(53, e);
    assert(n < pow2(53 + e)) by (nonlinear_arith)
        requires
            n == size * p,
            size < 0x20_0000_0000_0000,
            pow2(53 + e) == 0x20_0000_0000_0000 * p,
            p > 0,
    ;
    if x > e {
        lemma_pow2_grows(53 + e, 52 + x);
    }
    let s = (e - x) as nat;
    lemma_pow2_adds(s, x);
    let q = size * pow2(s);
    let px = pow2(x);
    lemma_pow2_pos(x);
    assert(n == q * px) by (nonlinear_arith)
        requires
            n == size * p,
            p == pow2(s) * px,
            q == size * pow2(s),
    ;
    lemma_pow2_adds(53, x);
    assert(q < 2 * w) by (nonlinear_arith)
        requires
            q * px < 0x20_0000_0000_0000 * px,
            w == 0x10_0000_0000_0000,
            px > 0,
    ;
    if x > 0 {
        lemma_pow2_adds(52, x);
        assert(q >= w) by (nonlinear_arith)
            requires
                q * px >= 0x10_0000_0000_0000 * px,
                w == 0x10_0000_0000_0000,
                px > 0,
        ;
    }
    let bits = x * w + q;
    assert(bits < INFINITY_BITS) by (nonlinear_arith)
        requires
            bits == x * w + q,
            x <= 2045,
            q < 2 * w,
            w == 0x10_0000_0000_0000,
            INFINITY_BITS == 0x7ff0_0000_0000_0000,
    ;
    assert(bits >= 0) by (nonlinear_arith)
        requires
            bits == x * w + q,
            x >= 0,
            w > 0,
            q >= 0,
    ;
    let d = signed(k < 0, bits as nat);
    assert(magnitude_bits(d) == bits);
    if q < w {
        assert(x == 0);
        lemma_fundamental_div_mod_converse(bits, w, 0, q as int);
        assert(magnitude(d) == q);
        assert(px == 1);
        assert(q * 1 == q);
    } else {
        assert(bits == (x + 1) * w + (q - w)) by (nonlinear_arith)
            requires
                bits == x * w + q,
        ;
        lemma_fundamental_div_mod_converse(bits, w, (x + 1) as int, q - w);
        assert(magnitude(d) == q * px);
    }
    assert(value(d) == k * p) by (nonlinear_arith)
        requires
            value(d) == (if k < 0 {
                -(n as int)
            } else {
                n as int
            }),
            n == size * p,
            size == (if k < 0 {
                -k
            } else {
                k
            }),
    ;
}

/// A natural number that a double can hold is counted exactly.
pub proof fn a_count_that_fits_is_exact(n: nat)
    requires
        n < 0x20_0000_0000_0000,
    ensures
        is_exactly(of_natural(n), n * unit()),
{
    few_bits_fit(n as int, 1074);
    let v = n * unit();
    lemma_pow2_pos(1074);
    assert(v >= 0) by (nonlinear_arith)
        requires
            v == n * unit(),
            n >= 0,
            unit() > 0,
    ;
    lemma_kept(false, nearest_magnitude(v as nat, 1), v);
}

} // verus!
