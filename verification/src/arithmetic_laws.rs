//! What holds of sums of doubles.

use crate::double::{
    comparison_follows_the_values, is_at_most, is_finite, is_less, is_nan, is_negative, magnitude, magnitude_bits, minus, negated,
    plus, signed, value, zero, Double, NAN_BITS,
};
use crate::measure::is_same;
use crate::plane::TWO;
use crate::product::{lemma_nearest_zero, lemma_zero_magnitude, over, times};
use crate::rounding::{
    excess_bits, lemma_excess_bits, lemma_pow2_grows, nearest_integer, nearest_magnitude,
    EXPONENT_UNIT, INFINITY_BITS,
};
use vstd::arithmetic::div_mod::lemma_fundamental_div_mod_converse;
use vstd::arithmetic::power2::{
    lemma2_to64, lemma2_to64_rest, lemma_pow2_adds, lemma_pow2_pos, lemma_pow2_unfold, pow2,
};
use vstd::prelude::*;

verus! {

/// Whether `d` is a number without a minus sign.
pub open spec fn is_length(d: Double) -> bool {
    !is_negative(d) && !is_nan(d)
}

/// A number has `k` bits in excess where it takes fifty-three and `k`.
pub(crate) proof fn lemma_excess_is_tight(n: nat, d: nat)
    requires
        d > 0,
    ensures
        n < d * pow2(53 + excess_bits(n, d)),
        excess_bits(n, d) > 0 ==> n >= d * pow2(52 + excess_bits(n, d)),
    decreases n - d,
{
    lemma2_to64_rest();
    let k = excess_bits(n, d);
    if n < d * 0x20_0000_0000_0000 {
    } else {
        assert(n >= 2 * d) by (nonlinear_arith)
            requires
                n >= d * 0x20_0000_0000_0000,
        ;
        lemma_excess_is_tight(n, 2 * d);
        let less = excess_bits(n, 2 * d);
        lemma_pow2_unfold(53 + k);
        lemma_pow2_unfold(52 + k);
        let half = pow2(53 + less);
        let quarter = pow2(52 + less);
        assert((2 * d) * half == d * (2 * half)) by (nonlinear_arith);
        assert((2 * d) * quarter == d * (2 * quarter)) by (nonlinear_arith);
        if less == 0 {
            assert(pow2(53) == 0x20_0000_0000_0000);
        }
    }
}

proof fn lemma_whole_parts(n: nat, d: nat, k: nat, low: nat)
    requires
        d > 0,
        n >= low * (d * pow2(k)),
    ensures
        nearest_integer(n, d * pow2(k)) >= low,
{
    let p = d * pow2(k);
    lemma_pow2_pos(k);
    assert(p > 0) by (nonlinear_arith)
        requires
            p == d * pow2(k),
            d > 0,
            pow2(k) > 0,
    ;
    assert(n / p >= low) by (nonlinear_arith)
        requires
            n >= low * p,
            p > 0,
    ;
}

/// What is at least a finite double rounds to no less.
pub(crate) proof fn lemma_rounds_no_lower(a: Double, n: nat, d: nat)
    requires
        is_finite(a),
        d > 0,
        n >= magnitude(a) * d,
    ensures
        nearest_magnitude(n, d) >= magnitude_bits(a),
{
    lemma2_to64();
    lemma2_to64_rest();
    let bits = magnitude_bits(a);
    let unit = EXPONENT_UNIT as int;
    let e = bits / unit;
    let f = bits % unit;
    let k = excess_bits(n, d);
    lemma_excess_is_tight(n, d);
    let rounded = nearest_integer(n, d * pow2(k));
    assert(bits == e * unit + f) by (nonlinear_arith)
        requires
            e == bits / unit,
            f == bits % unit,
            unit > 0,
    ;
    if e == 0 {
        if k == 0 {
            assert(d * pow2(0) == d);
            lemma_whole_parts(n, d, 0, f as nat);
        } else {
            assert(k * unit >= unit) by (nonlinear_arith)
                requires
                    k >= 1,
                    unit > 0,
            ;
        }
    } else {
        let p = pow2((e - 1) as nat);
        lemma_pow2_pos((e - 1) as nat);
        assert(magnitude(a) == (unit + f) * p);
        if k < e - 1 {
            lemma_pow2_adds(52, (e - 1) as nat);
            lemma_pow2_grows(53 + k, (52 + (e - 1)) as nat);
            assert((unit + f) * p >= unit * p) by (nonlinear_arith)
                requires
                    f >= 0,
                    p > 0,
            ;
            assert(magnitude(a) * d >= pow2(53 + k) * d) by (nonlinear_arith)
                requires
                    magnitude(a) >= pow2(53 + k),
                    d > 0,
            ;
            assert(pow2(53 + k) * d == d * pow2(53 + k)) by (nonlinear_arith);
        }
        if k == e - 1 {
            assert(((unit + f) * p) * d == (unit + f) * (d * p)) by (nonlinear_arith);
            lemma_whole_parts(n, d, k, (unit + f) as nat);
            assert(k * unit + unit == e * unit) by (nonlinear_arith)
                requires
                    k == e - 1,
            ;
        } else {
            lemma_pow2_adds(52, k);
            assert(d * pow2(52 + k) == unit * (d * pow2(k))) by (nonlinear_arith)
                requires
                    pow2(52 + k) == unit * pow2(k),
            ;
            lemma_whole_parts(n, d, k, unit as nat);
            assert(k * unit + unit >= e * unit + unit) by (nonlinear_arith)
                requires
                    k >= e,
                    unit > 0,
            ;
        }
    }
}

/// A finite double rounds to itself.
pub(crate) proof fn lemma_rounds_to_itself(a: Double)
    requires
        is_finite(a),
    ensures
        nearest_magnitude(magnitude(a), 1) == magnitude_bits(a),
{
    lemma2_to64();
    lemma2_to64_rest();
    let bits = magnitude_bits(a);
    let unit = EXPONENT_UNIT as int;
    let e = bits / unit;
    let f = bits % unit;
    let n = magnitude(a);
    assert(bits == e * unit + f) by (nonlinear_arith)
        requires
            e == bits / unit,
            f == bits % unit,
            unit > 0,
    ;
    if e == 0 {
        assert(excess_bits(n, 1) == 0);
        assert(pow2(0) == 1);
        lemma_fundamental_div_mod_converse(n as int, 1, n as int, 0);
        assert(nearest_integer(n, 1) == n);
    } else {
        let k = (e - 1) as nat;
        let p = pow2(k);
        lemma_pow2_pos(k);
        lemma_pow2_adds(52, k);
        lemma_pow2_adds(53, k);
        assert((unit + f) * p >= unit * p) by (nonlinear_arith)
            requires
                f >= 0,
                p > 0,
        ;
        assert((unit + f) * p < (2 * unit) * p) by (nonlinear_arith)
            requires
                f < unit,
                p > 0,
        ;
        lemma_excess_bits(n, 1, k);
        lemma_fundamental_div_mod_converse(n as int, p as int, unit + f, 0);
        assert(nearest_integer(n, 1 * p) == unit + f);
        assert(k * unit + unit == e * unit) by (nonlinear_arith)
            requires
                k == e - 1,
        ;
    }
}

proof fn lemma_nothing_has_no_magnitude()
    ensures
        magnitude(zero()) == 0,
        magnitude(negated(zero())) == 0,
        value(zero()) == 0,
        value(negated(zero())) == 0,
{
    assert(magnitude_bits(zero()) == 0);
    assert(magnitude_bits(negated(zero())) == 0);
}

/// Only the quotient counts: a common factor changes nothing.
pub(crate) proof fn lemma_common_factor(n: nat, d: nat, c: nat)
    requires
        d > 0,
        c > 0,
    ensures
        nearest_magnitude(n * c, d * c) == nearest_magnitude(n, d),
{
    let k = excess_bits(n, d);
    lemma_excess_is_tight(n, d);
    let high = pow2(53 + k);
    let low = pow2(52 + k);
    assert(d * c > 0) by (nonlinear_arith)
        requires
            d > 0,
            c > 0,
    ;
    assert(n * c < (d * c) * high) by (nonlinear_arith)
        requires
            n < d * high,
            c > 0,
    ;
    if k > 0 {
        assert(n * c >= (d * c) * low) by (nonlinear_arith)
            requires
                n >= d * low,
                c > 0,
        ;
    }
    lemma_excess_bits(n * c, d * c, k);
    let p = pow2(k);
    lemma_pow2_pos(k);
    let w = d * p;
    assert(w > 0) by (nonlinear_arith)
        requires
            w == d * p,
            d > 0,
            p > 0,
    ;
    assert((d * c) * p == w * c) by (nonlinear_arith)
        requires
            w == d * p,
    ;
    let q = n / w;
    let r = n % w;
    assert(n == q * w + r && 0 <= r < w) by (nonlinear_arith)
        requires
            q == n / w,
            r == n % w,
            w > 0,
    ;
    assert(n * c == q * (w * c) + r * c) by (nonlinear_arith)
        requires
            n == q * w + r,
    ;
    assert(0 <= r * c < w * c) by (nonlinear_arith)
        requires
            0 <= r < w,
            c > 0,
    ;
    lemma_fundamental_div_mod_converse((n * c) as int, (w * c) as int, q as int, (r * c) as int);
    assert(2 * (r * c) > w * c <==> 2 * r > w) by (nonlinear_arith)
        requires
            c > 0,
    ;
    assert(2 * (r * c) == w * c <==> 2 * r == w) by (nonlinear_arith)
        requires
            c > 0,
    ;
}

/// Doubling the half of a number gives the number back, unless it is so near
/// to nothing that a bit of it is lost.
pub proof fn twice_the_half_is_the_whole(w: Double)
    requires
        is_finite(w),
        magnitude_bits(w) >= 2 * EXPONENT_UNIT,
    ensures
        times(Double { bits: TWO }, over(w, Double { bits: TWO })) == w,
{
    reveal(times);
    reveal(over);
    lemma2_to64_rest();
    let two = Double { bits: TWO };
    let unit = EXPONENT_UNIT as int;
    let bits = magnitude_bits(w);
    let half = signed(is_negative(w), (bits - unit) as nat);
    let e = bits / unit;
    let f = bits % unit;
    let c = pow2(1074);
    lemma_pow2_pos(1074);
    lemma_fundamental_div_mod_converse(TWO as int, unit, 1024, 0);
    lemma_pow2_adds(52, 1023);
    lemma_pow2_unfold(1075);
    assert(magnitude(two) == 2 * c);
    assert(bits == e * unit + f && e >= 2) by (nonlinear_arith)
        requires
            e == bits / unit,
            f == bits % unit,
            unit > 0,
            bits >= 2 * unit,
    ;
    assert(bits - unit == (e - 1) * unit + f) by (nonlinear_arith)
        requires
            bits == e * unit + f,
    ;
    lemma_fundamental_div_mod_converse(bits - unit, unit, e - 1, f);
    assert(magnitude_bits(half) == bits - unit);
    lemma_pow2_unfold((e - 1) as nat);
    let w_less = pow2((e - 2) as nat);
    let m = magnitude(half);
    assert(magnitude(w) == 2 * m) by (nonlinear_arith)
        requires
            m == (unit + f) * w_less,
            magnitude(w) == (unit + f) * (2 * w_less),
    ;
    lemma_rounds_to_itself(half);
    lemma_rounds_to_itself(w);
    lemma_common_factor(m, 1, 2);
    lemma_common_factor(2 * m, 2, c);
    assert(m * 2 == 2 * m && 1 * 2 == 2int);
    assert(over(w, two) == half);
    assert((2 * c) * m == (2 * m) * c && 1 * c == c) by (nonlinear_arith);
    lemma_common_factor(2 * m, 1, c);
    assert(is_finite(half) && !is_negative(two));
}

/// Adding nothing to a length leaves it as it is.
pub proof fn adding_nothing_changes_no_length(a: Double)
    requires
        is_length(a),
    ensures
        plus(a, zero()) == a,
{
    reveal(minus);
    lemma_nothing_has_no_magnitude();
    let none = negated(zero());
    assert(is_negative(none) && is_finite(none));
    if is_finite(a) {
        lemma_rounds_to_itself(a);
        if value(a) == 0 {
            lemma_zero_magnitude(a);
        }
    }
}

/// Adding a length to another never makes it shorter, and the sum is a length.
pub proof fn adding_a_length_never_shortens(a: Double, b: Double)
    requires
        is_length(a),
        is_length(b),
    ensures
        is_length(plus(a, b)),
        is_at_most(a, plus(a, b)),
{
    reveal(minus);
    let other = negated(b);
    assert(magnitude_bits(other) == magnitude_bits(b));
    assert(is_negative(other));
    assert(magnitude(other) == magnitude(b));
    if is_finite(a) && is_finite(b) {
        let exact = value(a) - value(other);
        assert(exact == magnitude(a) + magnitude(b));
        if exact == 0 {
            lemma_zero_magnitude(a);
        } else {
            lemma_rounds_no_lower(a, exact as nat, 1);
            assert(nearest_magnitude(exact as nat, 1) <= INFINITY_BITS);
        }
    }
}

/// What is no number stays no number, whatever is added.
pub proof fn no_number_stays_none(a: Double, b: Double)
    requires
        is_nan(a) || is_nan(b),
    ensures
        plus(a, b) == (Double { bits: NAN_BITS }),
{
    reveal(minus);
    assert(magnitude_bits(negated(b)) == magnitude_bits(b));
}

/// Adding nothing, of whatever sign, to a finite number leaves the number.
pub proof fn adding_nothing_changes_no_number(a: Double, none: Double)
    requires
        is_finite(a),
        magnitude_bits(none) == 0,
    ensures
        is_same(plus(a, none), a),
{
    reveal(minus);
    let other = negated(none);
    assert(magnitude_bits(other) == 0);
    lemma_zero_magnitude(other);
    lemma_zero_magnitude(a);
    lemma_rounds_to_itself(a);
}

/// What is at most a finite double rounds to no more.
pub(crate) proof fn lemma_rounds_no_higher(a: Double, n: nat, d: nat)
    requires
        is_finite(a),
        d > 0,
        n <= magnitude(a) * d,
    ensures
        nearest_magnitude(n, d) <= magnitude_bits(a),
{
    lemma2_to64();
    lemma2_to64_rest();
    let bits = magnitude_bits(a);
    let unit = EXPONENT_UNIT as int;
    let e = bits / unit;
    let f = bits % unit;
    let k = excess_bits(n, d);
    lemma_excess_is_tight(n, d);
    let w = pow2(k);
    lemma_pow2_pos(k);
    let p = d * w;
    assert(p > 0) by (nonlinear_arith)
        requires
            p == d * w,
            d > 0,
            w > 0,
    ;
    let q = n / p;
    let r = n % p;
    assert(n == q * p + r && 0 <= r < p) by (nonlinear_arith)
        requires
            q == n / p,
            r == n % p,
            p > 0,
    ;
    assert(bits == e * unit + f) by (nonlinear_arith)
        requires
            e == bits / unit,
            f == bits % unit,
            unit > 0,
    ;
    if e == 0 {
        if k > 0 {
            lemma_pow2_grows(53, 52 + k);
            assert(d * pow2(52 + k) > f * d) by (nonlinear_arith)
                requires
                    pow2(52 + k) > f,
                    d > 0,
            ;
        }
        assert(magnitude(a) == f);
        assert(k == 0 && w == 1);
        assert(p == d) by (nonlinear_arith)
            requires
                p == d * w,
                w == 1,
        ;
        assert(q <= f && (q == f ==> r == 0)) by (nonlinear_arith)
            requires
                n == q * p + r,
                n <= f * p,
                0 <= r < p,
                p > 0,
        ;
    } else {
        let v = pow2((e - 1) as nat);
        let top = unit + f;
        lemma_pow2_pos((e - 1) as nat);
        assert(magnitude(a) == top * v);
        assert((top * v) * d < d * ((2 * unit) * v)) by (nonlinear_arith)
            requires
                top < 2 * unit,
                v > 0,
                d > 0,
        ;
        lemma_pow2_adds(53, (e - 1) as nat);
        if k > e - 1 {
            lemma_pow2_grows((53 + (e - 1)) as nat, 52 + k);
            assert(d * pow2(52 + k) >= d * pow2((53 + (e - 1)) as nat)) by (nonlinear_arith)
                requires
                    pow2(52 + k) >= pow2((53 + (e - 1)) as nat),
            ;
        }
        if k == e - 1 {
            assert((top * v) * d == top * p) by (nonlinear_arith)
                requires
                    p == d * v,
            ;
            assert(q <= top && (q == top ==> r == 0)) by (nonlinear_arith)
                requires
                    n == q * p + r,
                    n <= top * p,
                    0 <= r < p,
                    p > 0,
            ;
            assert(k * unit + unit == e * unit) by (nonlinear_arith)
                requires
                    k == e - 1,
            ;
        } else {
            lemma_pow2_adds(53, k);
            assert(d * pow2(53 + k) == (2 * unit) * p) by (nonlinear_arith)
                requires
                    pow2(53 + k) == (2 * unit) * w,
                    p == d * w,
            ;
            assert(q < 2 * unit) by (nonlinear_arith)
                requires
                    n == q * p + r,
                    n < (2 * unit) * p,
                    0 <= r < p,
                    p > 0,
            ;
            assert(k * unit + 2 * unit <= e * unit) by (nonlinear_arith)
                requires
                    k + 2 <= e,
                    unit > 0,
            ;
        }
    }
}

/// Taking a length away from a longer one leaves no more than there was.
pub proof fn taking_a_length_away_never_lengthens(a: Double, b: Double)
    requires
        is_at_most(zero(), b),
        is_less(b, a),
    ensures
        is_at_most(minus(a, b), a),
        is_at_most(zero(), minus(a, b)),
{
    reveal(minus);
    if is_finite(a) {
        comparison_follows_the_values(b, a);
        comparison_follows_the_values(zero(), b);
        lemma_nothing_has_no_magnitude();
        let exact = value(a) - value(b);
        lemma_rounds_no_higher(a, exact as nat, 1);
    }
}

/// Where what is left when `b` is taken from `a` is itself a double, that is
/// what comes out.
pub proof fn exact_differences_are_kept(a: Double, b: Double, d: Double)
    requires
        is_finite(a),
        is_finite(b),
        is_finite(d),
        value(d) == value(a) - value(b),
    ensures
        is_same(minus(a, b), d),
{
    reveal(minus);
    lemma_zero_magnitude(d);
    lemma_rounds_to_itself(d);
}

/// No share of a finite number is nothing.
pub proof fn no_share_is_nothing(a: Double)
    requires
        is_finite(a),
    ensures
        magnitude_bits(times(a, zero())) == 0,
{
    reveal(times);
    lemma_zero_magnitude(zero());
    lemma_pow2_pos(1074);
    assert(magnitude(a) * 0 == 0) by (nonlinear_arith);
    lemma_nearest_zero(pow2(1074));
}

/// Nothing, shared out over a positive number, is nothing.
pub proof fn nothing_shared_is_nothing(a: Double, b: Double)
    requires
        is_finite(a),
        is_less(zero(), b),
    ensures
        over(minus(a, a), b) == zero(),
{
    reveal(minus);
    reveal(over);
    assert(minus(a, a) == zero());
    lemma_zero_magnitude(zero());
    lemma_zero_magnitude(b);
    if is_finite(b) {
        assert(0 * pow2(1074) == 0) by (nonlinear_arith);
        lemma_nearest_zero(magnitude(b));
    }
}

} // verus!
