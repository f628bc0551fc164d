//! Products and quotients of doubles.

use crate::double::{
    is_infinite, is_nan, is_negative, magnitude, magnitude_bits, signed, Double, NAN_BITS, SIGN_BIT,
};
use crate::rounding::{
    bit_length, excess_bits, lemma_pow2_grows, nearest_integer, nearest_magnitude, power_of_two,
    round_scaled, EXPONENT_UNIT, INFINITY_BITS,
};
use vstd::arithmetic::power2::{
    lemma2_to64, lemma2_to64_rest, lemma_pow2_adds, lemma_pow2_pos, pow2,
};
use vstd::prelude::*;

verus! {

/// `a * b`.
#[verifier::opaque]
pub open spec fn times(a: Double, b: Double) -> Double {
    let negative = is_negative(a) != is_negative(b);
    if is_nan(a) || is_nan(b) {
        Double { bits: NAN_BITS }
    } else if is_infinite(a) || is_infinite(b) {
        if magnitude_bits(a) == 0 || magnitude_bits(b) == 0 {
            Double { bits: NAN_BITS }
        } else {
            signed(negative, INFINITY_BITS as nat)
        }
    } else {
        signed(negative, nearest_magnitude(magnitude(a) * magnitude(b), pow2(1074)))
    }
}

/// `a / b`.
#[verifier::opaque]
pub open spec fn over(a: Double, b: Double) -> Double {
    let negative = is_negative(a) != is_negative(b);
    if is_nan(a) || is_nan(b) || (is_infinite(a) && is_infinite(b)) || (magnitude_bits(a) == 0
        && magnitude_bits(b) == 0) {
        Double { bits: NAN_BITS }
    } else if is_infinite(a) || magnitude_bits(b) == 0 {
        signed(negative, INFINITY_BITS as nat)
    } else if is_infinite(b) {
        signed(negative, 0)
    } else {
        signed(negative, nearest_magnitude(magnitude(a) * pow2(1074), magnitude(b)))
    }
}

/// Zero rounds to zero.
pub proof fn lemma_nearest_zero(d: nat)
    requires
        d > 0,
    ensures
        nearest_magnitude(0, d) == 0,
{
    assert(0 < d * 0x20_0000_0000_0000) by (nonlinear_arith)
        requires
            d > 0,
    ;
    assert(excess_bits(0, d) == 0);
    lemma2_to64();
    let whole = d * pow2(0);
    assert(whole == d) by (nonlinear_arith)
        requires
            whole == d * pow2(0),
            pow2(0) == 1,
    ;
    assert(nearest_integer(0, d) == 0) by {
        assert(0nat / d == 0 && 0nat % d == 0) by (nonlinear_arith)
            requires
                d > 0,
        ;
    }
}

/// Only zero has no magnitude.
pub proof fn lemma_zero_magnitude(d: Double)
    ensures
        magnitude(d) == 0 <==> magnitude_bits(d) == 0,
{
    let exponent = magnitude_bits(d) / EXPONENT_UNIT as int;
    let fraction = magnitude_bits(d) % EXPONENT_UNIT as int;
    if exponent != 0 {
        let p = pow2((exponent - 1) as nat);
        lemma_pow2_pos((exponent - 1) as nat);
        assert(((EXPONENT_UNIT + fraction) as nat) * p > 0) by (nonlinear_arith)
            requires
                EXPONENT_UNIT + fraction > 0,
                p > 0,
        ;
    }
}

impl Double {
    /// `self * other`.
    pub fn multiply(self, other: Double) -> (d: Double)
        ensures
            d == times(self, other),
    {
        reveal(times);
        if self.is_not_a_number() || other.is_not_a_number() {
            return Double { bits: NAN_BITS };
        }
        let negative: bool = (self.bits >= SIGN_BIT) != (other.bits >= SIGN_BIT);
        let left: u64 = self.unsigned();
        let right: u64 = other.unsigned();
        if left == INFINITY_BITS || right == INFINITY_BITS {
            if left == 0 || right == 0 {
                return Double { bits: NAN_BITS };
            }
            return Double::with_sign(negative, INFINITY_BITS);
        }
        proof {
            lemma_pow2_pos(1074);
            lemma_zero_magnitude(self);
            lemma_zero_magnitude(other);
        }
        if left == 0 || right == 0 {
            proof {
                assert(magnitude(self) * magnitude(other) == 0) by (nonlinear_arith)
                    requires
                        magnitude(self) == 0 || magnitude(other) == 0,
                ;
                lemma_nearest_zero(pow2(1074));
            }
            return Double::with_sign(negative, 0);
        }
        let (m1, e1) = self.parts();
        let (m2, e2) = other.parts();
        let ghost n = magnitude(self) * magnitude(other);
        let ghost d = pow2(1074);
        let ghost p1 = pow2(e1 as nat);
        let ghost p2 = pow2(e2 as nat);
        let ghost i = (e1 + e2) as nat;
        proof {
            lemma_pow2_pos(e1 as nat);
            lemma_pow2_pos(e2 as nat);
            lemma_pow2_pos(i);
            lemma_pow2_adds(e1 as nat, e2 as nat);
            assert(m1 > 0) by (nonlinear_arith)
                requires
                    m1 * p1 != 0,
                    m1 >= 0,
            ;
            assert(m2 > 0) by (nonlinear_arith)
                requires
                    m2 * p2 != 0,
                    m2 >= 0,
            ;
            assert(0 < m1 * m2 < 0x400_0000_0000_0000_0000_0000_0000) by (nonlinear_arith)
                requires
                    0 < m1 < 0x20_0000_0000_0000,
                    0 < m2 < 0x20_0000_0000_0000,
            ;
            assert((m1 * p1) * (m2 * p2) == (m1 * m2) * (p1 * p2)) by (nonlinear_arith);
            assert(((m1 * m2) * pow2(i)) * d == (m1 * m2) * (d * pow2(i))) by (nonlinear_arith);
            assert(((m1 * m2) + 1) * (d * pow2(i)) > (m1 * m2) * (d * pow2(i)))
                by (nonlinear_arith)
                requires
                    d > 0,
                    pow2(i) > 0,
            ;
        }
        let m: u128 = m1 as u128 * m2 as u128;
        let bits: u64 = round_scaled(
            m,
            false,
            e1 as i32 + e2 as i32 - 1074,
            Ghost(n),
            Ghost(d),
            Ghost(i),
            Ghost(1074),
        );
        Double::with_sign(negative, bits)
    }

    /// `self / other`.
    pub fn divide(self, other: Double) -> (d: Double)
        ensures
            d == over(self, other),
    {
        reveal(over);
        if self.is_not_a_number() || other.is_not_a_number() {
            return Double { bits: NAN_BITS };
        }
        let negative: bool = (self.bits >= SIGN_BIT) != (other.bits >= SIGN_BIT);
        let left: u64 = self.unsigned();
        let right: u64 = other.unsigned();
        if (left == INFINITY_BITS && right == INFINITY_BITS) || (left == 0 && right == 0) {
            return Double { bits: NAN_BITS };
        }
        if left == INFINITY_BITS || right == 0 {
            return Double::with_sign(negative, INFINITY_BITS);
        }
        if right == INFINITY_BITS {
            return Double::with_sign(negative, 0);
        }
        proof {
            lemma_zero_magnitude(self);
            lemma_zero_magnitude(other);
        }
        let ghost n = magnitude(self) * pow2(1074);
        let ghost d = magnitude(other);
        if left == 0 {
            proof {
                assert(n == 0) by (nonlinear_arith)
                    requires
                        n == magnitude(self) * pow2(1074),
                        magnitude(self) == 0,
                ;
                lemma_nearest_zero(d);
            }
            return Double::with_sign(negative, 0);
        }
        let (m1, e1) = self.parts();
        let (m2, e2) = other.parts();
        let ghost p1 = pow2(e1 as nat);
        let ghost p2 = pow2(e2 as nat);
        proof {
            lemma_pow2_pos(e1 as nat);
            lemma_pow2_pos(e2 as nat);
            assert(m1 > 0) by (nonlinear_arith)
                requires
                    m1 * p1 != 0,
                    m1 >= 0,
            ;
            assert(m2 > 0) by (nonlinear_arith)
                requires
                    m2 * p2 != 0,
                    m2 >= 0,
            ;
        }
        let length: u32 = bit_length(m1 as u128);
        proof {
            // the length of a significand is at most fifty-three
            if length > 53 {
                lemma_pow2_grows(53, (length - 1) as nat);
                lemma2_to64_rest();
            }
        }
        let shift: u32 = 116 - length;
        let factor: u128 = power_of_two(shift);
        let ghost f = factor as nat;
        proof {
            lemma_pow2_adds(length as nat, shift as nat);
            lemma_pow2_adds((length - 1) as nat, shift as nat);
            assert(pow2(116) == 0x10_0000_0000_0000_0000_0000_0000_0000
                && pow2(115) == 0x8_0000_0000_0000_0000_0000_0000_0000) by {
                lemma_pow2_adds(58, 58);
                lemma_pow2_adds(58, 57);
                lemma2_to64_rest();
            }
            assert(pow2((length - 1) as nat) * f <= m1 * f < pow2(length as nat) * f)
                by (nonlinear_arith)
                requires
                    pow2((length - 1) as nat) <= m1 < pow2(length as nat),
                    f > 0,
            ;
        }
        let scaled: u128 = m1 as u128 * factor;
        let m: u128 = scaled / m2 as u128;
        let r: u128 = scaled % m2 as u128;
        let ghost i = (e1 + 1074) as nat;
        let ghost j = (shift + e2) as nat;
        proof {
            lemma_pow2_pos(i);
            lemma_pow2_pos(j);
            lemma_pow2_adds(e1 as nat, 1074);
            lemma_pow2_adds(shift as nat, e2 as nat);
            assert(scaled == m * m2 + r && r < m2) by (nonlinear_arith)
                requires
                    m == scaled / m2 as u128,
                    r == scaled % m2 as u128,
                    m2 > 0,
            ;
            assert(m >= 0x20_0000_0000_0000) by (nonlinear_arith)
                requires
                    scaled == m * m2 + r,
                    r < m2,
                    scaled >= 0x8_0000_0000_0000_0000_0000_0000_0000,
                    m2 < 0x20_0000_0000_0000,
            ;
            assert(m <= scaled) by (nonlinear_arith)
                requires
                    scaled == m * m2 + r,
                    m2 >= 1,
                    r >= 0,
                    m >= 0,
            ;
            let unit = d * pow2(i);
            let pi = pow2(i);
            let extra = (r * p2) * pi;
            assert(n == m1 * pi) by (nonlinear_arith)
                requires
                    n == (m1 * p1) * pow2(1074),
                    pi == p1 * pow2(1074),
            ;
            assert(n * pow2(j) == (scaled * p2) * pi) by (nonlinear_arith)
                requires
                    n == m1 * pi,
                    pow2(j) == f * p2,
                    scaled == m1 * f,
            ;
            assert((scaled * p2) * pi == m * unit + extra) by (nonlinear_arith)
                requires
                    scaled == m * m2 + r,
                    unit == (m2 * p2) * pi,
                    extra == (r * p2) * pi,
            ;
            assert(0 <= extra < unit) by (nonlinear_arith)
                requires
                    extra == (r * p2) * pi,
                    unit == (m2 * p2) * pi,
                    0 <= r < m2,
                    p2 > 0,
                    pi > 0,
            ;
            assert(r == 0 <==> extra == 0) by (nonlinear_arith)
                requires
                    extra == (r * p2) * pi,
                    r >= 0,
                    p2 > 0,
                    pi > 0,
            ;
            assert((m + 1) * unit == m * unit + unit) by (nonlinear_arith);
        }
        let bits: u64 = round_scaled(
            m,
            r != 0,
            e1 as i32 + 1074 - shift as i32 - e2 as i32,
            Ghost(n),
            Ghost(d),
            Ghost(i),
            Ghost(j),
        );
        Double::with_sign(negative, bits)
    }
}

} // verus!
