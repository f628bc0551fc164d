//! Choosing among doubles, and doubles from counts.

use crate::double::{
    is_at_most, is_less, is_nan, is_negative, magnitude_bits, signed, Double, SIGN_BIT,
};
use crate::product::lemma_nearest_zero;
use crate::rounding::{nearest_magnitude, round_scaled};
use vstd::arithmetic::power2::{lemma2_to64, lemma_pow2_pos, pow2};
use vstd::prelude::*;

verus! {

/// Whether `a` and `b` are the same number; both zeros are, and what is no
/// number is the same as nothing.
pub open spec fn is_same(a: Double, b: Double) -> bool {
    is_at_most(a, b) && is_at_most(b, a)
}

/// The larger of two; where one is no number, the other.
pub open spec fn larger(a: Double, b: Double) -> Double {
    if is_nan(a) {
        b
    } else if is_less(a, b) {
        b
    } else {
        a
    }
}

/// The smaller of two; where one is no number, the other.
pub open spec fn smaller(a: Double, b: Double) -> Double {
    if is_nan(a) {
        b
    } else if is_less(b, a) {
        b
    } else {
        a
    }
}

/// `d` without its sign.
pub open spec fn absolute(d: Double) -> Double {
    signed(false, magnitude_bits(d) as nat)
}

/// Where `d` stands in the order of all patterns: negative ones, then positive
/// ones, each by magnitude, with those that are no numbers at the ends.
pub open spec fn total_place(d: Double) -> int {
    if is_negative(d) {
        -1 - magnitude_bits(d)
    } else {
        magnitude_bits(d)
    }
}

/// The double nearest to a natural number.
pub open spec fn of_natural(n: nat) -> Double {
    signed(false, nearest_magnitude(n * pow2(1074), 1))
}

impl Double {
    /// Whether this and `other` are the same number.
    pub fn equals(self, other: Double) -> (same: bool)
        ensures
            same == is_same(self, other),
    {
        self.at_most(other) && other.at_most(self)
    }

    /// The larger of this and `other`.
    pub fn or_larger(self, other: Double) -> (d: Double)
        ensures
            d == larger(self, other),
    {
        if self.is_not_a_number() || self.less_than(other) {
            other
        } else {
            self
        }
    }

    /// The smaller of this and `other`.
    pub fn or_smaller(self, other: Double) -> (d: Double)
        ensures
            d == smaller(self, other),
    {
        if self.is_not_a_number() || other.less_than(self) {
            other
        } else {
            self
        }
    }

    /// This without its sign.
    pub fn magnitude_of(self) -> (d: Double)
        ensures
            d == absolute(self),
    {
        Double::with_sign(false, self.unsigned())
    }

    /// Whether this stands before `other` in the order of all patterns.
    pub fn stands_before(self, other: Double) -> (before: bool)
        ensures
            before == (total_place(self) < total_place(other)),
    {
        if self.bits >= SIGN_BIT {
            if other.bits >= SIGN_BIT {
                other.bits < self.bits
            } else {
                true
            }
        } else if other.bits >= SIGN_BIT {
            false
        } else {
            self.bits < other.bits
        }
    }

    /// The double nearest to `n`.
    pub fn from_count(n: u64) -> (d: Double)
        ensures
            d == of_natural(n as nat),
    {
        let ghost exact = n * pow2(1074);
        proof {
            lemma_pow2_pos(1074);
            lemma2_to64();
        }
        if n == 0 {
            proof {
                assert(exact == 0) by (nonlinear_arith)
                    requires
                        exact == n * pow2(1074),
                        n == 0,
                ;
                lemma_nearest_zero(1);
            }
            return Double { bits: 0 };
        }
        proof {
            assert(n * (1 * pow2(1074)) == exact && exact * 1 == exact) by (nonlinear_arith)
                requires
                    exact == n * pow2(1074),
            ;
            assert((n + 1) * (1 * pow2(1074)) > exact) by (nonlinear_arith)
                requires
                    exact == n * pow2(1074),
                    pow2(1074) > 0,
            ;
        }
        let bits: u64 = round_scaled(
            n as u128,
            false,
            1074,
            Ghost(exact as nat),
            Ghost(1),
            Ghost(1074),
            Ghost(0),
        );
        Double { bits }
    }
}

} // verus!
