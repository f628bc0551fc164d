//! Double-precision numbers by their bit pattern: how they compare, and their
//! arithmetic, rounded to nearest with ties to even.

use crate::rounding::{
    lemma_pow2_grows, nearest_magnitude, power_of_two, round_scaled, EXPONENT_UNIT, INFINITY_BITS,
};
use vstd::arithmetic::power2::{
    lemma2_to64, lemma2_to64_rest, lemma_pow2_adds, lemma_pow2_pos, lemma_pow2_unfold, pow2,
};
use vstd::prelude::*;

verus! {

/// The bit that carries the sign.
pub const SIGN_BIT: u64 = 0x8000_0000_0000_0000;

/// An IEEE 754 double-precision number, held as its 64 bits: the sign in the
/// top bit, then eleven bits of exponent and fifty-two of fraction.
///
/// `==` on this type compares bit patterns; [`Double::less_than`] and
/// [`Double::at_most`] compare the numbers.
#[derive(Clone, Copy, Debug, PartialEq, Eq, Structural)]
pub struct Double {
    pub bits: u64,
}

/// Nothing at all.
pub open spec fn zero() -> Double {
    Double { bits: 0 }
}

/// The bits of `d` without its sign.
pub open spec fn magnitude_bits(d: Double) -> int {
    if d.bits >= SIGN_BIT {
        d.bits - SIGN_BIT
    } else {
        d.bits as int
    }
}

/// Whether `d` carries a minus sign, which negative zero does too.
pub open spec fn is_negative(d: Double) -> bool {
    d.bits >= SIGN_BIT
}

/// Whether `d` is one of the patterns that stand for no number.
pub open spec fn is_nan(d: Double) -> bool {
    magnitude_bits(d) > INFINITY_BITS
}

/// Where `d` stands in the order of the doubles: the bits of a magnitude grow
/// with the magnitude, so the signed magnitude bits order the numbers. Both
/// zeros stand at the same place.
pub open spec fn position(d: Double) -> int {
    if is_negative(d) {
        -magnitude_bits(d)
    } else {
        magnitude_bits(d)
    }
}

/// `a < b`; false whenever either is not a number.
pub open spec fn is_less(a: Double, b: Double) -> bool {
    !is_nan(a) && !is_nan(b) && position(a) < position(b)
}

/// `a <= b`; false whenever either is not a number.
pub open spec fn is_at_most(a: Double, b: Double) -> bool {
    !is_nan(a) && !is_nan(b) && position(a) <= position(b)
}

/// A pattern that stands for no number.
pub const NAN_BITS: u64 = 0x7ff8_0000_0000_0000;

/// Whether `d` is a number, and not an infinity.
pub open spec fn is_finite(d: Double) -> bool {
    magnitude_bits(d) < INFINITY_BITS
}

/// Whether `d` is an infinity.
pub open spec fn is_infinite(d: Double) -> bool {
    magnitude_bits(d) == INFINITY_BITS
}

/// The magnitude of a finite double, in units of the least positive one,
/// which is `2^-1074`.
pub open spec fn magnitude(d: Double) -> nat {
    let exponent = magnitude_bits(d) / EXPONENT_UNIT as int;
    let fraction = magnitude_bits(d) % EXPONENT_UNIT as int;
    if exponent == 0 {
        fraction as nat
    } else {
        ((EXPONENT_UNIT + fraction) as nat) * pow2((exponent - 1) as nat)
    }
}

/// The exact value of a finite double, in units of the least positive one.
pub open spec fn value(d: Double) -> int {
    if is_negative(d) {
        -(magnitude(d) as int)
    } else {
        magnitude(d) as int
    }
}

/// The double with the given sign and magnitude bits.
pub open spec fn signed(negative: bool, bits: nat) -> Double {
    if negative {
        Double { bits: (bits + SIGN_BIT) as u64 }
    } else {
        Double { bits: bits as u64 }
    }
}

/// `d` with its sign turned round.
pub open spec fn negated(d: Double) -> Double {
    signed(!is_negative(d), magnitude_bits(d) as nat)
}

/// `a - b`.
#[verifier::opaque]
pub open spec fn minus(a: Double, b: Double) -> Double {
    if is_nan(a) || is_nan(b) || (is_infinite(a) && is_infinite(b) && is_negative(a)
        == is_negative(b)) {
        Double { bits: NAN_BITS }
    } else if is_infinite(a) {
        a
    } else if is_infinite(b) {
        negated(b)
    } else {
        let exact = value(a) - value(b);
        if exact == 0 {
            // only a negative zero less a positive one keeps the minus sign
            signed(is_negative(a) && !is_negative(b), 0)
        } else if exact < 0 {
            signed(true, nearest_magnitude((-exact) as nat, 1))
        } else {
            signed(false, nearest_magnitude(exact as nat, 1))
        }
    }
}

/// `a + b`.
pub open spec fn plus(a: Double, b: Double) -> Double {
    minus(a, negated(b))
}

/// The magnitude of a double with a lower bit pattern is lower.
proof fn lemma_magnitude_grows(a: Double, b: Double)
    requires
        magnitude_bits(a) < magnitude_bits(b),
    ensures
        magnitude(a) < magnitude(b),
{
    let ea = magnitude_bits(a) / EXPONENT_UNIT as int;
    let eb = magnitude_bits(b) / EXPONENT_UNIT as int;
    let fa = magnitude_bits(a) % EXPONENT_UNIT as int;
    let fb = magnitude_bits(b) % EXPONENT_UNIT as int;
    if eb > 0 {
        let pb = pow2((eb - 1) as nat);
        lemma_pow2_pos((eb - 1) as nat);
        assert((EXPONENT_UNIT + fb) * pb >= EXPONENT_UNIT * pb) by (nonlinear_arith)
            requires
                fb >= 0,
                pb > 0,
        ;
        if ea == 0 {
            assert(EXPONENT_UNIT * pb >= EXPONENT_UNIT) by (nonlinear_arith)
                requires
                    pb >= 1,
            ;
        } else {
            let pa = pow2((ea - 1) as nat);
            lemma_pow2_pos((ea - 1) as nat);
            if ea == eb {
                assert((EXPONENT_UNIT + fa) * pa < (EXPONENT_UNIT + fb) * pa) by (nonlinear_arith)
                    requires
                        fa < fb,
                        pa > 0,
                ;
            } else {
                lemma_pow2_unfold(ea as nat);
                lemma_pow2_grows(ea as nat, (eb - 1) as nat);
                assert((EXPONENT_UNIT + fa) * pa < EXPONENT_UNIT * (2 * pa)) by (nonlinear_arith)
                    requires
                        fa < EXPONENT_UNIT,
                        pa > 0,
                ;
                assert(EXPONENT_UNIT * (2 * pa) <= EXPONENT_UNIT * pb) by (nonlinear_arith)
                    requires
                        2 * pa <= pb,
                ;
            }
        }
    }
}

/// Finite doubles compare as their exact values do.
pub proof fn comparison_follows_the_values(a: Double, b: Double)
    requires
        is_finite(a),
        is_finite(b),
    ensures
        is_less(a, b) <==> value(a) < value(b),
        is_at_most(a, b) <==> value(a) <= value(b),
{
    let zero = Double { bits: 0 };
    assert(magnitude(zero) == 0);
    if magnitude_bits(a) < magnitude_bits(b) {
        lemma_magnitude_grows(a, b);
    }
    if magnitude_bits(b) < magnitude_bits(a) {
        lemma_magnitude_grows(b, a);
    }
    if magnitude_bits(a) > 0 {
        lemma_magnitude_grows(zero, a);
    }
    if magnitude_bits(b) > 0 {
        lemma_magnitude_grows(zero, b);
    }
}

impl Double {
    /// The bits without the sign.
    pub(crate) fn unsigned(self) -> (m: u64)
        ensures
            m == magnitude_bits(self),
    {
        if self.bits >= SIGN_BIT {
            self.bits - SIGN_BIT
        } else {
            self.bits
        }
    }

    /// Whether this is no number at all.
    pub fn is_not_a_number(self) -> (nan: bool)
        ensures
            nan == is_nan(self),
    {
        self.unsigned() > INFINITY_BITS
    }

    /// `self < other` as numbers.
    pub fn less_than(self, other: Double) -> (less: bool)
        ensures
            less == is_less(self, other),
    {
        if self.is_not_a_number() || other.is_not_a_number() {
            return false;
        }
        if self.bits >= SIGN_BIT {
            if other.bits >= SIGN_BIT {
                other.unsigned() < self.unsigned()
            } else {
                self.unsigned() > 0 || other.unsigned() > 0
            }
        } else if other.bits >= SIGN_BIT {
            false
        } else {
            self.unsigned() < other.unsigned()
        }
    }

    /// `self <= other` as numbers.
    pub fn at_most(self, other: Double) -> (at_most: bool)
        ensures
            at_most == is_at_most(self, other),
    {
        if self.is_not_a_number() || other.is_not_a_number() {
            return false;
        }
        !other.less_than(self)
    }

    /// The double with the given sign and magnitude bits.
    pub(crate) fn with_sign(negative: bool, bits: u64) -> (d: Double)
        requires
            bits < SIGN_BIT,
        ensures
            d == signed(negative, bits as nat),
    {
        if negative {
            Double { bits: bits + SIGN_BIT }
        } else {
            Double { bits }
        }
    }

    /// This number with its sign turned round.
    pub fn negate(self) -> (d: Double)
        ensures
            d == negated(self),
    {
        Double::with_sign(self.bits < SIGN_BIT, self.unsigned())
    }

    /// A finite magnitude as an integer and a power of two.
    pub(crate) fn parts(self) -> (parts: (u64, u32))
        requires
            is_finite(self),
        ensures
            magnitude(self) == parts.0 * pow2(parts.1 as nat),
            parts.0 < 2 * EXPONENT_UNIT,
            parts.1 <= 2045,
            parts.1 > 0 ==> parts.0 >= EXPONENT_UNIT,
    {
        let bits: u64 = self.unsigned();
        let exponent: u64 = bits / EXPONENT_UNIT;
        let fraction: u64 = bits % EXPONENT_UNIT;
        if exponent == 0 {
            proof {
                lemma2_to64();
                assert(fraction * pow2(0) == fraction) by (nonlinear_arith)
                    requires
                        pow2(0) == 1,
                ;
            }
            (fraction, 0)
        } else {
            (EXPONENT_UNIT + fraction, (exponent - 1) as u32)
        }
    }

    /// The nearest double to `first + second` with these signs, where `first`
    /// is `m1 * 2^e1`, `second` is `m2 * 2^e2`, and `e1` is the larger.
    fn sum_of_parts(
        negative1: bool,
        m1: u64,
        e1: u32,
        negative2: bool,
        m2: u64,
        e2: u32,
        Ghost(exact): Ghost<int>,
    ) -> (d: Double)
        requires
            m1 < 2 * EXPONENT_UNIT,
            m2 < 2 * EXPONENT_UNIT,
            e2 <= e1 <= 2045,
            e1 > 0 ==> m1 >= EXPONENT_UNIT,
            exact == (if negative1 {
                -(m1 * pow2(e1 as nat))
            } else {
                m1 * pow2(e1 as nat)
            }) + (if negative2 {
                -(m2 * pow2(e2 as nat))
            } else {
                m2 * pow2(e2 as nat)
            }),
            exact != 0,
        ensures
            exact < 0 ==> d == signed(true, nearest_magnitude((-exact) as nat, 1)),
            exact > 0 ==> d == signed(false, nearest_magnitude(exact as nat, 1)),
    {
        let apart: u32 = e1 - e2;
        let ghost low = pow2(e2 as nat);
        let ghost size: nat = (if exact < 0 {
            -exact
        } else {
            exact
        }) as nat;
        proof {
            lemma2_to64();
            lemma2_to64_rest();
            lemma_pow2_pos(e2 as nat);
            lemma_pow2_adds(e2 as nat, apart as nat);
        }
        if apart <= 64 {
            let factor: u128 = power_of_two(apart);
            proof {
                lemma_pow2_grows(apart as nat, 64);
                assert(m1 * factor <= 0x40_0000_0000_0000 * 0x1_0000_0000_0000_0000)
                    by (nonlinear_arith)
                    requires
                        m1 < 0x20_0000_0000_0000,
                        factor <= 0x1_0000_0000_0000_0000,
                ;
                assert(m1 * (low * factor) == (m1 * factor) * low) by (nonlinear_arith);
            }
            let big: u128 = m1 as u128 * factor;
            let small: u128 = m2 as u128;
            let negative: bool;
            let m: u128;
            if negative1 == negative2 {
                negative = negative1;
                m = big + small;
                proof {
                    assert((big + small) * low == big * low + small * low) by (nonlinear_arith);
                }
            } else if big >= small {
                negative = negative1;
                m = big - small;
                proof {
                    assert((big - small) * low == big * low - small * low) by (nonlinear_arith);
                }
            } else {
                negative = negative2;
                m = small - big;
                proof {
                    assert((small - big) * low == small * low - big * low) by (nonlinear_arith);
                }
            }
            proof {
                assert(m * low >= 0) by (nonlinear_arith)
                    requires
                        m >= 0,
                        low > 0,
                ;
                assert(size == m * low);
                assert(m != 0) by {
                    if m == 0 {
                        assert(m * low == 0) by (nonlinear_arith)
                            requires
                                m == 0,
                        ;
                    }
                }
                assert((m + 1) * (1 * low) > m * (1 * low)) by (nonlinear_arith)
                    requires
                        low > 0,
                ;
                assert(negative == (exact < 0));
            }
            let bits: u64 = round_scaled(
                m,
                false,
                e2 as i32,
                Ghost(size),
                Ghost(1),
                Ghost(e2 as nat),
                Ghost(0),
            );
            return Double::with_sign(negative, bits);
        }
        // the second is less than an eighth of a step of the first
        let ghost step = pow2((e1 - 3) as nat);
        let ghost rest = m2 * low;
        let large: u128 = m1 as u128 * 8;
        proof {
            lemma_pow2_pos((e1 - 3) as nat);
            lemma_pow2_adds((e1 - 3) as nat, 3);
            lemma_pow2_adds(e2 as nat, 53);
            lemma_pow2_grows((e2 + 53) as nat, (e1 - 3) as nat);
            assert(m1 * (step * 8) == (m1 * 8) * step) by (nonlinear_arith);
            assert(rest < low * 0x20_0000_0000_0000) by (nonlinear_arith)
                requires
                    rest == m2 * low,
                    m2 < 0x20_0000_0000_0000,
                    low > 0,
            ;
            assert(rest >= 0) by (nonlinear_arith)
                requires
                    rest == m2 * low,
            ;
            assert((large + 1) * step == large * step + step) by (nonlinear_arith);
            assert((large - 1) * step == large * step - step) by (nonlinear_arith);
            assert(large * step >= step) by (nonlinear_arith)
                requires
                    large >= 1,
                    step > 0,
            ;
            if m2 == 0 {
                assert(rest == 0) by (nonlinear_arith)
                    requires
                        rest == m2 * low,
                        m2 == 0,
                ;
            } else {
                assert(rest > 0) by (nonlinear_arith)
                    requires
                        rest == m2 * low,
                        m2 > 0,
                        low > 0,
                ;
            }
            assert(negative1 == (exact < 0));
        }
        let m: u128 = if m2 != 0 && negative1 != negative2 {
            large - 1
        } else {
            large
        };
        let bits: u64 = round_scaled(
            m,
            m2 != 0,
            e1 as i32 - 3,
            Ghost(size),
            Ghost(1),
            Ghost((e1 - 3) as nat),
            Ghost(0),
        );
        Double::with_sign(negative1, bits)
    }

    /// `self - other`.
    pub fn subtract(self, other: Double) -> (d: Double)
        ensures
            d == minus(self, other),
    {
        reveal(minus);
        if self.is_not_a_number() || other.is_not_a_number() {
            return Double { bits: NAN_BITS };
        }
        if self.unsigned() == INFINITY_BITS {
            if other.unsigned() == INFINITY_BITS && (self.bits >= SIGN_BIT) == (other.bits
                >= SIGN_BIT) {
                return Double { bits: NAN_BITS };
            }
            return self;
        }
        if other.unsigned() == INFINITY_BITS {
            return other.negate();
        }
        let (m1, e1) = self.parts();
        let (m2, e2) = other.parts();
        let negative1: bool = self.bits >= SIGN_BIT;
        let negative2: bool = other.bits < SIGN_BIT;
        let ghost exact = value(self) - value(other);
        proof {
            comparison_follows_the_values(self, other);
            comparison_follows_the_values(other, self);
        }
        if self.at_most(other) && other.at_most(self) {
            return Double::with_sign(negative1 && negative2, 0);
        }
        if e1 >= e2 {
            Double::sum_of_parts(negative1, m1, e1, negative2, m2, e2, Ghost(exact))
        } else {
            Double::sum_of_parts(negative2, m2, e2, negative1, m1, e1, Ghost(exact))
        }
    }

    /// `self + other`.
    pub fn added_to(self, other: Double) -> (d: Double)
        ensures
            d == plus(self, other),
    {
        self.subtract(other.negate())
    }
}

} // verus!
