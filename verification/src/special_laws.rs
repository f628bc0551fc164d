//! What comes of doubles that are no numbers or infinite, and which of two is
//! the larger.

use crate::double::{
    is_at_most, is_finite, is_infinite, is_less, is_nan, is_negative, magnitude_bits, minus,
    negated, plus, zero, Double,
};
use crate::measure::{is_same, larger, smaller};
use crate::product::{over, times};
use vstd::prelude::*;

verus! {

/// Whether `d` is the infinity of this sign.
pub open spec fn is_endless(d: Double, negative: bool) -> bool {
    is_infinite(d) && is_negative(d) == negative
}

/// Whether `d` is a zero, of either sign.
pub open spec fn is_nothing(d: Double) -> bool {
    is_same(d, zero())
}

/// Nothing is made of what is no number; an infinity less another of its sign
/// is no number; an infinity outweighs every finite number, and one that is
/// taken away leaves the other one.
pub proof fn differences_of_the_endless(a: Double, b: Double)
    ensures
        is_nan(a) || is_nan(b) ==> is_nan(minus(a, b)),
        is_infinite(a) && is_infinite(b) && is_negative(a) == is_negative(b) ==> is_nan(
            minus(a, b),
        ),
        is_infinite(a) && is_infinite(b) && is_negative(a) != is_negative(b) ==> is_endless(
            minus(a, b),
            is_negative(a),
        ),
        is_infinite(a) && is_finite(b) ==> is_endless(minus(a, b), is_negative(a)),
        is_finite(a) && is_infinite(b) ==> is_endless(minus(a, b), !is_negative(b)),
{
    reveal(minus);
}

/// A sum is endless where one of its terms is, and no number where both are
/// with unlike signs.
pub proof fn sums_of_the_endless(a: Double, b: Double)
    ensures
        is_nan(a) || is_nan(b) ==> is_nan(plus(a, b)),
        is_infinite(a) && is_infinite(b) && is_negative(a) != is_negative(b) ==> is_nan(plus(a, b)),
        is_infinite(a) && is_infinite(b) && is_negative(a) == is_negative(b) ==> is_endless(
            plus(a, b),
            is_negative(a),
        ),
        is_infinite(a) && is_finite(b) ==> is_endless(plus(a, b), is_negative(a)),
        is_finite(a) && is_infinite(b) ==> is_endless(plus(a, b), is_negative(b)),
{
    let other = negated(b);
    assert(magnitude_bits(other) == magnitude_bits(b));
    assert(is_negative(other) == !is_negative(b));
    differences_of_the_endless(a, other);
}

/// An infinity times nothing is no number, and times anything else endless;
/// its sign is the one that the signs of the two make.
pub proof fn products_of_the_endless(a: Double, b: Double)
    ensures
        is_nan(a) || is_nan(b) ==> is_nan(times(a, b)),
        is_infinite(a) && is_nothing(b) ==> is_nan(times(a, b)),
        is_nothing(a) && is_infinite(b) ==> is_nan(times(a, b)),
        is_infinite(a) && !is_nothing(b) && !is_nan(b) ==> is_endless(
            times(a, b),
            is_negative(a) != is_negative(b),
        ),
        is_infinite(b) && !is_nothing(a) && !is_nan(a) ==> is_endless(
            times(a, b),
            is_negative(a) != is_negative(b),
        ),
{
    reveal(times);
    assert(magnitude_bits(zero()) == 0);
}

/// Nothing among nothing is no number, nor is an infinity among infinitely
/// many; anything else among nothing is endless, as is an infinity among
/// finitely many; a finite number among infinitely many is nothing.
pub proof fn quotients_of_the_endless(a: Double, b: Double)
    ensures
        is_nan(a) || is_nan(b) ==> is_nan(over(a, b)),
        is_nothing(a) && is_nothing(b) ==> is_nan(over(a, b)),
        is_infinite(a) && is_infinite(b) ==> is_nan(over(a, b)),
        !is_nan(a) && !is_nothing(a) && is_nothing(b) ==> is_endless(
            over(a, b),
            is_negative(a) != is_negative(b),
        ),
        is_infinite(a) && is_finite(b) ==> is_endless(
            over(a, b),
            is_negative(a) != is_negative(b),
        ),
        is_finite(a) && is_infinite(b) ==> is_nothing(over(a, b)),
{
    reveal(over);
    assert(magnitude_bits(zero()) == 0);
}

/// The larger of two is one of them, and neither is larger; where just one is
/// a number, it is that one.
pub proof fn the_larger_is_one_of_the_two(a: Double, b: Double)
    ensures
        larger(a, b) == a || larger(a, b) == b,
        !is_nan(a) ==> is_at_most(a, larger(a, b)),
        !is_nan(b) ==> is_at_most(b, larger(a, b)),
{
}

/// The smaller of two is one of them, and neither is smaller; where just one
/// is a number, it is that one.
pub proof fn the_smaller_is_one_of_the_two(a: Double, b: Double)
    ensures
        smaller(a, b) == a || smaller(a, b) == b,
        !is_nan(a) ==> is_at_most(smaller(a, b), a),
        !is_nan(b) ==> is_at_most(smaller(a, b), b),
{
}

/// Of any two numbers, just one holds: the first is less, the second is less,
/// or they are the same. What is no number is neither less nor the same.
pub proof fn numbers_are_less_or_the_same(a: Double, b: Double)
    ensures
        !is_nan(a) && !is_nan(b) ==> is_less(a, b) || is_less(b, a) || is_same(a, b),
        !(is_less(a, b) && is_less(b, a)),
        !(is_less(a, b) && is_same(a, b)),
        is_at_most(a, b) == (is_less(a, b) || is_same(a, b)),
        is_nan(a) || is_nan(b) ==> !is_at_most(a, b) && !is_at_most(b, a),
{
}

} // verus!
