//! How near to the most that fits the padding of a zone comes.

use crate::double::{plus, value, zero, Double};
use crate::exact_laws::{
    a_quotient_that_fits_is_exact, a_sum_that_fits_is_exact, few_bits_fit, is_exactly, unit,
};
use crate::geometry_laws::{counts, lemma_two, lemma_zero};
use crate::overlaps::is_overlap;
use crate::plane::TWO;
use crate::resolution::{half_way, PAD_SEARCH_STEPS};
use crate::resolution_laws::{bisected, max_safe_pad};
use vstd::arithmetic::power2::{
    lemma2_to64, lemma_pow2_pos, lemma_pow2_unfold, pow2,
};
use vstd::prelude::*;

verus! {

/// Half way between two lengths of a few bits is exact.
proof fn lemma_half_way(lower: Double, upper: Double, p: int, k: int, e: nat)
    requires
        1 <= e <= 1074,
        is_exactly(lower, p * pow2(e)),
        is_exactly(upper, (p + k) * pow2(e)),
        0 <= p < 0x1_0000_0000_0000,
        0 <= k < 0x1_0000_0000_0000,
    ensures
        is_exactly(half_way(lower, upper), (2 * p + k) * pow2((e - 1) as nat)),
{
    let s = pow2(e);
    let h = pow2((e - 1) as nat);
    let n = 2 * p + k;
    lemma_pow2_unfold(e);
    assert(p * s + (p + k) * s == n * s) by (nonlinear_arith)
        requires
            n == 2 * p + k,
    ;
    few_bits_fit(n, e);
    a_sum_that_fits_is_exact(lower, upper);
    let sum = plus(lower, upper);
    lemma_two();
    few_bits_fit(n, (e - 1) as nat);
    let u = unit();
    lemma_pow2_pos(1074);
    assert((n * h) * (2 * u) == (n * s) * u) by (nonlinear_arith)
        requires
            s == 2 * h,
    ;
    a_quotient_that_fits_is_exact(sum, Double { bits: TWO }, n * h);
}

/// Whether `pad` is short of a length at which there is an overlap by just
/// `gap`.
pub open spec fn is_short_of_an_overlap(
    area_at: spec_fn(Double) -> Double,
    pad: Double,
    gap: int,
) -> bool {
    exists|over: Double|
        is_overlap(area_at(over)) && #[trigger] is_exactly(over, value(pad) + gap)
}

proof fn lemma_halving_closes_in(
    area_at: spec_fn(Double) -> Double,
    lower: Double,
    upper: Double,
    p: int,
    k: int,
    steps: nat,
    e: nat,
)
    requires
        steps <= 10,
        steps + 1 <= e <= 1074,
        is_exactly(lower, p * pow2(e)),
        is_exactly(upper, (p + k) * pow2(e)),
        0 <= p,
        0 <= k < 0x10_0000,
        (p + k) * pow2(steps) < 0x1_0000_0000_0000,
        is_overlap(area_at(upper)),
    ensures
        is_short_of_an_overlap(
            area_at,
            bisected(area_at, lower, upper, steps),
            k * pow2((e - steps) as nat),
        ),
    decreases steps,
{
    let s = pow2(e);
    lemma2_to64();
    if steps == 0 {
        assert(p * s + k * s == (p + k) * s) by (nonlinear_arith);
        assert(is_exactly(upper, value(lower) + k * s));
    } else {
        let h = pow2((e - 1) as nat);
        let w = pow2((steps - 1) as nat);
        lemma_pow2_unfold(e);
        lemma_pow2_unfold(steps);
        lemma_pow2_pos((steps - 1) as nat);
        assert(p + k < 0x1_0000_0000_0000 && (2 * p + 2 * k) * w < 0x1_0000_0000_0000
            && (2 * p + k) * w <= (2 * p + 2 * k) * w) by (nonlinear_arith)
            requires
                (p + k) * (2 * w) < 0x1_0000_0000_0000,
                p >= 0,
                k >= 0,
                w >= 1,
        ;
        lemma_half_way(lower, upper, p, k, e);
        let probe = half_way(lower, upper);
        assert((2 * p) * h == p * s && (2 * p + k + k) * h == (p + k) * s) by (nonlinear_arith)
            requires
                s == 2 * h,
        ;
        if is_overlap(area_at(probe)) {
            lemma_halving_closes_in(
                area_at,
                lower,
                probe,
                2 * p,
                k,
                (steps - 1) as nat,
                (e - 1) as nat,
            );
        } else {
            lemma_halving_closes_in(
                area_at,
                probe,
                upper,
                2 * p + k,
                k,
                (steps - 1) as nat,
                (e - 1) as nat,
            );
        }
    }
}

/// Padding of whole metres that overlaps is taken back by no more than it has
/// to be: there is an overlap again at what is left and a thousand and
/// twenty-fourth of the padding more. Padding that does not overlap stays.
pub proof fn no_more_padding_is_taken_back_than_it_takes(
    area_at: spec_fn(Double) -> Double,
    upper: Double,
    k: int,
)
    requires
        counts(upper, k),
        0 <= k < 0x10_0000,
    ensures
        is_overlap(area_at(upper)) ==> is_short_of_an_overlap(
            area_at,
            max_safe_pad(area_at, upper),
            k * pow2(1064),
        ),
        !is_overlap(area_at(upper)) ==> max_safe_pad(area_at, upper) == upper,
{
    if is_overlap(area_at(upper)) {
        lemma2_to64();
        lemma_zero();
        assert(0 * pow2(1074) == 0 && (0 + k) * pow2(1074) == k * unit()) by (nonlinear_arith)
            requires
                unit() == pow2(1074),
        ;
        lemma_halving_closes_in(area_at, zero(), upper, 0, k, PAD_SEARCH_STEPS as nat, 1074);
    }
}

} // verus!
