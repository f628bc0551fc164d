//! What the fixed lengths, areas and angles are, and what is told apart by
//! them.

use crate::boundaries::extension_budget;
use crate::cleaning::{drifts, interior_angle, is_needle, FULL_TURN_DEGREES};
use crate::cleaning::{MAX_INTERIOR_ANGLE_DEGREES, MIN_INTERIOR_ANGLE_DEGREES};
use crate::connectivity::GraphView;
use crate::cutting::is_left_alone;
use crate::detector::DetectorView;
use crate::double::{
    comparison_follows_the_values, is_at_most, is_finite, is_less, is_negative, magnitude,
    magnitude_bits, minus, negated, plus, signed, value, zero, Double,
};
use crate::drawing::{plan_of, MIN_DRAWN_LANE_LENGTH_METERS};
use crate::exact_laws::{is_exactly, unit};
use crate::geometry_laws::{counts, is_near, lemma_half, lemma_plus, lemma_zero};
use crate::grid::on_grid;
use crate::measure::absolute;
use crate::network::Lane;
use crate::overlaps::{is_overlap, Bounds};
use crate::plane::{margin, Coord};
use crate::polygons::is_worth_keeping;
use crate::product::{lemma_zero_magnitude, over, times};
use crate::resolution::{half_way, resolution_start};
use crate::ring::{area, negligible_budget};
use crate::rounding::{lemma_excess_bits, nearest_integer, nearest_magnitude, EXPONENT_UNIT};
use crate::boundaries::DEFAULT_EXTENSION_METERS;
use vstd::arithmetic::div_mod::lemma_fundamental_div_mod_converse;
use vstd::arithmetic::power2::{
    lemma2_to64, lemma2_to64_rest, lemma_pow2_adds, lemma_pow2_pos, pow2,
};
use vstd::prelude::*;

verus! {

/// The double nearest to the fraction `n / d`.
pub open spec fn nearest_to(n: nat, d: nat) -> Double {
    signed(false, nearest_magnitude(n * pow2(1074), d))
}

/// A fraction of which the first fifty-three bits, in units of `2^-s`, come to
/// `q`, rounded to nearest.
proof fn lemma_nearest_to(n: nat, d: nat, s: nat, q: nat, r: nat, up: bool)
    requires
        0 < n < 0x1_0000,
        0 < d < 0x10_0000,
        52 < s <= 1000,
        n * pow2(s) == q * d + r,
        r < d,
        2 * r != d,
        up == (2 * r > d),
        0x10_0000_0000_0000 <= q < 0x1f_ffff_ffff_ffff,
    ensures
        nearest_to(n, d).bits == (1074 - s) * EXPONENT_UNIT + q + (if up {
            1int
        } else {
            0
        }),
{
    lemma2_to64_rest();
    let k = (1074 - s) as nat;
    let p = pow2(k);
    lemma_pow2_pos(k);
    lemma_pow2_adds(s, k);
    lemma_pow2_adds(52, k);
    lemma_pow2_adds(53, k);
    let top = n * pow2(1074);
    assert(top == q * (d * p) + r * p) by (nonlinear_arith)
        requires
            top == n * (pow2(s) * p),
            n * pow2(s) == q * d + r,
    ;
    assert(r * p < d * p && 0 <= r * p) by (nonlinear_arith)
        requires
            0 <= r < d,
            p > 0,
    ;
    assert(top < d * pow2(53 + k)) by (nonlinear_arith)
        requires
            top == q * (d * p) + r * p,
            r * p < d * p,
            q + 1 <= 0x20_0000_0000_0000,
            pow2(53 + k) == 0x20_0000_0000_0000 * p,
            d > 0,
            p > 0,
    ;
    assert(top >= d * pow2((52 + k) as nat)) by (nonlinear_arith)
        requires
            top == q * (d * p) + r * p,
            r * p >= 0,
            q >= 0x10_0000_0000_0000,
            pow2((52 + k) as nat) == 0x10_0000_0000_0000 * p,
            d > 0,
            p > 0,
    ;
    lemma_excess_bits(top, d, k);
    lemma_fundamental_div_mod_converse(
        top as int,
        (d * p) as int,
        q as int,
        (r * p) as int,
    );
    assert((2 * (r * p) > d * p <==> 2 * r > d) && 2 * (r * p) != d * p) by (nonlinear_arith)
        requires
            2 * r != d,
            p > 0,
    ;
    let bits = k * EXPONENT_UNIT + nearest_integer(top, d * p);
    assert(bits < 0x7ff0_0000_0000_0000) by (nonlinear_arith)
        requires
            bits == k * 0x10_0000_0000_0000 + nearest_integer(top, d * p),
            k <= 1022,
            nearest_integer(top, d * p) <= 0x20_0000_0000_0000,
    ;
}

/// What zones may share without overlapping is a millionth of a square metre,
/// and a part is worth keeping where it is larger than a twentieth of one.
pub proof fn small_areas_do_not_count(shared: Double)
    ensures
        is_overlap(shared) <==> is_less(nearest_to(1, 1_000_000), shared),
        is_left_alone(shared) <==> is_at_most(shared, nearest_to(1, 1_000_000)),
        is_worth_keeping(shared) <==> is_less(nearest_to(1, 20), shared),
{
    lemma2_to64();
    lemma2_to64_rest();
    lemma_pow2_adds(64, 8);
    assert(pow2(72) == 4722366482869645213696);
    lemma_nearest_to(1, 1_000_000, 72, 4722366482869645, 213696, false);
    lemma_nearest_to(1, 20, 57, 7205759403792793, 12, true);
}

/// What a ring may change by when it is cleaned is a hundredth of a square
/// metre, whether it grows or shrinks; vertices nearer than a hundredth of a
/// metre count as one; and of a ring's area, fifteen parts in ten thousand may
/// be given up for fewer vertices.
pub proof fn small_changes_do_not_count(
    area_before: Double,
    area_after: Double,
    coords: Seq<Coord>,
)
    ensures
        drifts(area_before, area_after) <==> is_less(
            nearest_to(1, 100),
            absolute(minus(area_after, area_before)),
        ),
        margin() == nearest_to(1, 100),
        negligible_budget(coords) == times(area(coords), nearest_to(15, 10_000)),
{
    lemma2_to64();
    lemma2_to64_rest();
    assert(pow2(59) == 576460752303423488);
    lemma_nearest_to(1, 100, 59, 5764607523034234, 88, true);
    assert(15 * pow2(62) == 69175290276410818560);
    lemma_nearest_to(15, 10_000, 62, 6917529027641081, 8560, true);
}

/// Places are put on a grid of a ten-thousandth of a metre.
pub proof fn the_grid_is_a_tenth_of_a_millimetre(v: Double)
    ensures
        on_grid(v) == times(
            crate::grid::nearest_whole(over(v, nearest_to(1, 10_000))),
            nearest_to(1, 10_000),
        ),
{
    lemma2_to64();
    lemma2_to64_rest();
    lemma_pow2_adds(64, 2);
    assert(pow2(66) == 73786976294838206464);
    lemma_nearest_to(1, 10_000, 66, 7378697629483820, 6464, true);
}

/// The boundary of a drawing may be moved by a twentieth of a metre to make it
/// simpler, unless pedestrians wait in it: then it stays as it is.
pub proof fn drawings_of_vehicles_are_simplified(
    zone: DetectorView,
    lanes: Seq<Lane>,
    graph: GraphView,
    pad: Double,
)
    ensures
        zone.detect_persons.len() == 0 ==> plan_of(zone, lanes, graph, pad).tolerance == Some(
            nearest_to(1, 20),
        ) && !plan_of(zone, lanes, graph, pad).pedestrian && plan_of(
            zone,
            lanes,
            graph,
            pad,
        ).outlines.len() == 0,
        zone.detect_persons.len() > 0 ==> plan_of(zone, lanes, graph, pad).tolerance is None
            && plan_of(zone, lanes, graph, pad).pedestrian && plan_of(
            zone,
            lanes,
            graph,
            pad,
        ).core.len() == 0,
{
    lemma2_to64();
    lemma2_to64_rest();
    lemma_nearest_to(1, 20, 57, 7205759403792793, 12, true);
}

proof fn lemma_whole_constant(bits: u64, e: nat, f: nat, k: int)
    requires
        bits == (e + 1) * EXPONENT_UNIT + f,
        f < EXPONENT_UNIT,
        1022 <= e <= 1074,
        EXPONENT_UNIT + f == k * pow2((1074 - e) as nat),
    ensures
        counts(Double { bits }, k),
        !is_negative(Double { bits }),
{
    let w = EXPONENT_UNIT as int;
    assert(bits < 0x7ff0_0000_0000_0000 && bits >= 0) by (nonlinear_arith)
        requires
            bits == (e + 1) * w + f,
            f < w,
            e <= 1074,
            w == 0x10_0000_0000_0000,
    ;
    lemma_fundamental_div_mod_converse(bits as int, w, (e + 1) as int, f as int);
    lemma_pow2_adds((1074 - e) as nat, e);
    let p = pow2(e);
    let c = pow2((1074 - e) as nat);
    assert((k * c) * p == k * (c * p)) by (nonlinear_arith);
    assert(magnitude(Double { bits }) == (w + f) * p);
}

pub(crate) proof fn lemma_order(a: Double, b: Double, k: int, l: int)
    requires
        counts(a, k),
        counts(b, l),
    ensures
        is_less(a, b) <==> k < l,
        is_at_most(a, b) <==> k <= l,
{
    comparison_follows_the_values(a, b);
    let u = unit();
    lemma_pow2_pos(1074);
    assert((k * u < l * u <==> k < l) && (k * u <= l * u <==> k <= l)) by (nonlinear_arith)
        requires
            u > 0,
    ;
}

/// A vertex is a needle where its angle is sharper than five degrees, on the
/// inside or on the outside.
pub proof fn needles_are_sharper_than_five_degrees(angle: Double)
    requires
        is_finite(angle),
    ensures
        is_needle(angle) <==> value(angle) < 5 * unit() || value(angle) > 355 * unit(),
{
    lemma2_to64();
    lemma2_to64_rest();
    lemma_whole_constant(MIN_INTERIOR_ANGLE_DEGREES, 1024, 0x4_0000_0000_0000, 5);
    lemma_whole_constant(MAX_INTERIOR_ANGLE_DEGREES, 1030, 0x6_3000_0000_0000, 355);
    comparison_follows_the_values(Double { bits: MIN_INTERIOR_ANGLE_DEGREES }, angle);
    comparison_follows_the_values(angle, Double { bits: MAX_INTERIOR_ANGLE_DEGREES });
}

/// The angle on the inside of a ring is what its sides turn by: taken the other
/// way round where the ring goes against the clock, and counted on to a full
/// turn where that is less than nothing.
pub proof fn inside_angles_lie_within_a_turn(turned: Double, k: int, counterclockwise: bool)
    requires
        counts(turned, k),
        -360 < k < 360,
    ensures
        counterclockwise ==> counts(
            interior_angle(turned, true),
            if k > 0 {
                360 - k
            } else {
                -k
            },
        ),
        !counterclockwise ==> counts(
            interior_angle(turned, false),
            if k < 0 {
                360 + k
            } else {
                k
            },
        ),
{
    lemma2_to64();
    lemma2_to64_rest();
    lemma_whole_constant(FULL_TURN_DEGREES, 1030, 0x6_8000_0000_0000, 360);
    lemma_zero();
    let other = negated(turned);
    assert(magnitude_bits(other) == magnitude_bits(turned));
    assert(magnitude(other) == magnitude(turned));
    lemma_zero_magnitude(turned);
    let u = unit();
    assert(-(k * u) == (-k) * u) by (nonlinear_arith);
    assert(counts(other, -k));
    lemma_order(turned, zero(), k, 0);
    lemma_order(other, zero(), -k, 0);
    if k < 0 {
        lemma_plus(turned, Double { bits: FULL_TURN_DEGREES }, k, 360);
    }
    if k > 0 {
        lemma_plus(other, Double { bits: FULL_TURN_DEGREES }, -k, 360);
    }
}

/// Half way between two whole numbers is half of their sum.
pub proof fn half_way_is_half_of_the_sum(lower: Double, upper: Double, k: int, l: int)
    requires
        counts(lower, k),
        counts(upper, l),
        is_near(k),
        is_near(l),
    ensures
        is_exactly(half_way(lower, upper), (k + l) * pow2(1073)),
{
    lemma_plus(lower, upper, k, l);
    lemma_half(plus(lower, upper), k + l);
}

/// A zone goes on for as long as its limit allows, and for a hundred and twenty
/// metres where it has none. When zones are parted, each is first drawn at
/// least five metres long, nothing has been taken back, and there are eight
/// rounds to go.
pub proof fn zones_start_at_their_full_length(bounds: Seq<Option<Bounds>>, i: int, max: Double)
    requires
        0 <= i < bounds.len(),
    ensures
        extension_budget(Some(max)) == max,
        counts(extension_budget(None), 120),
        resolution_start(bounds).0.pads.len() == bounds.len(),
        counts(resolution_start(bounds).0.pads[i], 5),
        resolution_start(bounds).0.rounds == 8,
        resolution_start(bounds).0.overlaps.len() == 0,
        !resolution_start(bounds).0.progressed,
{
    lemma2_to64();
    lemma2_to64_rest();
    lemma_whole_constant(DEFAULT_EXTENSION_METERS, 1028, 0xe_0000_0000_0000, 120);
    lemma_whole_constant(MIN_DRAWN_LANE_LENGTH_METERS, 1024, 0x4_0000_0000_0000, 5);
}

} // verus!
