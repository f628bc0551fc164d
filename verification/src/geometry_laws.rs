//! What holds of lengths, areas and places in the plane, on whole numbers,
//! where rounding plays no part.

use crate::cleaning::turn_at;
use crate::double::{
    comparison_follows_the_values, is_negative, magnitude, minus, plus, zero, Double,
};
use crate::exact_laws::{
    a_count_that_fits_is_exact, a_difference_that_fits_is_exact, a_hypotenuse_that_fits_is_exact,
    a_product_that_fits_is_exact, a_quotient_that_fits_is_exact, a_sum_that_fits_is_exact,
    few_bits_fit, is_exactly, unit, without_its_sign_a_number_is_as_large,
};
use crate::measure::{absolute, of_natural};
use crate::network::Point;
use crate::plane::{cross, distance, triangle, Coord, TWO};
use crate::product::{lemma_zero_magnitude, over, times};
use crate::ring::{after, area, before, shoelace};
use crate::rounding::EXPONENT_UNIT;
use crate::shape::{
    distance_between, entry_with_padding, mean_point, one, point_between, sum_of_points, ONE,
};
use vstd::arithmetic::div_mod::lemma_fundamental_div_mod_converse;
use vstd::arithmetic::power2::{
    lemma2_to64, lemma2_to64_rest, lemma_pow2_adds, lemma_pow2_pos, lemma_pow2_unfold, pow2,
};
use vstd::prelude::*;

verus! {

/// Whether a double is the whole number `k`.
pub open spec fn counts(d: Double, k: int) -> bool {
    is_exactly(d, k * unit())
}

/// Whether a whole number is in the range of coordinates: a million and less.
pub open spec fn is_near(k: int) -> bool {
    -0x10_0000 <= k <= 0x10_0000
}

/// Whether a place has these whole numbers for coordinates.
pub open spec fn is_at(c: Coord, x: int, y: int) -> bool {
    counts(c.x, x) && counts(c.y, y) && is_near(x) && is_near(y)
}

/// Whether a point has these whole numbers for coordinates.
pub open spec fn stands_at(p: Point, x: int, y: int, z: int) -> bool {
    counts(p.x, x) && counts(p.y, y) && counts(p.z, z) && is_near(x) && is_near(y) && is_near(z)
}

/// `k` without its sign.
pub open spec fn size(k: int) -> int {
    if k < 0 {
        -k
    } else {
        k
    }
}

pub(crate) open spec fn fits(k: int) -> bool {
    -0x20_0000_0000_0000 < k < 0x20_0000_0000_0000
}

pub(crate) proof fn lemma_minus(a: Double, b: Double, k: int, l: int)
    requires
        counts(a, k),
        counts(b, l),
        fits(k - l),
    ensures
        counts(minus(a, b), k - l),
{
    few_bits_fit(k - l, 1074);
    assert(k * unit() - l * unit() == (k - l) * unit()) by (nonlinear_arith);
    a_difference_that_fits_is_exact(a, b);
}

pub(crate) proof fn lemma_plus(a: Double, b: Double, k: int, l: int)
    requires
        counts(a, k),
        counts(b, l),
        fits(k + l),
    ensures
        counts(plus(a, b), k + l),
{
    few_bits_fit(k + l, 1074);
    assert(k * unit() + l * unit() == (k + l) * unit()) by (nonlinear_arith);
    a_sum_that_fits_is_exact(a, b);
}

pub(crate) proof fn lemma_times(a: Double, b: Double, k: int, l: int)
    requires
        counts(a, k),
        counts(b, l),
        fits(k * l),
    ensures
        counts(times(a, b), k * l),
{
    few_bits_fit(k * l, 1074);
    let u = unit();
    assert(((k * l) * u) * u == (k * u) * (l * u)) by (nonlinear_arith);
    a_product_that_fits_is_exact(a, b, (k * l) * u);
}

pub(crate) proof fn lemma_near_product(a: int, b: int)
    requires
        -0x20_0000 <= a <= 0x20_0000,
        -0x20_0000 <= b <= 0x20_0000,
    ensures
        -0x400_0000_0000 <= a * b <= 0x400_0000_0000,
{
    assert(-0x400_0000_0000 <= a * b <= 0x400_0000_0000) by (nonlinear_arith)
        requires
            -0x20_0000 <= a <= 0x20_0000,
            -0x20_0000 <= b <= 0x20_0000,
    ;
}

pub(crate) proof fn lemma_two()
    ensures
        counts(Double { bits: TWO }, 2),
        !is_negative(Double { bits: TWO }),
{
    lemma2_to64_rest();
    lemma_fundamental_div_mod_converse(TWO as int, EXPONENT_UNIT as int, 1024, 0);
    lemma_pow2_adds(52, 1023);
    lemma_pow2_unfold(1075);
}

pub(crate) proof fn lemma_one()
    ensures
        counts(one(), 1),
        magnitude(one()) == pow2(1074),
{
    lemma2_to64_rest();
    lemma_fundamental_div_mod_converse(ONE as int, EXPONENT_UNIT as int, 1023, 0);
    lemma_pow2_adds(52, 1022);
}

pub(crate) proof fn lemma_zero()
    ensures
        counts(zero(), 0),
{
    lemma_zero_magnitude(zero());
    assert(0 * unit() == 0) by (nonlinear_arith);
}

/// Half of a whole number, to the half.
pub(crate) proof fn lemma_half(d: Double, k: int)
    requires
        counts(d, k),
        fits(k),
    ensures
        is_exactly(over(d, Double { bits: TWO }), k * pow2(1073)),
{
    lemma_two();
    few_bits_fit(k, 1073);
    lemma_pow2_unfold(1074);
    let h = pow2(1073) as int;
    let u = unit();
    lemma_pow2_pos(1074);
    assert((k * h) * (2 * u) == (k * u) * u) by (nonlinear_arith)
        requires
            u == 2 * h,
    ;
    assert(2 * u != 0);
    a_quotient_that_fits_is_exact(d, Double { bits: TWO }, k * h);
}

/// Distances in the plane follow Pythagoras: where the straight way between
/// two points is a whole number long, that is their distance.
pub proof fn distances_follow_pythagoras(
    a: Point,
    b: Point,
    ax: int,
    ay: int,
    az: int,
    bx: int,
    by: int,
    bz: int,
    h: int,
)
    requires
        stands_at(a, ax, ay, az),
        stands_at(b, bx, by, bz),
        0 <= h,
        h * h == (bx - ax) * (bx - ax) + (by - ay) * (by - ay),
    ensures
        counts(distance_between(a, b), h),
        counts(distance(Coord { x: a.x, y: a.y }, Coord { x: b.x, y: b.y }), h),
{
    let dx = bx - ax;
    let dy = by - ay;
    lemma_minus(b.x, a.x, bx, ax);
    lemma_minus(b.y, a.y, by, ay);
    lemma_minus(a.x, b.x, ax, bx);
    lemma_minus(a.y, b.y, ay, by);
    lemma_near_product(dx, dx);
    lemma_near_product(dy, dy);
    assert(h <= 0x40_0000) by (nonlinear_arith)
        requires
            h * h <= 0x800_0000_0000,
            h >= 0,
    ;
    few_bits_fit(h, 1074);
    let u = unit();
    lemma_pow2_pos(1074);
    assert((h * u) * (h * u) == (dx * u) * (dx * u) + (dy * u) * (dy * u)) by (nonlinear_arith)
        requires
            h * h == dx * dx + dy * dy,
    ;
    let mx = ax - bx;
    let my = ay - by;
    assert((h * u) * (h * u) == (mx * u) * (mx * u) + (my * u) * (my * u)) by (nonlinear_arith)
        requires
            h * h == dx * dx + dy * dy,
            mx == -dx,
            my == -dy,
    ;
    assert(h * u >= 0) by (nonlinear_arith)
        requires
            h >= 0,
            u > 0,
    ;
    a_hypotenuse_that_fits_is_exact(minus(b.x, a.x), minus(b.y, a.y), h * u);
    a_hypotenuse_that_fits_is_exact(minus(a.x, b.x), minus(a.y, b.y), h * u);
}

/// A point between two others lies on the straight line between them, all
/// three of its coordinates so many thousand-and-twenty-fourths of the way.
pub proof fn a_point_between_divides_the_way(
    a: Point,
    b: Point,
    ax: int,
    ay: int,
    az: int,
    bx: int,
    by: int,
    bz: int,
    t: Double,
    part: int,
)
    requires
        stands_at(a, ax, ay, az),
        stands_at(b, bx, by, bz),
        0 <= part <= 1024,
        is_exactly(t, part * pow2(1064)),
    ensures
        is_exactly(point_between(a, b, t).x, (ax * 1024 + (bx - ax) * part) * pow2(1064)),
        is_exactly(point_between(a, b, t).y, (ay * 1024 + (by - ay) * part) * pow2(1064)),
        is_exactly(point_between(a, b, t).z, (az * 1024 + (bz - az) * part) * pow2(1064)),
{
    lemma_between(a.x, b.x, ax, bx, t, part);
    lemma_between(a.y, b.y, ay, by, t, part);
    lemma_between(a.z, b.z, az, bz, t, part);
}

proof fn lemma_between(a: Double, b: Double, k: int, l: int, t: Double, part: int)
    requires
        counts(a, k),
        counts(b, l),
        is_near(k),
        is_near(l),
        0 <= part <= 1024,
        is_exactly(t, part * pow2(1064)),
    ensures
        is_exactly(plus(a, times(minus(b, a), t)), (k * 1024 + (l - k) * part) * pow2(1064)),
{
    lemma_minus(b, a, l, k);
    let d = l - k;
    let s = pow2(1064) as int;
    let u = unit();
    lemma2_to64();
    lemma_pow2_adds(10, 1064);
    assert(u == 1024 * s);
    assert(-0x8000_0000 <= d * part <= 0x8000_0000) by (nonlinear_arith)
        requires
            -0x20_0000 <= d <= 0x20_0000,
            0 <= part <= 1024,
    ;
    few_bits_fit(d * part, 1064);
    assert(((d * part) * s) * u == (d * u) * (part * s)) by (nonlinear_arith);
    a_product_that_fits_is_exact(minus(b, a), t, (d * part) * s);
    few_bits_fit(k * 1024 + d * part, 1064);
    assert(k * u + (d * part) * s == (k * 1024 + d * part) * s) by (nonlinear_arith)
        requires
            u == 1024 * s,
    ;
    a_sum_that_fits_is_exact(a, times(minus(b, a), t));
}

/// Twice the area of the triangle between three places, with a sign for the
/// way round.
pub open spec fn twice_the_triangle(ax: int, ay: int, bx: int, by: int, cx: int, cy: int) -> int {
    (bx - ax) * (cy - ay) - (cx - ax) * (by - ay)
}

/// A triangle has half the area of the parallelogram that two of its sides
/// span.
pub proof fn a_triangle_is_half_a_parallelogram(
    a: Coord,
    b: Coord,
    c: Coord,
    ax: int,
    ay: int,
    bx: int,
    by: int,
    cx: int,
    cy: int,
)
    requires
        is_at(a, ax, ay),
        is_at(b, bx, by),
        is_at(c, cx, cy),
    ensures
        is_exactly(
            triangle(a, b, c),
            size(twice_the_triangle(ax, ay, bx, by, cx, cy)) * pow2(1073),
        ),
{
    lemma_minus(b.x, a.x, bx, ax);
    lemma_minus(c.y, a.y, cy, ay);
    lemma_minus(c.x, a.x, cx, ax);
    lemma_minus(b.y, a.y, by, ay);
    lemma_near_product(bx - ax, cy - ay);
    lemma_near_product(cx - ax, by - ay);
    lemma_times(minus(b.x, a.x), minus(c.y, a.y), bx - ax, cy - ay);
    lemma_times(minus(c.x, a.x), minus(b.y, a.y), cx - ax, by - ay);
    let first = times(minus(b.x, a.x), minus(c.y, a.y));
    let second = times(minus(c.x, a.x), minus(b.y, a.y));
    let k = twice_the_triangle(ax, ay, bx, by, cx, cy);
    lemma_minus(first, second, (bx - ax) * (cy - ay), (cx - ax) * (by - ay));
    lemma_absolute(minus(first, second), k);
    lemma_half(absolute(minus(first, second)), size(k));
}

proof fn lemma_absolute(d: Double, k: int)
    requires
        counts(d, k),
    ensures
        counts(absolute(d), size(k)),
{
    without_its_sign_a_number_is_as_large(d);
    let u = unit();
    lemma_pow2_pos(1074);
    assert(size(k) * u == (if k * u < 0 {
        -(k * u)
    } else {
        k * u
    })) by (nonlinear_arith)
        requires
            size(k) == (if k < 0 {
                -k
            } else {
                k
            }),
            u > 0,
    ;
}

/// Twice the area that a closed line through these places goes round, with a
/// sign for the way round; of the first `count` sides.
pub open spec fn twice_the_area(xs: Seq<int>, ys: Seq<int>, count: nat) -> int
    decreases count,
{
    if count == 0 {
        0
    } else {
        let i = count - 1;
        let j = (i + 1) % (xs.len() as int);
        twice_the_area(xs, ys, (count - 1) as nat) + (xs[i] * ys[j] - xs[j] * ys[i])
    }
}

/// Whether places have these whole numbers for coordinates.
pub open spec fn are_at(coords: Seq<Coord>, xs: Seq<int>, ys: Seq<int>) -> bool {
    coords.len() == xs.len() && coords.len() == ys.len() && forall|i: int|
        0 <= i < coords.len() ==> is_at(#[trigger] coords[i], xs[i], ys[i])
}

proof fn lemma_shoelace(coords: Seq<Coord>, xs: Seq<int>, ys: Seq<int>, count: nat)
    requires
        are_at(coords, xs, ys),
        count <= coords.len() <= 1024,
    ensures
        counts(shoelace(coords, count), twice_the_area(xs, ys, count)),
        -(0x400_0000_0000 * count) <= twice_the_area(xs, ys, count) <= 0x400_0000_0000 * count,
    decreases count,
{
    if count == 0 {
        lemma_zero();
    } else {
        let n = coords.len() as int;
        let i = count - 1;
        let j = after(i, n);
        lemma_shoelace(coords, xs, ys, i as nat);
        assert(j == (i + 1) % n) by {
            if i + 1 == n {
                lemma_fundamental_div_mod_converse(i + 1, n, 1, 0);
            } else {
                lemma_fundamental_div_mod_converse(i + 1, n, 0, i + 1);
            }
        }
        let a = coords[i];
        let b = coords[j];
        assert(is_at(coords[i], xs[i], ys[i]) && is_at(coords[j], xs[j], ys[j]));
        lemma_small_product(xs[i], ys[j]);
        lemma_small_product(xs[j], ys[i]);
        lemma_times(a.x, b.y, xs[i], ys[j]);
        lemma_times(b.x, a.y, xs[j], ys[i]);
        lemma_minus(times(a.x, b.y), times(b.x, a.y), xs[i] * ys[j], xs[j] * ys[i]);
        lemma_plus(
            shoelace(coords, i as nat),
            minus(times(a.x, b.y), times(b.x, a.y)),
            twice_the_area(xs, ys, i as nat),
            xs[i] * ys[j] - xs[j] * ys[i],
        );
    }
}

proof fn lemma_small_product(a: int, b: int)
    requires
        is_near(a),
        is_near(b),
    ensures
        -0x100_0000_0000 <= a * b <= 0x100_0000_0000,
{
    assert(-0x100_0000_0000 <= a * b <= 0x100_0000_0000) by (nonlinear_arith)
        requires
            -0x10_0000 <= a <= 0x10_0000,
            -0x10_0000 <= b <= 0x10_0000,
    ;
}

/// The area inside a closed line is half of what its sides, one after another,
/// span with the origin.
pub proof fn an_area_is_measured_side_by_side(coords: Seq<Coord>, xs: Seq<int>, ys: Seq<int>)
    requires
        are_at(coords, xs, ys),
        coords.len() <= 1024,
    ensures
        counts(shoelace(coords, coords.len()), twice_the_area(xs, ys, coords.len())),
        is_exactly(area(coords), size(twice_the_area(xs, ys, coords.len())) * pow2(1073)),
{
    lemma_shoelace(coords, xs, ys, coords.len());
    lemma_absolute(shoelace(coords, coords.len()), twice_the_area(xs, ys, coords.len()));
    lemma_half(
        absolute(shoelace(coords, coords.len())),
        size(twice_the_area(xs, ys, coords.len())),
    );
}

/// The turn at a vertex is told by the two sides that meet there, from the
/// vertex to the one before and to the one after: how far they are from lying
/// on one line, and how far from standing upright on each other.
pub proof fn a_turn_is_told_by_the_sides_that_meet(
    coords: Seq<Coord>,
    xs: Seq<int>,
    ys: Seq<int>,
    i: int,
)
    requires
        are_at(coords, xs, ys),
        0 <= i < coords.len(),
    ensures
        ({
            let n = coords.len() as int;
            let p = (i - 1) % n;
            let q = (i + 1) % n;
            let ux = xs[p] - xs[i];
            let uy = ys[p] - ys[i];
            let vx = xs[q] - xs[i];
            let vy = ys[q] - ys[i];
            counts(turn_at(coords, i).cross, ux * vy - uy * vx) && counts(
                turn_at(coords, i).dot,
                ux * vx + uy * vy,
            )
        }),
{
    let n = coords.len() as int;
    let p = before(i, n);
    let q = after(i, n);
    assert(q == (i + 1) % n) by {
        if i + 1 == n {
            lemma_fundamental_div_mod_converse(i + 1, n, 1, 0);
        } else {
            lemma_fundamental_div_mod_converse(i + 1, n, 0, i + 1);
        }
    }
    assert(p == (i - 1) % n) by {
        if i == 0 {
            lemma_fundamental_div_mod_converse(i - 1, n, -1, n - 1);
        } else {
            lemma_fundamental_div_mod_converse(i - 1, n, 0, i - 1);
        }
    }
    let a = coords[p];
    let b = coords[i];
    let c = coords[q];
    assert(is_at(coords[p], xs[p], ys[p]) && is_at(coords[i], xs[i], ys[i]) && is_at(
        coords[q],
        xs[q],
        ys[q],
    ));
    let ux = xs[p] - xs[i];
    let uy = ys[p] - ys[i];
    let vx = xs[q] - xs[i];
    let vy = ys[q] - ys[i];
    lemma_minus(a.x, b.x, xs[p], xs[i]);
    lemma_minus(a.y, b.y, ys[p], ys[i]);
    lemma_minus(c.x, b.x, xs[q], xs[i]);
    lemma_minus(c.y, b.y, ys[q], ys[i]);
    let dux = minus(a.x, b.x);
    let duy = minus(a.y, b.y);
    let dvx = minus(c.x, b.x);
    let dvy = minus(c.y, b.y);
    lemma_near_product(ux, vy);
    lemma_near_product(uy, vx);
    lemma_near_product(ux, vx);
    lemma_near_product(uy, vy);
    lemma_times(dux, dvy, ux, vy);
    lemma_times(duy, dvx, uy, vx);
    lemma_times(dux, dvx, ux, vx);
    lemma_times(duy, dvy, uy, vy);
    lemma_minus(times(dux, dvy), times(duy, dvx), ux * vy, uy * vx);
    lemma_plus(times(dux, dvx), times(duy, dvy), ux * vx, uy * vy);
}

/// The sums of the coordinates of the first `count` points.
pub open spec fn total(ks: Seq<int>, count: nat) -> int
    decreases count,
{
    if count == 0 {
        0
    } else {
        total(ks, (count - 1) as nat) + ks[count - 1]
    }
}

proof fn lemma_sum(points: Seq<Point>, xs: Seq<int>, ys: Seq<int>, zs: Seq<int>, count: nat)
    requires
        all_stand_at(points, xs, ys, zs),
        count <= points.len() <= 0x10_0000,
    ensures
        counts(sum_of_points(points, count).x, total(xs, count)),
        counts(sum_of_points(points, count).y, total(ys, count)),
        counts(sum_of_points(points, count).z, total(zs, count)),
        -0x10_0000 * count <= total(xs, count) <= 0x10_0000 * count,
        -0x10_0000 * count <= total(ys, count) <= 0x10_0000 * count,
        -0x10_0000 * count <= total(zs, count) <= 0x10_0000 * count,
    decreases count,
{
    if count == 0 {
        lemma_zero();
    } else {
        let i = count - 1;
        lemma_sum(points, xs, ys, zs, i as nat);
        assert(stands_at(points[i], xs[i], ys[i], zs[i]));
        let sum = sum_of_points(points, i as nat);
        lemma_plus(sum.x, points[i].x, total(xs, i as nat), xs[i]);
        lemma_plus(sum.y, points[i].y, total(ys, i as nat), ys[i]);
        lemma_plus(sum.z, points[i].z, total(zs, i as nat), zs[i]);
    }
}

/// Whether points have these whole numbers for coordinates.
pub open spec fn all_stand_at(
    points: Seq<Point>,
    xs: Seq<int>,
    ys: Seq<int>,
    zs: Seq<int>,
) -> bool {
    points.len() == xs.len() && points.len() == ys.len() && points.len() == zs.len() && forall|
        i: int,
    |
        0 <= i < points.len() ==> stands_at(#[trigger] points[i], xs[i], ys[i], zs[i])
}

/// The middle of points is where their coordinates, taken together and shared
/// out over all of them, come to lie: where that is a whole number, exactly
/// there.
pub proof fn the_middle_shares_out_what_the_points_add_up_to(
    points: Seq<Point>,
    xs: Seq<int>,
    ys: Seq<int>,
    zs: Seq<int>,
    x: int,
    y: int,
    z: int,
)
    requires
        all_stand_at(points, xs, ys, zs),
        0 < points.len() <= 0x10_0000,
        x * points.len() == total(xs, points.len()),
        y * points.len() == total(ys, points.len()),
        z * points.len() == total(zs, points.len()),
    ensures
        counts(mean_point(points).x, x),
        counts(mean_point(points).y, y),
        counts(mean_point(points).z, z),
{
    let n = points.len();
    lemma_sum(points, xs, ys, zs, n);
    a_count_that_fits_is_exact(n);
    let sum = sum_of_points(points, n);
    lemma_shared(sum.x, x, n, total(xs, n));
    lemma_shared(sum.y, y, n, total(ys, n));
    lemma_shared(sum.z, z, n, total(zs, n));
}

proof fn lemma_shared(d: Double, k: int, n: nat, sum: int)
    requires
        counts(d, sum),
        0 < n <= 0x10_0000,
        k * n == sum,
        -0x10_0000 * n <= sum <= 0x10_0000 * n,
        counts(of_natural(n), n as int),
    ensures
        counts(over(d, of_natural(n)), k),
{
    assert(-0x10_0000 <= k <= 0x10_0000) by (nonlinear_arith)
        requires
            k * n == sum,
            -0x10_0000 * n <= sum <= 0x10_0000 * n,
            n > 0,
    ;
    few_bits_fit(k, 1074);
    let u = unit();
    lemma_pow2_pos(1074);
    assert((k * u) * (n * u) == (sum * u) * u) by (nonlinear_arith)
        requires
            k * n == sum,
    ;
    assert(n * u != 0) by (nonlinear_arith)
        requires
            n > 0,
            u > 0,
    ;
    a_quotient_that_fits_is_exact(d, of_natural(n), k * u);
}

/// Padding makes a zone as long as it has to be and no longer: an entry less
/// than the length wanted before the exit is moved back to just that length
/// before it, and any other stays where it is.
pub proof fn padding_makes_up_the_length_wanted(
    entry: Double,
    exit: Double,
    wanted: Double,
    k: int,
    l: int,
    m: int,
)
    requires
        counts(entry, k),
        counts(exit, l),
        counts(wanted, m),
        is_near(k),
        is_near(l),
        is_near(m),
    ensures
        l - k < m ==> counts(entry_with_padding(entry, exit, wanted), l - m),
        l - k >= m ==> entry_with_padding(entry, exit, wanted) == entry,
{
    lemma_minus(exit, entry, l, k);
    let span = minus(exit, entry);
    lemma_minus(wanted, span, m, l - k);
    lemma_minus(entry, minus(wanted, span), k, m - (l - k));
    comparison_follows_the_values(span, wanted);
    let u = unit();
    lemma_pow2_pos(1074);
    assert((l - k) * u < m * u <==> l - k < m) by (nonlinear_arith)
        requires
            u > 0,
    ;
}

} // verus!
