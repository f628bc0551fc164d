//! What holds of lines that cross, and of the nearest places on them, on whole
//! numbers, where rounding plays no part.

use crate::arithmetic_laws::{lemma_rounds_no_higher, lemma_rounds_no_lower};
use crate::double::{
    comparison_follows_the_values, is_less, is_nan, is_negative, magnitude, magnitude_bits, minus,
    plus, value, zero, Double,
};
use crate::exact_laws::{
    a_product_that_fits_is_exact, a_quotient_that_fits_is_exact, a_sum_that_fits_is_exact,
    few_bits_fit, is_exactly, unit,
};
use crate::geometry_laws::{
    counts, is_at, is_near, lemma_minus, lemma_near_product, lemma_one, lemma_plus, lemma_times,
    lemma_zero, size,
};
use crate::measure::is_same;
use crate::plane::{as_share, closest_point, cross, crossing_of, is_share, Coord};
use crate::product::{lemma_nearest_zero, lemma_zero_magnitude, over, times};
use crate::rounding::{nearest_magnitude, EXPONENT_UNIT, INFINITY_BITS};
use crate::shape::{one, ONE};
use vstd::arithmetic::div_mod::lemma_fundamental_div_mod_converse;
use vstd::arithmetic::power2::{lemma2_to64, lemma2_to64_rest, lemma_pow2_adds, lemma_pow2_pos, pow2};
use vstd::prelude::*;

verus! {

spec fn is_small(k: int) -> bool {
    -0x800_0000_0000 <= k <= 0x800_0000_0000
}

/// The double right after one, and one that is near to nothing.
proof fn lemma_neighbours()
    ensures
        magnitude(Double { bits: 0x3ff0_0000_0000_0001 }) == pow2(1074) + pow2(1022),
        magnitude(Double { bits: 0x3cb0_0000_0000_0000 }) == pow2(1022),
        pow2(1074) == 0x10_0000_0000_0000 * pow2(1022),
{
    lemma2_to64_rest();
    let w = EXPONENT_UNIT as int;
    lemma_fundamental_div_mod_converse(0x3ff0_0000_0000_0001, w, 1023, 1);
    lemma_fundamental_div_mod_converse(0x3cb0_0000_0000_0000, w, 971, 0);
    lemma_pow2_adds(52, 1022);
    lemma_pow2_adds(52, 970);
    let p = pow2(1022);
    assert(0x10_0000_0000_0001 * p == 0x10_0000_0000_0000 * p + p) by (nonlinear_arith);
}

/// The magnitude bits of a quotient of whole numbers: nothing, up to one, or
/// more than one, as the numbers are.
proof fn lemma_quotient(num: Double, den: Double, n: int, d: int)
    requires
        counts(num, n),
        counts(den, d),
        is_small(n),
        is_small(d),
        d != 0,
    ensures
        ({
            let t = over(num, den);
            &&& !is_nan(t)
            &&& n == 0 ==> magnitude_bits(t) == 0
            &&& n != 0 ==> magnitude_bits(t) > 0 && is_negative(t) == ((n < 0) != (d < 0))
            &&& size(n) <= size(d) ==> magnitude_bits(t) <= ONE
            &&& size(n) >= size(d) ==> magnitude_bits(t) >= ONE
            &&& size(n) > size(d) ==> magnitude_bits(t) > ONE
        }),
{
    reveal(over);
    let t = over(num, den);
    let u = pow2(1074);
    lemma_pow2_pos(1074);
    lemma_pow2_pos(1022);
    lemma_one();
    lemma_neighbours();
    lemma_zero_magnitude(num);
    lemma_zero_magnitude(den);
    let x = size(n) as nat;
    let y = size(d) as nat;
    assert(magnitude(num) == x * u && magnitude(den) == y * u && (n != 0 ==> is_negative(num) == (n
        < 0)) && is_negative(den) == (d < 0) && y * u > 0 && (n == 0 <==> x * u == 0))
        by (nonlinear_arith)
        requires
            value(num) == n * u,
            value(den) == d * u,
            value(num) == (if is_negative(num) {
                -(magnitude(num) as int)
            } else {
                magnitude(num) as int
            }),
            value(den) == (if is_negative(den) {
                -(magnitude(den) as int)
            } else {
                magnitude(den) as int
            }),
            x == (if n < 0 {
                -n
            } else {
                n
            }),
            y == (if d < 0 {
                -d
            } else {
                d
            }),
            u > 0,
            d != 0,
            magnitude(num) >= 0,
            magnitude(den) >= 0,
    ;
    let top = magnitude(num) * u;
    let bottom = magnitude(den);
    let bits = nearest_magnitude(top, bottom);
    assert(bits <= INFINITY_BITS);
    assert(magnitude_bits(t) == bits);
    if n == 0 {
        assert(top == 0) by (nonlinear_arith)
            requires
                top == magnitude(num) * u,
                magnitude(num) == 0,
        ;
        lemma_nearest_zero(bottom);
    } else {
        let tiny = Double { bits: 0x3cb0_0000_0000_0000 };
        let p = pow2(1022);
        assert(top >= magnitude(tiny) * bottom) by (nonlinear_arith)
            requires
                top == (x * u) * u,
                bottom == y * u,
                magnitude(tiny) == p,
                u == 0x10_0000_0000_0000 * p,
                x >= 1,
                0 < y <= 0x800_0000_0000,
                p > 0,
        ;
        lemma_rounds_no_lower(tiny, top, bottom);
    }
    if x <= y {
        assert(top <= u * bottom) by (nonlinear_arith)
            requires
                top == (x * u) * u,
                bottom == y * u,
                x <= y,
                u > 0,
        ;
        lemma_rounds_no_higher(one(), top, bottom);
    }
    if x >= y {
        assert(top >= u * bottom) by (nonlinear_arith)
            requires
                top == (x * u) * u,
                bottom == y * u,
                x >= y,
                u > 0,
        ;
        lemma_rounds_no_lower(one(), top, bottom);
    }
    if x > y {
        let next = Double { bits: 0x3ff0_0000_0000_0001 };
        let p = pow2(1022);
        assert(top >= magnitude(next) * bottom) by (nonlinear_arith)
            requires
                top == (x * u) * u,
                bottom == y * u,
                magnitude(next) == u + p,
                u == 0x10_0000_0000_0000 * p,
                x >= y + 1,
                0 < y <= 0x800_0000_0000,
                p > 0,
        ;
        lemma_rounds_no_lower(next, top, bottom);
    }
}

/// Whether `n / d` lies between nothing and one.
pub open spec fn is_share_of(n: int, d: int) -> bool {
    d > 0 && 0 <= n <= d || d < 0 && d <= n <= 0
}

proof fn lemma_share(num: Double, den: Double, n: int, d: int)
    requires
        counts(num, n),
        counts(den, d),
        is_small(n),
        is_small(d),
        d != 0,
    ensures
        is_share(over(num, den)) <==> is_share_of(n, d),
{
    lemma_quotient(num, den, n, d);
}

/// Two segments cross exactly where the lines through them are not parallel
/// and meet within both: the lines meet after the share `t / d` of the first
/// segment and `s / d` of the second, which is to be from nothing up to one.
pub proof fn segments_cross_where_their_lines_meet_within_both(
    a1: Coord,
    a2: Coord,
    b1: Coord,
    b2: Coord,
    x1: int,
    y1: int,
    x2: int,
    y2: int,
    x3: int,
    y3: int,
    x4: int,
    y4: int,
)
    requires
        is_at(a1, x1, y1),
        is_at(a2, x2, y2),
        is_at(b1, x3, y3),
        is_at(b2, x4, y4),
    ensures
        ({
            let d = (x2 - x1) * (y4 - y3) - (y2 - y1) * (x4 - x3);
            let t = (x3 - x1) * (y4 - y3) - (y3 - y1) * (x4 - x3);
            let s = (x3 - x1) * (y2 - y1) - (y3 - y1) * (x2 - x1);
            &&& crossing_of(a1, a2, b1, b2) is Some <==> d != 0 && is_share_of(t, d) && is_share_of(
                s,
                d,
            )
            &&& x1 * d + t * (x2 - x1) == x3 * d + s * (x4 - x3)
            &&& y1 * d + t * (y2 - y1) == y3 * d + s * (y4 - y3)
            &&& forall|part: int|
                0 <= part <= 1024 && d != 0 && is_share_of(s, d) && #[trigger] (part * d) == t * 1024
                    ==> (crossing_of(a1, a2, b1, b2) matches Some(place) && is_exactly(
                    place.x,
                    (x1 * 1024 + (x2 - x1) * part) * pow2(1064),
                ) && is_exactly(place.y, (y1 * 1024 + (y2 - y1) * part) * pow2(1064)))
        }),
{
    let ax = x2 - x1;
    let ay = y2 - y1;
    let bx = x4 - x3;
    let by = y4 - y3;
    let ex = x3 - x1;
    let ey = y3 - y1;
    let d = ax * by - ay * bx;
    let t = ex * by - ey * bx;
    let s = ex * ay - ey * ax;
    lemma_minus(a2.x, a1.x, x2, x1);
    lemma_minus(a2.y, a1.y, y2, y1);
    lemma_minus(b2.x, b1.x, x4, x3);
    lemma_minus(b2.y, b1.y, y4, y3);
    lemma_minus(b1.x, a1.x, x3, x1);
    lemma_minus(b1.y, a1.y, y3, y1);
    let adx = minus(a2.x, a1.x);
    let ady = minus(a2.y, a1.y);
    let bdx = minus(b2.x, b1.x);
    let bdy = minus(b2.y, b1.y);
    let edx = minus(b1.x, a1.x);
    let edy = minus(b1.y, a1.y);
    lemma_cross(adx, ady, bdx, bdy, ax, ay, bx, by);
    lemma_cross(edx, edy, bdx, bdy, ex, ey, bx, by);
    lemma_near_product(ex, ay);
    lemma_near_product(ey, ax);
    lemma_times(edx, ady, ex, ay);
    lemma_times(edy, adx, ey, ax);
    lemma_minus(times(edx, ady), times(edy, adx), ex * ay, ey * ax);
    let denominator = cross(adx, ady, bdx, bdy);
    lemma_nothing(denominator, d);
    if d != 0 {
        lemma_share(cross(edx, edy, bdx, bdy), denominator, t, d);
        lemma_share(minus(times(edx, ady), times(edy, adx)), denominator, s, d);
    }
    lemma_lines_meet(ax, ay, bx, by, ex, ey);
    assert(x3 * d - x1 * d == ex * d && y3 * d - y1 * d == ey * d) by (nonlinear_arith)
        requires
            ex == x3 - x1,
            ey == y3 - y1,
    ;
    assert forall|part: int|
        0 <= part <= 1024 && d != 0 && is_share_of(s, d) && #[trigger] (part * d) == t * 1024 implies (
    crossing_of(a1, a2, b1, b2) matches Some(place) && is_exactly(
        place.x,
        (x1 * 1024 + (x2 - x1) * part) * pow2(1064),
    ) && is_exactly(place.y, (y1 * 1024 + (y2 - y1) * part) * pow2(1064))) by {
        assert(is_share_of(t, d)) by (nonlinear_arith)
            requires
                part * d == t * 1024,
                0 <= part <= 1024,
                d != 0,
        ;
        lemma_part(cross(edx, edy, bdx, bdy), denominator, t, d, part);
        let share = over(cross(edx, edy, bdx, bdy), denominator);
        lemma_on_the_way(a1.x, adx, x1, ax, share, part);
        lemma_on_the_way(a1.y, ady, y1, ay, share, part);
    }
}

proof fn lemma_lines_meet(ax: int, ay: int, bx: int, by: int, ex: int, ey: int)
    ensures
        ({
            let d = ax * by - ay * bx;
            let t = ex * by - ey * bx;
            let s = ex * ay - ey * ax;
            t * ax - s * bx == ex * d && t * ay - s * by == ey * d
        }),
{
    let d = ax * by - ay * bx;
    let t = ex * by - ey * bx;
    let s = ex * ay - ey * ax;
    assert(t * ax == (ex * by) * ax - (ey * bx) * ax) by (nonlinear_arith)
        requires
            t == ex * by - ey * bx,
    ;
    assert(t * ay == (ex * by) * ay - (ey * bx) * ay) by (nonlinear_arith)
        requires
            t == ex * by - ey * bx,
    ;
    assert(s * bx == (ex * ay) * bx - (ey * ax) * bx) by (nonlinear_arith)
        requires
            s == ex * ay - ey * ax,
    ;
    assert(s * by == (ex * ay) * by - (ey * ax) * by) by (nonlinear_arith)
        requires
            s == ex * ay - ey * ax,
    ;
    assert(ex * d == ex * (ax * by) - ex * (ay * bx)) by (nonlinear_arith)
        requires
            d == ax * by - ay * bx,
    ;
    assert(ey * d == ey * (ax * by) - ey * (ay * bx)) by (nonlinear_arith)
        requires
            d == ax * by - ay * bx,
    ;
    assert((ey * bx) * ax == (ey * ax) * bx) by (nonlinear_arith);
    assert((ex * by) * ax == ex * (ax * by)) by (nonlinear_arith);
    assert((ex * ay) * bx == ex * (ay * bx)) by (nonlinear_arith);
    assert((ex * by) * ay == (ex * ay) * by) by (nonlinear_arith);
    assert((ey * ax) * by == ey * (ax * by)) by (nonlinear_arith);
    assert((ey * bx) * ay == ey * (ay * bx)) by (nonlinear_arith);
}

proof fn lemma_cross(
    ax: Double,
    ay: Double,
    bx: Double,
    by: Double,
    i: int,
    j: int,
    k: int,
    l: int,
)
    requires
        counts(ax, i),
        counts(ay, j),
        counts(bx, k),
        counts(by, l),
        -0x20_0000 <= i <= 0x20_0000,
        -0x20_0000 <= j <= 0x20_0000,
        -0x20_0000 <= k <= 0x20_0000,
        -0x20_0000 <= l <= 0x20_0000,
    ensures
        counts(cross(ax, ay, bx, by), i * l - j * k),
        is_small(i * l - j * k),
{
    lemma_near_product(i, l);
    lemma_near_product(j, k);
    lemma_times(ax, by, i, l);
    lemma_times(ay, bx, j, k);
    lemma_minus(times(ax, by), times(ay, bx), i * l, j * k);
}

proof fn lemma_nothing(x: Double, k: int)
    requires
        counts(x, k),
    ensures
        is_same(x, zero()) <==> k == 0,
        is_less(x, zero()) <==> k < 0,
        is_less(zero(), x) <==> k > 0,
{
    lemma_zero();
    comparison_follows_the_values(x, zero());
    comparison_follows_the_values(zero(), x);
    let u = unit();
    lemma_pow2_pos(1074);
    assert((k * u == 0 <==> k == 0) && (k * u < 0 <==> k < 0)) by (nonlinear_arith)
        requires
            u > 0,
    ;
}

/// A quotient that comes to so many thousand-and-twenty-fourths.
proof fn lemma_part(num: Double, den: Double, n: int, d: int, part: int)
    requires
        counts(num, n),
        counts(den, d),
        d != 0,
        0 <= part <= 1024,
        part * d == n * 1024,
    ensures
        is_exactly(over(num, den), part * pow2(1064)),
{
    few_bits_fit(part, 1064);
    lemma2_to64();
    lemma_pow2_adds(10, 1064);
    lemma_pow2_pos(1064);
    let s = pow2(1064) as int;
    let u = unit();
    assert(u == 1024 * s);
    assert((part * s) * (d * u) == (n * u) * u && d * u != 0) by (nonlinear_arith)
        requires
            part * d == n * 1024,
            u == 1024 * s,
            d != 0,
            s > 0,
    ;
    a_quotient_that_fits_is_exact(num, den, part * s);
}

proof fn lemma_on_the_way(a: Double, delta: Double, k: int, d: int, t: Double, part: int)
    requires
        counts(a, k),
        counts(delta, d),
        is_near(k),
        -0x20_0000 <= d <= 0x20_0000,
        0 <= part <= 1024,
        is_exactly(t, part * pow2(1064)),
    ensures
        is_exactly(plus(a, times(t, delta)), (k * 1024 + d * part) * pow2(1064)),
{
    let s = pow2(1064) as int;
    let u = unit();
    lemma2_to64();
    lemma_pow2_adds(10, 1064);
    assert(u == 1024 * s);
    assert(-0x8000_0000 <= d * part <= 0x8000_0000) by (nonlinear_arith)
        requires
            -0x20_0000 <= d <= 0x20_0000,
            0 <= part <= 1024,
    ;
    few_bits_fit(d * part, 1064);
    assert(((d * part) * s) * u == (part * s) * (d * u)) by (nonlinear_arith);
    a_product_that_fits_is_exact(t, delta, (d * part) * s);
    few_bits_fit(k * 1024 + d * part, 1064);
    assert(k * u + (d * part) * s == (k * 1024 + d * part) * s) by (nonlinear_arith)
        requires
            u == 1024 * s,
    ;
    a_sum_that_fits_is_exact(a, times(t, delta));
}

/// The nearest place on a segment is its beginning where the way there leads
/// back, its end where the way leads on beyond it, and otherwise the foot of
/// the perpendicular: the share of the segment that the way to the place makes
/// up, measured along the segment.
pub proof fn the_nearest_place_is_the_foot_of_the_perpendicular(
    p: Coord,
    a: Coord,
    b: Coord,
    px: int,
    py: int,
    ax: int,
    ay: int,
    bx: int,
    by: int,
)
    requires
        is_at(p, px, py),
        is_at(a, ax, ay),
        is_at(b, bx, by),
    ensures
        ({
            let dx = bx - ax;
            let dy = by - ay;
            let square = dx * dx + dy * dy;
            let along = (px - ax) * dx + (py - ay) * dy;
            let place = closest_point(p, a, b);
            &&& square == 0 ==> place == a
            &&& square > 0 && along <= 0 ==> counts(place.x, ax) && counts(place.y, ay)
            &&& square > 0 && along >= square ==> counts(place.x, bx) && counts(place.y, by)
            &&& forall|part: int|
                0 <= part <= 1024 && square > 0 && #[trigger] (part * square) == along * 1024
                    ==> is_exactly(place.x, (ax * 1024 + dx * part) * pow2(1064)) && is_exactly(
                    place.y,
                    (ay * 1024 + dy * part) * pow2(1064),
                )
        }),
{
    let dx = bx - ax;
    let dy = by - ay;
    let square = dx * dx + dy * dy;
    let along = (px - ax) * dx + (py - ay) * dy;
    let place = closest_point(p, a, b);
    lemma_minus(b.x, a.x, bx, ax);
    lemma_minus(b.y, a.y, by, ay);
    lemma_minus(p.x, a.x, px, ax);
    lemma_minus(p.y, a.y, py, ay);
    let x = minus(b.x, a.x);
    let y = minus(b.y, a.y);
    let ex = minus(p.x, a.x);
    let ey = minus(p.y, a.y);
    lemma_near_product(dx, dx);
    lemma_near_product(dy, dy);
    lemma_near_product(px - ax, dx);
    lemma_near_product(py - ay, dy);
    lemma_times(x, x, dx, dx);
    lemma_times(y, y, dy, dy);
    lemma_times(ex, x, px - ax, dx);
    lemma_times(ey, y, py - ay, dy);
    lemma_plus(times(x, x), times(y, y), dx * dx, dy * dy);
    lemma_plus(times(ex, x), times(ey, y), (px - ax) * dx, (py - ay) * dy);
    let whole = plus(times(x, x), times(y, y));
    let walked = plus(times(ex, x), times(ey, y));
    lemma_nothing(whole, square);
    assert(square >= 0) by (nonlinear_arith)
        requires
            square == dx * dx + dy * dy,
    ;
    lemma_one();
    lemma_zero();
    if square > 0 {
        let t = over(walked, whole);
        lemma_quotient(walked, whole, along, square);
        if along <= 0 {
            // nothing of the way, whichever sign nothing has
            assert(is_exactly(as_share(t), 0int * pow2(1064))) by {
                assert(0int * pow2(1064) == 0) by (nonlinear_arith);
                lemma_zero_magnitude(as_share(t));
            }
            lemma_on_the_way(a.x, x, ax, dx, as_share(t), 0);
            lemma_on_the_way(a.y, y, ay, dy, as_share(t), 0);
            lemma_back_to_whole(ax, ax * 1024 + dx * 0);
            lemma_back_to_whole(ay, ay * 1024 + dy * 0);
        }
        if along >= square {
            assert(as_share(t) == one());
            lemma2_to64();
            lemma_pow2_adds(10, 1064);
            lemma_on_the_way(a.x, x, ax, dx, one(), 1024);
            lemma_on_the_way(a.y, y, ay, dy, one(), 1024);
            lemma_back_to_whole(bx, ax * 1024 + dx * 1024);
            lemma_back_to_whole(by, ay * 1024 + dy * 1024);
        }
        assert forall|part: int|
            0 <= part <= 1024 && square > 0 && #[trigger] (part * square) == along * 1024 implies is_exactly(
            place.x,
            (ax * 1024 + dx * part) * pow2(1064),
        ) && is_exactly(place.y, (ay * 1024 + dy * part) * pow2(1064)) by {
            lemma_part(walked, whole, along, square, part);
            assert(is_share_of(along, square)) by (nonlinear_arith)
                requires
                    part * square == along * 1024,
                    0 <= part <= 1024,
                    square > 0,
            ;
            lemma_share(walked, whole, along, square);
            assert(as_share(t) == t);
            lemma_on_the_way(a.x, x, ax, dx, t, part);
            lemma_on_the_way(a.y, y, ay, dy, t, part);
        }
    }
}

proof fn lemma_back_to_whole(k: int, scaled: int)
    requires
        scaled == k * 1024,
    ensures
        scaled * pow2(1064) == k * unit(),
{
    lemma2_to64();
    lemma_pow2_adds(10, 1064);
    let s = pow2(1064) as int;
    assert((k * 1024) * s == k * (1024 * s)) by (nonlinear_arith);
}

} // verus!
