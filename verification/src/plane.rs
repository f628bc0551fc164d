//! Points of the plane and the lines between them.

use crate::double::{is_at_most, is_less, minus, plus, zero, Double};
use crate::hypotenuse::hypotenuse;
use crate::measure::{absolute, is_same, total_place};
use crate::product::{over, times};
use crate::shape::{one, ONE};
use vstd::prelude::*;

verus! {

/// A point of the plane, in metres.
#[derive(Clone, Copy, Debug, PartialEq, Eq, Structural)]
pub struct Coord {
    pub x: Double,
    pub y: Double,
}

/// One centimetre, by bit pattern: what lies closer together than that is not
/// told apart.
pub const SPLIT_SNAP_MARGIN_METERS: u64 = 0x3f84_7ae1_47ae_147b;

/// Two of anything, by bit pattern.
pub const TWO: u64 = 0x4000_0000_0000_0000;

/// The margin below which points are not told apart.
pub open spec fn margin() -> Double {
    Double { bits: SPLIT_SNAP_MARGIN_METERS }
}

/// Whether two points are the same.
pub open spec fn same_place(a: Coord, b: Coord) -> bool {
    is_same(a.x, b.x) && is_same(a.y, b.y)
}

/// How far apart two points are.
pub open spec fn distance(a: Coord, b: Coord) -> Double {
    hypotenuse(minus(a.x, b.x), minus(a.y, b.y))
}

/// Whether `t` is a share between nothing and all.
pub open spec fn is_share(t: Double) -> bool {
    is_at_most(zero(), t) && is_at_most(t, one())
}

/// The cross product of two vectors.
pub open spec fn cross(ax: Double, ay: Double, bx: Double, by: Double) -> Double {
    minus(times(ax, by), times(ay, bx))
}

/// Where the lines from `a1` to `a2` and from `b1` to `b2` cross, if they do
/// and are not parallel.
pub open spec fn crossing_of(a1: Coord, a2: Coord, b1: Coord, b2: Coord) -> Option<Coord> {
    let adx = minus(a2.x, a1.x);
    let ady = minus(a2.y, a1.y);
    let bdx = minus(b2.x, b1.x);
    let bdy = minus(b2.y, b1.y);
    let denominator = cross(adx, ady, bdx, bdy);
    if is_same(denominator, zero()) {
        None
    } else {
        let ex = minus(b1.x, a1.x);
        let ey = minus(b1.y, a1.y);
        let t = over(cross(ex, ey, bdx, bdy), denominator);
        let s = over(minus(times(ex, ady), times(ey, adx)), denominator);
        if is_share(t) && is_share(s) {
            Some(Coord { x: plus(a1.x, times(t, adx)), y: plus(a1.y, times(t, ady)) })
        } else {
            None
        }
    }
}

/// `t` moved to the nearer of nothing and all, where it lies outside of them.
pub open spec fn as_share(t: Double) -> Double {
    if is_less(t, zero()) {
        zero()
    } else if is_less(one(), t) {
        one()
    } else {
        t
    }
}

/// The point of the line from `a` to `b` that is closest to `p`.
pub open spec fn closest_point(p: Coord, a: Coord, b: Coord) -> Coord {
    let dx = minus(b.x, a.x);
    let dy = minus(b.y, a.y);
    let square = plus(times(dx, dx), times(dy, dy));
    if is_same(square, zero()) {
        a
    } else {
        let along = plus(times(minus(p.x, a.x), dx), times(minus(p.y, a.y), dy));
        let t = as_share(over(along, square));
        Coord { x: plus(a.x, times(t, dx)), y: plus(a.y, times(t, dy)) }
    }
}

/// How far `p` is from the line from `a` to `b`.
pub open spec fn distance_to_line(p: Coord, a: Coord, b: Coord) -> Double {
    distance(p, closest_point(p, a, b))
}

/// The area of a triangle.
pub open spec fn triangle(a: Coord, b: Coord, c: Coord) -> Double {
    over(
        absolute(
            minus(
                times(minus(b.x, a.x), minus(c.y, a.y)),
                times(minus(c.x, a.x), minus(b.y, a.y)),
            ),
        ),
        Double { bits: TWO },
    )
}

impl Coord {
    /// Whether this and `other` are the same point.
    pub fn coincides(self, other: Coord) -> (same: bool)
        ensures
            same == same_place(self, other),
    {
        self.x.equals(other.x) && self.y.equals(other.y)
    }

    /// How far this is from `other`.
    pub fn distance_to(self, other: Coord) -> (d: Double)
        ensures
            d == distance(self, other),
    {
        self.x.subtract(other.x).hypot(self.y.subtract(other.y))
    }
}

fn within_line(t: Double) -> (yes: bool)
    ensures
        yes == is_share(t),
{
    Double { bits: 0 }.at_most(t) && t.at_most(Double { bits: ONE })
}

fn cross_product(ax: Double, ay: Double, bx: Double, by: Double) -> (d: Double)
    ensures
        d == cross(ax, ay, bx, by),
{
    ax.multiply(by).subtract(ay.multiply(bx))
}

/// Where the lines from `a1` to `a2` and from `b1` to `b2` cross, if they do.
pub fn segment_intersection(a1: Coord, a2: Coord, b1: Coord, b2: Coord) -> (crossing: Option<
    Coord,
>)
    ensures
        crossing == crossing_of(a1, a2, b1, b2),
{
    let adx: Double = a2.x.subtract(a1.x);
    let ady: Double = a2.y.subtract(a1.y);
    let bdx: Double = b2.x.subtract(b1.x);
    let bdy: Double = b2.y.subtract(b1.y);
    let denominator: Double = cross_product(adx, ady, bdx, bdy);
    if denominator.equals(Double { bits: 0 }) {
        return None;
    }
    let ex: Double = b1.x.subtract(a1.x);
    let ey: Double = b1.y.subtract(a1.y);
    let t: Double = cross_product(ex, ey, bdx, bdy).divide(denominator);
    let s: Double = ex.multiply(ady).subtract(ey.multiply(adx)).divide(denominator);
    if within_line(t) && within_line(s) {
        Some(Coord { x: a1.x.added_to(t.multiply(adx)), y: a1.y.added_to(t.multiply(ady)) })
    } else {
        None
    }
}

/// How far `p` is from the line from `a` to `b`, and the point of the line that
/// is closest to it.
pub fn point_segment_distance(p: Coord, a: Coord, b: Coord) -> (found: (Double, Coord))
    ensures
        found == (distance_to_line(p, a, b), closest_point(p, a, b)),
{
    let dx: Double = b.x.subtract(a.x);
    let dy: Double = b.y.subtract(a.y);
    let square: Double = dx.multiply(dx).added_to(dy.multiply(dy));
    if square.equals(Double { bits: 0 }) {
        return (p.distance_to(a), a);
    }
    let along: Double = p.x.subtract(a.x).multiply(dx).added_to(p.y.subtract(a.y).multiply(dy));
    let share: Double = along.divide(square);
    let t: Double = if share.less_than(Double { bits: 0 }) {
        Double { bits: 0 }
    } else if (Double { bits: ONE }).less_than(share) {
        Double { bits: ONE }
    } else {
        share
    };
    let closest: Coord = Coord { x: a.x.added_to(t.multiply(dx)), y: a.y.added_to(t.multiply(dy)) };
    (p.distance_to(closest), closest)
}

/// The area of a triangle.
pub fn triangle_area(a: Coord, b: Coord, c: Coord) -> (area: Double)
    ensures
        area == triangle(a, b, c),
{
    let first: Double = b.x.subtract(a.x).multiply(c.y.subtract(a.y));
    let second: Double = c.x.subtract(a.x).multiply(b.y.subtract(a.y));
    first.subtract(second).magnitude_of().divide(Double { bits: TWO })
}

/// The position of the vertex of `coords` closest to `p` among the first
/// `upto`; of several, the first.
pub open spec fn closest_vertex(p: Coord, coords: Seq<Coord>, upto: nat) -> int
    decreases upto,
{
    if upto <= 1 {
        0
    } else {
        let before = closest_vertex(p, coords, (upto - 1) as nat);
        if total_place(distance(coords[upto - 1], p)) < total_place(distance(coords[before], p)) {
            upto - 1
        } else {
            before
        }
    }
}

/// `p`, or the vertex closest to it where the two are not told apart.
pub open spec fn snapped(p: Coord, coords: Seq<Coord>) -> Coord {
    let nearest = coords[closest_vertex(p, coords, coords.len())];
    if coords.len() > 0 && is_less(distance(nearest, p), margin()) {
        nearest
    } else {
        p
    }
}

/// Moves `p` onto the closest of `coords` where the two are not told apart.
pub fn snap_to_nearby_vertex(p: Coord, coords: &Vec<Coord>) -> (place: Coord)
    ensures
        place == snapped(p, coords@),
{
    if coords.len() == 0 {
        return p;
    }
    let mut nearest: usize = 0;
    let mut i: usize = 1;
    while i < coords.len()
        invariant
            1 <= i <= coords@.len(),
            nearest < i,
            nearest == closest_vertex(p, coords@, i as nat),
        decreases coords@.len() - i,
    {
        let here: Double = coords[i].distance_to(p);
        let best: Double = coords[nearest].distance_to(p);
        if here.stands_before(best) {
            nearest = i;
        }
        i = i + 1;
    }
    if coords[nearest].distance_to(p).less_than(Double { bits: SPLIT_SNAP_MARGIN_METERS }) {
        coords[nearest]
    } else {
        p
    }
}

} // verus!
