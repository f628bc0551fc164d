//! Polylines: their lengths, points along them, and parts of them.

use crate::detector::LanePosition;
use crate::double::{is_at_most, is_less, minus, plus, zero, Double};
use crate::hypotenuse::hypotenuse;
use crate::measure::{larger, of_natural, smaller};
use crate::network::Point;
use crate::product::{over, times};
use vstd::prelude::*;

verus! {

/// One metre, or one of anything, by bit pattern.
pub const ONE: u64 = 0x3ff0_0000_0000_0000;

/// One of anything.
pub open spec fn one() -> Double {
    Double { bits: ONE }
}

/// The point at the origin.
pub open spec fn origin() -> Point {
    Point { x: zero(), y: zero(), z: zero() }
}

/// How far apart two points are in the plane.
pub open spec fn distance_between(a: Point, b: Point) -> Double {
    hypotenuse(minus(b.x, a.x), minus(b.y, a.y))
}

/// The point that lies the share `t` of the way from `a` to `b`.
pub open spec fn point_between(a: Point, b: Point, t: Double) -> Point {
    Point {
        x: plus(a.x, times(minus(b.x, a.x), t)),
        y: plus(a.y, times(minus(b.y, a.y), t)),
        z: plus(a.z, times(minus(b.z, a.z), t)),
    }
}

/// The direction from `a` to `b`, which are `length` apart.
pub open spec fn direction_between(a: Point, b: Point, length: Double) -> (Double, Double) {
    (over(minus(b.x, a.x), length), over(minus(b.y, a.y), length))
}

/// The length of the first `count` segments of a polyline.
pub open spec fn length_of_segments(points: Seq<Point>, count: nat) -> Double
    decreases count,
{
    if count == 0 {
        zero()
    } else {
        plus(
            length_of_segments(points, (count - 1) as nat),
            distance_between(points[count - 1], points[count as int]),
        )
    }
}

/// How many segments a polyline has.
pub open spec fn segment_count(points: Seq<Point>) -> nat {
    if points.len() == 0 {
        0
    } else {
        (points.len() - 1) as nat
    }
}

/// The point at `target` metres along a polyline, and the direction there,
/// where segment `i` begins after `travelled` metres. Beyond the end it is the
/// last point.
pub open spec fn place_along(
    points: Seq<Point>,
    i: nat,
    travelled: Double,
    target: Double,
) -> (Point, (Double, Double))
    decreases points.len() - i,
{
    if i + 1 >= points.len() {
        (
            if points.len() == 0 {
                origin()
            } else {
                points.last()
            },
            (one(), zero()),
        )
    } else {
        let a = points[i as int];
        let b = points[(i + 1) as int];
        let length = distance_between(a, b);
        if is_less(zero(), length) && is_less(plus(travelled, length), target) {
            place_along(points, i + 1, plus(travelled, length), target)
        } else if is_less(zero(), length) {
            (
                point_between(a, b, over(minus(target, travelled), length)),
                direction_between(a, b, length),
            )
        } else {
            (point_between(a, b, zero()), (one(), zero()))
        }
    }
}

/// A piece of a polyline: a straight line and its direction.
#[derive(Clone, Copy, Debug, PartialEq, Eq)]
pub struct Segment {
    pub start: Point,
    pub end: Point,
    pub tangent: (Double, Double),
}

/// What a polyline is led back by where a part of it is to begin before its
/// start: a straight line on from its first segment.
pub open spec fn lead_in(points: Seq<Point>, entry: Double, exit: Double) -> Seq<Segment> {
    let length = distance_between(points[0], points[1]);
    if points.len() >= 2 && is_less(entry, zero()) && is_less(zero(), length) && is_less(
        entry,
        smaller(exit, zero()),
    ) {
        let tangent = direction_between(points[0], points[1], length);
        seq![
            Segment {
                start: point_before(points[0], tangent, entry),
                end: point_before(points[0], tangent, smaller(exit, zero())),
                tangent,
            },
        ]
    } else {
        Seq::empty()
    }
}

/// The point `t` metres on from `first` in a direction.
pub open spec fn point_before(first: Point, tangent: (Double, Double), t: Double) -> Point {
    Point {
        x: plus(first.x, times(tangent.0, t)),
        y: plus(first.y, times(tangent.1, t)),
        z: first.z,
    }
}

/// The parts of the segments from `i` on that lie between `entry` and `exit`
/// metres, where segment `i` begins after `travelled`.
pub open spec fn parts_between(
    points: Seq<Point>,
    i: nat,
    travelled: Double,
    entry: Double,
    exit: Double,
) -> Seq<Segment>
    decreases points.len() - i,
{
    if i + 1 >= points.len() {
        Seq::empty()
    } else {
        let a = points[i as int];
        let b = points[(i + 1) as int];
        let length = distance_between(a, b);
        let end = plus(travelled, length);
        if is_at_most(length, zero()) {
            parts_between(points, i + 1, travelled, entry, exit)
        } else if is_at_most(end, entry) || is_at_most(exit, travelled) {
            parts_between(points, i + 1, end, entry, exit)
        } else {
            let part = Segment {
                start: point_between(
                    a,
                    b,
                    over(minus(larger(entry, travelled), travelled), length),
                ),
                end: point_between(a, b, over(minus(smaller(exit, end), travelled), length)),
                tangent: direction_between(a, b, length),
            };
            if is_at_most(exit, end) {
                seq![part]
            } else {
                seq![part] + parts_between(points, i + 1, end, entry, exit)
            }
        }
    }
}

/// The parts of a polyline between `entry` and `exit` metres.
pub open spec fn segments_between(points: Seq<Point>, entry: Double, exit: Double) -> Seq<Segment> {
    let until = larger(exit, entry);
    lead_in(points, entry, until) + parts_between(points, 0, zero(), entry, until)
}

/// The corners of a chain of segments.
pub open spec fn corners(segments: Seq<Segment>) -> Seq<Point> {
    if segments.len() == 0 {
        Seq::empty()
    } else {
        seq![segments[0].start] + segments.map_values(|s: Segment| s.end)
    }
}

/// Where along a lane of this length a position lies.
pub open spec fn metres_from_start(position: LanePosition, lane_length: Double) -> Double {
    match position {
        LanePosition::FromStart(distance) => distance,
        LanePosition::FromEnd(distance) => minus(lane_length, distance),
    }
}

/// Where an entry has to be moved for a zone to be drawn at least
/// `target_length` long; it may come to lie before the lane's start.
pub open spec fn entry_with_padding(entry: Double, exit: Double, target_length: Double) -> Double {
    let span = minus(exit, entry);
    if is_less(span, target_length) {
        minus(entry, minus(target_length, span))
    } else {
        entry
    }
}

/// The sums of the coordinates of the first `count` points.
pub open spec fn sum_of_points(points: Seq<Point>, count: nat) -> Point
    decreases count,
{
    if count == 0 {
        origin()
    } else {
        let before = sum_of_points(points, (count - 1) as nat);
        let p = points[count - 1];
        Point { x: plus(before.x, p.x), y: plus(before.y, p.y), z: plus(before.z, p.z) }
    }
}

/// The mean of `points`; the origin where there are none.
pub open spec fn mean_point(points: Seq<Point>) -> Point {
    let count = of_natural(
        if points.len() == 0 {
            1
        } else {
            points.len()
        },
    );
    let sum = sum_of_points(points, points.len());
    Point { x: over(sum.x, count), y: over(sum.y, count), z: over(sum.z, count) }
}

fn apart(a: Point, b: Point) -> (length: Double)
    ensures
        length == distance_between(a, b),
{
    b.x.subtract(a.x).hypot(b.y.subtract(a.y))
}

fn between(a: Point, b: Point, t: Double) -> (point: Point)
    ensures
        point == point_between(a, b, t),
{
    Point {
        x: a.x.added_to(b.x.subtract(a.x).multiply(t)),
        y: a.y.added_to(b.y.subtract(a.y).multiply(t)),
        z: a.z.added_to(b.z.subtract(a.z).multiply(t)),
    }
}

fn direction(a: Point, b: Point, length: Double) -> (tangent: (Double, Double))
    ensures
        tangent == direction_between(a, b, length),
{
    (b.x.subtract(a.x).divide(length), b.y.subtract(a.y).divide(length))
}

fn before(first: Point, tangent: (Double, Double), t: Double) -> (point: Point)
    ensures
        point == point_before(first, tangent, t),
{
    Point {
        x: first.x.added_to(tangent.0.multiply(t)),
        y: first.y.added_to(tangent.1.multiply(t)),
        z: first.z,
    }
}

/// How long a polyline is.
pub fn shape_length(points: &Vec<Point>) -> (length: Double)
    ensures
        length == length_of_segments(points@, segment_count(points@)),
{
    let mut length: Double = Double { bits: 0 };
    if points.len() == 0 {
        return length;
    }
    let last: usize = points.len() - 1;
    let mut i: usize = 0;
    while i < last
        invariant
            last + 1 == points@.len(),
            i <= last,
            length == length_of_segments(points@, i as nat),
        decreases points@.len() - i,
    {
        length = length.added_to(apart(points[i], points[i + 1]));
        i = i + 1;
    }
    length
}

/// The point at `distance` metres along a polyline, and the direction there.
pub fn point_and_tangent_at(points: &Vec<Point>, distance: Double) -> (found: (
    Point,
    (Double, Double),
))
    ensures
        found == place_along(points@, 0, zero(), larger(distance, zero())),
{
    let nought: Double = Double { bits: 0 };
    let one: Double = Double { bits: ONE };
    let target: Double = distance.or_larger(nought);
    if points.len() == 0 {
        return (Point { x: nought, y: nought, z: nought }, (one, nought));
    }
    let mut travelled: Double = nought;
    let last: usize = points.len() - 1;
    let mut i: usize = 0;
    while i < last
        invariant
            last + 1 == points@.len(),
            i <= last,
            nought == zero(),
            one == self::one(),
            target == larger(distance, nought),
            place_along(points@, 0, nought, target) == place_along(
                points@,
                i as nat,
                travelled,
                target,
            ),
        decreases points@.len() - i,
    {
        let (a, b) = (points[i], points[i + 1]);
        let length: Double = apart(a, b);
        let some: bool = nought.less_than(length);
        let end: Double = travelled.added_to(length);
        if some && end.less_than(target) {
            travelled = end;
        } else if some {
            let t: Double = target.subtract(travelled).divide(length);
            return (between(a, b, t), direction(a, b, length));
        } else {
            return (between(a, b, nought), (one, nought));
        }
        i = i + 1;
    }
    (points[points.len() - 1], (one, nought))
}

/// The parts of a polyline between `entry` and `exit` metres. Where `entry`
/// is negative the first segment is led on backward to meet it.
pub fn trimmed_segments(points: &Vec<Point>, entry: Double, exit: Double) -> (segments: Vec<
    Segment,
>)
    ensures
        segments@ == segments_between(points@, entry, exit),
{
    let nought: Double = Double { bits: 0 };
    let until: Double = exit.or_larger(entry);
    let mut segments: Vec<Segment> = Vec::new();
    if points.len() < 2 {
        assert(segments@ =~= segments_between(points@, entry, exit));
        return segments;
    }
    let first: Double = apart(points[0], points[1]);
    let extend_to: Double = until.or_smaller(nought);
    if entry.less_than(nought) && nought.less_than(first) && entry.less_than(extend_to) {
        let tangent: (Double, Double) = direction(points[0], points[1], first);
        segments.push(
            Segment {
                start: before(points[0], tangent, entry),
                end: before(points[0], tangent, extend_to),
                tangent,
            },
        );
    }
    let ghost lead = lead_in(points@, entry, until);
    assert(segments@ =~= lead);
    let ghost rest = parts_between(points@, 0, nought, entry, until);
    let mut travelled: Double = nought;
    let last: usize = points.len() - 1;
    let mut i: usize = 0;
    let mut done: bool = false;
    assert(lead + rest =~= segments@ + rest);
    while i < last && !done
        invariant
            last + 1 == points@.len(),
            i <= last,
            nought == zero(),
            !done ==> lead + rest == segments@ + parts_between(
                points@,
                i as nat,
                travelled,
                entry,
                until,
            ),
            done ==> lead + rest == segments@,
        decreases points@.len() - i,
    {
        let (a, b) = (points[i], points[i + 1]);
        let length: Double = apart(a, b);
        let ghost listed = segments@;
        if !length.at_most(nought) {
            let start: Double = travelled;
            let end: Double = start.added_to(length);
            travelled = end;
            if !end.at_most(entry) && !until.at_most(start) {
                let t0: Double = entry.or_larger(start).subtract(start).divide(length);
                let t1: Double = until.or_smaller(end).subtract(start).divide(length);
                let part: Segment = Segment {
                    start: between(a, b, t0),
                    end: between(a, b, t1),
                    tangent: direction(a, b, length),
                };
                segments.push(part);
                if until.at_most(end) {
                    done = true;
                    assert(segments@ =~= listed + seq![part]);
                } else {
                    let ghost next = parts_between(points@, (i + 1) as nat, end, entry, until);
                    assert(listed + (seq![part] + next) =~= segments@ + next);
                }
            }
        }
        i = i + 1;
    }
    proof {
        if !done {
            assert(segments@ + parts_between(points@, i as nat, travelled, entry, until)
                =~= segments@);
        }
    }
    segments
}

/// The corners of the part of a polyline between `entry` and `exit` metres.
pub fn trimmed_path_points(points: &Vec<Point>, entry: Double, exit: Double) -> (path: Vec<Point>)
    ensures
        path@ == corners(segments_between(points@, entry, exit)),
{
    let segments: Vec<Segment> = trimmed_segments(points, entry, exit);
    let mut path: Vec<Point> = Vec::new();
    if segments.len() == 0 {
        assert(path@ =~= Seq::empty());
        return path;
    }
    path.push(segments[0].start);
    let ghost ends = segments@.map_values(|s: Segment| s.end);
    assert(path@ =~= seq![segments@[0].start] + ends.take(0));
    let mut i: usize = 0;
    while i < segments.len()
        invariant
            i <= segments@.len(),
            0 < segments@.len(),
            ends == segments@.map_values(|s: Segment| s.end),
            path@ == seq![segments@[0].start] + ends.take(i as int),
        decreases segments@.len() - i,
    {
        path.push(segments[i].end);
        assert(path@ =~= seq![segments@[0].start] + ends.take(i + 1));
        i = i + 1;
    }
    assert(ends.take(ends.len() as int) =~= ends);
    path
}

/// Where along a lane of this length a position lies.
pub fn distance_from_start(position: LanePosition, lane_length: Double) -> (distance: Double)
    ensures
        distance == metres_from_start(position, lane_length),
{
    match position {
        LanePosition::FromStart(distance) => distance,
        LanePosition::FromEnd(distance) => lane_length.subtract(distance),
    }
}

/// Where the entry of a zone is drawn, for the zone to be drawn at least
/// `target_length` long.
pub fn padded_entry(entry: Double, exit: Double, target_length: Double) -> (padded: Double)
    ensures
        padded == entry_with_padding(entry, exit, target_length),
{
    let span: Double = exit.subtract(entry);
    if span.less_than(target_length) {
        entry.subtract(target_length.subtract(span))
    } else {
        entry
    }
}

/// The mean of `points`.
pub fn centroid(points: &Vec<Point>) -> (mean: Point)
    ensures
        mean == mean_point(points@),
{
    let nought: Double = Double { bits: 0 };
    let mut sum: Point = Point { x: nought, y: nought, z: nought };
    let mut i: usize = 0;
    while i < points.len()
        invariant
            i <= points@.len(),
            sum == sum_of_points(points@, i as nat),
        decreases points@.len() - i,
    {
        let p: Point = points[i];
        sum = Point {
            x: sum.x.added_to(p.x),
            y: sum.y.added_to(p.y),
            z: sum.z.added_to(p.z),
        };
        i = i + 1;
    }
    let count: Double = if points.len() == 0 {
        Double::from_count(1)
    } else {
        Double::from_count(points.len() as u64)
    };
    Point { x: sum.x.divide(count), y: sum.y.divide(count), z: sum.z.divide(count) }
}

} // verus!
