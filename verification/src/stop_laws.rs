//! What holds of the points where traffic stops.

use crate::detector::{DetectorView, LanePosition};
use crate::double::{is_at_most, is_less, is_nan, minus, zero, Double};
use crate::lane_table::lane_called;
use crate::network::{Lane, Point};
use crate::shape::{
    distance_between, length_of_segments, place_along, point_between, segment_count,
};
use crate::shape_laws::{lemma_travelled_grows, share_of_segment};
use crate::stop_lines::stop_points;
use vstd::prelude::*;

verus! {

/// Whether every segment of a polyline has a length.
pub open spec fn has_no_empty_segment(points: Seq<Point>) -> bool {
    forall|i: int|
        0 <= i < points.len() - 1 ==> is_less(
            zero(),
            distance_between(#[trigger] points[i], points[i + 1]),
        )
}

/// Whether segment `k` of a polyline is the one that `metres` along the line
/// lie on: the segments before it are too short, and it is not.
pub open spec fn lies_on(points: Seq<Point>, k: nat, metres: Double) -> bool {
    &&& k < segment_count(points)
    &&& k > 0 ==> is_less(length_of_segments(points, k), metres)
    &&& is_at_most(metres, length_of_segments(points, k + 1))
}

/// Whether `point` lies `metres` along a polyline: on the segment that so many
/// metres lead to, as great a share of the way along it as there are metres
/// left; and at the end of the line where it is shorter.
pub open spec fn lies_along(points: Seq<Point>, metres: Double, point: Point) -> bool {
    &&& is_less(length_of_segments(points, segment_count(points)), metres) ==> point
        == points.last()
    &&& forall|k: nat| #[trigger]
        lies_on(points, k, metres) ==> point == point_between(
            points[k as int],
            points[(k + 1) as int],
            share_of_segment(points, k, metres),
        )
}

proof fn lemma_place_beyond(points: Seq<Point>, i: nat, metres: Double)
    requires
        i < points.len(),
        has_no_empty_segment(points),
        is_less(length_of_segments(points, segment_count(points)), metres),
    ensures
        place_along(points, i, length_of_segments(points, i), metres).0 == points.last(),
    decreases points.len() - i,
{
    if i + 1 < points.len() {
        assert(is_less(zero(), distance_between(points[i as int], points[(i + 1) as int])));
        lemma_travelled_grows(points, i + 1, segment_count(points));
        lemma_place_beyond(points, i + 1, metres);
    }
}

proof fn lemma_place_on(points: Seq<Point>, i: nat, k: nat, metres: Double)
    requires
        i <= k,
        has_no_empty_segment(points),
        lies_on(points, k, metres),
    ensures
        place_along(points, i, length_of_segments(points, i), metres).0 == point_between(
            points[k as int],
            points[(k + 1) as int],
            share_of_segment(points, k, metres),
        ),
    decreases k - i,
{
    assert(is_less(zero(), distance_between(points[i as int], points[(i + 1) as int])));
    if i < k {
        lemma_travelled_grows(points, i + 1, k);
        lemma_place_on(points, i + 1, k, metres);
    }
}

/// How far along a lane of this length a position lies; what is before its
/// start, or no number, counts as its start.
pub open spec fn metres_along(position: LanePosition, length: Double) -> Double {
    let metres = match position {
        LanePosition::FromStart(metres) => metres,
        LanePosition::FromEnd(metres) => minus(length, metres),
    };
    if is_nan(metres) || is_less(metres, zero()) {
        zero()
    } else {
        metres
    }
}

/// Vehicles stop at the exit: the stop point of each exit of a zone that
/// detects no persons lies as many metres along the shape of the exit's lane
/// as the exit does, however many points the shape has. An exit beyond the
/// end of the shape has its stop point there.
pub proof fn vehicles_stop_where_the_exit_lies(
    zone: DetectorView,
    lanes: Seq<Lane>,
    i: int,
    lane: Lane,
)
    requires
        zone.detect_persons.len() == 0,
        0 <= i < zone.exits.len(),
        lane_called(lanes, zone.exits[i].lane) == Some(lane),
        lane.shape@.len() > 0,
        has_no_empty_segment(lane.shape@),
    ensures
        stop_points(zone, lanes).len() == zone.exits.len(),
        lies_along(
            lane.shape@,
            metres_along(zone.exits[i].position, lane.length),
            stop_points(zone, lanes)[i],
        ),
{
    let points = lane.shape@;
    let metres = metres_along(zone.exits[i].position, lane.length);
    let point = stop_points(zone, lanes)[i];
    assert(point == place_along(points, 0, zero(), metres).0);
    if is_less(length_of_segments(points, segment_count(points)), metres) {
        lemma_place_beyond(points, 0, metres);
    }
    assert forall|k: nat| #[trigger] lies_on(points, k, metres) implies point == point_between(
        points[k as int],
        points[(k + 1) as int],
        share_of_segment(points, k, metres),
    ) by {
        lemma_place_on(points, 0, k, metres);
    }
}

proof fn lemma_place_repeated(points: Seq<Point>, i: nat, k: nat, metres: Double)
    requires
        i <= k,
        is_repeated_at(points, k, metres),
    ensures
        place_along(points, i, length_of_segments(points, i), metres).0 == point_between(
            points[k as int],
            points[(k + 1) as int],
            zero(),
        ),
    decreases k - i,
{
    if i < k {
        assert(is_less(zero(), distance_between(points[i as int], points[i as int + 1])));
        lemma_travelled_grows(points, i + 1, k);
        lemma_place_repeated(points, i + 1, k, metres);
    }
}

/// Whether segment `k` of a polyline is the first without a length, and the
/// segments before it are shorter than `metres`.
pub open spec fn is_repeated_at(points: Seq<Point>, k: nat, metres: Double) -> bool {
    &&& k < segment_count(points)
    &&& forall|i: int|
        0 <= i < k ==> is_less(
            zero(),
            distance_between(#[trigger] points[i], points[i + 1]),
        )
    &&& !is_less(zero(), distance_between(points[k as int], points[k as int + 1]))
    &&& k > 0 ==> is_less(length_of_segments(points, k), metres)
}

/// Where a point of the shape is repeated before the exit is reached, vehicles
/// stop there.
pub proof fn vehicles_stop_at_a_repeated_point(
    zone: DetectorView,
    lanes: Seq<Lane>,
    i: int,
    lane: Lane,
    k: nat,
)
    requires
        zone.detect_persons.len() == 0,
        0 <= i < zone.exits.len(),
        lane_called(lanes, zone.exits[i].lane) == Some(lane),
        is_repeated_at(lane.shape@, k, metres_along(zone.exits[i].position, lane.length)),
    ensures
        stop_points(zone, lanes)[i] == point_between(
            lane.shape@[k as int],
            lane.shape@[k as int + 1],
            zero(),
        ),
{
    let metres = metres_along(zone.exits[i].position, lane.length);
    assert(stop_points(zone, lanes)[i] == place_along(lane.shape@, 0, zero(), metres).0);
    lemma_place_repeated(lane.shape@, 0, k, metres);
}

} // verus!
