//! Where the traffic of a zone stops.

use crate::chains::add_points;
use crate::detector::{DetectorGate, DetectorView, E3Detector, GateView};
use crate::double::{is_negative, zero, Double};
use crate::drawing::{unknown_gate, UnknownLane};
use crate::hypotenuse::hypotenuse;
use crate::lane_table::{lane_called, LaneTable};
use crate::measure::{larger, total_place};
use crate::network::{Lane, Point};
use crate::plane::Coord;
use crate::polygons::{
    distance_to_polygon, edge_count, nearest_boundary, nearest_edge, nearest_ring,
};
use crate::ring::{least, lemma_least};
use crate::shape::{
    centroid, distance_from_start, mean_point, metres_from_start, place_along, point_and_tangent_at,
};
use crate::splitting::{polygon_views, Polygon, PolygonView};
use vstd::prelude::*;

verus! {

/// Where traffic stops at an exit on this lane: in the middle of the pavement
/// where pedestrians wait, and otherwise at the exit's place along the lane.
pub open spec fn stop_point(pedestrian: bool, exit: GateView, lane: Lane) -> Point {
    if pedestrian {
        mean_point(lane.shape@)
    } else {
        place_along(
            lane.shape@,
            0,
            zero(),
            larger(metres_from_start(exit.position, lane.length), zero()),
        ).0
    }
}

/// Where traffic stops at each exit of a zone.
pub open spec fn stop_points(zone: DetectorView, lanes: Seq<Lane>) -> Seq<Point> {
    Seq::new(
        zone.exits.len(),
        |i: int|
            stop_point(
                zone.detect_persons.len() > 0,
                zone.exits[i],
                lane_called(lanes, zone.exits[i].lane)->0,
            ),
    )
}

/// Where traffic stops at each exit of a zone. It fails where an exit is on a
/// lane that the network does not have.
pub fn stop_line_points(zone: &E3Detector, lanes: &LaneTable) -> (points: Result<
    Vec<Point>,
    UnknownLane,
>)
    ensures
        match points {
            Ok(list) => unknown_gate(zone@.exits, lanes@) is None && list@ == stop_points(
                zone@,
                lanes@,
            ),
            Err(e) => e.zone@ == zone.id@ && match unknown_gate(zone@.exits, lanes@) {
                Some(i) => e.lane@ == zone@.exits[i as int].lane,
                None => false,
            },
        },
{
    let pedestrian: bool = zone.detect_persons.len() > 0;
    let ghost exits = zone@.exits;
    let ghost unknown = |i: int| lane_called(lanes@, exits[i].lane) is None;
    let mut points: Vec<Point> = Vec::new();
    let mut i: usize = 0;
    while i < zone.exits.len()
        invariant
            i <= zone.exits@.len(),
            exits == zone@.exits,
            exits.len() == zone.exits@.len(),
            pedestrian == (zone@.detect_persons.len() > 0),
            unknown == (|i: int| lane_called(lanes@, exits[i].lane) is None),
            least(i as nat, unknown) is None,
            points@ == stop_points(zone@, lanes@).take(i as int),
        decreases zone.exits@.len() - i,
    {
        let exit: &DetectorGate = &zone.exits[i];
        assert(exits[i as int] == exit@);
        match lanes.get(exit.lane.as_str()) {
            Some(lane) => {
                assert(!unknown(i as int));
                let point: Point = if pedestrian {
                    centroid(&lane.shape)
                } else {
                    let distance: Double = distance_from_start(exit.position, lane.length);
                    let (point, _) = point_and_tangent_at(&lane.shape, distance);
                    point
                };
                points.push(point);
                assert(points@ =~= stop_points(zone@, lanes@).take(i + 1));
            },
            None => {
                proof {
                    assert(unknown(i as int));
                    lemma_least(exits.len(), unknown, i as nat);
                }
                return Err(UnknownLane { zone: zone.id.clone(), lane: exit.lane.clone() });
            },
        }
        i = i + 1;
    }
    assert(stop_points(zone@, lanes@).take(exits.len() as int) =~= stop_points(zone@, lanes@));
    Ok(points)
}

/// The middle of where traffic stops at the exits of a zone.
pub fn stop_line_point(zone: &E3Detector, lanes: &LaneTable) -> (point: Result<Point, UnknownLane>)
    ensures
        match point {
            Ok(p) => unknown_gate(zone@.exits, lanes@) is None && p == mean_point(
                stop_points(zone@, lanes@),
            ),
            Err(e) => e.zone@ == zone.id@ && match unknown_gate(zone@.exits, lanes@) {
                Some(i) => e.lane@ == zone@.exits[i as int].lane,
                None => false,
            },
        },
{
    match stop_line_points(zone, lanes) {
        Ok(points) => Ok(centroid(&points)),
        Err(e) => Err(e),
    }
}

/// The points that a zone's stop line may be published at: the middle of its
/// stop points first, and then each of them.
pub open spec fn candidates_of(points: Seq<Point>) -> Seq<Point> {
    seq![mean_point(points)] + points
}

/// The points that a zone's stop line may be published at.
pub fn stop_line_candidates(points: &Vec<Point>) -> (candidates: Vec<Point>)
    ensures
        candidates@ == candidates_of(points@),
{
    let mut candidates: Vec<Point> = Vec::new();
    candidates.push(centroid(points));
    add_points(&mut candidates, points);
    assert(candidates@ =~= candidates_of(points@));
    candidates
}

/// The points that the stop line of `zone` may be published at. It fails where
/// an exit of the zone is on a lane that the network does not have.
pub fn zone_stop_line_candidates(zone: &E3Detector, lanes: &LaneTable) -> (candidates: Result<
    Vec<Point>,
    UnknownLane,
>)
    ensures
        match candidates {
            Ok(c) => unknown_gate(zone@.exits, lanes@) is None && c@ == candidates_of(
                stop_points(zone@, lanes@),
            ),
            Err(e) => e.zone@ == zone.id@ && match unknown_gate(zone@.exits, lanes@) {
                Some(i) => e.lane@ == zone@.exits[i as int].lane,
                None => false,
            },
        },
{
    match stop_line_points(zone, lanes) {
        Ok(points) => Ok(stop_line_candidates(&points)),
        Err(e) => Err(e),
    }
}

/// How far candidate `i` is from the parts of a zone, which hold it or not.
pub open spec fn candidate_distance(
    candidates: Seq<Point>,
    parts: Seq<PolygonView>,
    held: Seq<bool>,
    i: int,
) -> Double {
    if held[i] {
        zero()
    } else {
        nearest_boundary(Coord { x: candidates[i].x, y: candidates[i].y }, parts, parts.len())
    }
}

/// The one of the first `upto` candidates that is nearest to a zone; of
/// several, the first.
pub open spec fn nearest_candidate(
    candidates: Seq<Point>,
    parts: Seq<PolygonView>,
    held: Seq<bool>,
    upto: nat,
) -> int
    decreases upto,
{
    if upto <= 1 {
        0
    } else {
        let found = nearest_candidate(candidates, parts, held, (upto - 1) as nat);
        if total_place(candidate_distance(candidates, parts, held, upto - 1)) < total_place(
            candidate_distance(candidates, parts, held, found),
        ) {
            upto - 1
        } else {
            found
        }
    }
}

/// The stop line to publish for a zone: the candidate nearest to what is drawn
/// for it. The middle of the stop points comes first and wins every tie, but
/// where lanes end apart from each other it may lie on neither.
pub fn published_stop_line(
    candidates: &Vec<Point>,
    parts: &Vec<Polygon>,
    held: &Vec<bool>,
) -> (point: Point)
    requires
        candidates@.len() > 0,
        held@.len() == candidates@.len(),
    ensures
        point == candidates@[nearest_candidate(
            candidates@,
            polygon_views(parts@),
            held@,
            candidates@.len(),
        )],
{
    let ghost views = polygon_views(parts@);
    let mut found: usize = 0;
    let mut least_distance: Double = distance_to_polygon(
        Coord { x: candidates[0].x, y: candidates[0].y },
        parts,
        held[0],
    );
    let mut i: usize = 1;
    while i < candidates.len()
        invariant
            1 <= i <= candidates@.len(),
            held@.len() == candidates@.len(),
            views == polygon_views(parts@),
            found < i,
            found == nearest_candidate(candidates@, views, held@, i as nat),
            least_distance == candidate_distance(candidates@, views, held@, found as int),
        decreases candidates@.len() - i,
    {
        let candidate: Coord = Coord { x: candidates[i].x, y: candidates[i].y };
        let distance: Double = distance_to_polygon(candidate, parts, held[i]);
        if distance.stands_before(least_distance) {
            found = i;
            least_distance = distance;
        }
        i = i + 1;
    }
    candidates[found]
}

proof fn lemma_nearest_candidate(
    candidates: Seq<Point>,
    parts: Seq<PolygonView>,
    held: Seq<bool>,
    upto: nat,
)
    requires
        0 < upto,
    ensures
        0 <= nearest_candidate(candidates, parts, held, upto) < upto,
        forall|i: int|
            0 <= i < upto ==> total_place(
                candidate_distance(
                    candidates,
                    parts,
                    held,
                    nearest_candidate(candidates, parts, held, upto),
                ),
            ) <= total_place(#[trigger] candidate_distance(candidates, parts, held, i)),
        held[0] && (forall|i: int|
            0 <= i < upto ==> 0 <= total_place(
                #[trigger] candidate_distance(candidates, parts, held, i),
            )) ==> nearest_candidate(candidates, parts, held, upto) == 0,
    decreases upto,
{
    if upto > 1 {
        lemma_nearest_candidate(candidates, parts, held, (upto - 1) as nat);
    }
}

/// The published stop line is one of the candidates, and none of the others
/// lies nearer to the zone.
pub proof fn the_published_stop_line_is_nearest(
    candidates: Seq<Point>,
    parts: Seq<PolygonView>,
    held: Seq<bool>,
)
    requires
        candidates.len() > 0,
    ensures
        0 <= nearest_candidate(candidates, parts, held, candidates.len()) < candidates.len(),
        forall|i: int|
            0 <= i < candidates.len() ==> total_place(
                candidate_distance(
                    candidates,
                    parts,
                    held,
                    nearest_candidate(candidates, parts, held, candidates.len()),
                ),
            ) <= total_place(#[trigger] candidate_distance(candidates, parts, held, i)),
{
    lemma_nearest_candidate(candidates, parts, held, candidates.len());
}

proof fn lemma_no_edge_below_zero(point: Coord, ring: Seq<Coord>, count: nat, start: Double)
    requires
        !is_negative(start),
    ensures
        !is_negative(nearest_edge(point, ring, count, start)),
    decreases count,
{
    reveal(hypotenuse);
    if count > 0 {
        lemma_no_edge_below_zero(point, ring, (count - 1) as nat, start);
    }
}

proof fn lemma_no_ring_below_zero(point: Coord, rings: Seq<Seq<Coord>>, count: nat, start: Double)
    requires
        !is_negative(start),
    ensures
        !is_negative(nearest_ring(point, rings, count, start)),
    decreases count,
{
    if count > 0 {
        lemma_no_ring_below_zero(point, rings, (count - 1) as nat, start);
        lemma_no_edge_below_zero(
            point,
            rings[count - 1],
            edge_count(rings[count - 1]),
            nearest_ring(point, rings, (count - 1) as nat, start),
        );
    }
}

proof fn lemma_no_boundary_below_zero(point: Coord, parts: Seq<PolygonView>, count: nat)
    ensures
        !is_negative(nearest_boundary(point, parts, count)),
    decreases count,
{
    if count > 0 {
        let part = parts[count - 1];
        let before = nearest_boundary(point, parts, (count - 1) as nat);
        lemma_no_boundary_below_zero(point, parts, (count - 1) as nat);
        lemma_no_edge_below_zero(point, part.exterior, edge_count(part.exterior), before);
        lemma_no_ring_below_zero(
            point,
            part.interiors,
            part.interiors.len(),
            nearest_edge(point, part.exterior, edge_count(part.exterior), before),
        );
    }
}

/// The middle of the stop points is published wherever it lies on the zone.
pub proof fn a_middle_on_the_zone_is_published(
    candidates: Seq<Point>,
    parts: Seq<PolygonView>,
    held: Seq<bool>,
)
    requires
        candidates.len() > 0,
        held.len() == candidates.len(),
        held[0],
    ensures
        nearest_candidate(candidates, parts, held, candidates.len()) == 0,
{
    assert forall|i: int| 0 <= i < candidates.len() implies 0 <= total_place(
        #[trigger] candidate_distance(candidates, parts, held, i),
    ) by {
        lemma_no_boundary_below_zero(
            Coord { x: candidates[i].x, y: candidates[i].y },
            parts,
            parts.len(),
        );
    }
    lemma_nearest_candidate(candidates, parts, held, candidates.len());
}

} // verus!
