//! The parts of a zone's polygon: how they are made, which of them are kept,
//! and how far a point is from them.

use crate::double::{is_less, zero, Double};
use crate::measure::{smaller, total_place};
use crate::network::Point;
use crate::plane::{distance_to_line, point_segment_distance, same_place, Coord};
use crate::ring::{copy_coords, least, lemma_least};
use crate::rounding::INFINITY_BITS;
use crate::splitting::{polygon_views, ring_views, solid, Polygon, PolygonView};
use vstd::prelude::*;

verus! {

/// The area, by bit pattern, up to which a part is no ground anyone could
/// stand on: 0.05 square metres.
pub const MIN_KEPT_PART_AREA_M2: u64 = 0x3fa9_9999_9999_999a;

/// A ring with its first point repeated at its end, unless it already is.
pub open spec fn closed_up(points: Seq<Coord>) -> Seq<Coord> {
    if points.len() > 0 && !same_place(points[0], points.last()) {
        points.push(points[0])
    } else {
        points
    }
}

/// Closes a ring, unless it is closed.
pub fn close_ring(points: &Vec<Coord>) -> (ring: Vec<Coord>)
    ensures
        ring@ == closed_up(points@),
{
    let mut ring: Vec<Coord> = copy_coords(points);
    if ring.len() > 0 && !ring[0].coincides(ring[ring.len() - 1]) {
        ring.push(ring[0]);
    }
    ring
}

/// The polygon of a list of contours: the first is its ring, the others are
/// its holes.
pub open spec fn polygon_of_contours(contours: Seq<Seq<Coord>>) -> PolygonView {
    PolygonView {
        exterior: closed_up(contours[0]),
        interiors: contours.skip(1).map_values(|c: Seq<Coord>| closed_up(c)),
    }
}

/// The polygons of lists of contours; an empty list makes none.
pub open spec fn polygons_of_shapes(shapes: Seq<Seq<Seq<Coord>>>) -> Seq<PolygonView>
    decreases shapes.len(),
{
    if shapes.len() == 0 {
        Seq::empty()
    } else {
        let rest = polygons_of_shapes(shapes.drop_last());
        if shapes.last().len() == 0 {
            rest
        } else {
            rest.push(polygon_of_contours(shapes.last()))
        }
    }
}

/// What a list of lists of rings says.
pub open spec fn shape_views(shapes: Seq<Vec<Vec<Coord>>>) -> Seq<Seq<Seq<Coord>>> {
    Seq::new(shapes.len(), |i: int| ring_views(shapes[i]@))
}

/// Makes polygons of the contours that a stroke comes in.
pub fn shapes_to_multipolygon(shapes: &Vec<Vec<Vec<Coord>>>) -> (parts: Vec<Polygon>)
    ensures
        polygon_views(parts@) == polygons_of_shapes(shape_views(shapes@)),
{
    let ghost views = shape_views(shapes@);
    let mut parts: Vec<Polygon> = Vec::new();
    assert(views.take(0) =~= Seq::empty());
    assert(polygon_views(parts@) =~= Seq::empty());
    let mut i: usize = 0;
    while i < shapes.len()
        invariant
            i <= shapes@.len(),
            views == shape_views(shapes@),
            polygon_views(parts@) == polygons_of_shapes(views.take(i as int)),
        decreases shapes@.len() - i,
    {
        let contours: &Vec<Vec<Coord>> = &shapes[i];
        let ghost rings = ring_views(contours@);
        assert(views.take(i + 1).drop_last() =~= views.take(i as int));
        assert(views.take(i + 1).last() == rings);
        if contours.len() > 0 {
            let exterior: Vec<Coord> = close_ring(&contours[0]);
            let mut interiors: Vec<Vec<Coord>> = Vec::new();
            let mut k: usize = 1;
            while k < contours.len()
                invariant
                    1 <= k <= contours@.len(),
                    interiors@.len() == k - 1,
                    forall|j: int|
                        0 <= j < k - 1 ==> (#[trigger] interiors@[j])@ == closed_up(
                            contours@[j + 1]@,
                        ),
                decreases contours@.len() - k,
            {
                interiors.push(close_ring(&contours[k]));
                k = k + 1;
            }
            let part: Polygon = Polygon { exterior, interiors };
            assert(part@.interiors =~= rings.skip(1).map_values(|c: Seq<Coord>| closed_up(c)));
            assert(part@ =~= polygon_of_contours(rings));
            let ghost listed = polygon_views(parts@);
            let ghost added = part@;
            parts.push(part);
            assert(polygon_views(parts@) =~= listed.push(added));
        }
        i = i + 1;
    }
    assert(views.take(views.len() as int) =~= views);
    parts
}

/// The points of a shape, seen from above.
pub open spec fn ground_plan(points: Seq<Point>) -> Seq<Coord> {
    points.map_values(|p: Point| Coord { x: p.x, y: p.y })
}

/// The outline of a walkingarea as a ring, where it has the three points that
/// a ring takes.
pub fn pedestrian_outline(shape: &Vec<Point>) -> (ring: Option<Vec<Coord>>)
    ensures
        match ring {
            Some(r) => shape@.len() >= 3 && r@ == closed_up(ground_plan(shape@)),
            None => shape@.len() < 3,
        },
{
    if shape.len() < 3 {
        return None;
    }
    let ghost plan = ground_plan(shape@);
    let mut coords: Vec<Coord> = Vec::new();
    let mut i: usize = 0;
    while i < shape.len()
        invariant
            i <= shape@.len(),
            plan == ground_plan(shape@),
            coords@ == plan.take(i as int),
        decreases shape@.len() - i,
    {
        coords.push(Coord { x: shape[i].x, y: shape[i].y });
        assert(coords@ =~= plan.take(i + 1));
        i = i + 1;
    }
    assert(plan.take(plan.len() as int) =~= plan);
    Some(close_ring(&coords))
}

/// Removes the holes of every part: lanes drawn side by side have none, so
/// those that come up are slips of the drawing.
pub fn drop_interior_rings(parts: Vec<Polygon>) -> (whole: Vec<Polygon>)
    ensures
        polygon_views(whole@) == polygon_views(parts@).map_values(
            |part: PolygonView| solid(part.exterior),
        ),
{
    let ghost views = polygon_views(parts@);
    let mut whole: Vec<Polygon> = parts;
    let mut i: usize = 0;
    while i < whole.len()
        invariant
            i <= whole@.len(),
            whole@.len() == views.len(),
            forall|k: int| 0 <= k < i ==> (#[trigger] whole@[k])@ == solid(views[k].exterior),
            forall|k: int| i <= k < whole@.len() ==> (#[trigger] whole@[k])@ == views[k],
        decreases whole@.len() - i,
    {
        assert(whole@[i as int]@ == views[i as int]);
        whole[i].interiors = Vec::new();
        assert(whole@[i as int]@ =~= solid(views[i as int].exterior));
        i = i + 1;
    }
    assert(polygon_views(whole@) =~= views.map_values(|part: PolygonView| solid(part.exterior)));
    whole
}

/// Whether a part of this area is large enough to keep.
pub open spec fn is_worth_keeping(area: Double) -> bool {
    is_less(Double { bits: MIN_KEPT_PART_AREA_M2 }, area)
}

/// Those of the first `upto` parts that are large enough to keep.
pub open spec fn parts_worth_keeping(parts: Seq<PolygonView>, areas: Seq<Double>, upto: nat) -> Seq<
    PolygonView,
>
    decreases upto,
{
    if upto == 0 {
        Seq::empty()
    } else {
        let kept = parts_worth_keeping(parts, areas, (upto - 1) as nat);
        if is_worth_keeping(areas[upto - 1]) {
            kept.push(parts[upto - 1])
        } else {
            kept
        }
    }
}

/// Drops the parts, of these areas, that are too small to be ground anyone
/// could stand on.
pub fn drop_slivers(parts: Vec<Polygon>, areas: &Vec<Double>) -> (kept: Vec<Polygon>)
    requires
        areas@.len() == parts@.len(),
    ensures
        polygon_views(kept@) == parts_worth_keeping(
            polygon_views(parts@),
            areas@,
            parts@.len(),
        ),
{
    let ghost views = polygon_views(parts@);
    let mut rest: Vec<Polygon> = parts;
    let mut kept: Vec<Polygon> = Vec::new();
    assert(polygon_views(kept@) =~= Seq::empty());
    let mut i: usize = 0;
    while i < areas.len()
        invariant
            i <= areas@.len(),
            areas@.len() == views.len(),
            polygon_views(rest@) == views.skip(i as int),
            polygon_views(kept@) == parts_worth_keeping(views, areas@, i as nat),
        decreases areas@.len() - i,
    {
        let ghost held = polygon_views(rest@);
        assert(held.len() == rest@.len());
        let part: Polygon = rest.remove(0);
        assert(part@ == views.skip(i as int)[0]);
        assert(polygon_views(rest@) =~= held.skip(1));
        assert(held.skip(1) =~= views.skip(i + 1));
        if (Double { bits: MIN_KEPT_PART_AREA_M2 }).less_than(areas[i]) {
            let ghost listed = polygon_views(kept@);
            let ghost added = part@;
            kept.push(part);
            assert(polygon_views(kept@) =~= listed.push(added));
        }
        i = i + 1;
    }
    kept
}

/// The largest of the first `upto` areas; of several, the last.
pub open spec fn largest(areas: Seq<Double>, upto: nat) -> int
    decreases upto,
{
    if upto <= 1 {
        0
    } else {
        let found = largest(areas, (upto - 1) as nat);
        if total_place(areas[upto - 1]) < total_place(areas[found]) {
            found
        } else {
            upto - 1
        }
    }
}

/// The part to keep of several: the first that holds the stop line, or else
/// the largest.
pub open spec fn part_to_keep(holds_stop_line: Seq<bool>, areas: Seq<Double>) -> int {
    match least(holds_stop_line.len(), |i: int| holds_stop_line[i]) {
        Some(i) => i as int,
        None => largest(areas, areas.len()),
    }
}

/// Keeps one part of several: the first that holds the stop line, or else the
/// largest. A scrap may lie closer to the stop line than the ground that is
/// left, so distance is not asked.
pub fn keep_part_near(
    parts: Vec<Polygon>,
    holds_stop_line: &Vec<bool>,
    areas: &Vec<Double>,
) -> (kept: Vec<Polygon>)
    requires
        holds_stop_line@.len() == parts@.len(),
        areas@.len() == parts@.len(),
    ensures
        polygon_views(kept@) == if parts@.len() <= 1 {
            polygon_views(parts@)
        } else {
            seq![polygon_views(parts@)[part_to_keep(holds_stop_line@, areas@)]]
        },
{
    let mut parts: Vec<Polygon> = parts;
    let n: usize = parts.len();
    if n <= 1 {
        return parts;
    }
    let ghost views = polygon_views(parts@);
    let ghost holds = |i: int| holds_stop_line@[i];
    let mut found: usize = n;
    let mut i: usize = 0;
    while i < n
        invariant_except_break
            found == n,
            least(i as nat, holds) is None,
        invariant
            i <= n,
            n == holds_stop_line@.len(),
            holds == (|i: int| holds_stop_line@[i]),
        ensures
            found < n ==> least(n as nat, holds) == Some(found as nat),
            found >= n ==> least(n as nat, holds) is None,
        decreases n - i,
    {
        if holds_stop_line[i] {
            proof {
                assert(holds(i as int));
                lemma_least(n as nat, holds, i as nat);
            }
            found = i;
            break;
        }
        assert(!holds(i as int));
        i = i + 1;
    }
    if found >= n {
        found = 0;
        let mut k: usize = 1;
        while k < n
            invariant
                1 <= k <= n,
                n == areas@.len(),
                found < k,
                found == largest(areas@, k as nat),
            decreases n - k,
        {
            if !areas[k].stands_before(areas[found]) {
                found = k;
            }
            k = k + 1;
        }
    }
    assert(found == part_to_keep(holds_stop_line@, areas@));
    let part: Polygon = parts.remove(found);
    let mut kept: Vec<Polygon> = Vec::new();
    kept.push(part);
    assert(polygon_views(kept@) =~= seq![views[found as int]]);
    kept
}

/// The smallest of `least_so_far` and the distances of `point` from the first
/// `count` edges of a closed ring.
pub open spec fn nearest_edge(
    point: Coord,
    ring: Seq<Coord>,
    count: nat,
    least_so_far: Double,
) -> Double
    decreases count,
{
    if count == 0 {
        least_so_far
    } else {
        smaller(
            nearest_edge(point, ring, (count - 1) as nat, least_so_far),
            distance_to_line(point, ring[count - 1], ring[count as int]),
        )
    }
}

/// How many edges a closed ring has.
pub open spec fn edge_count(ring: Seq<Coord>) -> nat {
    if ring.len() == 0 {
        0
    } else {
        (ring.len() - 1) as nat
    }
}

/// The smallest of `least_so_far` and the distances of `point` from the first
/// `count` rings.
pub open spec fn nearest_ring(
    point: Coord,
    rings: Seq<Seq<Coord>>,
    count: nat,
    least_so_far: Double,
) -> Double
    decreases count,
{
    if count == 0 {
        least_so_far
    } else {
        nearest_edge(
            point,
            rings[count - 1],
            edge_count(rings[count - 1]),
            nearest_ring(point, rings, (count - 1) as nat, least_so_far),
        )
    }
}

/// How far `point` is from the boundaries of the first `count` parts;
/// infinitely far where they have none.
pub open spec fn nearest_boundary(point: Coord, parts: Seq<PolygonView>, count: nat) -> Double
    decreases count,
{
    if count == 0 {
        Double { bits: INFINITY_BITS }
    } else {
        let part = parts[count - 1];
        nearest_ring(
            point,
            part.interiors,
            part.interiors.len(),
            nearest_edge(
                point,
                part.exterior,
                edge_count(part.exterior),
                nearest_boundary(point, parts, (count - 1) as nat),
            ),
        )
    }
}

fn nearer_edge(point: Coord, ring: &Vec<Coord>, least_so_far: Double) -> (apart: Double)
    ensures
        apart == nearest_edge(point, ring@, edge_count(ring@), least_so_far),
{
    let mut apart: Double = least_so_far;
    if ring.len() == 0 {
        return apart;
    }
    let last: usize = ring.len() - 1;
    let mut i: usize = 0;
    while i < last
        invariant
            i <= last,
            last + 1 == ring@.len(),
            apart == nearest_edge(point, ring@, i as nat, least_so_far),
        decreases last - i,
    {
        let (distance, _) = point_segment_distance(point, ring[i], ring[i + 1]);
        apart = apart.or_smaller(distance);
        i = i + 1;
    }
    apart
}

/// How far a point is from parts that hold it, or not: nothing where they do,
/// or else the distance from their boundary.
pub fn distance_to_polygon(point: Coord, parts: &Vec<Polygon>, held: bool) -> (apart: Double)
    ensures
        apart == if held {
            zero()
        } else {
            nearest_boundary(point, polygon_views(parts@), parts@.len())
        },
{
    if held {
        return Double { bits: 0 };
    }
    let mut apart: Double = Double { bits: INFINITY_BITS };
    let mut i: usize = 0;
    while i < parts.len()
        invariant
            i <= parts@.len(),
            apart == nearest_boundary(point, polygon_views(parts@), i as nat),
        decreases parts@.len() - i,
    {
        let part: &Polygon = &parts[i];
        assert(part@ == polygon_views(parts@)[i as int]);
        apart = nearer_edge(point, &part.exterior, apart);
        let ghost outside = apart;
        let mut k: usize = 0;
        while k < part.interiors.len()
            invariant
                k <= part.interiors@.len(),
                apart == nearest_ring(point, part@.interiors, k as nat, outside),
            decreases part.interiors@.len() - k,
        {
            apart = nearer_edge(point, &part.interiors[k], apart);
            k = k + 1;
        }
        i = i + 1;
    }
    apart
}

/// A copy of a polygon.
pub fn copy_polygon(part: &Polygon) -> (copy: Polygon)
    ensures
        copy@ == part@,
{
    let mut interiors: Vec<Vec<Coord>> = Vec::new();
    let mut i: usize = 0;
    while i < part.interiors.len()
        invariant
            i <= part.interiors@.len(),
            interiors@.len() == i,
            forall|k: int| 0 <= k < i ==> (#[trigger] interiors@[k])@ == part.interiors@[k]@,
        decreases part.interiors@.len() - i,
    {
        interiors.push(copy_coords(&part.interiors[i]));
        i = i + 1;
    }
    assert(ring_views(interiors@) =~= ring_views(part.interiors@));
    Polygon { exterior: copy_coords(&part.exterior), interiors }
}

/// A copy of a list of polygons.
pub fn copy_polygons(parts: &Vec<Polygon>) -> (copy: Vec<Polygon>)
    ensures
        polygon_views(copy@) == polygon_views(parts@),
{
    let mut copy: Vec<Polygon> = Vec::new();
    let mut i: usize = 0;
    while i < parts.len()
        invariant
            i <= parts@.len(),
            copy@.len() == i,
            forall|k: int| 0 <= k < i ==> (#[trigger] copy@[k])@ == parts@[k]@,
        decreases parts@.len() - i,
    {
        copy.push(copy_polygon(&parts[i]));
        i = i + 1;
    }
    assert(polygon_views(copy@) =~= polygon_views(parts@));
    copy
}

} // verus!
