//! What holds of the rings and polygons that a zone is drawn as.

use crate::double::{is_at_most, is_less, is_nan, is_negative, magnitude_bits, plus, Double};
use crate::measure::{smaller, total_place};
use crate::plane::{
    closest_point, closest_vertex, crossing_of, distance, distance_to_line, margin, same_place,
    snapped, triangle, Coord,
};
use crate::polygons::{
    closed_up, edge_count, largest, nearest_boundary, nearest_edge, nearest_ring, part_to_keep,
    polygons_of_shapes,
};
use crate::ring::{
    after, before, closed, corner, grazes, is_near_edge, least, least_is_the_first, near_touch,
    opened, smallest_corner, touched_edge, touches, without_negligible,
};
use crate::splitting::{
    crossed_edge, edge_crossing, first_crossing, split_once, split_part, PolygonView,
};
use crate::cleaning::{first_needle, needle_at, needle_step, RingStepView};


use crate::rounding::INFINITY_BITS;
use vstd::arithmetic::div_mod::lemma_fundamental_div_mod_converse;
use vstd::prelude::*;

verus! {

/// Numbers stand in the order of their size; of the two zeros, the negative one
/// comes first.
pub proof fn numbers_stand_by_their_size(a: Double, b: Double)
    requires
        !is_nan(a),
        !is_nan(b),
    ensures
        total_place(a) < total_place(b) <==> is_less(a, b) || magnitude_bits(a) == 0
            && magnitude_bits(b) == 0 && is_negative(a) && !is_negative(b),
{
}

/// A ring that is opened and closed again is as it was, as long as its first
/// vertex has numbers for coordinates.
pub proof fn opening_undoes_closing(coords: Seq<Coord>)
    requires
        coords.len() > 0,
        !is_nan(coords[0].x),
        !is_nan(coords[0].y),
    ensures
        closed(coords).len() == coords.len() + 1,
        closed(coords).last() == coords[0],
        opened(closed(coords)) == coords,
{
    assert(closed(coords).drop_last() =~= coords);
}

/// A line is closed up by going back to its first place, unless it ends there.
pub proof fn closing_up_goes_back_to_the_start(points: Seq<Coord>)
    ensures
        points.len() == 0 ==> closed_up(points).len() == 0,
        points.len() > 0 && same_place(points[0], points.last()) ==> closed_up(points) == points,
        points.len() > 0 && !same_place(points[0], points.last()) ==> closed_up(points).drop_last()
            == points && closed_up(points).last() == points[0],
{
    if points.len() > 0 && !same_place(points[0], points.last()) {
        assert(closed_up(points).drop_last() =~= points);
    }
}

/// There is one polygon for each shape that has contours, in order: the first
/// contour goes round it, and the others round its holes.
pub proof fn a_shape_is_its_first_contour_without_the_others(
    shapes: Seq<Seq<Seq<Coord>>>,
    shape: Seq<Seq<Coord>>,
)
    ensures
        ({
            let rest = polygons_of_shapes(shapes);
            let all = polygons_of_shapes(shapes.push(shape));
            if shape.len() == 0 {
                all == rest
            } else {
                &&& all.len() == rest.len() + 1
                &&& all.drop_last() == rest
                &&& all.last().exterior == closed_up(shape[0])
                &&& all.last().interiors.len() == shape.len() - 1
                &&& forall|i: int|
                    1 <= i < shape.len() ==> all.last().interiors[i - 1] == closed_up(
                        #[trigger] shape[i],
                    )
            }
        }),
        polygons_of_shapes(Seq::empty()).len() == 0,
{
    assert(shapes.push(shape).drop_last() =~= shapes);
    let rest = polygons_of_shapes(shapes);
    let all = polygons_of_shapes(shapes.push(shape));
    if shape.len() > 0 {
        assert(all.drop_last() =~= rest);
        assert forall|i: int| 1 <= i < shape.len() implies all.last().interiors[i - 1] == closed_up(
            #[trigger] shape[i],
        ) by {
            assert(shape.skip(1)[i - 1] == shape[i]);
        }
    }
}

proof fn lemma_last_largest(areas: Seq<Double>, upto: nat)
    requires
        0 < upto <= areas.len(),
    ensures
        0 <= largest(areas, upto) < upto,
        forall|i: int|
            0 <= i < upto ==> if i > largest(areas, upto) {
                total_place(#[trigger] areas[i]) < total_place(areas[largest(areas, upto)])
            } else {
                total_place(areas[i]) <= total_place(areas[largest(areas, upto)])
            },
    decreases upto,
{
    if upto > 1 {
        lemma_last_largest(areas, (upto - 1) as nat);
    }
}

/// Of several parts, the first that holds the stop line is kept; where none
/// does, the largest, and the last of these if there are several.
pub proof fn one_part_is_kept(holds_stop_line: Seq<bool>, areas: Seq<Double>, k: int)
    requires
        areas.len() > 0,
        holds_stop_line.len() == areas.len(),
        0 <= k < areas.len(),
    ensures
        holds_stop_line[k] && (forall|i: int| 0 <= i < k ==> !#[trigger] holds_stop_line[i])
            ==> part_to_keep(holds_stop_line, areas) == k,
        (forall|i: int| 0 <= i < areas.len() ==> !#[trigger] holds_stop_line[i]) && (forall|i: int|
            0 <= i < areas.len() ==> if i > k {
                total_place(#[trigger] areas[i]) < total_place(areas[k])
            } else {
                total_place(areas[i]) <= total_place(areas[k])
            }) ==> part_to_keep(holds_stop_line, areas) == k,
{
    let holds = |i: int| holds_stop_line[i];
    least_is_the_first(holds_stop_line.len(), holds);
    lemma_last_largest(areas, areas.len());
    match least(holds_stop_line.len(), holds) {
        Some(i) => {
            assert(holds(i as int));
            if holds_stop_line[k] && i < k {
                assert(holds_stop_line[i as int]);
            }
            if k < i {
                assert(!holds(k));
            }
        },
        None => {
            assert(!holds(k));
            let m = largest(areas, areas.len());
            assert(total_place(areas[m]) == total_place(areas[m]));
            assert(total_place(areas[k]) == total_place(areas[k]));
        },
    }
}

/// Whether a vertex belongs to an edge or stands next to one that does, going
/// round a ring of `n`: it is one before the edge, at either of its ends, or one
/// after.
pub proof fn vertices_beside_an_edge_are_near_it(k: int, i: int, n: int)
    requires
        0 <= k < n,
        0 <= i < n,
        n >= 3,
    ensures
        is_near_edge(k, i, n) <==> k == (i - 1) % n || k == i || k == (i + 1) % n || k == (i + 2)
            % n,
{
    lemma_round(i, n);
    lemma_round((i + 1) % n, n);
    if i + 2 < n {
        lemma_fundamental_div_mod_converse(i + 2, n, 0, i + 2);
    } else {
        lemma_fundamental_div_mod_converse(i + 2, n, 1, i + 2 - n);
    }
}

proof fn lemma_round(i: int, n: int)
    requires
        0 <= i < n,
    ensures
        after(i, n) == (i + 1) % n,
        before(i, n) == (i - 1) % n,
        0 <= (i + 1) % n < n,
        0 <= (i - 1) % n < n,
{
    if i + 1 == n {
        lemma_fundamental_div_mod_converse(i + 1, n, 1, 0);
    } else {
        lemma_fundamental_div_mod_converse(i + 1, n, 0, i + 1);
    }
    if i == 0 {
        lemma_fundamental_div_mod_converse(i - 1, n, -1, n - 1);
    } else {
        lemma_fundamental_div_mod_converse(i - 1, n, 0, i - 1);
    }
}

/// A vertex touches an edge that it does not stand beside where it is nearer to
/// it than the margin; it grazes where it is that near to the edge that ends
/// just before the one into it, or to the one that begins just after the one
/// out of it.
pub proof fn vertices_touch_and_graze_within_the_margin(coords: Seq<Coord>, k: int, i: int)
    requires
        0 <= k < coords.len(),
        0 <= i < coords.len(),
        coords.len() >= 3,
    ensures
        ({
            let n = coords.len() as int;
            &&& touches(coords, k, i) <==> !is_near_edge(k, i, n) && is_less(
                distance_to_line(coords[k], coords[i], coords[(i + 1) % n]),
                margin(),
            )
            &&& grazes(coords, k) <==> is_less(
                distance_to_line(coords[k], coords[(k - 2) % n], coords[(k - 1) % n]),
                margin(),
            ) || is_less(
                distance_to_line(coords[k], coords[(k + 1) % n], coords[(k + 2) % n]),
                margin(),
            )
            &&& corner(coords, k) == triangle(
                coords[(k - 1) % n],
                coords[k],
                coords[(k + 1) % n],
            )
        }),
{
    let n = coords.len() as int;
    lemma_round(i, n);
    lemma_round(k, n);
    lemma_round((k + 1) % n, n);
    lemma_round((k - 1) % n, n);
    if k + 2 < n {
        lemma_fundamental_div_mod_converse(k + 2, n, 0, k + 2);
    } else {
        lemma_fundamental_div_mod_converse(k + 2, n, 1, k + 2 - n);
    }
    if k >= 2 {
        lemma_fundamental_div_mod_converse(k - 2, n, 0, k - 2);
    } else {
        lemma_fundamental_div_mod_converse(k - 2, n, -1, k - 2 + n);
    }
    lemma_round((k - 2) % n, n);
    assert(before((k - 1) % n, n) == (k - 2) % n);
    assert(after((k - 2) % n, n) == (k - 1) % n);
    assert(after((k + 1) % n, n) == (k + 2) % n);
}

/// Whether the pair `(a, b)` comes before `(c, d)`.
pub open spec fn comes_first(a: int, b: int, c: int, d: int) -> bool {
    a < c || a == c && b < d
}

/// The touch found is the first: of the lowest vertex, and for that the lowest
/// edge; and there is one where any vertex touches any edge.
pub proof fn the_first_touch_is_found(coords: Seq<Coord>, k: int, i: int)
    requires
        0 <= k < coords.len(),
        0 <= i < coords.len(),
        touches(coords, k, i),
    ensures
        near_touch(coords) matches Some(found) && 0 <= found.0 < coords.len() && 0 <= found.1
            < coords.len() && touches(coords, found.0 as int, found.1 as int) && !comes_first(
            k,
            i,
            found.0 as int,
            found.1 as int,
        ) && found.2 == closest_point(
            coords[found.0 as int],
            coords[found.1 as int],
            coords[(found.1 as int + 1) % (coords.len() as int)],
        ),
{
    let touching = |m: int| touched_edge(coords, m) is Some;
    least_is_the_first(coords.len(), touching);
    let here = |e: int| touches(coords, k, e);
    least_is_the_first(coords.len(), here);
    assert(here(i));
    assert(touched_edge(coords, k) is Some);
    assert(touching(k));
    let first = least(coords.len(), touching)->0 as int;
    let there = |e: int| touches(coords, first, e);
    least_is_the_first(coords.len(), there);
    assert(touching(first));
    let edge = touched_edge(coords, first)->0 as int;
    assert(there(edge));
    lemma_round(edge, coords.len() as int);
    if first == k {
        if i < edge {
            assert(!there(i));
        }
    }
}

/// The crossing found is the first: of the lowest edge, and for that the lowest
/// of the later edges that cross it, other than its neighbours; and there is
/// one where any two edges cross.
pub proof fn the_first_crossing_is_found(coords: Seq<Coord>, i: int, j: int)
    requires
        0 <= i,
        i + 2 <= j < coords.len(),
        !(i == 0 && j == coords.len() - 1),
        crossing_of(
            coords[i],
            coords[i + 1],
            coords[j],
            coords[(j + 1) % coords.len() as int],
        ) is Some,
    ensures
        first_crossing(coords) matches Some(found) && 0 <= found.0 && found.0 + 2 <= found.1
            < coords.len() && !(found.0 == 0 && found.1 == coords.len() - 1) && crossing_of(
            coords[found.0 as int],
            coords[found.0 as int + 1],
            coords[found.1 as int],
            coords[(found.1 as int + 1) % (coords.len() as int)],
        ) is Some && !comes_first(i, j, found.0 as int, found.1 as int),
{
    let n = coords.len() as int;
    lemma_round(i, n);
    lemma_round(j, n);
    lemma_fundamental_div_mod_converse(i + 1, n, 0, i + 1);
    assert(edge_crossing(coords, i, j) is Some);
    let crossing = |m: int| crossed_edge(coords, m) is Some;
    least_is_the_first(coords.len(), crossing);
    let here = |e: int| edge_crossing(coords, i, e) is Some;
    least_is_the_first(coords.len(), here);
    assert(here(j));
    assert(crossed_edge(coords, i) is Some);
    assert(crossing(i));
    let first = least(coords.len(), crossing)->0 as int;
    let there = |e: int| edge_crossing(coords, first, e) is Some;
    least_is_the_first(coords.len(), there);
    assert(crossing(first));
    let other = crossed_edge(coords, first)->0 as int;
    assert(there(other));
    lemma_round(first, n);
    lemma_round(other, n);
    lemma_fundamental_div_mod_converse(first + 1, n, 0, first + 1);
    if first == i {
        if j < other {
            assert(!there(j));
        }
    }
}

/// Where no two edges cross and no vertex touches an edge, nothing is split.
pub proof fn a_simple_ring_is_not_split(ring: Seq<Coord>, part: PolygonView, times: nat)
    requires
        ring.len() >= 5,
        part.exterior == ring,
        forall|i: int, j: int|
            0 <= i && i + 2 <= j < ring.len() - 1 ==> (#[trigger] edge_crossing(
                ring.drop_last(),
                i,
                j,
            )) is None,
        forall|k: int, i: int|
            0 <= k < opened(ring).len() && 0 <= i < opened(ring).len() ==> !#[trigger] touches(
                opened(ring),
                k,
                i,
            ),
    ensures
        split_once(ring) is None,
        split_part(part, times) == seq![part],
{
    let coords = ring.drop_last();
    let crossing = |m: int| crossed_edge(coords, m) is Some;
    least_is_the_first(coords.len(), crossing);
    if let Some(first) = least(coords.len(), crossing) {
        assert(crossing(first as int));
        let there = |e: int| edge_crossing(coords, first as int, e) is Some;
        least_is_the_first(coords.len(), there);
        let other = crossed_edge(coords, first as int)->0 as int;
        assert(there(other));
        assert(edge_crossing(coords, first as int, other) is None);
    }
    assert(first_crossing(coords) is None);
    let open = opened(ring);
    let touching = |m: int| touched_edge(open, m) is Some;
    least_is_the_first(open.len(), touching);
    if let Some(first) = least(open.len(), touching) {
        assert(touching(first as int));
        let there = |e: int| touches(open, first as int, e);
        least_is_the_first(open.len(), there);
        let edge = touched_edge(open, first as int)->0 as int;
        assert(there(edge));
    }
    assert(near_touch(open) is None);
}

proof fn lemma_closest_vertex(p: Coord, coords: Seq<Coord>, upto: nat)
    requires
        0 < upto <= coords.len(),
    ensures
        0 <= closest_vertex(p, coords, upto) < upto,
        forall|i: int|
            0 <= i < upto ==> if i < closest_vertex(p, coords, upto) {
                total_place(distance(coords[closest_vertex(p, coords, upto)], p)) < total_place(
                    distance(#[trigger] coords[i], p),
                )
            } else {
                total_place(distance(coords[closest_vertex(p, coords, upto)], p)) <= total_place(
                    distance(coords[i], p),
                )
            },
    decreases upto,
{
    if upto > 1 {
        lemma_closest_vertex(p, coords, (upto - 1) as nat);
    }
}

/// A place is moved onto the first of the vertices that are nearest to it, if
/// that is nearer than the margin; otherwise it stays.
pub proof fn a_place_snaps_to_the_nearest_vertex(p: Coord, coords: Seq<Coord>, k: int)
    requires
        0 <= k < coords.len(),
        forall|i: int|
            0 <= i < coords.len() ==> if i < k {
                total_place(distance(coords[k], p)) < total_place(
                    distance(#[trigger] coords[i], p),
                )
            } else {
                total_place(distance(coords[k], p)) <= total_place(distance(coords[i], p))
            },
    ensures
        is_less(distance(coords[k], p), margin()) ==> snapped(p, coords) == coords[k],
        !is_less(distance(coords[k], p), margin()) ==> snapped(p, coords) == p,
{
    lemma_closest_vertex(p, coords, coords.len());
    let m = closest_vertex(p, coords, coords.len());
    assert(coords[m] == coords[m] && coords[k] == coords[k]);
}

proof fn lemma_smallest_corner(coords: Seq<Coord>, upto: nat)
    requires
        0 < upto <= coords.len(),
    ensures
        0 <= smallest_corner(coords, upto) < upto,
        forall|i: int|
            0 <= i < upto ==> if i < smallest_corner(coords, upto) {
                total_place(corner(coords, smallest_corner(coords, upto))) < total_place(
                    #[trigger] corner(coords, i),
                )
            } else {
                total_place(corner(coords, smallest_corner(coords, upto))) <= total_place(
                    corner(coords, i),
                )
            },
    decreases upto,
{
    if upto > 1 {
        lemma_smallest_corner(coords, (upto - 1) as nat);
    }
}

/// Vertices are given up one after another, the one with the smallest corner
/// first, as long as four are left and what is lost stays within the budget,
/// that corner by itself and all together.
pub proof fn the_smallest_corner_is_given_up_first(
    coords: Seq<Coord>,
    budget: Double,
    spent: Double,
    k: int,
)
    requires
        0 <= k < coords.len(),
        forall|i: int|
            0 <= i < coords.len() ==> if i < k {
                total_place(corner(coords, k)) < total_place(#[trigger] corner(coords, i))
            } else {
                total_place(corner(coords, k)) <= total_place(corner(coords, i))
            },
    ensures
        coords.len() < 4 || is_less(budget, corner(coords, k)) || is_less(
            budget,
            plus(spent, corner(coords, k)),
        ) ==> without_negligible(coords, budget, spent) == coords,
        coords.len() >= 4 && !is_less(budget, corner(coords, k)) && !is_less(
            budget,
            plus(spent, corner(coords, k)),
        ) ==> without_negligible(coords, budget, spent) == without_negligible(
            coords.remove(k),
            budget,
            plus(spent, corner(coords, k)),
        ),
{
    lemma_smallest_corner(coords, coords.len());
    let m = smallest_corner(coords, coords.len());
    assert(corner(coords, m) == corner(coords, m) && corner(coords, k) == corner(coords, k));
    assert(m == k);
}

/// The distance to the boundary of polygons is no greater than that to any edge
/// of any of their rings, holes included.
pub proof fn no_edge_is_nearer_than_the_boundary(
    point: Coord,
    parts: Seq<PolygonView>,
    p: int,
    hole: int,
    e: int,
)
    requires
        0 <= p < parts.len(),
        -1 <= hole < parts[p].interiors.len(),
        ({
            let ring = if hole < 0 {
                parts[p].exterior
            } else {
                parts[p].interiors[hole]
            };
            0 <= e < ring.len() - 1 && !is_nan(distance_to_line(point, ring[e], ring[e + 1]))
        }),
    ensures
        ({
            let ring = if hole < 0 {
                parts[p].exterior
            } else {
                parts[p].interiors[hole]
            };
            is_at_most(
                nearest_boundary(point, parts, parts.len()),
                distance_to_line(point, ring[e], ring[e + 1]),
            )
        }),
{
    lemma_boundary(point, parts, parts.len(), p, hole, e);
}

proof fn lemma_smaller(a: Double, b: Double)
    ensures
        !is_nan(b) ==> is_at_most(smaller(a, b), b),
        !is_nan(a) ==> is_at_most(smaller(a, b), a),
{
}

proof fn lemma_edge(point: Coord, ring: Seq<Coord>, count: nat, start: Double, e: int)
    requires
        0 <= e < count,
        !is_nan(distance_to_line(point, ring[e], ring[e + 1])),
    ensures
        is_at_most(
            nearest_edge(point, ring, count, start),
            distance_to_line(point, ring[e], ring[e + 1]),
        ),
    decreases count,
{
    let before = nearest_edge(point, ring, (count - 1) as nat, start);
    let here = distance_to_line(point, ring[count - 1], ring[count as int]);
    lemma_smaller(before, here);
    if e < count - 1 {
        lemma_edge(point, ring, (count - 1) as nat, start, e);
    }
}

proof fn lemma_edge_start(point: Coord, ring: Seq<Coord>, count: nat, start: Double)
    requires
        !is_nan(start),
    ensures
        is_at_most(nearest_edge(point, ring, count, start), start),
    decreases count,
{
    if count > 0 {
        lemma_edge_start(point, ring, (count - 1) as nat, start);
        lemma_smaller(
            nearest_edge(point, ring, (count - 1) as nat, start),
            distance_to_line(point, ring[count - 1], ring[count as int]),
        );
    }
}

proof fn lemma_ring_start(point: Coord, rings: Seq<Seq<Coord>>, count: nat, start: Double)
    requires
        !is_nan(start),
    ensures
        is_at_most(nearest_ring(point, rings, count, start), start),
    decreases count,
{
    if count > 0 {
        lemma_ring_start(point, rings, (count - 1) as nat, start);
        lemma_edge_start(
            point,
            rings[count - 1],
            edge_count(rings[count - 1]),
            nearest_ring(point, rings, (count - 1) as nat, start),
        );
    }
}

proof fn lemma_ring(
    point: Coord,
    rings: Seq<Seq<Coord>>,
    count: nat,
    start: Double,
    hole: int,
    e: int,
)
    requires
        0 <= hole < count <= rings.len(),
        0 <= e < rings[hole].len() - 1,
        !is_nan(distance_to_line(point, rings[hole][e], rings[hole][e + 1])),
    ensures
        is_at_most(
            nearest_ring(point, rings, count, start),
            distance_to_line(point, rings[hole][e], rings[hole][e + 1]),
        ),
    decreases count,
{
    let before = nearest_ring(point, rings, (count - 1) as nat, start);
    if hole < count - 1 {
        lemma_ring(point, rings, (count - 1) as nat, start, hole, e);
        lemma_edge_start(point, rings[count - 1], edge_count(rings[count - 1]), before);
    } else {
        lemma_edge(point, rings[hole], edge_count(rings[hole]), before, e);
    }
}

proof fn lemma_boundary(
    point: Coord,
    parts: Seq<PolygonView>,
    count: nat,
    p: int,
    hole: int,
    e: int,
)
    requires
        0 <= p < count <= parts.len(),
        -1 <= hole < parts[p].interiors.len(),
        ({
            let ring = if hole < 0 {
                parts[p].exterior
            } else {
                parts[p].interiors[hole]
            };
            0 <= e < ring.len() - 1 && !is_nan(distance_to_line(point, ring[e], ring[e + 1]))
        }),
    ensures
        ({
            let ring = if hole < 0 {
                parts[p].exterior
            } else {
                parts[p].interiors[hole]
            };
            is_at_most(
                nearest_boundary(point, parts, count),
                distance_to_line(point, ring[e], ring[e + 1]),
            )
        }),
    decreases count,
{
    let before = nearest_boundary(point, parts, (count - 1) as nat);
    let part = parts[count - 1];
    let outer = nearest_edge(point, part.exterior, edge_count(part.exterior), before);
    if p < count - 1 {
        lemma_boundary(point, parts, (count - 1) as nat, p, hole, e);
        lemma_edge_start(point, part.exterior, edge_count(part.exterior), before);
        lemma_ring_start(point, part.interiors, part.interiors.len(), outer);
    } else if hole < 0 {
        lemma_edge(point, part.exterior, edge_count(part.exterior), before, e);
        lemma_ring_start(point, part.interiors, part.interiors.len(), outer);
    } else {
        lemma_ring(point, part.interiors, part.interiors.len(), outer, hole, e);
    }
}

/// Whether `d` is the distance to some edge of some ring of the parts.
pub open spec fn is_distance_to_an_edge(
    point: Coord,
    parts: Seq<PolygonView>,
    d: Double,
    p: int,
    hole: int,
    e: int,
) -> bool {
    0 <= p < parts.len() && -1 <= hole < parts[p].interiors.len() && ({
        let ring = if hole < 0 {
            parts[p].exterior
        } else {
            parts[p].interiors[hole]
        };
        0 <= e < ring.len() - 1 && d == distance_to_line(point, ring[e], ring[e + 1])
    })
}

/// Whether `d` is the distance to some edge of the parts, or infinite.
pub open spec fn is_some_distance(point: Coord, parts: Seq<PolygonView>, d: Double) -> bool {
    d == (Double { bits: INFINITY_BITS }) || exists|p: int, hole: int, e: int| #[trigger]
        is_distance_to_an_edge(point, parts, d, p, hole, e)
}

proof fn lemma_some_edge(
    point: Coord,
    parts: Seq<PolygonView>,
    p: int,
    hole: int,
    ring: Seq<Coord>,
    count: nat,
    start: Double,
)
    requires
        0 <= p < parts.len(),
        -1 <= hole < parts[p].interiors.len(),
        ring == (if hole < 0 {
            parts[p].exterior
        } else {
            parts[p].interiors[hole]
        }),
        count == 0 || count < ring.len(),
        is_some_distance(point, parts, start),
    ensures
        is_some_distance(point, parts, nearest_edge(point, ring, count, start)),
    decreases count,
{
    if count > 0 {
        lemma_some_edge(point, parts, p, hole, ring, (count - 1) as nat, start);
        let here = distance_to_line(point, ring[count - 1], ring[count as int]);
        assert(is_distance_to_an_edge(point, parts, here, p, hole, count - 1));
    }
}

proof fn lemma_some_ring(
    point: Coord,
    parts: Seq<PolygonView>,
    p: int,
    count: nat,
    start: Double,
)
    requires
        0 <= p < parts.len(),
        count <= parts[p].interiors.len(),
        is_some_distance(point, parts, start),
    ensures
        is_some_distance(point, parts, nearest_ring(point, parts[p].interiors, count, start)),
    decreases count,
{
    if count > 0 {
        lemma_some_ring(point, parts, p, (count - 1) as nat, start);
        let ring = parts[p].interiors[count - 1];
        lemma_some_edge(
            point,
            parts,
            p,
            count - 1,
            ring,
            edge_count(ring),
            nearest_ring(point, parts[p].interiors, (count - 1) as nat, start),
        );
    }
}

/// The distance to the boundary of polygons is that to one of their edges;
/// where there are no edges, it is infinite.
pub proof fn the_boundary_is_as_near_as_some_edge(
    point: Coord,
    parts: Seq<PolygonView>,
    count: nat,
)
    requires
        count <= parts.len(),
    ensures
        is_some_distance(point, parts, nearest_boundary(point, parts, count)),
    decreases count,
{
    if count > 0 {
        let before = nearest_boundary(point, parts, (count - 1) as nat);
        let part = parts[count - 1];
        the_boundary_is_as_near_as_some_edge(point, parts, (count - 1) as nat);
        lemma_some_edge(
            point,
            parts,
            count - 1,
            -1,
            part.exterior,
            edge_count(part.exterior),
            before,
        );
        lemma_some_ring(
            point,
            parts,
            count - 1,
            part.interiors.len(),
            nearest_edge(point, part.exterior, edge_count(part.exterior), before),
        );
    }
}

/// Cleaning a ring takes the first needle out, if there is one; a ring without
/// any is closed, and one of fewer than three vertices is given up.
pub proof fn the_first_needle_is_taken_out(coords: Seq<Coord>, turned: Seq<Double>, k: int)
    requires
        0 <= k < coords.len(),
    ensures
        coords.len() < 3 ==> needle_step(coords, turned) is Collapsed,
        coords.len() >= 3 && needle_at(coords, turned, k) && (forall|i: int|
            0 <= i < k ==> !#[trigger] needle_at(coords, turned, i)) ==> needle_step(coords, turned)
            == RingStepView::Next(coords.remove(k)),
        coords.len() >= 3 && (forall|i: int|
            0 <= i < coords.len() ==> !#[trigger] needle_at(coords, turned, i)) ==> needle_step(
            coords,
            turned,
        ) == RingStepView::Done(coords.push(coords[0])),
{
    let needle = |i: int| needle_at(coords, turned, i);
    least_is_the_first(coords.len(), needle);
    match first_needle(coords, turned) {
        Some(i) => {
            assert(needle(i as int));
            if k < i {
                assert(!needle(k));
            }
        },
        None => {
            assert(!needle(k));
        },
    }
}

} // verus!
