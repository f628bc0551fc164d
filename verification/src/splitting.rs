//! Rings cut where they meet themselves.

use crate::double::{is_less, Double};
use crate::plane::{
    crossing_of, distance, margin, segment_intersection, snap_to_nearby_vertex, snapped, Coord,
    SPLIT_SNAP_MARGIN_METERS,
};
use crate::ring::{
    add_coords, after, copy_coords, find_near_touch, least, least_is_the_first, lemma_least,
    near_touch, next, open_ring, opened, touched_edge, touches,
};
use vstd::prelude::*;

verus! {

/// A polygon: a closed ring around it, and closed rings around its holes.
#[derive(Clone, Debug, PartialEq, Eq)]
pub struct Polygon {
    pub exterior: Vec<Coord>,
    pub interiors: Vec<Vec<Coord>>,
}

/// What a [`Polygon`] says.
#[verifier::ext_equal]
pub struct PolygonView {
    pub exterior: Seq<Coord>,
    pub interiors: Seq<Seq<Coord>>,
}

/// What a list of rings says.
pub open spec fn ring_views(rings: Seq<Vec<Coord>>) -> Seq<Seq<Coord>> {
    Seq::new(rings.len(), |i: int| rings[i]@)
}

impl View for Polygon {
    type V = PolygonView;

    open spec fn view(&self) -> PolygonView {
        PolygonView { exterior: self.exterior@, interiors: ring_views(self.interiors@) }
    }
}

/// What a list of polygons says.
pub open spec fn polygon_views(parts: Seq<Polygon>) -> Seq<PolygonView> {
    Seq::new(parts.len(), |i: int| parts[i]@)
}

/// A polygon without holes.
pub open spec fn solid(exterior: Seq<Coord>) -> PolygonView {
    PolygonView { exterior, interiors: Seq::empty() }
}

/// Whether two points are not told apart.
pub open spec fn close(a: Coord, b: Coord) -> bool {
    is_less(distance(a, b), margin())
}

/// An open ring whose vertex `k` touches edge `i` at `place`, with the two
/// welded: vertex `k` becomes the end of the edge that the place is close to,
/// or else the place itself, which is put into the edge as well. The ring, and
/// the two positions that then hold the same point.
pub open spec fn welded(coords: Seq<Coord>, k: int, i: int, place: Coord) -> (
    Seq<Coord>,
    int,
    int,
) {
    let end = after(i, coords.len() as int);
    if close(place, coords[i]) {
        (coords.update(k, coords[i]), k, i)
    } else if close(place, coords[end]) {
        (coords.update(k, coords[end]), k, end)
    } else {
        let moved = if k >= end {
            k + 1
        } else {
            k
        };
        (coords.insert(end, place).update(moved, place), moved, end)
    }
}

/// The two closed rings that a ring falls into when it is cut at two positions
/// that hold the same point.
pub open spec fn halves(coords: Seq<Coord>, a: int, b: int) -> (Seq<Coord>, Seq<Coord>) {
    let low = if a < b {
        a
    } else {
        b
    };
    let high = if a < b {
        b
    } else {
        a
    };
    (
        coords.subrange(low, high + 1),
        coords.skip(high) + coords.take(low + 1),
    )
}

/// The two rings that a ring falls into when it is welded where a vertex
/// touches an edge elsewhere; none where none does.
pub open spec fn split_at_touch(ring: Seq<Coord>) -> Option<(Seq<Coord>, Seq<Coord>)> {
    let coords = opened(ring);
    if coords.len() < 4 {
        None
    } else {
        match near_touch(coords) {
            Some((k, i, place)) => {
                let (joined, a, b) = welded(coords, k as int, i as int, place);
                Some(halves(joined, a, b))
            },
            None => None,
        }
    }
}

/// What an optional pair of rings says.
pub open spec fn optional_pair(pair: Option<(Vec<Coord>, Vec<Coord>)>) -> Option<
    (Seq<Coord>, Seq<Coord>),
> {
    match pair {
        Some((a, b)) => Some((a@, b@)),
        None => None,
    }
}

fn is_close(a: Coord, b: Coord) -> (yes: bool)
    ensures
        yes == close(a, b),
{
    a.distance_to(b).less_than(Double { bits: SPLIT_SNAP_MARGIN_METERS })
}

fn cut(coords: &Vec<Coord>, a: usize, b: usize) -> (rings: (Vec<Coord>, Vec<Coord>))
    requires
        a < coords@.len(),
        b < coords@.len(),
    ensures
        (rings.0@, rings.1@) == halves(coords@, a as int, b as int),
{
    let low: usize = if a < b {
        a
    } else {
        b
    };
    let high: usize = if a < b {
        b
    } else {
        a
    };
    let n: usize = coords.len();
    let mut inner: Vec<Coord> = Vec::new();
    add_coords(&mut inner, coords, low, high + 1);
    let mut outer: Vec<Coord> = Vec::new();
    add_coords(&mut outer, coords, high, n);
    add_coords(&mut outer, coords, 0, low + 1);
    assert(inner@ =~= coords@.subrange(low as int, high + 1));
    assert(outer@ =~= coords@.skip(high as int) + coords@.take(low + 1));
    (inner, outer)
}

/// Welds a ring where a vertex touches an edge elsewhere, and cuts it there.
/// Both rings then hold the very same point where they meet.
pub fn weld_near_touch_and_split(ring: &Vec<Coord>) -> (rings: Option<(Vec<Coord>, Vec<Coord>)>)
    ensures
        optional_pair(rings) == split_at_touch(ring@),
{
    let mut coords: Vec<Coord> = open_ring(ring);
    let n: usize = coords.len();
    if n < 4 {
        return None;
    }
    let (k, i, place) = match find_near_touch(&coords) {
        Some(touch) => touch,
        None => {
            return None;
        },
    };
    let end: usize = next(i, n);
    if is_close(place, coords[i]) {
        let point: Coord = coords[i];
        coords.set(k, point);
        return Some(cut(&coords, k, i));
    }
    if is_close(place, coords[end]) {
        let point: Coord = coords[end];
        coords.set(k, point);
        return Some(cut(&coords, k, end));
    }
    coords.insert(end, place);
    let moved: usize = if k >= end {
        k + 1
    } else {
        k
    };
    coords.set(moved, place);
    Some(cut(&coords, moved, end))
}

/// Where edges `i` and `j` of an open ring cross, the second being neither next
/// to the first nor before it.
pub open spec fn edge_crossing(coords: Seq<Coord>, i: int, j: int) -> Option<Coord> {
    let n = coords.len() as int;
    if j < i + 2 || (i == 0 && j == n - 1) {
        None
    } else {
        crossing_of(coords[i], coords[after(i, n)], coords[j], coords[after(j, n)])
    }
}

/// The first edge that edge `i` crosses.
pub open spec fn crossed_edge(coords: Seq<Coord>, i: int) -> Option<nat> {
    least(coords.len(), |j: int| edge_crossing(coords, i, j) is Some)
}

/// The first two edges of an open ring that cross.
pub open spec fn first_crossing(coords: Seq<Coord>) -> Option<(nat, nat)> {
    match least(coords.len(), |i: int| crossed_edge(coords, i) is Some) {
        Some(i) => Some((i, crossed_edge(coords, i as int)->0)),
        None => None,
    }
}

/// The two rings that an open ring falls into when it is cut where edges `i`
/// and `j` cross.
pub open spec fn cut_at_crossing(coords: Seq<Coord>, i: int, j: int, place: Coord) -> (
    Seq<Coord>,
    Seq<Coord>,
) {
    (
        seq![place] + coords.subrange(i + 1, j + 1) + seq![place],
        seq![place] + coords.skip(j + 1) + coords.take(i + 1) + seq![place],
    )
}

/// The two rings that a closed ring falls into when it is cut where it first
/// crosses itself; none where it does not.
pub open spec fn split_at_crossing(ring: Seq<Coord>) -> Option<(Seq<Coord>, Seq<Coord>)> {
    let coords = ring.drop_last();
    if ring.len() < 5 {
        None
    } else {
        match first_crossing(coords) {
            Some((i, j)) => Some(
                cut_at_crossing(
                    coords,
                    i as int,
                    j as int,
                    snapped(edge_crossing(coords, i as int, j as int)->0, coords),
                ),
            ),
            None => None,
        }
    }
}

/// The first two edges of an open ring that cross, and where.
fn find_crossing(coords: &Vec<Coord>) -> (found: Option<(usize, usize, Coord)>)
    ensures
        match found {
            Some(f) => first_crossing(coords@) == Some((f.0 as nat, f.1 as nat)) && edge_crossing(
                coords@,
                f.0 as int,
                f.1 as int,
            ) == Some(f.2) && f.0 + 2 <= f.1 < coords@.len(),
            None => first_crossing(coords@) is None,
        },
{
    let n: usize = coords.len();
    let ghost crossed = |i: int| crossed_edge(coords@, i) is Some;
    let mut i: usize = 0;
    while i < n
        invariant
            i <= n,
            n == coords@.len(),
            crossed == (|i: int| crossed_edge(coords@, i) is Some),
            least(i as nat, crossed) is None,
        decreases n - i,
    {
        let ghost crossing = |j: int| edge_crossing(coords@, i as int, j) is Some;
        let mut j: usize = 0;
        while j < n
            invariant
                i < n,
                j <= n,
                n == coords@.len(),
                crossed == (|i: int| crossed_edge(coords@, i) is Some),
                crossing == (|j: int| edge_crossing(coords@, i as int, j) is Some),
                least(i as nat, crossed) is None,
                least(j as nat, crossing) is None,
            decreases n - j,
        {
            if j >= i && j - i >= 2 && !(i == 0 && j == n - 1) {
                match segment_intersection(
                    coords[i],
                    coords[next(i, n)],
                    coords[j],
                    coords[next(j, n)],
                ) {
                    Some(place) => {
                        proof {
                            assert(crossing(j as int));
                            lemma_least(n as nat, crossing, j as nat);
                            assert(crossed(i as int));
                            lemma_least(n as nat, crossed, i as nat);
                        }
                        return Some((i, j, place));
                    },
                    None => {},
                }
            }
            assert(!crossing(j as int));
            j = j + 1;
        }
        assert(!crossed(i as int));
        i = i + 1;
    }
    None
}

/// Cuts a closed ring where it first crosses itself. The two rings share the
/// point of the cut, which is a vertex of the ring where one is close.
pub fn split_self_intersection(ring: &Vec<Coord>) -> (rings: Option<(Vec<Coord>, Vec<Coord>)>)
    ensures
        optional_pair(rings) == split_at_crossing(ring@),
{
    if ring.len() < 5 {
        return None;
    }
    let mut coords: Vec<Coord> = copy_coords(ring);
    coords.pop();
    assert(coords@ =~= ring@.drop_last());
    match find_crossing(&coords) {
        Some((i, j, crossing)) => {
            let place: Coord = snap_to_nearby_vertex(crossing, &coords);
            let mut inner: Vec<Coord> = Vec::new();
            inner.push(place);
            add_coords(&mut inner, &coords, i + 1, j + 1);
            inner.push(place);
            let mut outer: Vec<Coord> = Vec::new();
            outer.push(place);
            add_coords(&mut outer, &coords, j + 1, coords.len());
            add_coords(&mut outer, &coords, 0, i + 1);
            outer.push(place);
            assert(inner@ =~= seq![place] + coords@.subrange(i + 1, j + 1) + seq![place]);
            assert(outer@ =~= seq![place] + coords@.skip(j + 1) + coords@.take(i + 1) + seq![place]);
            Some((inner, outer))
        },
        None => None,
    }
}

/// How many times over a ring is cut at most.
pub const MAX_SPLIT_DEPTH: u32 = 8;

/// The two rings that a ring falls into where it crosses itself, or else where
/// it touches itself.
pub open spec fn split_once(ring: Seq<Coord>) -> Option<(Seq<Coord>, Seq<Coord>)> {
    match split_at_crossing(ring) {
        Some(rings) => Some(rings),
        None => split_at_touch(ring),
    }
}

/// The polygons that a polygon falls into when its ring is cut, and each piece
/// again, at most `times` over.
pub open spec fn split_part(part: PolygonView, times: nat) -> Seq<PolygonView>
    decreases times,
{
    if times == 0 {
        seq![part]
    } else {
        match split_once(part.exterior) {
            Some((a, b)) => split_part(solid(a), (times - 1) as nat) + split_part(
                solid(b),
                (times - 1) as nat,
            ),
            None => seq![part],
        }
    }
}

/// The polygons that all of `parts` fall into.
pub open spec fn split_parts(parts: Seq<PolygonView>) -> Seq<PolygonView>
    decreases parts.len(),
{
    if parts.len() == 0 {
        Seq::empty()
    } else {
        split_parts(parts.drop_last()) + split_part(parts.last(), MAX_SPLIT_DEPTH as nat)
    }
}

/// Cuts a polygon where its ring meets itself, and each piece again, at most
/// `times` over.
pub fn split_part_fully(part: Polygon, times: u32) -> (parts: Vec<Polygon>)
    ensures
        polygon_views(parts@) == split_part(part@, times as nat),
    decreases times,
{
    let mut parts: Vec<Polygon> = Vec::new();
    if times > 0 {
        let rings: Option<(Vec<Coord>, Vec<Coord>)> = match split_self_intersection(
            &part.exterior,
        ) {
            Some(rings) => Some(rings),
            None => weld_near_touch_and_split(&part.exterior),
        };
        match rings {
            Some((a, b)) => {
                let first: Polygon = Polygon { exterior: a, interiors: Vec::new() };
                let second: Polygon = Polygon { exterior: b, interiors: Vec::new() };
                assert(first@ =~= solid(a@));
                assert(second@ =~= solid(b@));
                let mut found: Vec<Polygon> = split_part_fully(first, times - 1);
                let mut more: Vec<Polygon> = split_part_fully(second, times - 1);
                let ghost left = polygon_views(found@);
                let ghost right = polygon_views(more@);
                found.append(&mut more);
                assert(polygon_views(found@) =~= left + right);
                return found;
            },
            None => {},
        }
    }
    parts.push(part);
    assert(polygon_views(parts@) =~= seq![part@]);
    parts
}

/// Cuts every polygon where its ring meets itself.
pub fn split_self_intersections(parts: Vec<Polygon>) -> (split: Vec<Polygon>)
    ensures
        polygon_views(split@) == split_parts(polygon_views(parts@)),
{
    let ghost views = polygon_views(parts@);
    let mut rest: Vec<Polygon> = parts;
    let mut split: Vec<Polygon> = Vec::new();
    let ghost mut done: int = 0;
    assert(views.take(0) =~= Seq::empty());
    assert(polygon_views(split@) =~= Seq::empty());
    while rest.len() > 0
        invariant
            0 <= done <= views.len(),
            polygon_views(rest@) == views.skip(done),
            polygon_views(split@) == split_parts(views.take(done)),
        decreases rest@.len(),
    {
        let ghost held = polygon_views(rest@);
        assert(held.len() == rest@.len());
        let part: Polygon = rest.remove(0);
        assert(part@ == views.skip(done)[0]);
        let ghost before = polygon_views(split@);
        let mut pieces: Vec<Polygon> = split_part_fully(part, MAX_SPLIT_DEPTH);
        let ghost added = polygon_views(pieces@);
        split.append(&mut pieces);
        proof {
            assert(polygon_views(split@) =~= before + added);
            assert(views.take(done + 1).drop_last() =~= views.take(done));
            assert(views.take(done + 1).last() == part@);
            assert(polygon_views(rest@) =~= held.skip(1));
            assert(held.skip(1) =~= views.skip(done + 1));
            done = done + 1;
        }
    }
    assert(views.take(done) =~= views);
    split
}

/// Where a ring is cut, both pieces begin and end at the point of the cut, and
/// they hold every vertex of the ring.
pub proof fn a_cut_at_a_crossing_keeps_every_vertex(
    coords: Seq<Coord>,
    i: int,
    j: int,
    place: Coord,
    k: int,
)
    requires
        0 <= i < j < coords.len(),
        0 <= k < coords.len(),
    ensures
        ({
            let (inner, outer) = cut_at_crossing(coords, i, j, place);
            &&& inner[0] == place && inner.last() == place
            &&& outer[0] == place && outer.last() == place
            &&& inner.contains(coords[k]) || outer.contains(coords[k])
            &&& inner.len() + outer.len() == coords.len() + 4
        }),
{
    let (inner, outer) = cut_at_crossing(coords, i, j, place);
    if i < k <= j {
        assert(inner[1 + k - (i + 1)] == coords[k]);
    } else if k > j {
        assert(outer[1 + k - (j + 1)] == coords[k]);
    } else {
        assert(outer[1 + coords.len() - (j + 1) + k] == coords[k]);
    }
}

/// Where a ring is welded and cut, both pieces begin and end at the very same
/// point.
pub proof fn welded_pieces_share_their_ends(ring: Seq<Coord>)
    requires
        split_at_touch(ring) is Some,
    ensures
        ({
            let (inner, outer) = split_at_touch(ring)->0;
            &&& inner.len() > 0 && outer.len() > 0
            &&& inner[0] == inner.last()
            &&& outer[0] == outer.last()
            &&& inner[0] == outer[0]
        }),
{
    let coords = opened(ring);
    let n = coords.len();
    let (k, i, place) = near_touch(coords)->0;
    least_is_the_first(n, |k: int| touched_edge(coords, k) is Some);
    least_is_the_first(n, |i: int| touches(coords, k as int, i));
    let end = after(i as int, n as int);
    let (joined, a, b) = welded(coords, k as int, i as int, place);
    assert(touches(coords, k as int, i as int));
    assert(k != i && k != end);
    assert(joined[a] == joined[b]);
    let (inner, outer) = halves(joined, a, b);
    let low = if a < b {
        a
    } else {
        b
    };
    let high = if a < b {
        b
    } else {
        a
    };
    assert(inner[0] == joined[low]);
    assert(inner.last() == joined[high]);
    assert(outer[0] == joined[high]);
    assert(outer.last() == joined[low]);
}

} // verus!
