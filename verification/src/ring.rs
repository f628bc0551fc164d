//! Rings of points: where they touch or cross themselves, how they are cut
//! there, and which of their vertices may go.
//!
//! An open ring lists each vertex once; a closed one repeats the first at the
//! end.

use crate::double::{is_less, minus, plus, zero, Double};
use crate::measure::{absolute, total_place};
use crate::plane::{
    closest_point, distance_to_line, margin, point_segment_distance, same_place, triangle,
    triangle_area, Coord, SPLIT_SNAP_MARGIN_METERS, TWO,
};
use crate::product::{over, times};
use vstd::prelude::*;

verus! {

/// The share of a ring's area, by bit pattern, that may be lost to vertices
/// that do not matter: 0.15 %.
pub const NEGLIGIBLE_VERTEX_AREA_FRACTION: u64 = 0x3f58_9374_bc6a_7efa;

/// The least of the first `n` numbers that `wanted` picks.
pub open spec fn least(n: nat, wanted: spec_fn(int) -> bool) -> Option<nat>
    decreases n,
{
    if n == 0 {
        None
    } else {
        match least((n - 1) as nat, wanted) {
            Some(i) => Some(i),
            None => if wanted(n - 1) {
                Some((n - 1) as nat)
            } else {
                None
            },
        }
    }
}

/// The first number picked is the least.
pub proof fn lemma_least(n: nat, wanted: spec_fn(int) -> bool, i: nat)
    requires
        i < n,
        wanted(i as int),
        least(i, wanted) is None,
    ensures
        least(n, wanted) == Some(i),
    decreases n,
{
    if n > i + 1 {
        lemma_least((n - 1) as nat, wanted, i);
    }
}

/// What the least number is: picked, and none before it is.
pub proof fn least_is_the_first(n: nat, wanted: spec_fn(int) -> bool)
    ensures
        match least(n, wanted) {
            Some(i) => i < n && wanted(i as int) && forall|k: int| 0 <= k < i ==> !(#[trigger] wanted(k)),
            None => forall|k: int| 0 <= k < n ==> !(#[trigger] wanted(k)),
        },
    decreases n,
{
    if n > 0 {
        least_is_the_first((n - 1) as nat, wanted);
    }
}

/// The vertex after vertex `i` of a ring of `n`.
pub open spec fn after(i: int, n: int) -> int {
    if i + 1 == n {
        0
    } else {
        i + 1
    }
}

/// The vertex before vertex `i` of a ring of `n`.
pub open spec fn before(i: int, n: int) -> int {
    if i == 0 {
        n - 1
    } else {
        i - 1
    }
}

pub(crate) fn next(i: usize, n: usize) -> (k: usize)
    requires
        i < n,
    ensures
        k == after(i as int, n as int),
        k < n,
{
    if i + 1 == n {
        0
    } else {
        i + 1
    }
}

pub(crate) fn previous(i: usize, n: usize) -> (k: usize)
    requires
        i < n,
    ensures
        k == before(i as int, n as int),
        k < n,
{
    if i == 0 {
        n - 1
    } else {
        i - 1
    }
}

/// A ring without the repeated first point at its end.
pub open spec fn opened(ring: Seq<Coord>) -> Seq<Coord> {
    if ring.len() > 0 && same_place(ring[0], ring.last()) {
        ring.drop_last()
    } else {
        ring
    }
}

/// A ring with its first point repeated at its end.
pub open spec fn closed(ring: Seq<Coord>) -> Seq<Coord> {
    ring.push(ring[0])
}

/// A ring without the repetition of its first point at its end.
pub fn open_ring(ring: &Vec<Coord>) -> (coords: Vec<Coord>)
    ensures
        coords@ == opened(ring@),
{
    let mut coords: Vec<Coord> = copy_coords(ring);
    if coords.len() > 0 && coords[0].coincides(coords[coords.len() - 1]) {
        coords.pop();
        assert(coords@ =~= ring@.drop_last());
    }
    coords
}

/// A copy of a list of points.
pub fn copy_coords(list: &Vec<Coord>) -> (copy: Vec<Coord>)
    ensures
        copy@ == list@,
{
    let mut copy: Vec<Coord> = Vec::new();
    add_coords(&mut copy, list, 0, list.len());
    assert(copy@ =~= list@);
    copy
}

/// Adds the points of `list` from `from` to `to`.
pub(crate) fn add_coords(coords: &mut Vec<Coord>, list: &Vec<Coord>, from: usize, to: usize)
    requires
        from <= to <= list@.len(),
    ensures
        final(coords)@ == old(coords)@ + list@.subrange(from as int, to as int),
{
    let ghost start = coords@;
    let mut i: usize = from;
    assert(coords@ =~= start + list@.subrange(from as int, i as int));
    while i < to
        invariant
            from <= i <= to <= list@.len(),
            coords@ == start + list@.subrange(from as int, i as int),
        decreases to - i,
    {
        coords.push(list[i]);
        assert(coords@ =~= start + list@.subrange(from as int, i + 1));
        i = i + 1;
    }
}

/// Whether vertex `k` is an end of edge `i`, or next to one.
pub open spec fn is_near_edge(k: int, i: int, n: int) -> bool {
    let end = after(i, n);
    k == i || k == end || k == before(i, n) || k == after(end, n)
}

/// How far vertex `k` is from edge `i`.
pub open spec fn edge_distance(coords: Seq<Coord>, k: int, i: int) -> Double {
    distance_to_line(coords[k], coords[i], coords[after(i, coords.len() as int)])
}

/// Whether vertex `k` touches edge `i`, which lies elsewhere in the ring.
pub open spec fn touches(coords: Seq<Coord>, k: int, i: int) -> bool {
    !is_near_edge(k, i, coords.len() as int) && is_less(edge_distance(coords, k, i), margin())
}

/// The first edge that vertex `k` touches.
pub open spec fn touched_edge(coords: Seq<Coord>, k: int) -> Option<nat> {
    least(coords.len(), |i: int| touches(coords, k, i))
}

/// The first vertex that touches an edge elsewhere in the ring, that edge, and
/// the point where it does.
pub open spec fn near_touch(coords: Seq<Coord>) -> Option<(nat, nat, Coord)> {
    match least(coords.len(), |k: int| touched_edge(coords, k) is Some) {
        Some(k) => {
            let i = touched_edge(coords, k as int)->0;
            Some(
                (
                    k,
                    i,
                    closest_point(
                        coords[k as int],
                        coords[i as int],
                        coords[after(i as int, coords.len() as int)],
                    ),
                ),
            )
        },
        None => None,
    }
}

/// Finds a vertex that touches an edge elsewhere in the ring without crossing
/// it: the vertex, the edge, and the point to weld the two at. A vertex next to
/// an end of the edge does not count: to weld it there would leave an edge of
/// no length.
pub fn find_near_touch(coords: &Vec<Coord>) -> (touch: Option<(usize, usize, Coord)>)
    ensures
        match touch {
            Some(t) => near_touch(coords@) == Some((t.0 as nat, t.1 as nat, t.2)) && t.0
                < coords@.len() && t.1 < coords@.len(),
            None => near_touch(coords@) is None,
        },
{
    let n: usize = coords.len();
    let ghost touched = |k: int| touched_edge(coords@, k) is Some;
    let mut k: usize = 0;
    while k < n
        invariant
            k <= n,
            n == coords@.len(),
            touched == (|k: int| touched_edge(coords@, k) is Some),
            least(k as nat, touched) is None,
        decreases n - k,
    {
        let ghost touching = |i: int| touches(coords@, k as int, i);
        let mut i: usize = 0;
        while i < n
            invariant
                k < n,
                i <= n,
                n == coords@.len(),
                touched == (|k: int| touched_edge(coords@, k) is Some),
                touching == (|i: int| touches(coords@, k as int, i)),
                least(k as nat, touched) is None,
                least(i as nat, touching) is None,
            decreases n - i,
        {
            let end: usize = next(i, n);
            let near: bool = k == i || k == end || k == previous(i, n) || k == next(end, n);
            if !near {
                let (apart, closest) = point_segment_distance(coords[k], coords[i], coords[end]);
                if apart.less_than(Double { bits: SPLIT_SNAP_MARGIN_METERS }) {
                    proof {
                        assert(touching(i as int));
                        lemma_least(n as nat, touching, i as nat);
                        assert(touched(k as int));
                        lemma_least(n as nat, touched, k as nat);
                    }
                    return Some((k, i, closest));
                }
            }
            assert(!touching(i as int));
            i = i + 1;
        }
        assert(!touched(k as int));
        k = k + 1;
    }
    None
}

/// Whether vertex `k` lies on the edge before its predecessor, or on that
/// after its successor.
pub open spec fn grazes(coords: Seq<Coord>, k: int) -> bool {
    let n = coords.len() as int;
    is_less(edge_distance(coords, k, before(before(k, n), n)), margin()) || is_less(
        edge_distance(coords, k, after(k, n)),
        margin(),
    )
}

/// What is left of an open ring when, again and again, the first vertex that
/// grazes an edge next to it has gone; nothing where no triangle is left.
pub open spec fn without_grazing(coords: Seq<Coord>) -> Option<Seq<Coord>>
    decreases coords.len(),
{
    if coords.len() < 3 {
        None
    } else {
        match least(coords.len(), |k: int| grazes(coords, k)) {
            Some(k) => if k < coords.len() {
                without_grazing(coords.remove(k as int))
            } else {
                None
            },
            None => Some(coords),
        }
    }
}

/// An optional open ring, closed.
pub open spec fn closed_if_any(coords: Option<Seq<Coord>>) -> Option<Seq<Coord>> {
    match coords {
        Some(c) => Some(closed(c)),
        None => None,
    }
}

/// What an optional list of points says.
pub open spec fn optional_coords(coords: Option<Vec<Coord>>) -> Option<Seq<Coord>> {
    match coords {
        Some(c) => Some(c@),
        None => None,
    }
}

fn near_line(coords: &Vec<Coord>, k: usize, i: usize) -> (near: bool)
    requires
        k < coords@.len(),
        i < coords@.len(),
    ensures
        near == is_less(edge_distance(coords@, k as int, i as int), margin()),
{
    let end: usize = next(i, coords.len());
    let (apart, _) = point_segment_distance(coords[k], coords[i], coords[end]);
    apart.less_than(Double { bits: SPLIT_SNAP_MARGIN_METERS })
}

/// Removes the vertices that graze an edge one step away from them: tips of
/// spikes, and points on the line between their neighbours.
pub fn drop_grazing_vertices(ring: &Vec<Coord>) -> (cleaned: Option<Vec<Coord>>)
    ensures
        optional_coords(cleaned) == closed_if_any(without_grazing(opened(ring@))),
{
    let mut coords: Vec<Coord> = open_ring(ring);
    loop
        invariant
            without_grazing(opened(ring@)) == without_grazing(coords@),
        decreases coords@.len(),
    {
        let n: usize = coords.len();
        if n < 3 {
            return None;
        }
        let ghost grazing = |k: int| grazes(coords@, k);
        let mut k: usize = 0;
        while k < n
            invariant_except_break
                least(k as nat, grazing) is None,
            invariant
                k <= n,
                n == coords@.len(),
                3 <= n,
                grazing == (|k: int| grazes(coords@, k)),
            ensures
                k == n ==> least(n as nat, grazing) is None,
                k < n ==> least(n as nat, grazing) == Some(k as nat),
            decreases n - k,
        {
            if near_line(&coords, k, previous(previous(k, n), n)) || near_line(
                &coords,
                k,
                next(k, n),
            ) {
                proof {
                    assert(grazing(k as int));
                    lemma_least(n as nat, grazing, k as nat);
                }
                break;
            }
            assert(!grazing(k as int));
            k = k + 1;
        }
        if k == n {
            coords.push(coords[0]);
            return Some(coords);
        }
        coords.remove(k);
    }
}

/// Twice the signed area of the first `count` corners, by the shoelace
/// formula.
pub open spec fn shoelace(coords: Seq<Coord>, count: nat) -> Double
    decreases count,
{
    if count == 0 {
        zero()
    } else {
        let a = coords[count - 1];
        let b = coords[after(count - 1, coords.len() as int)];
        plus(
            shoelace(coords, (count - 1) as nat),
            minus(times(a.x, b.y), times(b.x, a.y)),
        )
    }
}

/// The area of an open ring.
pub open spec fn area(coords: Seq<Coord>) -> Double {
    over(absolute(shoelace(coords, coords.len())), Double { bits: TWO })
}

/// Twice the signed area of an open ring; positive where it runs
/// counterclockwise.
pub fn twice_signed_area(coords: &Vec<Coord>) -> (twice: Double)
    ensures
        twice == shoelace(coords@, coords@.len()),
{
    let n: usize = coords.len();
    let mut sum: Double = Double { bits: 0 };
    let mut i: usize = 0;
    while i < n
        invariant
            i <= n,
            n == coords@.len(),
            sum == shoelace(coords@, i as nat),
        decreases n - i,
    {
        let a: Coord = coords[i];
        let b: Coord = coords[next(i, n)];
        sum = sum.added_to(a.x.multiply(b.y).subtract(b.x.multiply(a.y)));
        i = i + 1;
    }
    sum
}

/// The area of an open ring.
pub fn polygon_area(coords: &Vec<Coord>) -> (size: Double)
    ensures
        size == area(coords@),
{
    twice_signed_area(coords).magnitude_of().divide(Double { bits: TWO })
}

/// The area that the ring loses with vertex `i`.
pub open spec fn corner(coords: Seq<Coord>, i: int) -> Double {
    let n = coords.len() as int;
    triangle(coords[before(i, n)], coords[i], coords[after(i, n)])
}

/// The smallest corner among the first `upto`; of several, the first.
pub open spec fn smallest_corner(coords: Seq<Coord>, upto: nat) -> int
    decreases upto,
{
    if upto <= 1 {
        0
    } else {
        let found = smallest_corner(coords, (upto - 1) as nat);
        if total_place(corner(coords, upto - 1)) < total_place(corner(coords, found)) {
            upto - 1
        } else {
            found
        }
    }
}

/// What is left of an open ring when, again and again, its smallest corner has
/// gone, as long as `budget` covers that corner and all those before it, which
/// have used up `spent`. A ring of three vertices loses none.
pub open spec fn without_negligible(coords: Seq<Coord>, budget: Double, spent: Double) -> Seq<Coord>
    decreases coords.len(),
{
    let i = smallest_corner(coords, coords.len());
    let lost = corner(coords, i);
    if coords.len() < 4 || !(0 <= i < coords.len()) || is_less(budget, lost) || is_less(
        budget,
        plus(spent, lost),
    ) {
        coords
    } else {
        without_negligible(coords.remove(i), budget, plus(spent, lost))
    }
}

/// What may be lost of an open ring.
pub open spec fn negligible_budget(coords: Seq<Coord>) -> Double {
    times(area(coords), Double { bits: NEGLIGIBLE_VERTEX_AREA_FRACTION })
}

/// Removes the vertices that hardly matter, smallest first, measuring each
/// against the neighbours it has by then. All removals share one budget, so a
/// gentle curve is not straightened step by step.
pub fn drop_negligible_vertices(ring: &Vec<Coord>) -> (cleaned: Option<Vec<Coord>>)
    ensures
        ({
            let coords = opened(ring@);
            let left = without_negligible(coords, negligible_budget(coords), zero());
            optional_coords(cleaned) == if left.len() < 3 {
                None
            } else {
                Some(closed(left))
            }
        }),
{
    let mut coords: Vec<Coord> = open_ring(ring);
    let budget: Double = polygon_area(&coords).multiply(
        Double { bits: NEGLIGIBLE_VERTEX_AREA_FRACTION },
    );
    let ghost whole = without_negligible(coords@, budget, zero());
    let mut spent: Double = Double { bits: 0 };
    loop
        invariant
            whole == without_negligible(coords@, budget, spent),
        ensures
            whole == coords@,
        decreases coords@.len(),
    {
        let n: usize = coords.len();
        if n < 4 {
            break;
        }
        let mut smallest: usize = 0;
        let mut i: usize = 1;
        while i < n
            invariant
                1 <= i <= n,
                n == coords@.len(),
                smallest < i,
                smallest == smallest_corner(coords@, i as nat),
            decreases n - i,
        {
            let here: Double = triangle_area(coords[previous(i, n)], coords[i], coords[next(i, n)]);
            let best: Double = triangle_area(
                coords[previous(smallest, n)],
                coords[smallest],
                coords[next(smallest, n)],
            );
            if here.stands_before(best) {
                smallest = i;
            }
            i = i + 1;
        }
        let lost: Double = triangle_area(
            coords[previous(smallest, n)],
            coords[smallest],
            coords[next(smallest, n)],
        );
        let after_it: Double = spent.added_to(lost);
        if budget.less_than(lost) || budget.less_than(after_it) {
            break;
        }
        spent = after_it;
        coords.remove(smallest);
    }
    if coords.len() < 3 {
        return None;
    }
    coords.push(coords[0]);
    Some(coords)
}

} // verus!
