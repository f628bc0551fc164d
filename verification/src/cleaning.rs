//! Cleaning the rings of a polygon: needles, vertices that hardly matter, and
//! the grid that vertices lie on.

use crate::double::{is_at_most, is_less, minus, negated, plus, zero, Double};
use crate::measure::absolute;
use crate::plane::Coord;
use crate::product::times;
use crate::ring::{
    after, before, closed, copy_coords, drop_negligible_vertices, least, least_is_the_first,
    lemma_least, negligible_budget, next, opened, optional_coords, previous, shoelace,
    twice_signed_area, without_negligible,
};
use crate::splitting::{ring_views, Polygon, PolygonView};
use vstd::prelude::*;

verus! {

/// The area, by bit pattern, that cleaning a part may add or take: 0.01 square
/// metres.
pub const MAX_CLEANUP_AREA_DRIFT_M2: u64 = 0x3f84_7ae1_47ae_147b;

/// The least angle of a corner, in degrees, by bit pattern: 5.
pub const MIN_INTERIOR_ANGLE_DEGREES: u64 = 0x4014_0000_0000_0000;

/// The greatest angle of a corner, in degrees, by bit pattern: 355.
pub const MAX_INTERIOR_ANGLE_DEGREES: u64 = 0x4076_3000_0000_0000;

/// A full turn in degrees, by bit pattern.
pub const FULL_TURN_DEGREES: u64 = 0x4076_8000_0000_0000;

/// What an angle at a corner is measured from: the cross and the dot product
/// of the vectors to its neighbours.
#[derive(Clone, Copy, Debug, PartialEq, Eq, Structural)]
pub struct Turn {
    pub cross: Double,
    pub dot: Double,
}

/// The turn at vertex `i`.
pub open spec fn turn_at(coords: Seq<Coord>, i: int) -> Turn {
    let n = coords.len() as int;
    let a = coords[before(i, n)];
    let b = coords[i];
    let c = coords[after(i, n)];
    let ux = minus(a.x, b.x);
    let uy = minus(a.y, b.y);
    let vx = minus(c.x, b.x);
    let vy = minus(c.y, b.y);
    Turn {
        cross: minus(times(ux, vy), times(uy, vx)),
        dot: plus(times(ux, vx), times(uy, vy)),
    }
}

/// The turns at the vertices of an open ring.
pub fn turns(coords: &Vec<Coord>) -> (turns: Vec<Turn>)
    ensures
        turns@.len() == coords@.len(),
        forall|i: int| 0 <= i < coords@.len() ==> #[trigger] turns@[i] == turn_at(coords@, i),
{
    let n: usize = coords.len();
    let mut turns: Vec<Turn> = Vec::new();
    let mut i: usize = 0;
    while i < n
        invariant
            i <= n,
            n == coords@.len(),
            turns@.len() == i,
            forall|k: int| 0 <= k < i ==> #[trigger] turns@[k] == turn_at(coords@, k),
        decreases n - i,
    {
        let a: Coord = coords[previous(i, n)];
        let b: Coord = coords[i];
        let c: Coord = coords[next(i, n)];
        let ux: Double = a.x.subtract(b.x);
        let uy: Double = a.y.subtract(b.y);
        let vx: Double = c.x.subtract(b.x);
        let vy: Double = c.y.subtract(b.y);
        turns.push(
            Turn {
                cross: ux.multiply(vy).subtract(uy.multiply(vx)),
                dot: ux.multiply(vx).added_to(uy.multiply(vy)),
            },
        );
        i = i + 1;
    }
    turns
}

/// The interior angle, in degrees, where the turn measures `turned` degrees
/// and the ring runs counterclockwise, or not.
pub open spec fn interior_angle(turned: Double, counterclockwise: bool) -> Double {
    let angle = if counterclockwise {
        negated(turned)
    } else {
        turned
    };
    if is_less(angle, zero()) {
        plus(angle, Double { bits: FULL_TURN_DEGREES })
    } else {
        angle
    }
}

/// Whether a corner of this angle is a needle: the boundary runs out to it and
/// straight back.
pub open spec fn is_needle(angle: Double) -> bool {
    !(is_at_most(Double { bits: MIN_INTERIOR_ANGLE_DEGREES }, angle) && is_at_most(
        angle,
        Double { bits: MAX_INTERIOR_ANGLE_DEGREES },
    ))
}

/// What comes of an open ring that is being cleaned.
#[derive(Debug, PartialEq, Eq)]
pub enum RingStep {
    /// No triangle is left of it.
    Collapsed,
    /// It has lost a vertex and is to be looked at again.
    Next(Vec<Coord>),
    /// It is clean; here it is, closed.
    Done(Vec<Coord>),
}

/// What a [`RingStep`] says.
pub enum RingStepView {
    Collapsed,
    Next(Seq<Coord>),
    Done(Seq<Coord>),
}

impl View for RingStep {
    type V = RingStepView;

    open spec fn view(&self) -> RingStepView {
        match self {
            RingStep::Collapsed => RingStepView::Collapsed,
            RingStep::Next(ring) => RingStepView::Next(ring@),
            RingStep::Done(ring) => RingStepView::Done(ring@),
        }
    }
}

/// Whether vertex `i`, whose turn measures `turned[i]` degrees, is a needle.
pub open spec fn needle_at(coords: Seq<Coord>, turned: Seq<Double>, i: int) -> bool {
    is_needle(interior_angle(turned[i], is_less(zero(), shoelace(coords, coords.len()))))
}

/// The first needle of a ring where the turns at its vertices measure `turned`
/// degrees.
pub open spec fn first_needle(coords: Seq<Coord>, turned: Seq<Double>) -> Option<nat> {
    least(coords.len(), |i: int| needle_at(coords, turned, i))
}

/// What comes of an open ring that is to lose its needles: its first needle
/// goes.
pub open spec fn needle_step(coords: Seq<Coord>, turned: Seq<Double>) -> RingStepView {
    if coords.len() < 3 {
        RingStepView::Collapsed
    } else {
        match first_needle(coords, turned) {
            Some(i) => RingStepView::Next(coords.remove(i as int)),
            None => RingStepView::Done(closed(coords)),
        }
    }
}

/// Removes the first needle of an open ring where the turns at its vertices
/// measure `turned` degrees. Cutting a needle can leave its neighbour one, so
/// the ring that is left is to be looked at again.
pub fn drop_needle_vertex(coords: &Vec<Coord>, turned: &Vec<Double>) -> (step: RingStep)
    requires
        turned@.len() == coords@.len(),
    ensures
        step@ == needle_step(coords@, turned@),
{
    let n: usize = coords.len();
    if n < 3 {
        return RingStep::Collapsed;
    }
    let nothing: Double = Double { bits: 0 };
    let counterclockwise: bool = nothing.less_than(twice_signed_area(coords));
    let ghost needle = |k: int| needle_at(coords@, turned@, k);
    let mut left: Vec<Coord> = copy_coords(coords);
    let mut i: usize = 0;
    while i < n
        invariant
            3 <= n,
            i <= n,
            n == coords@.len(),
            n == turned@.len(),
            left@ == coords@,
            nothing == zero(),
            counterclockwise == is_less(zero(), shoelace(coords@, coords@.len())),
            needle == (|k: int| needle_at(coords@, turned@, k)),
            least(i as nat, needle) is None,
        decreases n - i,
    {
        let signed_angle: Double = if counterclockwise {
            turned[i].negate()
        } else {
            turned[i]
        };
        let angle: Double = if signed_angle.less_than(nothing) {
            signed_angle.added_to(Double { bits: FULL_TURN_DEGREES })
        } else {
            signed_angle
        };
        let fine: bool = (Double { bits: MIN_INTERIOR_ANGLE_DEGREES }).at_most(angle)
            && angle.at_most(Double { bits: MAX_INTERIOR_ANGLE_DEGREES });
        if !fine {
            proof {
                assert(needle(i as int));
                lemma_least(n as nat, needle, i as nat);
            }
            left.remove(i);
            return RingStep::Next(left);
        }
        assert(!needle(i as int));
        i = i + 1;
    }
    left.push(coords[0]);
    RingStep::Done(left)
}

/// Cutting needles comes to an end, since each cut leaves one vertex fewer,
/// and it ends with a ring that has none.
pub proof fn cutting_needles_ends(coords: Seq<Coord>, turned: Seq<Double>)
    ensures
        match needle_step(coords, turned) {
            RingStepView::Collapsed => coords.len() < 3,
            RingStepView::Next(left) => left.len() < coords.len(),
            RingStepView::Done(ring) => ring == closed(coords) && forall|i: int|
                0 <= i < coords.len() ==> !(#[trigger] needle_at(coords, turned, i)),
        },
{
    let needle = |i: int| needle_at(coords, turned, i);
    least_is_the_first(coords.len(), needle);
    assert forall|i: int|
        0 <= i < coords.len() && first_needle(coords, turned) is None implies !(
    #[trigger] needle_at(coords, turned, i)) by {
        assert(!needle(i));
    }
}

/// Those of the rings that are left, in order.
pub open spec fn rings_left(rings: Seq<Option<Seq<Coord>>>) -> Seq<Seq<Coord>>
    decreases rings.len(),
{
    if rings.len() == 0 {
        Seq::empty()
    } else {
        match rings.last() {
            Some(ring) => rings_left(rings.drop_last()).push(ring),
            None => rings_left(rings.drop_last()),
        }
    }
}

/// What a list of optional rings says.
pub open spec fn optional_ring_views(rings: Seq<Option<Vec<Coord>>>) -> Seq<Option<Seq<Coord>>> {
    Seq::new(rings.len(), |i: int| optional_coords(rings[i]))
}

/// The polygon of a ring that is left and of those of its holes that are left.
pub fn polygon_left(exterior: Vec<Coord>, interiors: Vec<Option<Vec<Coord>>>) -> (part: Polygon)
    ensures
        part@ == (PolygonView {
            exterior: exterior@,
            interiors: rings_left(optional_ring_views(interiors@)),
        }),
{
    let ghost views = optional_ring_views(interiors@);
    let mut kept: Vec<Vec<Coord>> = Vec::new();
    assert(views.take(0) =~= Seq::empty());
    assert(ring_views(kept@) =~= Seq::empty());
    let mut i: usize = 0;
    while i < interiors.len()
        invariant
            i <= interiors@.len(),
            views == optional_ring_views(interiors@),
            ring_views(kept@) == rings_left(views.take(i as int)),
        decreases interiors@.len() - i,
    {
        assert(views.take(i + 1).drop_last() =~= views.take(i as int));
        assert(views.take(i + 1).last() == optional_coords(interiors@[i as int]));
        match &interiors[i] {
            Some(ring) => {
                let copy: Vec<Coord> = copy_coords(ring);
                let ghost listed = ring_views(kept@);
                let ghost added = copy@;
                kept.push(copy);
                assert(ring_views(kept@) =~= listed.push(added));
            },
            None => {},
        }
        i = i + 1;
    }
    assert(views.take(views.len() as int) =~= views);
    Polygon { exterior, interiors: kept }
}

/// Whether the area of a part has changed by more than cleaning it may.
pub open spec fn drifts(area_before: Double, area_after: Double) -> bool {
    is_less(
        Double { bits: MAX_CLEANUP_AREA_DRIFT_M2 },
        absolute(minus(area_after, area_before)),
    )
}

/// The cleaned part, unless its area has changed by more than cleaning may
/// change it: such a change gives back ground that was taken from the zone on
/// purpose.
pub fn cleaned_or_kept(
    part: Polygon,
    cleaned: Polygon,
    area_before: Double,
    area_after: Double,
) -> (kept: Polygon)
    ensures
        kept@ == if drifts(area_before, area_after) {
            part@
        } else {
            cleaned@
        },
{
    let change: Double = area_after.subtract(area_before).magnitude_of();
    if (Double { bits: MAX_CLEANUP_AREA_DRIFT_M2 }).less_than(change) {
        part
    } else {
        cleaned
    }
}

/// A ring without the vertices that hardly matter.
pub open spec fn ring_without_negligible(ring: Seq<Coord>) -> Option<Seq<Coord>> {
    let coords = opened(ring);
    let left = without_negligible(coords, negligible_budget(coords), zero());
    if left.len() < 3 {
        None
    } else {
        Some(closed(left))
    }
}

/// A part without the vertices that hardly matter; as it is where nothing of
/// its ring would be left.
pub open spec fn part_without_negligible(part: PolygonView) -> PolygonView {
    match ring_without_negligible(part.exterior) {
        Some(exterior) => PolygonView {
            exterior,
            interiors: rings_left(
                part.interiors.map_values(|ring: Seq<Coord>| ring_without_negligible(ring)),
            ),
        },
        None => part,
    }
}

/// Removes the vertices that hardly matter from every ring of a part.
pub fn drop_negligible_vertices_everywhere_in(part: Polygon) -> (cleaned: Polygon)
    ensures
        cleaned@ == part_without_negligible(part@),
{
    match drop_negligible_vertices(&part.exterior) {
        Some(exterior) => {
            let ghost views = part@.interiors.map_values(
                |ring: Seq<Coord>| ring_without_negligible(ring),
            );
            let mut interiors: Vec<Option<Vec<Coord>>> = Vec::new();
            let mut i: usize = 0;
            while i < part.interiors.len()
                invariant
                    i <= part.interiors@.len(),
                    interiors@.len() == i,
                    forall|k: int|
                        0 <= k < i ==> optional_coords(#[trigger] interiors@[k])
                            == ring_without_negligible(part.interiors@[k]@),
                decreases part.interiors@.len() - i,
            {
                interiors.push(drop_negligible_vertices(&part.interiors[i]));
                i = i + 1;
            }
            assert(optional_ring_views(interiors@) =~= views);
            polygon_left(exterior, interiors)
        },
        None => part,
    }
}

} // verus!
