//! How the rings of a part are cleaned, one after another and vertex by
//! vertex.

use crate::cleaning::{
    interior_angle, needle_at, needle_step, part_without_negligible, ring_without_negligible,
    rings_left, turn_at, RingStepView,
};
use crate::exact_laws::unit;
use crate::finishing::{grazed, grazed_rings, FinishActionView, FinishStage, FinishingView};
use crate::double::{zero, Double};
use crate::geometry_laws::{
    an_area_is_measured_side_by_side, are_at, counts, lemma_zero, twice_the_area,
};
use crate::plane::Coord;
use crate::ring::{
    closed, grazes, least, least_is_the_first, opened, shoelace, without_grazing,
};
use crate::splitting::{split_part, PolygonView};
use crate::threshold_laws::{
    inside_angles_lie_within_a_turn, lemma_order, needles_are_sharper_than_five_degrees,
};
use vstd::arithmetic::power2::lemma_pow2_pos;
use vstd::prelude::*;

verus! {

/// A ring loses the first vertex that grazes an edge, and what is left loses
/// its own first one; a ring where none does stays as it is, and one that is
/// no triangle is gone.
pub proof fn the_first_grazing_vertex_goes(coords: Seq<Coord>, k: int)
    requires
        0 <= k <= coords.len(),
        forall|i: int| 0 <= i < k ==> !#[trigger] grazes(coords, i),
    ensures
        coords.len() < 3 ==> without_grazing(coords) is None,
        coords.len() >= 3 && k == coords.len() ==> without_grazing(coords) == Some(coords),
        coords.len() >= 3 && k < coords.len() && grazes(coords, k) ==> without_grazing(coords)
            == without_grazing(coords.remove(k)),
{
    let grazing = |i: int| grazes(coords, i);
    least_is_the_first(coords.len(), grazing);
    match least(coords.len(), grazing) {
        Some(i) => {
            assert(grazing(i as int));
            assert(i < k ==> !grazes(coords, i as int));
            if k < i {
                assert(!grazing(k));
            }
        },
        None => {
            if k < coords.len() {
                assert(!grazing(k));
            }
        },
    }
}

/// A ring without its grazing vertices ends where it starts; where no triangle
/// is left of it, it is gone.
pub proof fn a_grazed_ring_is_closed(ring: Seq<Coord>)
    ensures
        grazed(ring) is Some == without_grazing(opened(ring)) is Some,
        without_grazing(opened(ring)) matches Some(left) ==> grazed(ring) == Some(closed(left)),
{
}

/// Of the holes of a part, each loses its own vertices that hardly matter, in
/// order; one of which nothing is left is gone.
pub proof fn each_hole_loses_its_own_vertices(
    exterior: Seq<Coord>,
    holes: Seq<Seq<Coord>>,
    hole: Seq<Coord>,
)
    requires
        ring_without_negligible(exterior) is Some,
    ensures
        ({
            let less = part_without_negligible(PolygonView { exterior, interiors: holes });
            let more = part_without_negligible(
                PolygonView { exterior, interiors: holes.push(hole) },
            );
            &&& more.exterior == less.exterior
            &&& ring_without_negligible(hole) is None ==> more.interiors == less.interiors
            &&& ring_without_negligible(hole) matches Some(left) ==> more.interiors
                == less.interiors.push(left)
            &&& holes.len() == 0 ==> less.interiors.len() == 0
        }),
{
    let strip = |r: Seq<Coord>| ring_without_negligible(r);
    let all = holes.push(hole).map_values(strip);
    assert(all.drop_last() =~= holes.map_values(strip));
    assert(all.last() == ring_without_negligible(hole));
}

/// Whether `step` goes on to measure the turns of this ring, with these rings
/// cleaned before it and these to come.
pub open spec fn measures_next(
    step: (FinishingView, FinishActionView),
    part: PolygonView,
    ring: Seq<Coord>,
    clean: Seq<Option<Seq<Coord>>>,
    rest: Seq<Option<Seq<Coord>>>,
) -> bool {
    &&& step.0.stage == FinishStage::Turning
    &&& step.0.part == part
    &&& step.0.ring == ring
    &&& step.0.clean == clean
    &&& step.0.rest == rest
    &&& step.1 matches FinishActionView::Measure(turns) && turns.len() == ring.len() && forall|
        i: int,
    |
        0 <= i < ring.len() ==> #[trigger] turns[i] == turn_at(ring, i)
}

/// Whether `step` has the part weighed as it was, beside the part made of these
/// cleaned rings: the first is its outline, and those of the others that are
/// left are its holes.
pub open spec fn weighs_both(
    step: (FinishingView, FinishActionView),
    part: PolygonView,
    clean: Seq<Option<Seq<Coord>>>,
) -> bool {
    &&& step.0.stage == FinishStage::Comparing
    &&& step.1 matches FinishActionView::Weigh(parts) && parts == step.0.asked && parts.len() == 2
        && parts[0] == part && parts[1].exterior == clean[0]->0 && parts[1].interiors == rings_left(
        clean.skip(1),
    )
}

/// Whether `step` gives the cleaning up: the part as it was loses the vertices
/// that hardly matter and is split.
pub open spec fn keeps_as_it_was(
    step: (FinishingView, FinishActionView),
    part: PolygonView,
) -> bool {
    step.0.stage == FinishStage::Sifting && step.1 == FinishActionView::Weigh(
        split_part(part_without_negligible(part), 8),
    )
}

/// All rings of a part are to be cleaned, the outline first and the holes in
/// order, each without the vertices that graze it. Where nothing is left of
/// the outline, the part stays as it was.
pub proof fn all_rings_are_to_be_cleaned(v: FinishingView, part: PolygonView)
    ensures
        ({
            let step = v.tidy(part);
            match grazed(part.exterior) {
                Some(ring) => {
                    &&& measures_next(step, part, opened(ring), Seq::empty(), step.0.rest)
                    &&& step.0.rest.len() == part.interiors.len()
                    &&& forall|i: int|
                        0 <= i < part.interiors.len() ==> #[trigger] step.0.rest[i] == grazed(
                            part.interiors[i],
                        )
                },
                None => keeps_as_it_was(step, part),
            }
        }),
{
    reveal_with_fuel(FinishingView::next_ring, 2);
    let rest = grazed_rings(part);
    assert(rest[0] == grazed(part.exterior));
    let holes = part.interiors.map_values(|ring: Seq<Coord>| grazed(ring));
    assert(rest.skip(1) =~= holes);
}

/// A ring is measured again for as long as it loses needles. Once it has none,
/// it is clean, and the next ring is measured; after the last, the part is
/// weighed as it was and as it is when clean. A hole that is gone is left out;
/// where the outline is gone, the part stays as it was.
pub proof fn rings_are_cleaned_one_after_another(v: FinishingView, turned: Seq<Double>)
    requires
        v.clean.len() > 0 ==> v.clean[0] is Some,
    ensures
        ({
            let step = v.after_measuring(turned);
            match needle_step(v.ring, turned) {
                RingStepView::Next(left) => measures_next(step, v.part, left, v.clean, v.rest),
                RingStepView::Collapsed => {
                    &&& v.clean.len() == 0 ==> keeps_as_it_was(step, v.part)
                    &&& v.clean.len() > 0 && v.rest.len() == 0 ==> weighs_both(
                        step,
                        v.part,
                        v.clean.push(None),
                    )
                    &&& v.clean.len() > 0 && v.rest.len() > 0 && v.rest[0] is Some ==> measures_next(
                        step,
                        v.part,
                        opened(v.rest[0]->0),
                        v.clean.push(None),
                        v.rest.skip(1),
                    )
                },
                RingStepView::Done(ring) => {
                    &&& v.rest.len() == 0 ==> weighs_both(step, v.part, v.clean.push(Some(ring)))
                    &&& v.rest.len() > 0 && v.rest[0] is Some ==> measures_next(
                        step,
                        v.part,
                        opened(v.rest[0]->0),
                        v.clean.push(Some(ring)),
                        v.rest.skip(1),
                    )
                },
            }
        }),
{
    reveal_with_fuel(FinishingView::next_ring, 2);
}

/// A vertex is a needle where the angle between its sides, on the inside of
/// the ring, is less than five degrees, or less than that short of a full turn.
/// The inside of a ring whose signed area is positive, as it goes against the
/// clock, lies the other way round from its turns.
pub proof fn needles_have_hardly_any_inside(
    coords: Seq<Coord>,
    xs: Seq<int>,
    ys: Seq<int>,
    turned: Seq<Double>,
    i: int,
    k: int,
)
    requires
        are_at(coords, xs, ys),
        coords.len() <= 1024,
        counts(turned[i], k),
        -360 < k < 360,
    ensures
        ({
            let inward = if twice_the_area(xs, ys, coords.len()) > 0 {
                -k
            } else {
                k
            };
            let inside = if inward < 0 {
                inward + 360
            } else {
                inward
            };
            needle_at(coords, turned, i) <==> inside < 5 || inside > 355
        }),
{
    let twice = twice_the_area(xs, ys, coords.len());
    an_area_is_measured_side_by_side(coords, xs, ys);
    lemma_zero();
    lemma_order(zero(), shoelace(coords, coords.len()), 0, twice);
    inside_angles_lie_within_a_turn(turned[i], k, twice > 0);
    let angle = interior_angle(turned[i], twice > 0);
    needles_are_sharper_than_five_degrees(angle);
    let inward = if twice > 0 {
        -k
    } else {
        k
    };
    let inside = if inward < 0 {
        inward + 360
    } else {
        inward
    };
    assert(counts(angle, inside));
    let u = unit();
    lemma_pow2_pos(1074);
    assert((inside * u < 5 * u <==> inside < 5) && (inside * u > 355 * u <==> inside > 355))
        by (nonlinear_arith)
        requires
            u > 0,
    ;
}

} // verus!
