//! What holds of cleaned rings.

use crate::double::{is_less, plus, Double};
use crate::plane::{margin, Coord};
use crate::ring::{
    corner, edge_distance, grazes, is_near_edge, least, least_is_the_first, near_touch,
    smallest_corner, touched_edge, touches, without_grazing, without_negligible,
};
use vstd::prelude::*;

verus! {

/// A vertex that is found to touch an edge lies within the margin of it, and
/// is neither an end of that edge nor next to one.
pub proof fn a_touch_is_never_beside_its_edge(coords: Seq<Coord>)
    ensures
        match near_touch(coords) {
            Some((k, i, _)) => {
                &&& k < coords.len()
                &&& i < coords.len()
                &&& !is_near_edge(k as int, i as int, coords.len() as int)
                &&& is_less(edge_distance(coords, k as int, i as int), margin())
            },
            None => forall|k: int, i: int|
                0 <= k < coords.len() && 0 <= i < coords.len() ==> !(#[trigger] touches(
                    coords,
                    k,
                    i,
                )),
        },
{
    let touched = |k: int| touched_edge(coords, k) is Some;
    least_is_the_first(coords.len(), touched);
    match near_touch(coords) {
        Some((k, _, _)) => {
            assert(touched(k as int));
            least_is_the_first(coords.len(), |i: int| touches(coords, k as int, i));
        },
        None => {
            assert forall|k: int, i: int|
                0 <= k < coords.len() && 0 <= i < coords.len() implies !(#[trigger] touches(
                coords,
                k,
                i,
            )) by {
                assert(!touched(k));
                let touch = |i: int| touches(coords, k, i);
                least_is_the_first(coords.len(), touch);
                assert(!touch(i));
            }
        },
    }
}

/// Whether every vertex of `part` is one of `whole`.
pub open spec fn vertices_from(part: Seq<Coord>, whole: Seq<Coord>) -> bool {
    forall|i: int| 0 <= i < part.len() ==> whole.contains(#[trigger] part[i])
}

proof fn lemma_removing_keeps_vertices(coords: Seq<Coord>, k: int, part: Seq<Coord>)
    requires
        0 <= k < coords.len(),
        vertices_from(part, coords.remove(k)),
    ensures
        vertices_from(part, coords),
{
    let left = coords.remove(k);
    assert forall|i: int| 0 <= i < part.len() implies coords.contains(#[trigger] part[i]) by {
        assert(left.contains(part[i]));
        let j = choose|j: int| 0 <= j < left.len() && left[j] == part[i];
        if j < k {
            assert(coords[j] == part[i]);
        } else {
            assert(coords[j + 1] == part[i]);
        }
    }
}

/// A ring that has lost its grazing vertices has none left. It is at least a
/// triangle, and all its vertices are the ring's own.
pub proof fn no_grazing_vertex_is_left(coords: Seq<Coord>)
    ensures
        match without_grazing(coords) {
            Some(left) => {
                &&& left.len() >= 3
                &&& vertices_from(left, coords)
                &&& forall|k: int| 0 <= k < left.len() ==> !(#[trigger] grazes(left, k))
            },
            None => true,
        },
    decreases coords.len(),
{
    if coords.len() >= 3 {
        let grazing = |k: int| grazes(coords, k);
        least_is_the_first(coords.len(), grazing);
        match least(coords.len(), grazing) {
            Some(k) => {
                no_grazing_vertex_is_left(coords.remove(k as int));
                match without_grazing(coords) {
                    Some(left) => {
                        lemma_removing_keeps_vertices(coords, k as int, left);
                    },
                    None => {},
                }
            },
            None => {
                assert forall|k: int| 0 <= k < coords.len() implies !(#[trigger] grazes(
                    coords,
                    k,
                )) by {
                    assert(!grazing(k));
                }
                assert forall|i: int| 0 <= i < coords.len() implies coords.contains(
                    #[trigger] coords[i],
                ) by {}
            },
        }
    }
}

/// The area that a ring loses with the vertices that hardly matter, on top of
/// `spent`.
pub open spec fn area_spent(coords: Seq<Coord>, budget: Double, spent: Double) -> Double
    decreases coords.len(),
{
    let i = smallest_corner(coords, coords.len());
    let lost = corner(coords, i);
    if coords.len() < 4 || !(0 <= i < coords.len()) || is_less(budget, lost) || is_less(
        budget,
        plus(spent, lost),
    ) {
        spent
    } else {
        area_spent(coords.remove(i), budget, plus(spent, lost))
    }
}

/// Removing the vertices that hardly matter never spends more than the budget
/// and never breaks up a triangle. All the vertices that are left are the
/// ring's own.
pub proof fn removals_stay_within_the_budget(coords: Seq<Coord>, budget: Double, spent: Double)
    requires
        !is_less(budget, spent),
    ensures
        !is_less(budget, area_spent(coords, budget, spent)),
        vertices_from(without_negligible(coords, budget, spent), coords),
        coords.len() >= 3 ==> without_negligible(coords, budget, spent).len() >= 3,
        coords.len() < 4 ==> without_negligible(coords, budget, spent) == coords,
    decreases coords.len(),
{
    let i = smallest_corner(coords, coords.len());
    let lost = corner(coords, i);
    let kept = without_negligible(coords, budget, spent);
    if coords.len() < 4 || !(0 <= i < coords.len()) || is_less(budget, lost) || is_less(
        budget,
        plus(spent, lost),
    ) {
        assert forall|i: int| 0 <= i < coords.len() implies coords.contains(
            #[trigger] coords[i],
        ) by {}
    } else {
        removals_stay_within_the_budget(coords.remove(i), budget, plus(spent, lost));
        lemma_removing_keeps_vertices(coords, i, kept);
    }
}

} // verus!
