//! What holds of the boxes around zones, and of the pairs of zones that are
//! measured for it.

use crate::double::{is_at_most, Double};
use crate::measure::larger;
use crate::overlaps::{
    is_overlap, may_overlap, near_pairs_are_those_that_meet, overlapping, pairs_from, pairs_with,
    Bounds, Pair,
};
use crate::resolution::{resolution_start, ActionView};
use vstd::prelude::*;

verus! {

/// Whether a box has its sides the right way round, and only numbers for them.
pub open spec fn is_box(b: Bounds) -> bool {
    is_at_most(b.min_x, b.max_x) && is_at_most(b.min_y, b.max_y)
}

/// Whether a point lies in a box or on its rim.
pub open spec fn covers(b: Bounds, x: Double, y: Double) -> bool {
    is_at_most(b.min_x, x) && is_at_most(x, b.max_x) && is_at_most(b.min_y, y) && is_at_most(
        y,
        b.max_y,
    )
}

/// Whether some point lies in both of two boxes.
pub open spec fn share_a_point(a: Option<Bounds>, b: Option<Bounds>) -> bool {
    a is Some && b is Some && exists|x: Double, y: Double| #[trigger]
        covers(a->0, x, y) && covers(b->0, x, y)
}

/// Two zones may overlap exactly where the boxes around them have a point in
/// common; a zone without an outline has none in common with anything.
pub proof fn zones_may_overlap_where_their_boxes_share_a_point(
    a: Option<Bounds>,
    b: Option<Bounds>,
)
    requires
        a is Some ==> is_box(a->0),
        b is Some ==> is_box(b->0),
    ensures
        may_overlap(a, b) <==> share_a_point(a, b),
{
    if a is Some && b is Some && may_overlap(a, b) {
        let x = larger(a->0.min_x, b->0.min_x);
        let y = larger(a->0.min_y, b->0.min_y);
        assert(covers(a->0, x, y) && covers(b->0, x, y));
    }
}

/// Every two zones whose boxes have a point in common are measured for an
/// overlap at the start, and no others; each pair names the earlier zone first.
pub proof fn zones_whose_boxes_share_a_point_are_measured(bounds: Seq<Option<Bounds>>, i: int, j: int)
    requires
        bounds.len() <= usize::MAX,
        0 <= i < bounds.len(),
        0 <= j < bounds.len(),
        forall|k: int| 0 <= k < bounds.len() && (#[trigger] bounds[k]) is Some ==> is_box(bounds[k]->0),
    ensures
        resolution_start(bounds).1 matches ActionView::Measure(pairs) && (pairs.contains(
            (i as usize, j as usize),
        ) <==> i < j && share_a_point(bounds[i], bounds[j])),
{
    near_pairs_are_those_that_meet(bounds, 0);
    zones_may_overlap_where_their_boxes_share_a_point(bounds[i], bounds[j]);
    let p: Pair = (i as usize, j as usize);
    assert(pairs_from(bounds, 0).contains(p) <==> 0 <= p.0 < p.1 < bounds.len() && may_overlap(
        bounds[p.0 as int],
        bounds[p.1 as int],
    ));
}

/// Whether pair `p` comes before pair `q`.
pub open spec fn comes_before(p: Pair, q: Pair) -> bool {
    p.0 < q.0 || p.0 == q.0 && p.1 < q.1
}

/// Whether pairs stand in order, none of them twice.
pub open spec fn in_order(pairs: Seq<Pair>) -> bool {
    forall|k: int, l: int|
        0 <= k < l < pairs.len() ==> comes_before(#[trigger] pairs[k], #[trigger] pairs[l])
}

proof fn lemma_pairs_with_in_order(bounds: Seq<Option<Bounds>>, i: nat, j: nat)
    requires
        i < j,
        bounds.len() <= usize::MAX,
    ensures
        in_order(pairs_with(bounds, i, j)),
        forall|k: int|
            0 <= k < pairs_with(bounds, i, j).len() ==> (#[trigger] pairs_with(bounds, i, j)[k]).0
                == i && j <= pairs_with(bounds, i, j)[k].1 < bounds.len(),
    decreases bounds.len() - j,
{
    if j < bounds.len() {
        lemma_pairs_with_in_order(bounds, i, j + 1);
        let all = pairs_with(bounds, i, j);
        let rest = pairs_with(bounds, i, j + 1);
        if may_overlap(bounds[i as int], bounds[j as int]) {
            assert forall|k: int| 0 <= k < all.len() implies (#[trigger] all[k]).0 == i && j
                <= all[k].1 < bounds.len() by {
                if k > 0 {
                    assert(all[k] == rest[k - 1]);
                }
            }
            assert forall|k: int, l: int| 0 <= k < l < all.len() implies comes_before(
                #[trigger] all[k],
                #[trigger] all[l],
            ) by {
                assert(all[l] == rest[l - 1]);
                if k > 0 {
                    assert(all[k] == rest[k - 1]);
                }
            }
        }
    }
}

/// The pairs that are measured stand in order, by the earlier zone and then by
/// the later, and none of them twice.
pub proof fn pairs_are_measured_in_order(bounds: Seq<Option<Bounds>>, i: nat)
    requires
        bounds.len() <= usize::MAX,
    ensures
        in_order(pairs_from(bounds, i)),
    decreases bounds.len() - i,
{
    if i < bounds.len() {
        pairs_are_measured_in_order(bounds, i + 1);
        near_pairs_are_those_that_meet(bounds, i + 1);
        lemma_pairs_with_in_order(bounds, i, i + 1);
        let first = pairs_with(bounds, i, i + 1);
        let rest = pairs_from(bounds, i + 1);
        let all = pairs_from(bounds, i);
        assert forall|k: int, l: int| 0 <= k < l < all.len() implies comes_before(
            #[trigger] all[k],
            #[trigger] all[l],
        ) by {
            if l < first.len() {
                assert(all[k] == first[k] && all[l] == first[l]);
            } else {
                assert(all[l] == rest[l - first.len()]);
                assert(rest.contains(all[l]));
                if k < first.len() {
                    assert(all[k] == first[k]);
                } else {
                    assert(all[k] == rest[k - first.len()]);
                }
            }
        }
    }
}

/// Of the pairs measured, those overlap whose zones share an area that counts:
/// with each pair's area beside it, a pair is among them exactly where an area
/// of its own counts.
pub proof fn pairs_overlap_by_their_own_areas(pairs: Seq<Pair>, areas: Seq<Double>, p: Pair)
    requires
        pairs.len() <= areas.len(),
    ensures
        overlapping(pairs, areas).contains(p) <==> exists|k: int|
            0 <= k < pairs.len() && #[trigger] pairs[k] == p && is_overlap(areas[k]),
    decreases pairs.len(),
{
    if pairs.len() > 0 {
        let less = pairs.drop_last();
        pairs_overlap_by_their_own_areas(less, areas, p);
        let n = less.len() as int;
        let before = overlapping(less, areas);
        let all = overlapping(pairs, areas);
        if before.contains(p) {
            let k = choose|k: int| 0 <= k < before.len() && before[k] == p;
            assert(all[k] == p);
            let m = choose|m: int|
                0 <= m < less.len() && #[trigger] less[m] == p && is_overlap(areas[m]);
            assert(pairs[m] == p);
        }
        if is_overlap(areas[n]) && pairs[n] == p {
            assert(all[all.len() - 1] == p);
        }
        if all.contains(p) && !before.contains(p) {
            let k = choose|k: int| 0 <= k < all.len() && all[k] == p;
            if k < before.len() {
                assert(before[k] == p);
            }
            assert(pairs[n] == p && is_overlap(areas[n]));
        }
        if exists|k: int| 0 <= k < pairs.len() && #[trigger] pairs[k] == p && is_overlap(areas[k]) {
            let m = choose|m: int|
                0 <= m < pairs.len() && #[trigger] pairs[m] == p && is_overlap(areas[m]);
            if m < n {
                assert(less[m] == p);
            }
        }
    }
}

} // verus!
