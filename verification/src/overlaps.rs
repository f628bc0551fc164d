//! Which zones overlap.

use crate::double::{is_at_most, is_less, Double};
use crate::product::over;
use vstd::prelude::*;

verus! {

/// The area, by bit pattern, up to which two zones are not taken to overlap: a
/// square millimetre.
pub const OVERLAP_AREA_THRESHOLD_M2: u64 = 0x3eb0_c6f7_a0b5_ed8d;

/// The square metres, by bit pattern, that a square degree of longitude and
/// latitude is taken for: 84,000 times 111,000.
pub const SQUARE_METERS_PER_SQUARE_DEGREE: u64 = 0x4201_5e07_9800_0000;

/// Whether zones that share this area overlap.
pub open spec fn is_overlap(area: Double) -> bool {
    is_less(Double { bits: OVERLAP_AREA_THRESHOLD_M2 }, area)
}

/// Whether zones that share this area overlap.
pub fn overlaps(area: Double) -> (overlap: bool)
    ensures
        overlap == is_overlap(area),
{
    (Double { bits: OVERLAP_AREA_THRESHOLD_M2 }).less_than(area)
}

/// The smallest box around what is drawn for a zone.
#[derive(Clone, Copy, Debug, PartialEq, Eq, Structural)]
pub struct Bounds {
    pub min_x: Double,
    pub min_y: Double,
    pub max_x: Double,
    pub max_y: Double,
}

/// Whether two boxes meet.
pub open spec fn boxes_meet(a: Bounds, b: Bounds) -> bool {
    is_at_most(a.min_x, b.max_x) && is_at_most(b.min_x, a.max_x) && is_at_most(a.min_y, b.max_y)
        && is_at_most(b.min_y, a.max_y)
}

/// Whether two zones are near enough to overlap: there is something drawn for
/// both, and the boxes around it meet.
pub open spec fn may_overlap(a: Option<Bounds>, b: Option<Bounds>) -> bool {
    match (a, b) {
        (Some(a), Some(b)) => boxes_meet(a, b),
        _ => false,
    }
}

/// Whether two zones are near enough to overlap.
pub fn boxes_overlap(a: Option<Bounds>, b: Option<Bounds>) -> (near: bool)
    ensures
        near == may_overlap(a, b),
{
    match (a, b) {
        (Some(a), Some(b)) => a.min_x.at_most(b.max_x) && b.min_x.at_most(a.max_x)
            && a.min_y.at_most(b.max_y) && b.min_y.at_most(a.max_y),
        _ => false,
    }
}

/// Two zones by their positions.
pub type Pair = (usize, usize);

/// The zones from `j` on that are near zone `i`, as pairs with it.
pub open spec fn pairs_with(bounds: Seq<Option<Bounds>>, i: nat, j: nat) -> Seq<Pair>
    decreases bounds.len() - j,
{
    if j >= bounds.len() {
        Seq::empty()
    } else if may_overlap(bounds[i as int], bounds[j as int]) {
        seq![(i as usize, j as usize)] + pairs_with(bounds, i, j + 1)
    } else {
        pairs_with(bounds, i, j + 1)
    }
}

/// The pairs of near zones, each once, from zone `i` on.
pub open spec fn pairs_from(bounds: Seq<Option<Bounds>>, i: nat) -> Seq<Pair>
    decreases bounds.len() - i,
{
    if i >= bounds.len() {
        Seq::empty()
    } else {
        pairs_with(bounds, i, i + 1) + pairs_from(bounds, i + 1)
    }
}

/// The pairs of zones that are near enough to overlap, each once.
pub fn near_pairs(bounds: &Vec<Option<Bounds>>) -> (pairs: Vec<Pair>)
    ensures
        pairs@ == pairs_from(bounds@, 0),
{
    let mut pairs: Vec<Pair> = Vec::new();
    let ghost all = pairs_from(bounds@, 0);
    assert(pairs@ + all =~= all);
    let mut i: usize = 0;
    while i < bounds.len()
        invariant
            i <= bounds@.len(),
            all == pairs@ + pairs_from(bounds@, i as nat),
        decreases bounds@.len() - i,
    {
        let ghost rest = pairs_from(bounds@, (i + 1) as nat);
        assert(pairs@ + (pairs_with(bounds@, i as nat, (i + 1) as nat) + rest) =~= pairs@
            + pairs_with(bounds@, i as nat, (i + 1) as nat) + rest);
        let mut j: usize = i + 1;
        while j < bounds.len()
            invariant
                i < bounds@.len(),
                i + 1 <= j <= bounds@.len(),
                all == pairs@ + pairs_with(bounds@, i as nat, j as nat) + rest,
            decreases bounds@.len() - j,
        {
            let ghost listed = pairs@;
            let ghost beyond = pairs_with(bounds@, i as nat, (j + 1) as nat);
            if boxes_overlap(bounds[i], bounds[j]) {
                pairs.push((i, j));
                assert(listed + (seq![(i, j)] + beyond) + rest =~= pairs@ + beyond + rest);
            }
            j = j + 1;
        }
        assert(pairs@ + pairs_with(bounds@, i as nat, j as nat) + rest =~= pairs@ + rest);
        i = i + 1;
    }
    assert(pairs@ + pairs_from(bounds@, i as nat) =~= pairs@);
    pairs
}

/// The pairs whose shared area is an overlap.
pub open spec fn overlapping(pairs: Seq<Pair>, areas: Seq<Double>) -> Seq<Pair>
    decreases pairs.len(),
{
    if pairs.len() == 0 {
        Seq::empty()
    } else {
        let before = overlapping(pairs.drop_last(), areas);
        if is_overlap(areas[pairs.len() - 1]) {
            before.push(pairs.last())
        } else {
            before
        }
    }
}

/// Those of the pairs, which share these areas, that overlap.
pub fn still_overlapping(pairs: &Vec<Pair>, areas: &Vec<Double>) -> (left: Vec<Pair>)
    requires
        areas@.len() == pairs@.len(),
    ensures
        left@ == overlapping(pairs@, areas@),
{
    let mut left: Vec<Pair> = Vec::new();
    assert(pairs@.take(0) =~= Seq::empty());
    let mut i: usize = 0;
    while i < pairs.len()
        invariant
            i <= pairs@.len(),
            areas@.len() == pairs@.len(),
            left@ == overlapping(pairs@.take(i as int), areas@),
        decreases pairs@.len() - i,
    {
        assert(pairs@.take(i + 1).drop_last() =~= pairs@.take(i as int));
        assert(pairs@.take(i + 1).last() == pairs@[i as int]);
        if overlaps(areas[i]) {
            left.push(pairs[i]);
        }
        i = i + 1;
    }
    assert(pairs@.take(pairs@.len() as int) =~= pairs@);
    left
}

/// The ids of both zones of a pair, where both have one.
pub open spec fn ids_of_pair(ids: Seq<Option<String>>, pair: Pair) -> Option<(Seq<char>, Seq<char>)> {
    match (ids[pair.0 as int], ids[pair.1 as int]) {
        (Some(a), Some(b)) => Some((a@, b@)),
        _ => None,
    }
}

/// The ids of the zones of the pairs that share more than `threshold`.
pub open spec fn overlapping_ids(
    ids: Seq<Option<String>>,
    pairs: Seq<Pair>,
    areas: Seq<Double>,
    threshold: Double,
) -> Seq<(Seq<char>, Seq<char>)>
    decreases pairs.len(),
{
    if pairs.len() == 0 {
        Seq::empty()
    } else {
        let before = overlapping_ids(ids, pairs.drop_last(), areas, threshold);
        match ids_of_pair(ids, pairs.last()) {
            Some(named) => if is_less(threshold, areas[pairs.len() - 1]) {
                before.push(named)
            } else {
                before
            },
            None => before,
        }
    }
}

/// What a list of pairs of ids says.
pub open spec fn id_pair_views(list: Seq<(String, String)>) -> Seq<(Seq<char>, Seq<char>)> {
    Seq::new(list.len(), |i: int| (list[i].0@, list[i].1@))
}

/// Whether every pair is one of `count` zones.
pub open spec fn pairs_within(pairs: Seq<Pair>, count: nat) -> bool {
    forall|i: int| 0 <= i < pairs.len() ==> (#[trigger] pairs[i]).0 < count && pairs[i].1 < count
}

/// The ids of the zones of the pairs, which share these areas in square
/// degrees, that share more than `min_area_m2` square metres.
pub fn overlapping_zone_ids_larger_than(
    ids: &Vec<Option<String>>,
    pairs: &Vec<Pair>,
    areas: &Vec<Double>,
    min_area_m2: Double,
) -> (found: Vec<(String, String)>)
    requires
        areas@.len() == pairs@.len(),
        pairs_within(pairs@, ids@.len()),
    ensures
        id_pair_views(found@) == overlapping_ids(
            ids@,
            pairs@,
            areas@,
            over(min_area_m2, Double { bits: SQUARE_METERS_PER_SQUARE_DEGREE }),
        ),
{
    let threshold: Double = min_area_m2.divide(Double { bits: SQUARE_METERS_PER_SQUARE_DEGREE });
    let mut found: Vec<(String, String)> = Vec::new();
    assert(pairs@.take(0) =~= Seq::empty());
    assert(id_pair_views(found@) =~= Seq::empty());
    let mut i: usize = 0;
    while i < pairs.len()
        invariant
            i <= pairs@.len(),
            areas@.len() == pairs@.len(),
            pairs_within(pairs@, ids@.len()),
            id_pair_views(found@) == overlapping_ids(
                ids@,
                pairs@.take(i as int),
                areas@,
                threshold,
            ),
        decreases pairs@.len() - i,
    {
        assert(pairs@.take(i + 1).drop_last() =~= pairs@.take(i as int));
        assert(pairs@.take(i + 1).last() == pairs@[i as int]);
        let (a, b) = pairs[i];
        match (&ids[a], &ids[b]) {
            (Some(first), Some(second)) => {
                if threshold.less_than(areas[i]) {
                    let ghost listed = id_pair_views(found@);
                    found.push((first.clone(), second.clone()));
                    assert(id_pair_views(found@) =~= listed.push((first@, second@)));
                }
            },
            _ => {},
        }
        i = i + 1;
    }
    assert(pairs@.take(pairs@.len() as int) =~= pairs@);
    found
}

/// The ids of the zones of the pairs, which share these areas in square
/// degrees, that overlap.
pub fn overlapping_zone_ids(
    ids: &Vec<Option<String>>,
    pairs: &Vec<Pair>,
    areas: &Vec<Double>,
) -> (found: Vec<(String, String)>)
    requires
        areas@.len() == pairs@.len(),
        pairs_within(pairs@, ids@.len()),
    ensures
        id_pair_views(found@) == overlapping_ids(
            ids@,
            pairs@,
            areas@,
            over(
                Double { bits: OVERLAP_AREA_THRESHOLD_M2 },
                Double { bits: SQUARE_METERS_PER_SQUARE_DEGREE },
            ),
        ),
{
    overlapping_zone_ids_larger_than(
        ids,
        pairs,
        areas,
        Double { bits: OVERLAP_AREA_THRESHOLD_M2 },
    )
}

proof fn lemma_pairs_with(bounds: Seq<Option<Bounds>>, i: nat, j: nat)
    requires
        i < j,
        bounds.len() <= usize::MAX,
    ensures
        forall|p: Pair| #[trigger]
            pairs_with(bounds, i, j).contains(p) <==> p.0 == i && j <= p.1 < bounds.len()
                && may_overlap(bounds[p.0 as int], bounds[p.1 as int]),
    decreases bounds.len() - j,
{
    let list = pairs_with(bounds, i, j);
    if j < bounds.len() {
        lemma_pairs_with(bounds, i, j + 1);
        let rest = pairs_with(bounds, i, j + 1);
        let here = (i as usize, j as usize);
        assert forall|p: Pair| #[trigger]
            list.contains(p) <==> p.0 == i && j <= p.1 < bounds.len() && may_overlap(
                bounds[p.0 as int],
                bounds[p.1 as int],
            ) by {
            assert(rest.contains(p) <==> p.0 == i && j + 1 <= p.1 < bounds.len() && may_overlap(
                bounds[p.0 as int],
                bounds[p.1 as int],
            ));
            if may_overlap(bounds[i as int], bounds[j as int]) {
                assert(list[0] == here);
                if rest.contains(p) {
                    let k = choose|k: int| 0 <= k < rest.len() && rest[k] == p;
                    assert(list[k + 1] == p);
                }
                if list.contains(p) && p != here {
                    let k = choose|k: int| 0 <= k < list.len() && list[k] == p;
                    assert(rest[k - 1] == p);
                }
                if p.0 == i && p.1 == j {
                    assert(p == here);
                }
            }
        }
    }
}

/// Every two zones that are near enough to overlap are looked at, and no
/// others; each pair names the earlier zone first.
pub proof fn near_pairs_are_those_that_meet(bounds: Seq<Option<Bounds>>, i: nat)
    requires
        bounds.len() <= usize::MAX,
    ensures
        forall|p: Pair| #[trigger]
            pairs_from(bounds, i).contains(p) <==> i <= p.0 < p.1 < bounds.len() && may_overlap(
                bounds[p.0 as int],
                bounds[p.1 as int],
            ),
    decreases bounds.len() - i,
{
    if i < bounds.len() {
        near_pairs_are_those_that_meet(bounds, i + 1);
        lemma_pairs_with(bounds, i, i + 1);
        let first = pairs_with(bounds, i, i + 1);
        let rest = pairs_from(bounds, i + 1);
        let all = pairs_from(bounds, i);
        assert forall|p: Pair| #[trigger]
            all.contains(p) <==> i <= p.0 < p.1 < bounds.len() && may_overlap(
                bounds[p.0 as int],
                bounds[p.1 as int],
            ) by {
            assert(all.contains(p) <==> first.contains(p) || rest.contains(p)) by {
                if first.contains(p) {
                    let k = choose|k: int| 0 <= k < first.len() && first[k] == p;
                    assert(all[k] == p);
                }
                if rest.contains(p) {
                    let k = choose|k: int| 0 <= k < rest.len() && rest[k] == p;
                    assert(all[first.len() + k] == p);
                }
                if all.contains(p) {
                    let k = choose|k: int| 0 <= k < all.len() && all[k] == p;
                    if k < first.len() {
                        assert(first[k] == p);
                    } else {
                        assert(rest[k - first.len()] == p);
                    }
                }
            }
        }
    }
}

} // verus!
