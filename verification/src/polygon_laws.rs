//! What holds of the parts of a zone that are kept.

use crate::double::Double;
use crate::measure::total_place;
use crate::polygons::{is_worth_keeping, largest, part_to_keep, parts_worth_keeping};
use crate::ring::{least, least_is_the_first};
use crate::splitting::PolygonView;
use vstd::prelude::*;

verus! {

proof fn lemma_largest(areas: Seq<Double>, upto: nat)
    requires
        0 < upto <= areas.len(),
    ensures
        0 <= largest(areas, upto) < upto,
        forall|i: int|
            0 <= i < upto ==> total_place(#[trigger] areas[i]) <= total_place(
                areas[largest(areas, upto)],
            ),
    decreases upto,
{
    if upto > 1 {
        lemma_largest(areas, (upto - 1) as nat);
    }
}

/// The part that is kept of several holds the stop line, if any of them does;
/// and if none does, none is larger.
pub proof fn the_part_kept_holds_the_stop_line_or_is_largest(
    holds_stop_line: Seq<bool>,
    areas: Seq<Double>,
)
    requires
        areas.len() > 0,
        holds_stop_line.len() == areas.len(),
    ensures
        0 <= part_to_keep(holds_stop_line, areas) < areas.len(),
        (exists|i: int| 0 <= i < areas.len() && #[trigger] holds_stop_line[i])
            ==> holds_stop_line[part_to_keep(holds_stop_line, areas)],
        !(exists|i: int| 0 <= i < areas.len() && #[trigger] holds_stop_line[i]) ==> forall|i: int|
            0 <= i < areas.len() ==> total_place(#[trigger] areas[i]) <= total_place(
                areas[part_to_keep(holds_stop_line, areas)],
            ),
{
    let holds = |i: int| holds_stop_line[i];
    least_is_the_first(holds_stop_line.len(), holds);
    lemma_largest(areas, areas.len());
    let kept = part_to_keep(holds_stop_line, areas);
    match least(holds_stop_line.len(), holds) {
        Some(i) => {
            assert(holds(i as int));
            assert(kept == i);
        },
        None => {
            assert(kept == largest(areas, areas.len()));
            assert forall|i: int| 0 <= i < areas.len() implies !#[trigger] holds_stop_line[i] by {
                assert(!holds(i));
            }
        },
    }
}

/// A part is kept if and only if it is larger than a sliver.
pub proof fn only_slivers_are_dropped(
    parts: Seq<PolygonView>,
    areas: Seq<Double>,
    upto: nat,
    part: PolygonView,
)
    requires
        upto <= parts.len(),
        areas.len() == parts.len(),
    ensures
        parts_worth_keeping(parts, areas, upto).contains(part) <==> exists|i: int|
            0 <= i < upto && #[trigger] parts[i] == part && is_worth_keeping(areas[i]),
    decreases upto,
{
    if upto > 0 {
        let before = parts_worth_keeping(parts, areas, (upto - 1) as nat);
        let kept = parts_worth_keeping(parts, areas, upto);
        only_slivers_are_dropped(parts, areas, (upto - 1) as nat, part);
        if before.contains(part) {
            let k = choose|k: int| 0 <= k < before.len() && before[k] == part;
            assert(kept[k] == part);
        }
        if is_worth_keeping(areas[upto - 1]) {
            assert(kept[before.len() as int] == parts[upto - 1]);
            if kept.contains(part) && !before.contains(part) {
                let k = choose|k: int| 0 <= k < kept.len() && kept[k] == part;
                if k < before.len() {
                    assert(before[k] == part);
                }
                assert(parts[upto - 1] == part);
            }
        }
    }
}

} // verus!
