//! What holds of every parting of zones: it ends, padding is only ever taken
//! back, what padding is left is free of overlap, and zones that overlap
//! nothing are left alone.

use crate::double::{is_less, zero, Double};
use crate::overlaps::{is_overlap, overlapping, Pair};
use crate::resolution::{half_way, ActionView, ResolutionView, Stage, PAD_SEARCH_STEPS};
use vstd::prelude::*;

verus! {

/// Whether `w` pads no zone more than `v`, and looks at the same pairs.
pub open spec fn pads_no_more(v: ResolutionView, w: ResolutionView) -> bool {
    &&& w.pads.len() == v.pads.len()
    &&& w.candidates == v.candidates
    &&& forall|i: int|
        0 <= i < v.pads.len() ==> #[trigger] w.pads[i] == v.pads[i] || is_less(w.pads[i], v.pads[i])
}

proof fn lemma_turn_keeps_pads(v: ResolutionView, turn: nat, second: bool)
    ensures
        pads_no_more(v, v.take_turn(turn, second).0),
        v.take_turn(turn, second).0.pads == v.pads,
    decreases
            v.overlaps.len() - turn,
            if second {
                0int
            } else {
                1int
            },
{
    if turn < v.overlaps.len() {
        if second {
            lemma_turn_keeps_pads(v, turn + 1, false);
        } else {
            lemma_turn_keeps_pads(v, turn, true);
        }
    }
}

/// Nothing that is told ever gives a zone padding back, and once the pairs
/// that may overlap have been found, they stay the same.
pub proof fn padding_is_only_taken_back(v: ResolutionView, areas: Seq<Double>, area: Double)
    requires
        v.well_formed(),
        v.stage != Stage::Scanning,
    ensures
        pads_no_more(v, v.after_measuring(areas).0),
        v.stage == Stage::Probing ==> pads_no_more(v, v.after_probing(area).0),
        pads_no_more(v, v.next_turn().0),
        pads_no_more(v, v.end_round().0),
{
    if v.stage == Stage::Probing {
        let pair = v.overlaps[v.turn as int];
        assert(pair.0 < v.pads.len() && pair.1 < v.pads.len());
    }
    let checked = ResolutionView { overlaps: overlapping(v.candidates, areas), ..v };
    lemma_turn_keeps_pads(checked, 0, false);
    lemma_turn_keeps_pads(v, v.turn + 1, false);
    lemma_turn_keeps_pads(v, v.turn, true);
    let above = ResolutionView { upper: v.probe, ..v };
    lemma_turn_keeps_pads(above, above.turn + 1, false);
    lemma_turn_keeps_pads(above, above.turn, true);
    let below = ResolutionView { lower: v.probe, ..v };
    lemma_turn_keeps_pads(below, below.turn + 1, false);
    lemma_turn_keeps_pads(below, below.turn, true);
}

/// Whether a zone is in one of the pairs.
pub open spec fn is_in_a_pair(pairs: Seq<Pair>, zone: int) -> bool {
    exists|i: int| 0 <= i < pairs.len() && is_of_pair(#[trigger] pairs[i], zone)
}

/// Whether a zone is one of the two of a pair.
pub open spec fn is_of_pair(pair: Pair, zone: int) -> bool {
    pair.0 == zone || pair.1 == zone
}

/// Whether an action probes, redraws or cuts a zone.
pub open spec fn touches_zone(action: ActionView, zone: int) -> bool {
    match action {
        ActionView::Measure(_) => false,
        ActionView::Probe { zone: probed, opposing, .. } => probed == zone || opposing == zone,
        ActionView::Redraw { zone: redrawn, .. } => redrawn == zone,
        ActionView::Cut(pairs) => is_in_a_pair(pairs, zone),
        ActionView::Finish(_) => false,
    }
}

/// Whether no pair that may overlap is of this zone.
pub open spec fn is_out_of_it(v: ResolutionView, zone: int) -> bool {
    !is_in_a_pair(v.candidates, zone) && !is_in_a_pair(v.overlaps, zone)
}

/// Whether a step leaves a zone alone, and leaves it out of all that follows.
pub open spec fn leaves_alone(step: (ResolutionView, ActionView), zone: int) -> bool {
    is_out_of_it(step.0, zone) && !touches_zone(step.1, zone)
}

proof fn lemma_overlapping_adds_no_zone(pairs: Seq<Pair>, areas: Seq<Double>, zone: int)
    requires
        !is_in_a_pair(pairs, zone),
    ensures
        !is_in_a_pair(overlapping(pairs, areas), zone),
    decreases pairs.len(),
{
    if pairs.len() > 0 {
        let rest = pairs.drop_last();
        let last = pairs[pairs.len() - 1];
        assert(!is_of_pair(last, zone));
        assert forall|i: int| 0 <= i < rest.len() implies !is_of_pair(
            #[trigger] rest[i],
            zone,
        ) by {
            assert(rest[i] == pairs[i]);
        }
        lemma_overlapping_adds_no_zone(rest, areas, zone);
        let before = overlapping(rest, areas);
        let left = overlapping(pairs, areas);
        assert forall|i: int| 0 <= i < left.len() implies !is_of_pair(
            #[trigger] left[i],
            zone,
        ) by {
            if i < before.len() {
                assert(left[i] == before[i]);
            }
        }
    }
}

proof fn lemma_turns_leave_alone(v: ResolutionView, turn: nat, second: bool, zone: int)
    requires
        is_out_of_it(v, zone),
    ensures
        leaves_alone(v.take_turn(turn, second), zone),
    decreases
            v.overlaps.len() - turn,
            if second {
                0int
            } else {
                1int
            },
{
    if turn < v.overlaps.len() {
        assert(!is_of_pair(v.overlaps[turn as int], zone));
        if second {
            lemma_turns_leave_alone(v, turn + 1, false, zone);
        } else {
            lemma_turns_leave_alone(v, turn, true, zone);
        }
    }
}

/// A zone that is in no pair that was found to overlap is never probed,
/// redrawn or cut: not when that has been found, and not whatever is told
/// after it.
pub proof fn a_zone_without_overlap_is_left_alone(
    v: ResolutionView,
    areas: Seq<Double>,
    area: Double,
    zone: int,
)
    requires
        v.well_formed(),
    ensures
        v.stage == Stage::Scanning && v.overlaps.len() == 0 && !is_in_a_pair(
            overlapping(v.candidates, areas),
            zone,
        ) ==> leaves_alone(v.after_measuring(areas), zone),
        v.stage != Stage::Scanning && is_out_of_it(v, zone) ==> {
            &&& leaves_alone(v.after_measuring(areas), zone)
            &&& v.stage == Stage::Probing ==> leaves_alone(v.after_probing(area), zone)
            &&& leaves_alone(v.next_turn(), zone)
            &&& leaves_alone(v.end_round(), zone)
        },
{
    if v.stage != Stage::Scanning && is_out_of_it(v, zone) {
        lemma_overlapping_adds_no_zone(v.candidates, areas, zone);
        let checked = ResolutionView { overlaps: overlapping(v.candidates, areas), ..v };
        lemma_turns_leave_alone(checked, 0, false, zone);
        lemma_turns_leave_alone(v, v.turn + 1, false, zone);
        lemma_turns_leave_alone(v, v.turn, true, zone);
        let above = ResolutionView { upper: v.probe, ..v };
        lemma_turns_leave_alone(above, above.turn + 1, false, zone);
        lemma_turns_leave_alone(above, above.turn, true, zone);
        let below = ResolutionView { lower: v.probe, ..v };
        lemma_turns_leave_alone(below, below.turn + 1, false, zone);
        lemma_turns_leave_alone(below, below.turn, true, zone);
        if v.stage == Stage::Probing {
            assert(!is_of_pair(v.overlaps[v.turn as int], zone));
        }
    }
}

/// How far the end is: rounds, stages of the round, turns, and lengths to try,
/// each counting for more than all that follow.
pub open spec fn way_to_go(v: ResolutionView) -> (nat, nat, nat, nat) {
    let turns = if v.turn >= v.overlaps.len() {
        0
    } else {
        (2 * (v.overlaps.len() - v.turn) - if v.second {
            1int
        } else {
            0int
        }) as nat
    };
    match v.stage {
        Stage::Scanning => (v.rounds + 2, 0, 0, 0),
        Stage::Checking => (v.rounds + 1, 4, 0, 0),
        Stage::Probing => (v.rounds + 1, 3, turns, (PAD_SEARCH_STEPS + 1 - v.steps) as nat),
        Stage::Redrawing => (v.rounds + 1, 3, turns, 0),
        Stage::Rechecking => (v.rounds + 1, 2, 0, 0),
        Stage::Cutting => (v.rounds + 1, 1, 0, 0),
        Stage::Reporting => (0, 1, 0, 0),
        Stage::Ended => (0, 0, 0, 0),
    }
}

/// Whether one way is shorter than another.
pub open spec fn is_shorter(a: (nat, nat, nat, nat), b: (nat, nat, nat, nat)) -> bool {
    a.0 < b.0 || a.0 == b.0 && (a.1 < b.1 || a.1 == b.1 && (a.2 < b.2 || a.2 == b.2 && a.3 < b.3))
}

proof fn lemma_turn_comes_later(v: ResolutionView, turn: nat, second: bool)
    requires
        turn <= v.overlaps.len(),
    ensures
        ({
            let w = v.take_turn(turn, second).0;
            &&& w.rounds == v.rounds
            &&& w.overlaps == v.overlaps
            &&& w.stage == Stage::Rechecking || w.stage == Stage::Probing && w.steps == 0 && w.turn
                < w.overlaps.len() && (w.turn > turn || w.turn == turn && (w.second || !second))
        }),
    decreases
            v.overlaps.len() - turn,
            if second {
                0int
            } else {
                1int
            },
{
    if turn < v.overlaps.len() {
        if second {
            lemma_turn_comes_later(v, turn + 1, false);
        } else {
            lemma_turn_comes_later(v, turn, true);
        }
    }
}

/// Whatever is told, the end comes nearer.
pub proof fn the_end_comes_nearer(v: ResolutionView, areas: Seq<Double>, area: Double)
    requires
        v.well_formed(),
    ensures
        v.awaits_areas() ==> is_shorter(way_to_go(v.after_measuring(areas).0), way_to_go(v)),
        v.stage == Stage::Probing ==> is_shorter(way_to_go(v.after_probing(area).0), way_to_go(v)),
        v.stage == Stage::Redrawing ==> is_shorter(way_to_go(v.next_turn().0), way_to_go(v)),
        v.stage == Stage::Cutting ==> is_shorter(way_to_go(v.end_round().0), way_to_go(v)),
{
    let checked = ResolutionView { overlaps: overlapping(v.candidates, areas), ..v };
    lemma_turn_comes_later(checked, 0, false);
    if v.stage == Stage::Probing || v.stage == Stage::Redrawing {
        let above = ResolutionView { upper: v.probe, ..v };
        let below = ResolutionView { lower: v.probe, ..v };
        if v.second {
            lemma_turn_comes_later(v, v.turn + 1, false);
            lemma_turn_comes_later(above, v.turn + 1, false);
            lemma_turn_comes_later(below, v.turn + 1, false);
        } else {
            lemma_turn_comes_later(v, v.turn, true);
            lemma_turn_comes_later(above, v.turn, true);
            lemma_turn_comes_later(below, v.turn, true);
        }
    }
}

/// The length that halving in comes to, between one that is free of overlap
/// and one that is not, where `area_at` tells what a length would share.
pub open spec fn bisected(
    area_at: spec_fn(Double) -> Double,
    lower: Double,
    upper: Double,
    steps: nat,
) -> Double
    decreases steps,
{
    if steps == 0 {
        lower
    } else {
        let probe = half_way(lower, upper);
        if is_overlap(area_at(probe)) {
            bisected(area_at, lower, probe, (steps - 1) as nat)
        } else {
            bisected(area_at, probe, upper, (steps - 1) as nat)
        }
    }
}

/// The most padding, up to `upper`, that halving in finds to be free of
/// overlap.
pub open spec fn max_safe_pad(area_at: spec_fn(Double) -> Double, upper: Double) -> Double {
    if is_overlap(area_at(upper)) {
        bisected(area_at, zero(), upper, PAD_SEARCH_STEPS as nat)
    } else {
        upper
    }
}

proof fn lemma_bisected_is_free(
    area_at: spec_fn(Double) -> Double,
    lower: Double,
    upper: Double,
    steps: nat,
)
    ensures
        bisected(area_at, lower, upper, steps) == lower || !is_overlap(
            area_at(bisected(area_at, lower, upper, steps)),
        ),
    decreases steps,
{
    if steps > 0 {
        let probe = half_way(lower, upper);
        if is_overlap(area_at(probe)) {
            lemma_bisected_is_free(area_at, lower, probe, (steps - 1) as nat);
        } else {
            lemma_bisected_is_free(area_at, probe, upper, (steps - 1) as nat);
        }
    }
}

/// The padding that is found is free of overlap, or there is none.
pub proof fn padding_found_is_free_of_overlap(area_at: spec_fn(Double) -> Double, upper: Double)
    ensures
        max_safe_pad(area_at, upper) == zero() || !is_overlap(
            area_at(max_safe_pad(area_at, upper)),
        ),
{
    lemma_bisected_is_free(area_at, zero(), upper, PAD_SEARCH_STEPS as nat);
}

/// What comes of the turn of a zone when every length that is tried is told to
/// share what `area_at` says of it.
pub open spec fn turn_outcome(v: ResolutionView, area_at: spec_fn(Double) -> Double) -> (
    ResolutionView,
    ActionView,
)
    decreases PAD_SEARCH_STEPS + 1 - v.steps,
{
    let next = v.after_probing(area_at(v.probe));
    if v.steps < PAD_SEARCH_STEPS && (v.steps > 0 || is_overlap(area_at(v.probe))) {
        turn_outcome(next.0, area_at)
    } else {
        next
    }
}

/// Whether `outcome` is what follows for the zone whose turn it is in `v` when
/// it is found to be free with `best`: it is drawn anew if that is less
/// padding than it has, and otherwise the next turn comes.
pub open spec fn is_settled(
    v: ResolutionView,
    best: Double,
    outcome: (ResolutionView, ActionView),
) -> bool {
    if is_less(best, v.pads[v.shrinking()]) {
        &&& outcome.1 == (ActionView::Redraw { zone: v.shrinking(), pad: best })
        &&& outcome.0.pads == v.pads.update(v.shrinking(), best)
    } else {
        outcome.0.pads == v.pads && outcome.0.stage != Stage::Redrawing
    }
}

proof fn lemma_turn_is_no_redrawing(v: ResolutionView, turn: nat, second: bool)
    ensures
        v.take_turn(turn, second).0.stage != Stage::Redrawing,
    decreases
            v.overlaps.len() - turn,
            if second {
                0int
            } else {
                1int
            },
{
    if turn < v.overlaps.len() {
        if second {
            lemma_turn_is_no_redrawing(v, turn + 1, false);
        } else {
            lemma_turn_is_no_redrawing(v, turn, true);
        }
    }
}

proof fn lemma_next_turn_settles(v: ResolutionView)
    ensures
        v.next_turn().0.pads == v.pads,
        v.next_turn().0.stage != Stage::Redrawing,
{
    lemma_turn_keeps_pads(v, v.turn + 1, false);
    lemma_turn_keeps_pads(v, v.turn, true);
    lemma_turn_is_no_redrawing(v, v.turn + 1, false);
    lemma_turn_is_no_redrawing(v, v.turn, true);
}

proof fn lemma_probing_bisects(v: ResolutionView, area_at: spec_fn(Double) -> Double)
    requires
        1 <= v.steps <= PAD_SEARCH_STEPS,
        v.probe == half_way(v.lower, v.upper),
    ensures
        is_settled(
            v,
            bisected(area_at, v.lower, v.upper, (PAD_SEARCH_STEPS + 1 - v.steps) as nat),
            turn_outcome(v, area_at),
        ),
    decreases PAD_SEARCH_STEPS - v.steps,
{
    let area = area_at(v.probe);
    let left = (PAD_SEARCH_STEPS + 1 - v.steps) as nat;
    let narrowed = if is_overlap(area) {
        ResolutionView { upper: v.probe, ..v }
    } else {
        ResolutionView { lower: v.probe, ..v }
    };
    reveal_with_fuel(bisected, 2);
    if v.steps < PAD_SEARCH_STEPS {
        lemma_probing_bisects(v.after_probing(area).0, area_at);
    } else {
        assert(left == 1);
        lemma_next_turn_settles(narrowed);
    }
}

/// The turn of a zone comes to the padding that halving in finds: the zone is
/// drawn anew with it, if it is less than the zone had, and not otherwise.
pub proof fn a_turn_finds_the_safe_padding(v: ResolutionView, area_at: spec_fn(Double) -> Double)
    requires
        v.stage == Stage::Probing,
        v.steps == 0,
        v.lower == zero(),
        v.upper == v.probe,
        v.probe == v.pads[v.shrinking()],
    ensures
        is_settled(v, max_safe_pad(area_at, v.probe), turn_outcome(v, area_at)),
{
    let area = area_at(v.probe);
    if is_overlap(area) {
        let next = v.after_probing(area).0;
        assert(next.pads == v.pads);
        lemma_probing_bisects(next, area_at);
    } else {
        lemma_next_turn_settles(v);
    }
}

} // verus!
