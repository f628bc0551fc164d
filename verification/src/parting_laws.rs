//! How the parting of zones, the cutting of their parts and the finishing of
//! their drawings go on from step to step.

use crate::cleaning::{drifts, part_without_negligible, ring_without_negligible, rings_left};
use crate::cutting::{no_polygon, CutActionView, CutStage, CuttingView};
use crate::double::{is_at_most, zero, Double};
use crate::finishing::{finishing_start, FinishActionView, FinishStage, FinishingView};
use crate::overlaps::overlapping;
use crate::polygons::{is_worth_keeping, part_to_keep, parts_worth_keeping};
use crate::polygon_laws::only_slivers_are_dropped;
use crate::resolution::{ActionView, ResolutionView, Stage};
use crate::ring::{negligible_budget, opened, without_negligible};
use crate::plane::Coord;
use crate::splitting::{split_part, split_parts, PolygonView};
use vstd::prelude::*;

verus! {

/// The zone of the pair at `turn` whose padding is to be taken back, and the
/// one that it overlaps.
pub open spec fn zones_of_turn(v: ResolutionView, turn: int, second: bool) -> (int, int) {
    let pair = v.overlaps[turn];
    if second {
        (pair.1 as int, pair.0 as int)
    } else {
        (pair.0 as int, pair.1 as int)
    }
}

/// Whether the zone whose turn it would be has padding to take back.
pub open spec fn has_padding(v: ResolutionView, turn: int, second: bool) -> bool {
    !is_at_most(v.pads[zones_of_turn(v, turn, second).0], zero())
}

/// Whether one turn comes before another: pair by pair, and the first zone of
/// a pair before the second.
pub open spec fn is_earlier_turn(a: int, a_second: bool, b: int, b_second: bool) -> bool {
    a < b || a == b && !a_second && b_second
}

/// Whether `step` tries the padding that the zone of a turn has, against the
/// zone that it overlaps.
pub open spec fn tries(
    v: ResolutionView,
    step: (ResolutionView, ActionView),
    turn: int,
    second: bool,
) -> bool {
    let (zone, opposing) = zones_of_turn(v, turn, second);
    &&& step.1 == ActionView::Probe { zone, pad: v.pads[zone], opposing }
    &&& step.0.stage == Stage::Probing
    &&& step.0.turn == turn
    &&& step.0.second == second
    &&& step.0.steps == 0
    &&& step.0.lower == zero()
    &&& step.0.upper == v.pads[zone]
    &&& step.0.probe == v.pads[zone]
    &&& step.0.pads == v.pads
    &&& step.0.overlaps == v.overlaps
}

/// Whether `step` is the first turn, not before the given one, of a zone that
/// has padding; or, where none is left, the question what still overlaps.
pub open spec fn is_next_with_padding(
    v: ResolutionView,
    step: (ResolutionView, ActionView),
    turn: int,
    second: bool,
) -> bool {
    ||| exists|t: int, s: bool|
        turn <= t < v.overlaps.len() && !is_earlier_turn(t, s, turn, second) && has_padding(v, t, s)
            && #[trigger] tries(v, step, t, s) && forall|b: int, b_second: bool|
            turn <= b < v.overlaps.len() && !is_earlier_turn(b, b_second, turn, second)
                && is_earlier_turn(b, b_second, t, s) ==> !#[trigger] has_padding(v, b, b_second)
    ||| step.1 == ActionView::Measure(v.candidates) && step.0.stage == Stage::Rechecking
        && step.0.pads == v.pads && forall|b: int, b_second: bool|
        turn <= b < v.overlaps.len() && !is_earlier_turn(b, b_second, turn, second)
            ==> !#[trigger] has_padding(v, b, b_second)
}

/// The turns go on to the next zone that has padding to take back, pair by pair
/// and the first zone of a pair before the second; none is passed over.
pub proof fn no_zone_with_padding_is_passed_over(v: ResolutionView, turn: nat, second: bool)
    ensures
        is_next_with_padding(v, v.take_turn(turn, second), turn as int, second),
    decreases
            v.overlaps.len() - turn,
            if second {
                0int
            } else {
                1int
            },
{
    let step = v.take_turn(turn, second);
    if turn < v.overlaps.len() {
        if has_padding(v, turn as int, second) {
            assert(tries(v, step, turn as int, second));
        } else if second {
            no_zone_with_padding_is_passed_over(v, turn + 1, false);
            lemma_passed(v, step, turn as int, true, turn as int + 1, false);
        } else {
            no_zone_with_padding_is_passed_over(v, turn, true);
            lemma_passed(v, step, turn as int, false, turn as int, true);
        }
    }
}

proof fn lemma_passed(
    v: ResolutionView,
    step: (ResolutionView, ActionView),
    turn: int,
    second: bool,
    next: int,
    next_second: bool,
)
    requires
        0 <= turn < v.overlaps.len(),
        !has_padding(v, turn, second),
        second ==> next == turn + 1 && !next_second,
        !second ==> next == turn && next_second,
        is_next_with_padding(v, step, next, next_second),
    ensures
        is_next_with_padding(v, step, turn, second),
{
    assert forall|b: int, b_second: bool|
        turn <= b < v.overlaps.len() && !is_earlier_turn(b, b_second, turn, second) && has_padding(
            v,
            b,
            b_second,
        ) implies next <= b && !is_earlier_turn(b, b_second, next, next_second) by {
        assert(!(b == turn && b_second == second));
    }
    if exists|t: int, s: bool|
        next <= t < v.overlaps.len() && !is_earlier_turn(t, s, next, next_second) && has_padding(
            v,
            t,
            s,
        ) && #[trigger] tries(v, step, t, s) && forall|b: int, b_second: bool|
            next <= b < v.overlaps.len() && !is_earlier_turn(b, b_second, next, next_second)
                && is_earlier_turn(b, b_second, t, s) ==> !#[trigger] has_padding(v, b, b_second) {
        let (t, s) = choose|t: int, s: bool|
            next <= t < v.overlaps.len() && !is_earlier_turn(t, s, next, next_second)
                && has_padding(v, t, s) && #[trigger] tries(v, step, t, s) && forall|
                b: int,
                b_second: bool,
            |
                next <= b < v.overlaps.len() && !is_earlier_turn(b, b_second, next, next_second)
                    && is_earlier_turn(b, b_second, t, s) ==> !#[trigger] has_padding(
                    v,
                    b,
                    b_second,
                );
        assert(tries(v, step, t, s));
    }
}

/// A round begins with the pairs that overlap at its start and goes through
/// them; where none does, the parting is done. What still overlaps once the
/// padding has been taken back is cut, and a round that has changed nothing is
/// the last.
pub proof fn a_round_deals_with_what_overlaps(v: ResolutionView, areas: Seq<Double>)
    ensures
        ({
            let left = overlapping(v.candidates, areas);
            let step = v.after_measuring(areas);
            match v.stage {
                Stage::Scanning => if left.len() == 0 {
                    step.1 == ActionView::Finish(left)
                } else if v.rounds > 0 {
                    step.1 == ActionView::Measure(left) && step.0.candidates == left
                        && step.0.stage == Stage::Checking && step.0.rounds == v.rounds - 1
                        && !step.0.progressed && step.0.pads == v.pads
                } else {
                    step.1 == ActionView::Measure(left) && step.0.stage == Stage::Reporting
                },
                Stage::Checking => if left.len() == 0 {
                    step.1 == ActionView::Finish(left)
                } else {
                    is_next_with_padding(ResolutionView { overlaps: left, ..v }, step, 0, false)
                },
                Stage::Rechecking => if left.len() > 0 {
                    step.1 == ActionView::Cut(left) && step.0.progressed && step.0.stage
                        == Stage::Cutting
                } else {
                    step == v.end_round()
                },
                Stage::Reporting => step.1 == ActionView::Finish(left) && step.0.stage
                    == Stage::Ended,
                _ => true,
            }
        }),
        v.progressed && v.rounds > 0 ==> v.end_round().0.stage == Stage::Checking
            && v.end_round().0.rounds == v.rounds - 1 && v.end_round().1 == ActionView::Measure(
            v.candidates,
        ) && !v.end_round().0.progressed,
        !v.progressed || v.rounds == 0 ==> v.end_round().0.stage == Stage::Reporting
            && v.end_round().1 == ActionView::Measure(v.candidates),
{
    let left = overlapping(v.candidates, areas);
    if v.stage == Stage::Checking && left.len() > 0 {
        let checked = ResolutionView { overlaps: left, ..v };
        no_zone_with_padding_is_passed_over(checked, 0, false);
    }
}

/// Whether `step` goes on with the next part, after these are left of the one
/// before: the first of those to come, and the end where none is to come.
pub open spec fn goes_on_after(
    v: CuttingView,
    step: (CuttingView, CutActionView),
    left: Seq<PolygonView>,
) -> bool {
    &&& step.0.done == v.done + left
    &&& v.todo.len() == 0 ==> step.1 == CutActionView::Finish(v.done + left)
    &&& v.todo.len() > 0 ==> step.1 == CutActionView::Share(v.todo[0]) && step.0.part == v.todo[0]
        && step.0.todo == v.todo.skip(1) && step.0.stage == CutStage::Sharing
}

/// Parts are gone through in order. One that shares no more than a trace is
/// left as it is; from any other the ground is cut away, and of the pieces that
/// this leaves, split where they meet themselves, those large enough are kept:
/// of several, the one to keep. Where none is large enough, nothing of the part
/// is left.
pub proof fn parts_are_cut_one_after_another(
    v: CuttingView,
    pieces: Seq<PolygonView>,
    held: Seq<bool>,
    areas: Seq<Double>,
)
    requires
        areas.len() == v.asked.len(),
        held.len() == v.asked.len(),
    ensures
        split_parts(pieces).len() == 0 ==> goes_on_after(
            v,
            v.after_subtracting(pieces),
            Seq::empty(),
        ),
        split_parts(pieces).len() > 0 ==> v.after_subtracting(pieces).1 == CutActionView::Weigh(
            split_parts(pieces),
        ) && v.after_subtracting(pieces).0.asked == split_parts(pieces) && v.after_subtracting(
            pieces,
        ).0.stage == CutStage::Sifting,
        v.stage == CutStage::Sifting ==> ({
            let kept = parts_worth_keeping(v.asked, areas, v.asked.len());
            &&& forall|part: PolygonView| #[trigger]
                kept.contains(part) <==> exists|i: int|
                    0 <= i < v.asked.len() && #[trigger] v.asked[i] == part && is_worth_keeping(
                        areas[i],
                    )
            &&& kept.len() <= 1 ==> goes_on_after(v, v.after_weighing(held, areas), kept)
            &&& kept.len() > 1 ==> v.after_weighing(held, areas).1 == CutActionView::Weigh(kept)
                && v.after_weighing(held, areas).0.stage == CutStage::Choosing
        }),
        v.stage == CutStage::Choosing ==> goes_on_after(
            v,
            v.after_weighing(held, areas),
            seq![v.asked[part_to_keep(held, areas)]],
        ),
{
    assert(v.done + Seq::empty() =~= v.done);
    let kept = parts_worth_keeping(v.asked, areas, v.asked.len());
    assert forall|part: PolygonView| #[trigger] kept.contains(part) <==> exists|i: int|
        0 <= i < v.asked.len() && #[trigger] v.asked[i] == part && is_worth_keeping(areas[i]) by {
        only_slivers_are_dropped(v.asked, areas, v.asked.len(), part);
    }
}

proof fn lemma_unsplit(v: FinishingView)
    requires
        forall|i: int|
            0 <= i < v.todo.len() ==> split_part(#[trigger] v.todo[i], 8) == seq![v.todo[i]],
    ensures
        v.split_next() == (FinishingView {
            todo: Seq::empty(),
            done: v.done + v.todo,
            ..v
        }).gather(),
    decreases v.todo.len(),
{
    if v.todo.len() == 0 {
        assert(v.done + v.todo =~= v.done);
        assert(v.todo =~= Seq::empty());
    } else {
        let pieces = split_part(v.todo[0], 8);
        let next = FinishingView { todo: v.todo.skip(1), done: v.done + pieces, ..v };
        assert forall|i: int| 0 <= i < next.todo.len() implies split_part(
            #[trigger] next.todo[i],
            8,
        ) == seq![next.todo[i]] by {
            assert(next.todo[i] == v.todo[i + 1]);
        }
        assert(split_part(v.todo[0], 8) == seq![v.todo[0]]);
        lemma_unsplit(next);
        assert(next.done + next.todo =~= v.done + v.todo);
    }
}

/// Where no part meets itself, the drawing of a zone is finished alike for
/// vehicles and for pedestrians. Where the first part falls into several
/// pieces, these are weighed first for vehicles; the parts of pedestrians are
/// not split before one of them is chosen.
pub proof fn parts_that_meet_themselves_are_split_for_vehicles(parts: Seq<PolygonView>)
    ensures
        (forall|i: int| 0 <= i < parts.len() ==> split_part(#[trigger] parts[i], 8) == seq![parts[i]])
            ==> finishing_start(parts, false) == finishing_start(parts, true),
        parts.len() > 0 && split_part(parts[0], 8).len() > 1 ==> finishing_start(parts, false).1
            == FinishActionView::Weigh(split_part(parts[0], 8)),
        parts.len() > 1 ==> finishing_start(parts, true).1 == FinishActionView::Weigh(parts),
        parts.len() == 0 ==> finishing_start(parts, true).1 == FinishActionView::Finish(parts)
            && finishing_start(parts, false).1 == FinishActionView::Finish(parts),
{
    if forall|i: int| 0 <= i < parts.len() ==> split_part(#[trigger] parts[i], 8) == seq![parts[i]] {
        let begun = FinishingView {
            stage: FinishStage::Ended,
            todo: parts,
            done: Seq::empty(),
            asked: Seq::empty(),
            part: no_polygon(),
            rest: Seq::empty(),
            ring: Seq::empty(),
            clean: Seq::empty(),
        };
        lemma_unsplit(begun);
        assert(Seq::<PolygonView>::empty() + parts =~= parts);
    }
    assert(parts.len() == 0 ==> parts =~= Seq::empty());
}

/// A part that has been cleaned is taken instead of the part as it was, unless
/// its area has drifted. What is taken loses its negligible vertices, falls
/// into pieces where it meets itself, and of the pieces large enough, one is
/// left: of several, the one to keep.
pub proof fn a_cleaned_part_is_taken_unless_it_drifts(
    v: FinishingView,
    held: Seq<bool>,
    areas: Seq<Double>,
)
    requires
        v.awaits_weights(),
        areas.len() == v.asked.len(),
        held.len() == v.asked.len(),
    ensures
        v.stage == FinishStage::Comparing ==> v.after_weighing(held, areas).1
            == FinishActionView::Weigh(
            split_part(
                part_without_negligible(
                    if drifts(areas[0], areas[1]) {
                        v.asked[0]
                    } else {
                        v.asked[1]
                    },
                ),
                8,
            ),
        ) && v.after_weighing(held, areas).0.stage == FinishStage::Sifting,
        v.stage == FinishStage::Sifting ==> ({
            let kept = parts_worth_keeping(v.asked, areas, v.asked.len());
            &&& forall|part: PolygonView| #[trigger]
                kept.contains(part) <==> exists|i: int|
                    0 <= i < v.asked.len() && #[trigger] v.asked[i] == part && is_worth_keeping(
                        areas[i],
                    )
            &&& v.after_weighing(held, areas).1 == (if kept.len() > 1 {
                FinishActionView::Weigh(kept)
            } else {
                FinishActionView::Finish(kept)
            })
        }),
        v.stage == FinishStage::Choosing ==> v.after_weighing(held, areas).1
            == FinishActionView::Finish(seq![v.asked[part_to_keep(held, areas)]]),
{
    let kept = parts_worth_keeping(v.asked, areas, v.asked.len());
    assert forall|part: PolygonView| #[trigger] kept.contains(part) <==> exists|i: int|
        0 <= i < v.asked.len() && #[trigger] v.asked[i] == part && is_worth_keeping(areas[i]) by {
        only_slivers_are_dropped(v.asked, areas, v.asked.len(), part);
    }
}

/// A ring without its negligible vertices is what is left of it, closed, where
/// that is a triangle at least; a part whose outer ring is not stays as it is,
/// and of its holes those are kept that are.
pub proof fn negligible_vertices_are_given_up(part: PolygonView, ring: Seq<Coord>)
    ensures
        ({
            let open = opened(ring);
            let left = without_negligible(open, negligible_budget(open), zero());
            &&& left.len() >= 3 ==> ring_without_negligible(ring) == Some(left.push(left[0]))
            &&& left.len() < 3 ==> ring_without_negligible(ring) is None
        }),
        ring_without_negligible(part.exterior) is None ==> part_without_negligible(part) == part,
        ring_without_negligible(part.exterior) matches Some(exterior) ==> part_without_negligible(
            part,
        ).exterior == exterior && part_without_negligible(part).interiors.len()
            <= part.interiors.len(),
{
    lemma_rings_left(
        part.interiors.map_values(|r: Seq<Coord>| ring_without_negligible(r)),
    );
}

proof fn lemma_rings_left(rings: Seq<Option<Seq<Coord>>>)
    ensures
        rings_left(rings).len() <= rings.len(),
    decreases rings.len(),
{
    if rings.len() > 0 {
        lemma_rings_left(rings.drop_last());
    }
}

/// The rings that are left stand in order: of two lists, those of the first and
/// after them those of the second; one that is gone leaves nothing.
pub proof fn rings_left_stand_in_order(
    a: Seq<Option<Seq<Coord>>>,
    b: Seq<Option<Seq<Coord>>>,
)
    ensures
        rings_left(a + b) == rings_left(a)
            + rings_left(b),
        b.len() == 1 && b[0] is None ==> rings_left(b).len() == 0,
        b.len() == 1 && b[0] is Some ==> rings_left(b) == seq![b[0]->0],
    decreases b.len(),
{
    reveal_with_fuel(rings_left, 2);
    if b.len() == 0 {
        assert(a + b =~= a);
        assert(rings_left(a) + Seq::empty() =~= rings_left(a));
    } else {
        rings_left_stand_in_order(a, b.drop_last());
        assert((a + b).drop_last() =~= a + b.drop_last());
        assert((a + b).last() == b.last());
        assert(rings_left(a + b) =~= rings_left(a)
            + rings_left(b));
        if b.len() == 1 {
            assert(b.drop_last() =~= Seq::empty());
        }
    }
}

/// Parts are split one after another: the pieces of two lists are those of the
/// first and after them those of the second, each part split eight times deep.
pub proof fn parts_are_split_one_after_another(a: Seq<PolygonView>, b: Seq<PolygonView>)
    ensures
        split_parts(a + b) == split_parts(a) + split_parts(b),
        b.len() == 1 ==> split_parts(b) == split_part(b[0], 8),
    decreases b.len(),
{
    reveal_with_fuel(split_parts, 2);
    if b.len() == 0 {
        assert(a + b =~= a);
        assert(split_parts(a) + Seq::empty() =~= split_parts(a));
    } else {
        parts_are_split_one_after_another(a, b.drop_last());
        assert((a + b).drop_last() =~= a + b.drop_last());
        assert((a + b).last() == b.last());
        assert(split_parts(a + b) =~= split_parts(a) + split_parts(b));
        if b.len() == 1 {
            assert(b.drop_last() =~= Seq::empty());
            assert(Seq::empty() + split_part(b[0], 8) =~= split_part(b[0], 8));
        }
    }
}

} // verus!
