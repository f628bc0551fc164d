//! That the rings of a zone stay closed while it is finished.

use crate::cleaning::{
    cutting_needles_ends, needle_step, part_without_negligible, ring_without_negligible,
    RingStepView,
};
use crate::cutting::no_polygon;
use crate::double::Double;
use crate::finishing::{
    finishing_start, grazed_rings, outer, FinishActionView, FinishStage, FinishingView,
};
use crate::plane::{same_place, Coord};
use crate::polygon_laws::{
    only_slivers_are_dropped, the_part_kept_holds_the_stop_line_or_is_largest,
};
use crate::polygons::{part_to_keep, parts_worth_keeping};
use crate::ring::closed;
use crate::splitting::{
    solid, split_at_crossing, split_once, split_part, welded_pieces_share_their_ends, PolygonView,
    MAX_SPLIT_DEPTH,
};
use vstd::prelude::*;

verus! {

/// Whether a ring ends where it begins.
pub open spec fn is_closed(ring: Seq<Coord>) -> bool {
    ring.len() > 0 && (ring[0] == ring.last() || same_place(ring[0], ring.last()))
}

/// Whether the outer ring of every part is closed.
pub open spec fn all_closed(parts: Seq<PolygonView>) -> bool {
    forall|i: int| 0 <= i < parts.len() ==> is_closed((#[trigger] parts[i]).exterior)
}

/// Whether every ring that is left is closed.
pub open spec fn rings_closed(rings: Seq<Option<Seq<Coord>>>) -> bool {
    forall|i: int|
        0 <= i < rings.len() ==> ((#[trigger] rings[i]) matches Some(ring) ==> is_closed(ring))
}

/// Whether all rings of a zone that is being finished are closed.
pub open spec fn holds_closed_rings(v: FinishingView) -> bool {
    all_closed(v.todo) && all_closed(v.done) && all_closed(v.asked) && rings_closed(v.clean) && (
    v.stage == FinishStage::Turning ==> is_closed(v.part.exterior))
}

/// Whether a step leaves all rings closed: those that are still at hand, and
/// those that come out at the end.
pub open spec fn leaves_rings_closed(step: (FinishingView, FinishActionView)) -> bool {
    holds_closed_rings(step.0) && (step.1 matches FinishActionView::Finish(parts) ==> all_closed(
        parts,
    ))
}

proof fn lemma_closed(coords: Seq<Coord>)
    requires
        coords.len() > 0,
    ensures
        is_closed(closed(coords)),
{
    assert(closed(coords)[0] == coords[0]);
    assert(closed(coords).last() == coords[0]);
}

proof fn lemma_pieces_closed(part: PolygonView, times: nat)
    requires
        is_closed(part.exterior),
    ensures
        all_closed(split_part(part, times)),
    decreases times,
{
    if times > 0 {
        if let Some((a, b)) = split_once(part.exterior) {
            if split_at_crossing(part.exterior) is None {
                welded_pieces_share_their_ends(part.exterior);
            }
            assert(is_closed(a));
            assert(is_closed(b));
            lemma_pieces_closed(solid(a), (times - 1) as nat);
            lemma_pieces_closed(solid(b), (times - 1) as nat);
        }
    }
}

proof fn lemma_negligible_closed(part: PolygonView)
    requires
        is_closed(part.exterior),
    ensures
        is_closed(part_without_negligible(part).exterior),
{
    if let Some(exterior) = ring_without_negligible(part.exterior) {
        let left = exterior.drop_last();
        assert(exterior =~= closed(left));
        lemma_closed(left);
    }
}

proof fn lemma_sift_closed(v: FinishingView, part: PolygonView)
    requires
        holds_closed_rings(v),
        is_closed(part.exterior),
    ensures
        leaves_rings_closed(v.sift(part)),
{
    lemma_negligible_closed(part);
    lemma_pieces_closed(part_without_negligible(part), MAX_SPLIT_DEPTH as nat);
}

proof fn lemma_next_ring_closed(v: FinishingView)
    requires
        holds_closed_rings(v),
        is_closed(v.part.exterior),
    ensures
        leaves_rings_closed(v.next_ring()),
    decreases v.rest.len(),
{
    if v.rest.len() == 0 || v.clean.len() > 0 && outer(v.clean) is None {
        let next = FinishingView { clean: Seq::empty(), ..v };
        match outer(v.clean) {
            Some(exterior) => {
                assert(v.clean[0] == Some(exterior));
                assert(is_closed(exterior));
            },
            None => {
                lemma_sift_closed(next, v.part);
            },
        }
    } else if v.rest[0] is None {
        lemma_next_ring_closed(
            FinishingView { rest: v.rest.skip(1), clean: v.clean.push(None), ..v },
        );
    }
}

proof fn lemma_tidy_closed(v: FinishingView, part: PolygonView)
    requires
        holds_closed_rings(v),
        is_closed(part.exterior),
    ensures
        leaves_rings_closed(v.tidy(part)),
{
    lemma_next_ring_closed(
        FinishingView { part, rest: grazed_rings(part), clean: Seq::empty(), ..v },
    );
}

proof fn lemma_gather_closed(v: FinishingView)
    requires
        holds_closed_rings(v),
    ensures
        leaves_rings_closed(v.gather()),
{
    if v.done.len() == 1 {
        lemma_tidy_closed(v, v.done[0]);
    }
}

proof fn lemma_split_next_closed(v: FinishingView)
    requires
        holds_closed_rings(v),
    ensures
        leaves_rings_closed(v.split_next()),
    decreases v.todo.len(),
{
    if v.todo.len() == 0 {
        lemma_gather_closed(v);
    } else {
        let pieces = split_part(v.todo[0], MAX_SPLIT_DEPTH as nat);
        lemma_pieces_closed(v.todo[0], MAX_SPLIT_DEPTH as nat);
        let next = FinishingView { todo: v.todo.skip(1), ..v };
        if pieces.len() <= 1 {
            lemma_split_next_closed(FinishingView { done: v.done + pieces, ..next });
        }
    }
}

/// A zone whose rings are closed is finished with a closed ring: the rings are
/// closed from the start, whatever is told of the zone leaves them closed, and
/// so are those of what comes out.
pub proof fn a_finished_ring_is_closed(
    v: FinishingView,
    parts: Seq<PolygonView>,
    pedestrian: bool,
    turned: Seq<Double>,
    held: Seq<bool>,
    areas: Seq<Double>,
)
    ensures
        all_closed(parts) ==> leaves_rings_closed(finishing_start(parts, pedestrian)),
        holds_closed_rings(v) && v.stage == FinishStage::Turning ==> leaves_rings_closed(
            v.after_measuring(turned),
        ),
        holds_closed_rings(v) && v.awaits_weights() && held.len() == v.asked.len() && areas.len()
            == v.asked.len() ==> leaves_rings_closed(v.after_weighing(held, areas)),
{
    if all_closed(parts) {
        let begun = FinishingView {
            stage: FinishStage::Ended,
            todo: Seq::empty(),
            done: Seq::empty(),
            asked: Seq::empty(),
            part: no_polygon(),
            rest: Seq::empty(),
            ring: Seq::empty(),
            clean: Seq::empty(),
        };
        if pedestrian {
            lemma_gather_closed(FinishingView { done: parts, ..begun });
        } else {
            lemma_split_next_closed(FinishingView { todo: parts, ..begun });
        }
    }
    if holds_closed_rings(v) && v.stage == FinishStage::Turning {
        lemma_measured_closed(v, turned);
    }
    if holds_closed_rings(v) && v.awaits_weights() && held.len() == v.asked.len() && areas.len()
        == v.asked.len() {
        lemma_weighed_closed(v, held, areas);
    }
}

proof fn lemma_measured_closed(v: FinishingView, turned: Seq<Double>)
    requires
        holds_closed_rings(v),
        v.stage == FinishStage::Turning,
    ensures
        leaves_rings_closed(v.after_measuring(turned)),
{
    match needle_step(v.ring, turned) {
        RingStepView::Collapsed => {
            lemma_next_ring_closed(FinishingView { clean: v.clean.push(None), ..v });
        },
        RingStepView::Next(_) => {},
        RingStepView::Done(ring) => {
            cutting_needles_ends(v.ring, turned);
            lemma_closed(v.ring);
            lemma_next_ring_closed(FinishingView { clean: v.clean.push(Some(ring)), ..v });
        },
    }
}

proof fn lemma_weighed_closed(v: FinishingView, held: Seq<bool>, areas: Seq<Double>)
    requires
        holds_closed_rings(v),
        v.awaits_weights(),
        held.len() == v.asked.len(),
        areas.len() == v.asked.len(),
    ensures
        leaves_rings_closed(v.after_weighing(held, areas)),
{
    if areas.len() > 0 {
        the_part_kept_holds_the_stop_line_or_is_largest(held, areas);
    }
    match v.stage {
        FinishStage::Splitting => {
            let kept = v.asked[part_to_keep(held, areas)];
            lemma_split_next_closed(FinishingView { done: v.done.push(kept), ..v });
        },
        FinishStage::Gathering => {
            lemma_tidy_closed(v, v.asked[part_to_keep(held, areas)]);
        },
        FinishStage::Comparing => {
            lemma_sift_closed(v, v.asked[0]);
            lemma_sift_closed(v, v.asked[1]);
        },
        FinishStage::Sifting => {
            let kept = parts_worth_keeping(v.asked, areas, v.asked.len());
            assert forall|i: int| 0 <= i < kept.len() implies is_closed(
                (#[trigger] kept[i]).exterior,
            ) by {
                assert(kept.contains(kept[i]));
                only_slivers_are_dropped(v.asked, areas, v.asked.len(), kept[i]);
            }
        },
        _ => {},
    }
}

} // verus!
