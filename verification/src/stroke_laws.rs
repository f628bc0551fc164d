//! What holds of the strokes that a zone is drawn with.

use crate::arithmetic_laws::twice_the_half_is_the_whole;
use crate::chain_laws::ancestors_stand_in_order;
use crate::chains::chain_from;
use crate::connectivity::GraphView;
use crate::detector::{DetectorView, GateView};
use crate::double::{is_finite, magnitude_bits, Double};
use crate::drawing::{
    ancestor_lanes, chain_stroke, chain_strokes, core_gates, core_strokes, exit_metres, gate_on,
    plan_of, stroke_along, CoreGateView, LineEnd, StrokeView,
};
use crate::graph_laws::lemma_last_where;
use crate::lane_table::lane_called;
use crate::network::{Lane, Point};
use crate::rounding::EXPONENT_UNIT;
use vstd::prelude::*;

verus! {

/// Whether `width` is a width to draw with: a number, and not so small that a
/// bit of it is lost when it is halved. A millimetre is far above that.
pub open spec fn is_width(width: Double) -> bool {
    is_finite(width) && magnitude_bits(width) >= 2 * EXPONENT_UNIT
}

/// A stroke is as wide as the lane that it is drawn for, and ends as it is to
/// end.
pub proof fn a_stroke_is_as_wide_as_its_lane(
    points: Seq<Point>,
    entry: Double,
    exit: Double,
    lane_width: Double,
    end: LineEnd,
)
    requires
        is_width(lane_width),
    ensures
        stroke_along(points, entry, exit, lane_width, end).width == lane_width,
        stroke_along(points, entry, exit, lane_width, end).end == end,
{
    twice_the_half_is_the_whole(lane_width);
}

/// Whether gates have an exit among them that stands on `lane`.
pub open spec fn stands_on(gates: Seq<GateView>, lane: Seq<char>) -> bool {
    exists|i: int| 0 <= i < gates.len() && (#[trigger] gates[i]).lane == lane
}

proof fn lemma_exit_metres(exits: Seq<GateView>, lanes: Seq<Lane>, lane: Seq<char>)
    ensures
        exit_metres(exits, lanes, lane) is Some <==> stands_on(exits, lane),
{
    lemma_last_where(exits, |gate: GateView| gate.lane == lane);
}

/// Whether `lane` is the lane of one of the entries, and is left by the zone
/// or not.
pub open spec fn is_lane_of(
    entries: Seq<GateView>,
    exits: Seq<GateView>,
    lanes: Seq<Lane>,
    lane: Lane,
    left: bool,
) -> bool {
    exists|i: int|
        0 <= i < entries.len() && stands_on(exits, (#[trigger] entries[i]).lane) == left
            && lane_called(lanes, entries[i].lane) == Some(lane)
}

spec fn all_called(gates: Seq<GateView>, lanes: Seq<Lane>) -> bool {
    forall|i: int| 0 <= i < gates.len() ==> lane_called(lanes, (#[trigger] gates[i]).lane) is Some
}

proof fn lemma_core_gates(
    entries: Seq<GateView>,
    exits: Seq<GateView>,
    lanes: Seq<Lane>,
    pad: Double,
)
    requires
        all_called(entries, lanes),
    ensures
        forall|i: int|
            0 <= i < core_gates(entries, exits, lanes, pad).len() ==> is_lane_of(
                entries,
                exits,
                lanes,
                (#[trigger] core_gates(entries, exits, lanes, pad)[i]).lane,
                true,
            ),
    decreases entries.len(),
{
    if entries.len() > 0 {
        let rest = entries.drop_last();
        let n = rest.len() as int;
        assert(all_called(rest, lanes)) by {
            assert forall|i: int| 0 <= i < rest.len() implies lane_called(
                lanes,
                (#[trigger] rest[i]).lane,
            ) is Some by {
                assert(rest[i] == entries[i]);
            }
        }
        lemma_core_gates(rest, exits, lanes, pad);
        lemma_exit_metres(exits, lanes, entries.last().lane);
        let before = core_gates(rest, exits, lanes, pad);
        let all = core_gates(entries, exits, lanes, pad);
        assert forall|i: int| 0 <= i < all.len() implies is_lane_of(
            entries,
            exits,
            lanes,
            (#[trigger] all[i]).lane,
            true,
        ) by {
            if i < before.len() {
                assert(all[i] == before[i]);
                let k = choose|k: int|
                    0 <= k < rest.len() && stands_on(exits, (#[trigger] rest[k]).lane) == true
                        && lane_called(lanes, rest[k].lane) == Some(before[i].lane);
                assert(entries[k] == rest[k]);
            } else {
                assert(entries[n] == entries.last());
                assert(lane_called(lanes, entries[n].lane) is Some);
            }
        }
    }
}

proof fn lemma_ancestors(entries: Seq<GateView>, exits: Seq<GateView>, lanes: Seq<Lane>)
    requires
        all_called(entries, lanes),
    ensures
        forall|i: int|
            0 <= i < ancestor_lanes(entries, exits, lanes).len() ==> is_lane_of(
                entries,
                exits,
                lanes,
                lane_called(lanes, #[trigger] ancestor_lanes(entries, exits, lanes)[i])->0,
                false,
            ) && lane_called(lanes, ancestor_lanes(entries, exits, lanes)[i]) is Some,
{
    ancestors_stand_in_order(entries, exits, lanes);
    let ancestors = ancestor_lanes(entries, exits, lanes);
    assert forall|i: int| 0 <= i < ancestors.len() implies is_lane_of(
        entries,
        exits,
        lanes,
        lane_called(lanes, #[trigger] ancestors[i])->0,
        false,
    ) && lane_called(lanes, ancestors[i]) is Some by {
        assert(ancestors.contains(ancestors[i]));
        lemma_exit_metres(exits, lanes, ancestors[i]);
        let k = choose|k: int| 0 <= k < entries.len() && (#[trigger] entries[k]).lane == ancestors[i];
        assert(lane_called(lanes, entries[k].lane) is Some);
    }
}

/// Whether every lane has a width to draw with.
pub open spec fn have_widths(lanes: Seq<Lane>) -> bool {
    forall|i: int| 0 <= i < lanes.len() ==> is_width((#[trigger] lanes[i]).width)
}

proof fn lemma_called_has_width(lanes: Seq<Lane>, id: Seq<char>)
    requires
        have_widths(lanes),
        lane_called(lanes, id) is Some,
    ensures
        is_width((lane_called(lanes, id)->0).width),
    decreases lanes.len(),
{
    if lanes.len() > 0 {
        if lanes.last().id@ == id {
            assert(is_width(lanes[lanes.len() - 1].width));
        } else {
            let rest = lanes.drop_last();
            assert forall|i: int| 0 <= i < rest.len() implies is_width(
                (#[trigger] rest[i]).width,
            ) by {
                assert(rest[i] == lanes[i]);
            }
            assert(lane_called(lanes, id) == lane_called(rest, id));
            lemma_called_has_width(rest, id);
        }
    }
}

/// Whether a stroke is drawn for a lane that the zone leaves, as wide as that
/// lane and cut off straight.
pub open spec fn is_drawn_for_an_exit(
    zone: DetectorView,
    lanes: Seq<Lane>,
    stroke: StrokeView,
) -> bool {
    exists|lane: Lane| #[trigger]
        is_lane_of(zone.entries, zone.exits, lanes, lane, true) && stroke.width == lane.width
            && stroke.end == LineEnd::Butt
}

/// Whether a stroke is drawn for a lane that only leads into the zone, as wide
/// as that lane and drawn half its width further.
pub open spec fn is_drawn_for_an_approach(
    zone: DetectorView,
    lanes: Seq<Lane>,
    stroke: StrokeView,
) -> bool {
    exists|lane: Lane| #[trigger]
        is_lane_of(zone.entries, zone.exits, lanes, lane, false) && stroke.width == lane.width
            && stroke.end == LineEnd::Square
}

proof fn lemma_core_strokes(
    gates: Seq<CoreGateView>,
    ancestors: Seq<Seq<char>>,
    graph: GraphView,
    upto: nat,
    k: int,
) -> (i: int)
    requires
        upto <= gates.len(),
        0 <= k < core_strokes(gates, ancestors, graph, upto).len(),
    ensures
        0 <= i < gates.len(),
        core_strokes(gates, ancestors, graph, upto)[k] == stroke_along(
            gates[i].lane.shape@,
            gates[i].entry,
            gates[i].exit,
            gates[i].lane.width,
            LineEnd::Butt,
        ),
    decreases upto,
{
    let before = core_strokes(gates, ancestors, graph, (upto - 1) as nat);
    if k < before.len() {
        lemma_core_strokes(gates, ancestors, graph, (upto - 1) as nat, k)
    } else {
        upto - 1
    }
}

proof fn lemma_gate_on(gates: Seq<CoreGateView>, id: Seq<char>)
    ensures
        gate_on(gates, id) matches Some(i) ==> 0 <= i < gates.len(),
    decreases gates.len(),
{
    if gates.len() > 0 && gates.last().lane.id@ != id {
        lemma_gate_on(gates.drop_last(), id);
    }
}

proof fn lemma_chain_starts(
    current: Seq<char>,
    ancestors: Seq<Seq<char>>,
    graph: GraphView,
    lanes: Seq<Lane>,
)
    requires
        lane_called(lanes, current) is Some,
    ensures
        chain_from(current, Set::empty(), ancestors, graph, lanes).lanes.len() > 0,
        chain_from(current, Set::empty(), ancestors, graph, lanes).lanes[0] == lane_called(
            lanes,
            current,
        )->0,
{
}

proof fn lemma_chain_strokes(
    zone: DetectorView,
    gates: Seq<CoreGateView>,
    ancestors: Seq<Seq<char>>,
    graph: GraphView,
    lanes: Seq<Lane>,
    pad: Double,
    upto: nat,
    k: int,
)
    requires
        upto <= ancestors.len(),
        have_widths(lanes),
        forall|i: int|
            0 <= i < gates.len() ==> is_lane_of(
                zone.entries,
                zone.exits,
                lanes,
                (#[trigger] gates[i]).lane,
                true,
            ),
        forall|i: int|
            0 <= i < ancestors.len() ==> is_lane_of(
                zone.entries,
                zone.exits,
                lanes,
                lane_called(lanes, #[trigger] ancestors[i])->0,
                false,
            ) && lane_called(lanes, ancestors[i]) is Some,
        0 <= k < chain_strokes(gates, ancestors, graph, lanes, pad, upto).len(),
    ensures
        is_drawn_for_an_exit(
            zone,
            lanes,
            chain_strokes(gates, ancestors, graph, lanes, pad, upto)[k],
        ) || is_drawn_for_an_approach(
            zone,
            lanes,
            chain_strokes(gates, ancestors, graph, lanes, pad, upto)[k],
        ),
    decreases upto,
{
    let before = chain_strokes(gates, ancestors, graph, lanes, pad, (upto - 1) as nat);
    let all = chain_strokes(gates, ancestors, graph, lanes, pad, upto);
    if k < before.len() {
        lemma_chain_strokes(zone, gates, ancestors, graph, lanes, pad, (upto - 1) as nat, k);
        assert(all[k] == before[k]);
    } else {
        let start = ancestors[upto - 1];
        let chain = chain_from(start, Set::empty(), ancestors, graph, lanes);
        lemma_chain_starts(start, ancestors, graph, lanes);
        lemma_called_has_width(lanes, start);
        assert(chain_stroke(chain, gates, ancestors, graph, pad) == Some(all[k]));
        twice_the_half_is_the_whole(chain.lanes[0].width);
        assert(is_lane_of(zone.entries, zone.exits, lanes, chain.lanes[0], false));
        if let Some(id) = chain.successor {
            lemma_gate_on(gates, id);
            if let Some(i) = gate_on(gates, id) {
                let gate = gates[i as int];
                assert(is_lane_of(zone.entries, zone.exits, lanes, gate.lane, true));
                let e = choose|e: int|
                    0 <= e < zone.entries.len() && stands_on(
                        zone.exits,
                        (#[trigger] zone.entries[e]).lane,
                    ) == true && lane_called(lanes, zone.entries[e].lane) == Some(gate.lane);
                lemma_called_has_width(lanes, zone.entries[e].lane);
                twice_the_half_is_the_whole(gate.lane.width);
            }
        }
    }
}

/// Every stroke that a zone is drawn with is as wide as a lane of the zone:
/// those along the lanes that it leaves as such a lane, and those of the
/// chains before them as the lane that they run into, or else as the lane that
/// they begin with.
pub proof fn every_stroke_is_as_wide_as_a_lane_of_the_zone(
    zone: DetectorView,
    lanes: Seq<Lane>,
    graph: GraphView,
    pad: Double,
    k: int,
)
    requires
        have_widths(lanes),
        forall|i: int|
            0 <= i < zone.entries.len() ==> lane_called(lanes, (#[trigger] zone.entries[i]).lane) is Some,
    ensures
        0 <= k < plan_of(zone, lanes, graph, pad).core.len() ==> is_drawn_for_an_exit(
            zone,
            lanes,
            plan_of(zone, lanes, graph, pad).core[k],
        ),
        0 <= k < plan_of(zone, lanes, graph, pad).chains.len() ==> is_drawn_for_an_exit(
            zone,
            lanes,
            plan_of(zone, lanes, graph, pad).chains[k],
        ) || is_drawn_for_an_approach(zone, lanes, plan_of(zone, lanes, graph, pad).chains[k]),
{
    let plan = plan_of(zone, lanes, graph, pad);
    let ancestors = ancestor_lanes(zone.entries, zone.exits, lanes);
    let gates = if plan.pedestrian {
        Seq::empty()
    } else {
        core_gates(zone.entries, zone.exits, lanes, pad)
    };
    lemma_core_gates(zone.entries, zone.exits, lanes, pad);
    lemma_ancestors(zone.entries, zone.exits, lanes);
    if 0 <= k < plan.core.len() {
        let i = lemma_core_strokes(gates, ancestors, graph, gates.len(), k);
        let lane = gates[i].lane;
        assert(is_lane_of(zone.entries, zone.exits, lanes, lane, true));
        let e = choose|e: int|
            0 <= e < zone.entries.len() && stands_on(zone.exits, (#[trigger] zone.entries[e]).lane)
                == true && lane_called(lanes, zone.entries[e].lane) == Some(lane);
        lemma_called_has_width(lanes, zone.entries[e].lane);
        twice_the_half_is_the_whole(lane.width);
    }
    if 0 <= k < plan.chains.len() {
        lemma_chain_strokes(zone, gates, ancestors, graph, lanes, pad, ancestors.len(), k);
    }
}

} // verus!
