//! What holds of lanes and junctions looked up by id, and of what is published
//! of a zone.

use crate::detector::{DetectorView, GateView, LanePosition};
use crate::double::{is_less, minus, zero, Double};
use crate::drawing::{
    ancestor_lanes, core_gates, core_lanes, exit_metres, unknown_gate, unknown_lane,
};
use crate::chain_laws::ancestors_stand_in_order;
use crate::chains::{adding_an_id_keeps_the_order, with_id};
use crate::features::{feature_of, intersection_of, zones_of_kind};
use crate::lane_table::{all_lanes, junction_listing, lane_called};
use crate::measure::total_place;
use crate::modes::{is_bicycle_lane, is_bicycle_zone, modes_of};
use crate::network::{Edge, Junction, Lane, Point};
use crate::network_laws::lanes_before;
use crate::order::texts;
use crate::plane::Coord;
use crate::polygons::nearest_boundary;
use crate::ring::least_is_the_first;
use crate::shape::{entry_with_padding, mean_point};
use crate::splitting::PolygonView;
use crate::stop_lines::{candidate_distance, candidates_of, nearest_candidate};
use vstd::prelude::*;

verus! {

proof fn lemma_lanes_before(a: Seq<Edge>, b: Seq<Edge>, count: nat)
    requires
        count <= a.len(),
        count <= b.len(),
        forall|i: int| 0 <= i < count ==> a[i] == b[i],
    ensures
        lanes_before(a, count) == lanes_before(b, count),
    decreases count,
{
    if count > 0 {
        lemma_lanes_before(a, b, (count - 1) as nat);
    }
}

proof fn lemma_lane_count(edges: Seq<Edge>)
    ensures
        all_lanes(edges).len() == lanes_before(edges, edges.len()),
    decreases edges.len(),
{
    if edges.len() > 0 {
        lemma_lane_count(edges.drop_last());
        lemma_lanes_before(edges, edges.drop_last(), (edges.len() - 1) as nat);
    }
}

/// The lanes to look up are those of all edges, edge by edge in order.
pub proof fn all_lanes_are_listed_edge_by_edge(edges: Seq<Edge>, i: int, j: int)
    requires
        0 <= i < edges.len(),
        0 <= j < edges[i].lanes@.len(),
    ensures
        all_lanes(edges).len() == lanes_before(edges, edges.len()),
        lanes_before(edges, i as nat) + j < all_lanes(edges).len(),
        all_lanes(edges)[lanes_before(edges, i as nat) + j] == edges[i].lanes@[j],
    decreases edges.len(),
{
    let rest = edges.drop_last();
    lemma_lane_count(edges);
    lemma_lane_count(rest);
    lemma_lanes_before(edges, rest, i as nat);
    if i < rest.len() {
        all_lanes_are_listed_edge_by_edge(rest, i, j);
        assert(rest[i] == edges[i]);
    } else {
        assert(all_lanes(edges) == all_lanes(rest) + edges[i].lanes@);
    }
}

/// Whether the lane at `k` is the last of the id.
pub open spec fn is_last_called(lanes: Seq<Lane>, id: Seq<char>, k: int) -> bool {
    0 <= k < lanes.len() && lanes[k].id@ == id && forall|l: int|
        k < l < lanes.len() ==> (#[trigger] lanes[l]).id@ != id
}

proof fn lemma_lane_called(lanes: Seq<Lane>, id: Seq<char>) -> (k: int)
    ensures
        match lane_called(lanes, id) {
            Some(lane) => is_last_called(lanes, id, k) && lanes[k] == lane,
            None => forall|l: int| 0 <= l < lanes.len() ==> (#[trigger] lanes[l]).id@ != id,
        },
    decreases lanes.len(),
{
    if lanes.len() == 0 {
        0
    } else if lanes.last().id@ == id {
        lanes.len() - 1
    } else {
        let rest = lanes.drop_last();
        assert(lane_called(lanes, id) == lane_called(rest, id));
        let k = lemma_lane_called(rest, id);
        assert forall|l: int|
            0 <= l < lanes.len() && (l > k || lane_called(rest, id) is None) implies (
        #[trigger] lanes[l]).id@ != id by {
            if l < rest.len() {
                assert(rest[l] == lanes[l]);
            }
        }
        k
    }
}

/// A lane is looked up by its id: it is the last lane of that id, and there is
/// none where no lane has the id.
pub proof fn a_lane_is_looked_up_by_its_id(lanes: Seq<Lane>, id: Seq<char>)
    ensures
        lane_called(lanes, id) matches Some(lane) ==> exists|k: int| #[trigger]
            is_last_called(lanes, id, k) && lanes[k] == lane,
        lane_called(lanes, id) is None ==> forall|l: int|
            0 <= l < lanes.len() ==> (#[trigger] lanes[l]).id@ != id,
{
    let k = lemma_lane_called(lanes, id);
    assert(lane_called(lanes, id) is Some ==> is_last_called(lanes, id, k));
}

/// Whether a junction lists `lane` among those that end there.
pub open spec fn lists(junction: Junction, lane: Seq<char>) -> bool {
    exists|k: int|
        0 <= k < junction.incoming_lanes@.len() && (#[trigger] junction.incoming_lanes@[k])@ == lane
}

/// Whether the junction at `k` is the last that lists the lane.
pub open spec fn is_last_to_list(junctions: Seq<Junction>, lane: Seq<char>, k: int) -> bool {
    0 <= k < junctions.len() && lists(junctions[k], lane) && forall|l: int|
        k < l < junctions.len() ==> !lists(#[trigger] junctions[l], lane)
}

proof fn lemma_lists(junction: Junction, lane: Seq<char>)
    ensures
        texts(junction.incoming_lanes@).contains(lane) <==> lists(junction, lane),
{
    let listed = texts(junction.incoming_lanes@);
    if listed.contains(lane) {
        let k = choose|k: int| 0 <= k < listed.len() && listed[k] == lane;
        assert(junction.incoming_lanes@[k]@ == lane);
    }
    if lists(junction, lane) {
        let k = choose|k: int|
            0 <= k < junction.incoming_lanes@.len() && (#[trigger] junction.incoming_lanes@[k])@
                == lane;
        assert(listed[k] == lane);
    }
}

proof fn lemma_junction_listing(junctions: Seq<Junction>, lane: Seq<char>) -> (k: int)
    ensures
        match junction_listing(junctions, lane) {
            Some(id) => is_last_to_list(junctions, lane, k) && junctions[k].id@ == id,
            None => forall|l: int|
                0 <= l < junctions.len() ==> !lists(#[trigger] junctions[l], lane),
        },
    decreases junctions.len(),
{
    if junctions.len() == 0 {
        0
    } else {
        let rest = junctions.drop_last();
        lemma_lists(junctions.last(), lane);
        if lists(junctions.last(), lane) {
            junctions.len() - 1
        } else {
            assert(junction_listing(junctions, lane) == junction_listing(rest, lane));
            let k = lemma_junction_listing(rest, lane);
            assert forall|l: int|
                0 <= l < junctions.len() && (l > k || junction_listing(rest, lane) is None) implies !lists(
                #[trigger] junctions[l],
                lane,
            ) by {
                if l < rest.len() {
                    assert(rest[l] == junctions[l]);
                }
            }
            k
        }
    }
}

/// The intersection of a zone is the last junction that lists the lane of its
/// first exit; a zone without exits, or whose lane no junction lists, has
/// none.
pub proof fn a_zone_waits_at_the_junction_that_lists_its_first_exit(
    exits: Seq<GateView>,
    junctions: Seq<Junction>,
)
    ensures
        intersection_of(exits, junctions) is Some <==> exits.len() > 0 && exists|k: int|
            0 <= k < junctions.len() && lists(#[trigger] junctions[k], exits[0].lane),
        intersection_of(exits, junctions) matches Some(id) ==> exists|k: int| #[trigger]
            is_last_to_list(junctions, exits[0].lane, k) && junctions[k].id@ == id,
{
    if exits.len() > 0 {
        let k = lemma_junction_listing(junctions, exits[0].lane);
        if junction_listing(junctions, exits[0].lane) is Some {
            assert(is_last_to_list(junctions, exits[0].lane, k));
            assert(lists(junctions[k], exits[0].lane));
        }
    }
}

/// Whether a list of classes names a class, or all of them.
pub open spec fn names_class(list: Seq<String>, class: Seq<char>) -> bool {
    exists|i: int| 0 <= i < list.len() && ((#[trigger] list[i])@ == "all"@ || list[i]@ == class)
}

/// Whether a lane may be used by a class: where it says whom it allows, by
/// those; and otherwise by all but those whom it keeps off.
pub open spec fn may_be_used_by(lane: Lane, class: Seq<char>) -> bool {
    (lane.allow@.len() > 0 && names_class(lane.allow@, class)) || (lane.allow@.len() == 0
        && !names_class(lane.disallow@, class))
}

/// Whether a lane is for bicycles and not for cars.
pub open spec fn is_for_bicycles(lane: Lane) -> bool {
    may_be_used_by(lane, "bicycle"@) && !may_be_used_by(lane, "passenger"@)
}

/// Those who detect persons are for pedestrians; a zone is for bicycles where
/// it ends on lanes that are known and all of these are for bicycles and not
/// for cars; every other zone is for cars and motorcycles.
pub proof fn a_zone_is_for_those_who_may_use_its_lanes(zone: DetectorView, lanes: Seq<Lane>)
    ensures
        zone.detect_persons.len() > 0 ==> modes_of(zone, lanes) == seq!["ON_FOOT"@],
        zone.detect_persons.len() == 0 ==> {
            let for_bicycles = (exists|i: int|
                0 <= i < zone.exits.len() && lane_called(
                    lanes,
                    (#[trigger] zone.exits[i]).lane,
                ) is Some) && !(exists|i: int|
                0 <= i < zone.exits.len() && lane_called(
                    lanes,
                    (#[trigger] zone.exits[i]).lane,
                ) is Some && !is_for_bicycles(lane_called(lanes, zone.exits[i].lane)->0));
            if for_bicycles {
                modes_of(zone, lanes) == seq!["BICYCLE"@]
            } else {
                modes_of(zone, lanes) == seq!["CAR"@, "MOTORCYCLE"@]
            }
        },
{
    let exits = zone.exits;
    assert forall|lane: Lane| #[trigger] is_bicycle_lane(lane) == is_for_bicycles(lane) by {}
    if is_bicycle_zone(exits, lanes) {
        assert forall|i: int|
            0 <= i < exits.len() && lane_called(lanes, (#[trigger] exits[i]).lane) is Some implies is_for_bicycles(
            lane_called(lanes, exits[i].lane)->0,
        ) by {
            assert(is_bicycle_lane(lane_called(lanes, exits[i].lane)->0));
        }
    }
}

/// What is published of a zone is its id, the ring around its one part, where
/// its traffic stops, the junction where it waits, and whom it is for.
pub proof fn a_feature_tells_of_its_zone(
    zone: DetectorView,
    lanes: Seq<Lane>,
    junctions: Seq<Junction>,
    part: PolygonView,
    candidates: Seq<Point>,
    held: Seq<bool>,
)
    requires
        candidates.len() > 0,
    ensures
        ({
            let feature = feature_of(zone, lanes, junctions, part, candidates, held);
            &&& feature.waiting_zone_id == zone.id
            &&& feature.ring == part.exterior
            &&& feature.modes == modes_of(zone, lanes)
            &&& feature.intersection_id == intersection_of(zone.exits, junctions)
            &&& exists|i: int| #[trigger]
                is_first_nearest(candidates, seq![part], held, i) && feature.stop_line
                    == candidates[i]
        }),
{
    lemma_first_nearest(candidates, seq![part], held, candidates.len());
    let i = nearest_candidate(candidates, seq![part], held, candidates.len());
    assert(is_first_nearest(candidates, seq![part], held, i));
}

/// Whether the candidate at `i` is nearest to the parts, and the first of those
/// that are.
pub open spec fn is_first_nearest(
    candidates: Seq<Point>,
    parts: Seq<PolygonView>,
    held: Seq<bool>,
    i: int,
) -> bool {
    0 <= i < candidates.len() && forall|j: int|
        0 <= j < candidates.len() ==> {
            let here = total_place(candidate_distance(candidates, parts, held, i));
            let there = total_place(#[trigger] candidate_distance(candidates, parts, held, j));
            if j < i {
                here < there
            } else {
                here <= there
            }
        }
}

proof fn lemma_first_nearest(
    candidates: Seq<Point>,
    parts: Seq<PolygonView>,
    held: Seq<bool>,
    upto: nat,
)
    requires
        0 < upto <= candidates.len(),
    ensures
        ({
            let i = nearest_candidate(candidates, parts, held, upto);
            0 <= i < upto && forall|j: int|
                0 <= j < upto ==> {
                    let here = total_place(candidate_distance(candidates, parts, held, i));
                    let there = total_place(
                        #[trigger] candidate_distance(candidates, parts, held, j),
                    );
                    if j < i {
                        here < there
                    } else {
                        here <= there
                    }
                }
        }),
    decreases upto,
{
    if upto > 1 {
        lemma_first_nearest(candidates, parts, held, (upto - 1) as nat);
    }
}

/// The places to publish a stop line at are the stop points themselves, after
/// one that is their middle.
pub proof fn stop_lines_are_sought_at_the_middle_first(points: Seq<Point>, i: int)
    requires
        0 <= i < points.len(),
    ensures
        candidates_of(points).len() == points.len() + 1,
        candidates_of(points)[0] == mean_point(points),
        candidates_of(points)[i + 1] == points[i],
{
}

/// The zones of one kind stand in the order in which all zones do: those of
/// two lists are those of the first, and after them those of the second.
pub proof fn zones_of_one_kind_keep_their_order(
    a: Seq<DetectorView>,
    b: Seq<DetectorView>,
    pedestrian: bool,
)
    ensures
        zones_of_kind(a + b, pedestrian) == zones_of_kind(a, pedestrian) + zones_of_kind(
            b,
            pedestrian,
        ),
        b.len() == 1 && (b[0].detect_persons.len() > 0) == pedestrian ==> zones_of_kind(
            b,
            pedestrian,
        ) == b,
        b.len() == 1 && (b[0].detect_persons.len() > 0) != pedestrian ==> zones_of_kind(
            b,
            pedestrian,
        ).len() == 0,
    decreases b.len(),
{
    reveal_with_fuel(zones_of_kind, 2);
    if b.len() == 0 {
        assert(a + b =~= a);
    } else {
        zones_of_one_kind_keep_their_order(a, b.drop_last(), pedestrian);
        assert((a + b).drop_last() =~= a + b.drop_last());
        assert((a + b).last() == b.last());
        let first = zones_of_kind(a, pedestrian);
        let second = zones_of_kind(b.drop_last(), pedestrian);
        if (b.last().detect_persons.len() > 0) == pedestrian {
            assert((first + second).push(b.last()) =~= first + second.push(b.last()));
        }
        if b.len() == 1 {
            assert(b.drop_last() =~= Seq::empty());
            assert(Seq::<DetectorView>::empty().push(b[0]) =~= b);
        }
    }
}

/// Whether the exit at `k` is the last on the lane.
pub open spec fn is_last_exit(exits: Seq<GateView>, lane: Seq<char>, k: int) -> bool {
    0 <= k < exits.len() && exits[k].lane == lane && forall|l: int|
        k < l < exits.len() ==> (#[trigger] exits[l]).lane != lane
}

proof fn lemma_exit_metres(exits: Seq<GateView>, lanes: Seq<Lane>, lane: Seq<char>) -> (k: int)
    ensures
        match exit_metres(exits, lanes, lane) {
            Some(metres) => is_last_exit(exits, lane, k) && metres == match exits[k].position {
                LanePosition::FromStart(distance) => distance,
                LanePosition::FromEnd(distance) => minus(
                    (lane_called(lanes, lane)->0).length,
                    distance,
                ),
            },
            None => forall|l: int| 0 <= l < exits.len() ==> (#[trigger] exits[l]).lane != lane,
        },
    decreases exits.len(),
{
    if exits.len() == 0 {
        0
    } else if exits.last().lane == lane {
        exits.len() - 1
    } else {
        let rest = exits.drop_last();
        assert(exit_metres(exits, lanes, lane) == exit_metres(rest, lanes, lane));
        let k = lemma_exit_metres(rest, lanes, lane);
        assert forall|l: int|
            0 <= l < exits.len() && (l > k || exit_metres(rest, lanes, lane) is None) implies (
        #[trigger] exits[l]).lane != lane by {
            if l < rest.len() {
                assert(rest[l] == exits[l]);
            }
        }
        k
    }
}

/// How far along its lane a zone is left is told by the last exit on the lane,
/// from the start or back from the end.
pub proof fn a_lane_is_left_at_its_last_exit(
    exits: Seq<GateView>,
    lanes: Seq<Lane>,
    lane: Seq<char>,
)
    ensures
        exit_metres(exits, lanes, lane) is None <==> forall|l: int|
            0 <= l < exits.len() ==> (#[trigger] exits[l]).lane != lane,
        exit_metres(exits, lanes, lane) matches Some(metres) ==> exists|k: int| #[trigger]
            is_last_exit(exits, lane, k) && metres == match exits[k].position {
                LanePosition::FromStart(distance) => distance,
                LanePosition::FromEnd(distance) => minus(
                    (lane_called(lanes, lane)->0).length,
                    distance,
                ),
            },
{
    let k = lemma_exit_metres(exits, lanes, lane);
    if exit_metres(exits, lanes, lane) is Some {
        assert(is_last_exit(exits, lane, k));
        assert(exits[k].lane == lane);
    }
}

/// One gate is drawn for each entry on a lane that the zone leaves, in order:
/// from the entry, moved back to make up the padding, to where the lane is
/// left. An entry on a lane that is not left has none.
pub proof fn a_gate_is_drawn_from_entry_to_exit(
    entries: Seq<GateView>,
    entry: GateView,
    exits: Seq<GateView>,
    lanes: Seq<Lane>,
    lane: Lane,
    pad: Double,
)
    requires
        lane_called(lanes, entry.lane) == Some(lane),
    ensures
        ({
            let before = core_gates(entries, exits, lanes, pad);
            let all = core_gates(entries.push(entry), exits, lanes, pad);
            match exit_metres(exits, lanes, entry.lane) {
                Some(exit) => all.len() == before.len() + 1 && all.drop_last() == before
                    && all.last().lane == lane && all.last().exit == exit && all.last().entry
                    == entry_with_padding(
                    match entry.position {
                        LanePosition::FromStart(distance) => distance,
                        LanePosition::FromEnd(distance) => minus(lane.length, distance),
                    },
                    exit,
                    pad,
                ) && core_lanes(entries.push(entry), exits, lanes) == core_lanes(
                    entries,
                    exits,
                    lanes,
                ).push(lane),
                None => all == before && core_lanes(entries.push(entry), exits, lanes)
                    == core_lanes(entries, exits, lanes),
            }
        }),
        core_gates(Seq::empty(), exits, lanes, pad).len() == 0,
        core_lanes(Seq::empty(), exits, lanes).len() == 0,
{
    assert(entries.push(entry).drop_last() =~= entries);
    let before = core_gates(entries, exits, lanes, pad);
    let all = core_gates(entries.push(entry), exits, lanes, pad);
    if exit_metres(exits, lanes, entry.lane) is Some {
        assert(all.drop_last() =~= before);
    }
}

/// The ancestors of a zone are the lanes that it is entered on but not left,
/// other than internal lanes, whose ids begin with a colon.
pub proof fn ancestors_are_entered_but_not_left(
    entries: Seq<GateView>,
    exits: Seq<GateView>,
    lanes: Seq<Lane>,
    id: Seq<char>,
)
    ensures
        ancestor_lanes(entries, exits, lanes).contains(id) <==> (exists|i: int|
            0 <= i < entries.len() && (#[trigger] entries[i]).lane == id) && (forall|l: int|
            0 <= l < exits.len() ==> (#[trigger] exits[l]).lane != id) && !(id.len() > 0 && id[0]
            == ':'),
    decreases entries.len(),
{
    if entries.len() > 0 {
        let rest = entries.drop_last();
        let before = ancestor_lanes(rest, exits, lanes);
        let last = entries.last().lane;
        ancestors_are_entered_but_not_left(rest, exits, lanes, id);
        a_lane_is_left_at_its_last_exit(exits, lanes, last);
        ancestors_stand_in_order(rest, exits, lanes);
        adding_an_id_keeps_the_order(before, last);
        if before.contains(id) {
            let i = choose|i: int| 0 <= i < rest.len() && (#[trigger] rest[i]).lane == id;
            assert(entries[i].lane == id);
        }
        if last == id {
            assert(entries[entries.len() - 1].lane == id);
        }
        if exists|i: int| 0 <= i < entries.len() && (#[trigger] entries[i]).lane == id {
            let i = choose|i: int| 0 <= i < entries.len() && (#[trigger] entries[i]).lane == id;
            if i < rest.len() {
                assert(rest[i].lane == id);
            }
        }
        assert(with_id(before, last).contains(id) <==> before.contains(id) || id == last);
    }
}

/// The first gate on an unknown lane is the one that a drawing fails for: of
/// the exits first, and then of the entries.
pub proof fn the_first_unknown_lane_is_named(zone: DetectorView, lanes: Seq<Lane>)
    ensures
        unknown_lane(zone, lanes) is None <==> (forall|i: int|
            0 <= i < zone.exits.len() ==> lane_called(lanes, (#[trigger] zone.exits[i]).lane) is Some)
            && (forall|i: int|
            0 <= i < zone.entries.len() ==> lane_called(
                lanes,
                (#[trigger] zone.entries[i]).lane,
            ) is Some),
        unknown_lane(zone, lanes) matches Some(id) ==> (exists|i: int| #[trigger]
            is_first_unknown(zone.exits, lanes, i) && zone.exits[i].lane == id) || (forall|i: int|
            0 <= i < zone.exits.len() ==> lane_called(lanes, (#[trigger] zone.exits[i]).lane) is Some)
            && exists|i: int| #[trigger]
            is_first_unknown(zone.entries, lanes, i) && zone.entries[i].lane == id,
{
    lemma_unknown_gate(zone.exits, lanes);
    lemma_unknown_gate(zone.entries, lanes);
}

/// Whether gate `i` is the first on a lane that is not known.
pub open spec fn is_first_unknown(gates: Seq<GateView>, lanes: Seq<Lane>, i: int) -> bool {
    0 <= i < gates.len() && lane_called(lanes, gates[i].lane) is None && forall|j: int|
        0 <= j < i ==> lane_called(lanes, (#[trigger] gates[j]).lane) is Some
}

proof fn lemma_unknown_gate(gates: Seq<GateView>, lanes: Seq<Lane>)
    ensures
        match unknown_gate(gates, lanes) {
            Some(i) => is_first_unknown(gates, lanes, i as int),
            None => forall|i: int|
                0 <= i < gates.len() ==> lane_called(lanes, (#[trigger] gates[i]).lane) is Some,
        },
{
    let unknown = |i: int| lane_called(lanes, gates[i].lane) is None;
    least_is_the_first(gates.len(), unknown);
    match unknown_gate(gates, lanes) {
        Some(i) => {
            assert(unknown(i as int));
            assert forall|j: int| 0 <= j < i implies lane_called(
                lanes,
                (#[trigger] gates[j]).lane,
            ) is Some by {
                assert(!unknown(j));
            }
        },
        None => {
            assert forall|i: int| 0 <= i < gates.len() implies lane_called(
                lanes,
                (#[trigger] gates[i]).lane,
            ) is Some by {
                assert(!unknown(i));
            }
        },
    }
}

/// A stop line is published at the place that lies within the drawing of its
/// zone, where just one of the places does and the others lie off its
/// boundary.
pub proof fn a_stop_line_lies_within_the_drawing(
    zone: DetectorView,
    lanes: Seq<Lane>,
    junctions: Seq<Junction>,
    part: PolygonView,
    candidates: Seq<Point>,
    held: Seq<bool>,
    i: int,
)
    requires
        0 <= i < candidates.len(),
        held.len() == candidates.len(),
        held[i],
        forall|j: int|
            0 <= j < candidates.len() && j != i ==> !(#[trigger] held[j]) && is_less(
                zero(),
                nearest_boundary(
                    Coord { x: candidates[j].x, y: candidates[j].y },
                    seq![part],
                    1,
                ),
            ),
    ensures
        feature_of(zone, lanes, junctions, part, candidates, held).stop_line == candidates[i],
{
    let parts = seq![part];
    lemma_first_nearest(candidates, parts, held, candidates.len());
    let k = nearest_candidate(candidates, parts, held, candidates.len());
    assert(candidate_distance(candidates, parts, held, i) == zero());
    if k != i {
        assert(!held[k]);
        assert(is_less(zero(), candidate_distance(candidates, parts, held, k)));
    }
}

} // verus!
