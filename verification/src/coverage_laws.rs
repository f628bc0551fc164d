//! Which lanes zones end on, and which they leave out.

use crate::boundaries::{entries_of, entries_of_lane, exits_of, gate_at, zone_of_group, EntryReach};
use crate::connectivity::{graph_of, lane_named, GraphView};
use crate::detector::{DetectorView, PersonMode};
use crate::double::{zero, Double};
use crate::grouping::{groups_of, movement_of_lane, GroupView, UngroupedView};
use crate::grouping_laws::{
    a_group_holds_the_lanes_of_its_movement, every_lane_with_a_movement_is_grouped,
};
use crate::movement::{merged_movement_name, movement_name, MovementView};
use crate::network::{traffic_light_kind, Junction, Network, Point, TrafficLightProgram};
use crate::sibling_laws::{
    merged_lanes_come_from_linked_groups, merging_invents_no_icon, merging_keeps_every_lane,
};
use crate::siblings::{siblings_merged, VehicleGroupView};
use crate::zone_generator::{
    all_pedestrian_zones, lanes_into, pedestrian_zone_of, pedestrian_zones_of, vehicle_groups,
    vehicle_groups_at, vehicle_zone_of, vehicle_zones_of, zones_of,
};
use crate::zone_laws::gate_lanes;
use vstd::prelude::*;

verus! {

/// Whether `lane` leads, under a signal, into a junction with traffic lights.
pub open spec fn is_signalled_at(
    g: GraphView,
    programs: Seq<TrafficLightProgram>,
    junction: Junction,
    lane: Seq<char>,
    pedestrian: bool,
) -> bool {
    traffic_light_kind(junction.kind) && lanes_into(g, junction, pedestrian).contains(lane)
        && movement_of_lane(g, programs, lane) is Ok
}

/// Whether a zone ends on `lane`.
pub open spec fn ends_on(zone: DetectorView, lane: Seq<char>) -> bool {
    gate_lanes(zone.exits).contains(lane)
}

pub(crate) proof fn lemma_exits(g: GraphView, lanes: Seq<Seq<char>>, lane: Seq<char>)
    ensures
        gate_lanes(exits_of(g, lanes)).contains(lane) <==> lanes.contains(lane) && lane_named(
            g.lanes,
            lane,
        ) is Some,
    decreases lanes.len(),
{
    let exits = exits_of(g, lanes);
    if lanes.len() > 0 {
        let early = lanes.drop_last();
        let before = exits_of(g, early);
        lemma_exits(g, early, lane);
        if gate_lanes(exits).contains(lane) {
            let i = choose|i: int| 0 <= i < exits.len() && gate_lanes(exits)[i] == lane;
            if i < before.len() {
                assert(gate_lanes(before)[i] == lane);
                let k = choose|k: int| 0 <= k < early.len() && early[k] == lane;
                assert(lanes[k] == lane);
            } else {
                assert(lanes[lanes.len() - 1] == lane);
            }
        }
        if lanes.contains(lane) && lane_named(g.lanes, lane) is Some {
            if lanes.last() == lane {
                assert(gate_lanes(exits)[before.len() as int] == lane);
            } else {
                let k = choose|k: int| 0 <= k < lanes.len() && lanes[k] == lane;
                assert(early[k] == lane);
                let i = choose|i: int| 0 <= i < before.len() && gate_lanes(before)[i] == lane;
                assert(gate_lanes(exits)[i] == lane);
            }
        }
    }
}

proof fn lemma_entries_where_exits(g: GraphView, lanes: Seq<Seq<char>>, reach: EntryReach)
    ensures
        exits_of(g, lanes).len() > 0 ==> entries_of(g, lanes, reach).len() > 0,
    decreases lanes.len(),
{
    if lanes.len() > 0 {
        lemma_entries_where_exits(g, lanes.drop_last(), reach);
        if let Some(l) = lane_named(g.lanes, lanes.last()) {
            assert(entries_of_lane(g, lanes.last(), l.length, reach).len() > 0);
        }
    }
}

proof fn lemma_zone_of_group_ends_on(
    id: Seq<char>,
    lanes: Seq<Seq<char>>,
    g: GraphView,
    icon: Point,
    reach: EntryReach,
    persons: Seq<PersonMode>,
    lane: Seq<char>,
)
    ensures
        lanes.contains(lane) && lane_named(g.lanes, lane) is Some ==> (zone_of_group(
            id,
            lanes,
            g,
            icon,
            reach,
            persons,
        ) matches Some(zone) && ends_on(zone, lane)),
        zone_of_group(id, lanes, g, icon, reach, persons) matches Some(zone) ==> (ends_on(
            zone,
            lane,
        ) ==> lanes.contains(lane)),
{
    lemma_exits(g, lanes, lane);
    lemma_entries_where_exits(g, lanes, reach);
    if lanes.contains(lane) && lane_named(g.lanes, lane) is Some {
        let i = choose|i: int|
            0 <= i < exits_of(g, lanes).len() && gate_lanes(exits_of(g, lanes))[i] == lane;
        assert(exits_of(g, lanes).len() > 0);
    }
}

/// The zone of a group is among the zones.
proof fn lemma_vehicle_zone_is_listed(
    g: GraphView,
    groups: Seq<VehicleGroupView>,
    max_zone_length: Option<Double>,
    stop: bool,
    i: int,
)
    requires
        0 <= i < groups.len(),
        vehicle_zone_of(g, groups[i], max_zone_length, stop) is Some,
    ensures
        vehicle_zones_of(g, groups, max_zone_length, stop).contains(
            vehicle_zone_of(g, groups[i], max_zone_length, stop)->0,
        ),
    decreases groups.len(),
{
    let zone = vehicle_zone_of(g, groups[i], max_zone_length, stop)->0;
    let rest = groups.drop_last();
    let before = vehicle_zones_of(g, rest, max_zone_length, stop);
    let all = vehicle_zones_of(g, groups, max_zone_length, stop);
    if i < groups.len() - 1 {
        assert(rest[i] == groups[i]);
        lemma_vehicle_zone_is_listed(g, rest, max_zone_length, stop, i);
        let k = choose|k: int| 0 <= k < before.len() && before[k] == zone;
        assert(all[k] == zone);
    } else {
        assert(all[before.len() as int] == zone);
    }
}

/// Every vehicle zone is that of a group.
pub(crate) proof fn lemma_vehicle_zone_origin(
    g: GraphView,
    groups: Seq<VehicleGroupView>,
    max_zone_length: Option<Double>,
    stop: bool,
    z: int,
) -> (i: int)
    requires
        0 <= z < vehicle_zones_of(g, groups, max_zone_length, stop).len(),
    ensures
        0 <= i < groups.len(),
        vehicle_zone_of(g, groups[i], max_zone_length, stop) == Some(
            vehicle_zones_of(g, groups, max_zone_length, stop)[z],
        ),
    decreases groups.len(),
{
    let rest = groups.drop_last();
    let before = vehicle_zones_of(g, rest, max_zone_length, stop);
    if z < before.len() {
        let i = lemma_vehicle_zone_origin(g, rest, max_zone_length, stop, z);
        assert(rest[i] == groups[i]);
        i
    } else {
        groups.len() - 1
    }
}

proof fn lemma_pedestrian_zone_is_listed(
    g: GraphView,
    groups: Seq<GroupView>,
    junction: Junction,
    max_zone_length: Option<Double>,
    i: int,
)
    requires
        0 <= i < groups.len(),
        pedestrian_zone_of(g, groups[i], junction, max_zone_length) is Some,
    ensures
        pedestrian_zones_of(g, groups, junction, max_zone_length).contains(
            pedestrian_zone_of(g, groups[i], junction, max_zone_length)->0,
        ),
    decreases groups.len(),
{
    let zone = pedestrian_zone_of(g, groups[i], junction, max_zone_length)->0;
    let rest = groups.drop_last();
    let before = pedestrian_zones_of(g, rest, junction, max_zone_length);
    let all = pedestrian_zones_of(g, groups, junction, max_zone_length);
    if i < groups.len() - 1 {
        assert(rest[i] == groups[i]);
        lemma_pedestrian_zone_is_listed(g, rest, junction, max_zone_length, i);
        let k = choose|k: int| 0 <= k < before.len() && before[k] == zone;
        assert(all[k] == zone);
    } else {
        assert(all[before.len() as int] == zone);
    }
}

proof fn lemma_pedestrian_zone_origin(
    g: GraphView,
    groups: Seq<GroupView>,
    junction: Junction,
    max_zone_length: Option<Double>,
    z: int,
) -> (i: int)
    requires
        0 <= z < pedestrian_zones_of(g, groups, junction, max_zone_length).len(),
    ensures
        0 <= i < groups.len(),
        pedestrian_zone_of(g, groups[i], junction, max_zone_length) == Some(
            pedestrian_zones_of(g, groups, junction, max_zone_length)[z],
        ),
    decreases groups.len(),
{
    let rest = groups.drop_last();
    let before = pedestrian_zones_of(g, rest, junction, max_zone_length);
    if z < before.len() {
        let i = lemma_pedestrian_zone_origin(g, rest, junction, max_zone_length, z);
        assert(rest[i] == groups[i]);
        i
    } else {
        groups.len() - 1
    }
}

/// The groups of a junction are among all groups.
proof fn lemma_groups_are_listed(
    g: GraphView,
    programs: Seq<TrafficLightProgram>,
    junctions: Seq<Junction>,
    j: int,
    group: VehicleGroupView,
)
    requires
        0 <= j < junctions.len(),
        traffic_light_kind(junctions[j].kind),
        vehicle_groups_at(g, programs, junctions[j]).contains(group),
    ensures
        vehicle_groups(g, programs, junctions).contains(group),
    decreases junctions.len(),
{
    let rest = junctions.drop_last();
    let before = vehicle_groups(g, programs, rest);
    let all = vehicle_groups(g, programs, junctions);
    if j < junctions.len() - 1 {
        assert(rest[j] == junctions[j]);
        lemma_groups_are_listed(g, programs, rest, j, group);
        let k = choose|k: int| 0 <= k < before.len() && before[k] == group;
        assert(all[k] == group);
    } else {
        let here = vehicle_groups_at(g, programs, junctions[j]);
        let k = choose|k: int| 0 <= k < here.len() && here[k] == group;
        assert(all[before.len() + k] == group);
    }
}

/// Every group belongs to a junction with traffic lights.
proof fn lemma_group_origin(
    g: GraphView,
    programs: Seq<TrafficLightProgram>,
    junctions: Seq<Junction>,
    k: int,
) -> (found: (int, int))
    requires
        0 <= k < vehicle_groups(g, programs, junctions).len(),
    ensures
        0 <= found.0 < junctions.len(),
        traffic_light_kind(junctions[found.0].kind),
        0 <= found.1 < groups_of(g, programs, lanes_into(g, junctions[found.0], false)).len(),
        vehicle_groups(g, programs, junctions)[k] == vehicle_groups_at(
            g,
            programs,
            junctions[found.0],
        )[found.1],
    decreases junctions.len(),
{
    let rest = junctions.drop_last();
    let before = vehicle_groups(g, programs, rest);
    if k < before.len() {
        let found = lemma_group_origin(g, programs, rest, k);
        assert(rest[found.0] == junctions[found.0]);
        found
    } else {
        (junctions.len() - 1, k - before.len())
    }
}

/// The lanes of a group lead, under a signal, into its junction.
proof fn lemma_group_is_signalled(
    g: GraphView,
    programs: Seq<TrafficLightProgram>,
    junction: Junction,
    pedestrian: bool,
    i: int,
    lane: Seq<char>,
)
    requires
        traffic_light_kind(junction.kind),
        0 <= i < groups_of(g, programs, lanes_into(g, junction, pedestrian)).len(),
        groups_of(g, programs, lanes_into(g, junction, pedestrian))[i].lanes.contains(lane),
    ensures
        is_signalled_at(g, programs, junction, lane, pedestrian),
{
    let lanes = lanes_into(g, junction, pedestrian);
    let group = groups_of(g, programs, lanes)[i];
    a_group_holds_the_lanes_of_its_movement(g, programs, lanes, i);
    let wanted = |l: Seq<char>|
        movement_of_lane(g, programs, l) == Ok::<MovementView, UngroupedView>(
            group.movement,
        );
    lanes.filter_lemma(wanted);
    let k = choose|k: int| 0 <= k < group.lanes.len() && group.lanes[k] == lane;
    assert(wanted(lanes.filter(wanted)[k]));
    assert(lanes.filter(wanted).contains(lane));
    lanes.lemma_filter_contains_rev(wanted, lane);
}

/// A lane that leads, under a signal, into a junction with traffic lights is
/// in a group of that junction.
proof fn lemma_signalled_is_grouped(
    g: GraphView,
    programs: Seq<TrafficLightProgram>,
    junction: Junction,
    pedestrian: bool,
    lane: Seq<char>,
) -> (i: int)
    requires
        is_signalled_at(g, programs, junction, lane, pedestrian),
    ensures
        0 <= i < groups_of(g, programs, lanes_into(g, junction, pedestrian)).len(),
        groups_of(g, programs, lanes_into(g, junction, pedestrian))[i].lanes.contains(lane),
{
    let lanes = lanes_into(g, junction, pedestrian);
    let movement = movement_of_lane(g, programs, lane)->Ok_0;
    every_lane_with_a_movement_is_grouped(g, programs, lanes, lane, movement);
    choose|i: int|
        0 <= i < groups_of(g, programs, lanes).len() && (#[trigger] groups_of(
            g,
            programs,
            lanes,
        )[i]).movement == movement && groups_of(g, programs, lanes)[i].lanes.contains(lane)
}

proof fn lemma_pedestrian_zones_are_listed(
    g: GraphView,
    programs: Seq<TrafficLightProgram>,
    junctions: Seq<Junction>,
    max_zone_length: Option<Double>,
    j: int,
    zone: DetectorView,
)
    requires
        0 <= j < junctions.len(),
        traffic_light_kind(junctions[j].kind),
        pedestrian_zones_of(
            g,
            groups_of(g, programs, lanes_into(g, junctions[j], true)),
            junctions[j],
            max_zone_length,
        ).contains(zone),
    ensures
        all_pedestrian_zones(g, programs, junctions, max_zone_length).contains(zone),
    decreases junctions.len(),
{
    let rest = junctions.drop_last();
    let before = all_pedestrian_zones(g, programs, rest, max_zone_length);
    let all = all_pedestrian_zones(g, programs, junctions, max_zone_length);
    if j < junctions.len() - 1 {
        assert(rest[j] == junctions[j]);
        lemma_pedestrian_zones_are_listed(g, programs, rest, max_zone_length, j, zone);
        let k = choose|k: int| 0 <= k < before.len() && before[k] == zone;
        assert(all[k] == zone);
    } else {
        let here = pedestrian_zones_of(
            g,
            groups_of(g, programs, lanes_into(g, junctions[j], true)),
            junctions[j],
            max_zone_length,
        );
        let k = choose|k: int| 0 <= k < here.len() && here[k] == zone;
        assert(all[before.len() + k] == zone);
    }
}

pub(crate) proof fn lemma_pedestrian_zones_origin(
    g: GraphView,
    programs: Seq<TrafficLightProgram>,
    junctions: Seq<Junction>,
    max_zone_length: Option<Double>,
    z: int,
) -> (found: (int, int))
    requires
        0 <= z < all_pedestrian_zones(g, programs, junctions, max_zone_length).len(),
    ensures
        0 <= found.0 < junctions.len(),
        traffic_light_kind(junctions[found.0].kind),
        0 <= found.1 < groups_of(g, programs, lanes_into(g, junctions[found.0], true)).len(),
        pedestrian_zone_of(
            g,
            groups_of(g, programs, lanes_into(g, junctions[found.0], true))[found.1],
            junctions[found.0],
            max_zone_length,
        ) == Some(all_pedestrian_zones(g, programs, junctions, max_zone_length)[z]),
    decreases junctions.len(),
{
    let rest = junctions.drop_last();
    let before = all_pedestrian_zones(g, programs, rest, max_zone_length);
    if z < before.len() {
        let found = lemma_pedestrian_zones_origin(g, programs, rest, max_zone_length, z);
        assert(rest[found.0] == junctions[found.0]);
        found
    } else {
        let j = junctions.len() - 1;
        let groups = groups_of(g, programs, lanes_into(g, junctions[j], true));
        let i = lemma_pedestrian_zone_origin(
            g,
            groups,
            junctions[j],
            max_zone_length,
            z - before.len(),
        );
        (j, i)
    }
}

/// Every lane that leads, under a signal, into a junction with traffic lights
/// has a zone that ends on it, unless the network does not know the lane. The
/// zone of a pedestrian lane detects persons, and that of any other does not.
pub proof fn every_signalled_lane_has_a_zone(
    network: Network,
    max_zone_length: Option<Double>,
    stop_at_complex_intersections: bool,
    j: int,
    lane: Seq<char>,
    pedestrian: bool,
)
    requires
        0 <= j < network.junctions@.len(),
        is_signalled_at(
            graph_of(network),
            network.traffic_light_programs@,
            network.junctions@[j],
            lane,
            pedestrian,
        ),
        lane_named(graph_of(network).lanes, lane) is Some,
    ensures
        exists|z: int|
            0 <= z < zones_of(network, max_zone_length, stop_at_complex_intersections).len()
                && ends_on(
                #[trigger] zones_of(network, max_zone_length, stop_at_complex_intersections)[z],
                lane,
            ) && (zones_of(
                network,
                max_zone_length,
                stop_at_complex_intersections,
            )[z].detect_persons.len() > 0) == pedestrian,
{
    let g = graph_of(network);
    let programs = network.traffic_light_programs@;
    let junctions = network.junctions@;
    let junction = junctions[j];
    let stop = stop_at_complex_intersections;
    let all = zones_of(network, max_zone_length, stop);
    let groups = vehicle_groups(g, programs, junctions);
    let merged = siblings_merged(g, groups);
    let vehicles = vehicle_zones_of(g, merged, max_zone_length, stop);
    let here = groups_of(g, programs, lanes_into(g, junction, pedestrian));
    let i = lemma_signalled_is_grouped(g, programs, junction, pedestrian, lane);
    if pedestrian {
        let pedestrians = all_pedestrian_zones(g, programs, junctions, max_zone_length);
        let group = here[i];
        lemma_zone_of_group_ends_on(
            movement_name(group.movement.from_edge, group.movement.directions)
                + "_ped"@,
            group.lanes,
            g,
            junction.position,
            EntryReach {
                max_zone_length,
                extend_backward: false,
                stop_at_complex_intersections: false,
            },
            seq![PersonMode::Walk],
            lane,
        );
        let zone = pedestrian_zone_of(g, group, junction, max_zone_length)->0;
        lemma_pedestrian_zone_is_listed(g, here, junction, max_zone_length, i);
        lemma_pedestrian_zones_are_listed(g, programs, junctions, max_zone_length, j, zone);
        let k = choose|k: int| 0 <= k < pedestrians.len() && pedestrians[k] == zone;
        assert(all[vehicles.len() + k] == zone);
    } else {
        let listed = vehicle_groups_at(g, programs, junction);
        assert(listed[i].lanes == here[i].lanes);
        assert(listed.contains(listed[i]));
        lemma_groups_are_listed(g, programs, junctions, j, listed[i]);
        let k = choose|k: int| 0 <= k < groups.len() && groups[k] == listed[i];
        merging_keeps_every_lane(g, groups, k, lane);
        let m = choose|m: int|
            0 <= m < siblings_merged(g, groups).len() && (#[trigger] siblings_merged(
                g,
                groups,
            )[m]).lanes.contains(lane);
        let group = merged[m];
        lemma_zone_of_group_ends_on(
            merged_movement_name(group.from_edges, group.directions),
            group.lanes,
            g,
            group.icon,
            EntryReach { max_zone_length, extend_backward: true, stop_at_complex_intersections },
            Seq::empty(),
            lane,
        );
        let zone = vehicle_zone_of(g, group, max_zone_length, stop)->0;
        lemma_vehicle_zone_is_listed(g, merged, max_zone_length, stop, m);
        let z = choose|z: int| 0 <= z < vehicles.len() && vehicles[z] == zone;
        assert(all[z] == zone);
    }
}

/// Every zone ends on lanes that lead, under a signal, into junctions with
/// traffic lights: on pedestrian lanes if it detects persons, and on others if
/// it does not.
pub proof fn every_zone_ends_at_a_signal(
    network: Network,
    max_zone_length: Option<Double>,
    stop_at_complex_intersections: bool,
    z: int,
    lane: Seq<char>,
)
    requires
        0 <= z < zones_of(network, max_zone_length, stop_at_complex_intersections).len(),
        ends_on(zones_of(network, max_zone_length, stop_at_complex_intersections)[z], lane),
    ensures
        exists|j: int|
            0 <= j < network.junctions@.len() && is_signalled_at(
                graph_of(network),
                network.traffic_light_programs@,
                #[trigger] network.junctions@[j],
                lane,
                zones_of(
                    network,
                    max_zone_length,
                    stop_at_complex_intersections,
                )[z].detect_persons.len() > 0,
            ),
{
    let g = graph_of(network);
    let programs = network.traffic_light_programs@;
    let junctions = network.junctions@;
    let stop = stop_at_complex_intersections;
    let groups = vehicle_groups(g, programs, junctions);
    let merged = siblings_merged(g, groups);
    let vehicles = vehicle_zones_of(g, merged, max_zone_length, stop);
    if z < vehicles.len() {
        let m = lemma_vehicle_zone_origin(g, merged, max_zone_length, stop, z);
        let group = merged[m];
        lemma_zone_of_group_ends_on(
            merged_movement_name(group.from_edges, group.directions),
            group.lanes,
            g,
            group.icon,
            EntryReach { max_zone_length, extend_backward: true, stop_at_complex_intersections },
            Seq::empty(),
            lane,
        );
        merged_lanes_come_from_linked_groups(g, groups, m, lane, lane);
        let k = choose|k: int| 0 <= k < groups.len() && (#[trigger] groups[k]).lanes.contains(lane);
        let (j, i) = lemma_group_origin(g, programs, junctions, k);
        lemma_group_is_signalled(g, programs, junctions[j], false, i, lane);
        assert(is_signalled_at(g, programs, network.junctions@[j], lane, false));
    } else {
        let (j, i) = lemma_pedestrian_zones_origin(
            g,
            programs,
            junctions,
            max_zone_length,
            z - vehicles.len(),
        );
        let group = groups_of(g, programs, lanes_into(g, junctions[j], true))[i];
        lemma_zone_of_group_ends_on(
            movement_name(group.movement.from_edge, group.movement.directions)
                + "_ped"@,
            group.lanes,
            g,
            junctions[j].position,
            EntryReach {
                max_zone_length,
                extend_backward: false,
                stop_at_complex_intersections: false,
            },
            seq![PersonMode::Walk],
            lane,
        );
        lemma_group_is_signalled(g, programs, junctions[j], true, i, lane);
        assert(is_signalled_at(g, programs, network.junctions@[j], lane, true));
    }
}

/// The icon of every zone is where a junction with traffic lights is.
pub proof fn every_icon_is_at_a_junction(
    network: Network,
    max_zone_length: Option<Double>,
    stop_at_complex_intersections: bool,
    z: int,
)
    requires
        0 <= z < zones_of(network, max_zone_length, stop_at_complex_intersections).len(),
    ensures
        exists|j: int|
            0 <= j < network.junctions@.len() && traffic_light_kind(
                (#[trigger] network.junctions@[j]).kind,
            ) && zones_of(
                network,
                max_zone_length,
                stop_at_complex_intersections,
            )[z].icon_position == Some(network.junctions@[j].position),
{
    let g = graph_of(network);
    let programs = network.traffic_light_programs@;
    let junctions = network.junctions@;
    let stop = stop_at_complex_intersections;
    let groups = vehicle_groups(g, programs, junctions);
    let merged = siblings_merged(g, groups);
    let vehicles = vehicle_zones_of(g, merged, max_zone_length, stop);
    if z < vehicles.len() {
        let m = lemma_vehicle_zone_origin(g, merged, max_zone_length, stop, z);
        merging_invents_no_icon(g, groups, m);
        let k = choose|k: int|
            0 <= k < groups.len() && (#[trigger] groups[k]).icon == merged[m].icon;
        let (j, i) = lemma_group_origin(g, programs, junctions, k);
        assert(groups[k].icon == network.junctions@[j].position);
    } else {
        let (j, i) = lemma_pedestrian_zones_origin(
            g,
            programs,
            junctions,
            max_zone_length,
            z - vehicles.len(),
        );
        assert(traffic_light_kind(network.junctions@[j].kind));
    }
}

proof fn lemma_entries_at_starts(g: GraphView, lanes: Seq<Seq<char>>, reach: EntryReach)
    requires
        reach.max_zone_length is None,
    ensures
        forall|i: int|
            0 <= i < entries_of(g, lanes, reach).len() ==> (#[trigger] entries_of(
                g,
                lanes,
                reach,
            )[i]) == gate_at(entries_of(g, lanes, reach)[i].lane, zero()),
    decreases lanes.len(),
{
    if lanes.len() > 0 {
        let before = entries_of(g, lanes.drop_last(), reach);
        lemma_entries_at_starts(g, lanes.drop_last(), reach);
        let all = entries_of(g, lanes, reach);
        assert forall|i: int| 0 <= i < all.len() implies (#[trigger] all[i]) == gate_at(
            all[i].lane,
            zero(),
        ) by {
            if i < before.len() {
                assert(all[i] == before[i]);
            } else {
                let l = lane_named(g.lanes, lanes.last())->0;
                let here = entries_of_lane(g, lanes.last(), l.length, reach);
                assert(all[i] == here[i - before.len()]);
            }
        }
    }
}

/// Without a limit, a zone begins where its lanes do: it spans each of them
/// from end to end.
pub proof fn without_a_limit_zones_span_their_lanes(
    network: Network,
    stop_at_complex_intersections: bool,
    z: int,
    i: int,
)
    requires
        0 <= z < zones_of(network, None, stop_at_complex_intersections).len(),
        0 <= i < zones_of(network, None, stop_at_complex_intersections)[z].entries.len(),
    ensures
        zones_of(network, None, stop_at_complex_intersections)[z].entries[i] == gate_at(
            zones_of(network, None, stop_at_complex_intersections)[z].entries[i].lane,
            zero(),
        ),
{
    let g = graph_of(network);
    let programs = network.traffic_light_programs@;
    let junctions = network.junctions@;
    let stop = stop_at_complex_intersections;
    let merged = siblings_merged(g, vehicle_groups(g, programs, junctions));
    let vehicles = vehicle_zones_of(g, merged, None, stop);
    if z < vehicles.len() {
        let m = lemma_vehicle_zone_origin(g, merged, None, stop, z);
        lemma_entries_at_starts(
            g,
            merged[m].lanes,
            EntryReach {
                max_zone_length: None,
                extend_backward: true,
                stop_at_complex_intersections,
            },
        );
    } else {
        let (j, k) = lemma_pedestrian_zones_origin(g, programs, junctions, None, z - vehicles.len());
        lemma_entries_at_starts(
            g,
            groups_of(g, programs, lanes_into(g, junctions[j], true))[k].lanes,
            EntryReach {
                max_zone_length: None,
                extend_backward: false,
                stop_at_complex_intersections: false,
            },
        );
    }
}

} // verus!
