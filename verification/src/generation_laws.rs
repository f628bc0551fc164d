//! What the zones of a network are, told by what the network says.

use crate::boundaries::{
    entries_of, entries_of_lane, exits_of, zone_of_group, EntryReach,
};
use crate::connectivity::{graph_of, lane_named, links_from, GraphView, LinkView};
use crate::coverage_laws::{
    ends_on, every_signalled_lane_has_a_zone, every_zone_ends_at_a_signal, is_signalled_at,
    lemma_pedestrian_zones_origin, lemma_vehicle_zone_origin,
};
use crate::detector::{DetectorView, GateView, LanePosition, PersonMode};
use crate::double::{is_less, minus, zero, Double};
use crate::graph_laws::lemma_filter_holds;
use crate::grouping::{groups_of, movement_of_lane, UngroupedView};
use crate::movement::{merged_movement_name, movement_name, MovementView};
use crate::network::{Junction, JunctionKind, Network, Point, TrafficLightProgram};
use crate::order::texts;
use crate::siblings::siblings_merged;
use crate::signal_laws::{a_movement_is_made_of_the_links_under_a_signal, is_under_signal};
use crate::zone_generator::{
    is_pedestrian_lane, lanes_into, skipped_among, skipped_at,
    vehicle_groups, vehicle_zones_of, zones_of, SkippedView,
};
use crate::zone_laws::gate_lanes;
use crate::zone_output::with_output_file;
use vstd::prelude::*;

verus! {

/// Whether right of way at a junction is decided by traffic lights.
pub open spec fn has_traffic_lights(junction: Junction) -> bool {
    match junction.kind {
        JunctionKind::TrafficLight => true,
        JunctionKind::TrafficLightUnregulated => true,
        JunctionKind::TrafficLightRightOnRed => true,
        _ => false,
    }
}

/// Whether a lane is known to be for pedestrians alone.
pub open spec fn is_walked_on(g: GraphView, lane: Seq<char>) -> bool {
    lane_named(g.lanes, lane) matches Some(l) && l.pedestrian_only
}

/// Whether a junction lists `lane` among those that end there.
pub open spec fn lists(junction: Junction, lane: Seq<char>) -> bool {
    exists|k: int|
        0 <= k < junction.incoming_lanes@.len() && (#[trigger] junction.incoming_lanes@[k])@ == lane
}

/// Whether some link out of `lane` is under a signal.
pub open spec fn has_a_signal(
    g: GraphView,
    programs: Seq<TrafficLightProgram>,
    lane: Seq<char>,
) -> bool {
    exists|i: int|
        0 <= i < g.links.len() && (#[trigger] g.links[i]).from == Some(lane) && is_under_signal(
            g.links[i],
            programs,
        )
}

/// Whether the traffic of `lane` waits at a junction: traffic lights decide
/// there, the lane ends there, and a link out of it is under a signal.
pub open spec fn waits_at(
    g: GraphView,
    programs: Seq<TrafficLightProgram>,
    junction: Junction,
    lane: Seq<char>,
) -> bool {
    has_traffic_lights(junction) && lists(junction, lane) && has_a_signal(g, programs, lane)
}

proof fn lemma_lanes_into(g: GraphView, junction: Junction, pedestrian: bool, lane: Seq<char>)
    ensures
        lanes_into(g, junction, pedestrian).contains(lane) <==> lists(junction, lane)
            && is_walked_on(g, lane) == pedestrian,
{
    let listed = texts(junction.incoming_lanes@);
    lemma_filter_holds(listed, |l: Seq<char>| is_pedestrian_lane(g, l) == pedestrian, lane);
    if listed.contains(lane) {
        let k = choose|k: int| 0 <= k < listed.len() && listed[k] == lane;
        assert(junction.incoming_lanes@[k]@ == lane);
    }
    if lists(junction, lane) {
        let k = choose|k: int|
            0 <= k < junction.incoming_lanes@.len() && (#[trigger] junction.incoming_lanes@[k])@
                == lane;
        assert(listed[k] == lane);
    }
}

proof fn lemma_has_movement(g: GraphView, programs: Seq<TrafficLightProgram>, lane: Seq<char>)
    ensures
        movement_of_lane(g, programs, lane) is Ok <==> has_a_signal(g, programs, lane),
{
    let wanted = |link: LinkView| link.from == Some(lane);
    let out = g.links.filter(wanted);
    assert(links_from(g.links, lane) == out);
    a_movement_is_made_of_the_links_under_a_signal(out, programs);
    if movement_of_lane(g, programs, lane) is Ok {
        let k = choose|k: int| 0 <= k < out.len() && is_under_signal(#[trigger] out[k], programs);
        assert(out.contains(out[k]));
        lemma_filter_holds(g.links, wanted, out[k]);
        let i = choose|i: int| 0 <= i < g.links.len() && g.links[i] == out[k];
        assert(g.links[i].from == Some(lane));
    }
    if has_a_signal(g, programs, lane) {
        let i = choose|i: int|
            0 <= i < g.links.len() && (#[trigger] g.links[i]).from == Some(lane) && is_under_signal(
                g.links[i],
                programs,
            );
        assert(g.links.contains(g.links[i]));
        lemma_filter_holds(g.links, wanted, g.links[i]);
        let k = choose|k: int| 0 <= k < out.len() && out[k] == g.links[i];
        assert(is_under_signal(out[k], programs));
    }
}

/// The lanes into a junction are those that it lists: with and without those
/// for pedestrians, and each as often as it is listed.
pub proof fn lanes_into_a_junction_are_parted_by_who_uses_them(
    g: GraphView,
    junction: Junction,
    lane: Seq<char>,
)
    ensures
        lanes_into(g, junction, true).contains(lane) <==> lists(junction, lane) && is_walked_on(
            g,
            lane,
        ),
        lanes_into(g, junction, false).contains(lane) <==> lists(junction, lane) && !is_walked_on(
            g,
            lane,
        ),
        lanes_into(g, junction, true).len() + lanes_into(g, junction, false).len()
            == junction.incoming_lanes@.len(),
{
    lemma_lanes_into(g, junction, true, lane);
    lemma_lanes_into(g, junction, false, lane);
    lemma_parted(
        texts(junction.incoming_lanes@),
        |l: Seq<char>| is_pedestrian_lane(g, l) == true,
        |l: Seq<char>| is_pedestrian_lane(g, l) == false,
    );
}

proof fn lemma_parted<T>(items: Seq<T>, p: spec_fn(T) -> bool, q: spec_fn(T) -> bool)
    requires
        forall|x: T| #[trigger] p(x) == !q(x),
    ensures
        items.filter(p).len() + items.filter(q).len() == items.len(),
    decreases items.len(),
{
    reveal(Seq::filter);
    if items.len() > 0 {
        lemma_parted(items.drop_last(), p, q);
        assert(p(items.last()) == !q(items.last()));
    }
}

/// A zone ends on a lane exactly where the lane's traffic waits at a junction
/// and the network knows the lane; a zone that detects persons ends on lanes
/// for pedestrians, and a zone that detects none on others.
pub proof fn zones_end_where_traffic_waits(
    network: Network,
    max_zone_length: Option<Double>,
    stop_at_complex_intersections: bool,
    lane: Seq<char>,
)
    ensures
        forall|z: int|
            #![trigger zones_of(network, max_zone_length, stop_at_complex_intersections)[z]]
            0 <= z < zones_of(network, max_zone_length, stop_at_complex_intersections).len()
                && ends_on(
                zones_of(network, max_zone_length, stop_at_complex_intersections)[z],
                lane,
            ) ==> exists|j: int|
                0 <= j < network.junctions@.len() && waits_at(
                    graph_of(network),
                    network.traffic_light_programs@,
                    #[trigger] network.junctions@[j],
                    lane,
                ) && is_walked_on(graph_of(network), lane) == (zones_of(
                    network,
                    max_zone_length,
                    stop_at_complex_intersections,
                )[z].detect_persons.len() > 0),
        forall|j: int|
            0 <= j < network.junctions@.len() && waits_at(
                graph_of(network),
                network.traffic_light_programs@,
                #[trigger] network.junctions@[j],
                lane,
            ) && lane_named(graph_of(network).lanes, lane) is Some ==> exists|z: int|
                0 <= z < zones_of(network, max_zone_length, stop_at_complex_intersections).len()
                    && ends_on(
                    #[trigger] zones_of(
                        network,
                        max_zone_length,
                        stop_at_complex_intersections,
                    )[z],
                    lane,
                ),
{
    let g = graph_of(network);
    let programs = network.traffic_light_programs@;
    let zones = zones_of(network, max_zone_length, stop_at_complex_intersections);
    lemma_has_movement(g, programs, lane);
    assert forall|z: int|
        #![trigger zones[z]]
        0 <= z < zones.len() && ends_on(zones[z], lane) implies exists|j: int|
        0 <= j < network.junctions@.len() && waits_at(
            g,
            programs,
            #[trigger] network.junctions@[j],
            lane,
        ) && is_walked_on(g, lane) == (zones[z].detect_persons.len() > 0) by {
        every_zone_ends_at_a_signal(
            network,
            max_zone_length,
            stop_at_complex_intersections,
            z,
            lane,
        );
        let j = choose|j: int|
            0 <= j < network.junctions@.len() && is_signalled_at(
                g,
                programs,
                #[trigger] network.junctions@[j],
                lane,
                zones[z].detect_persons.len() > 0,
            );
        lemma_lanes_into(g, network.junctions@[j], zones[z].detect_persons.len() > 0, lane);
        assert(waits_at(g, programs, network.junctions@[j], lane));
    }
    assert forall|j: int|
        0 <= j < network.junctions@.len() && waits_at(
            g,
            programs,
            #[trigger] network.junctions@[j],
            lane,
        ) && lane_named(g.lanes, lane) is Some implies exists|z: int|
        0 <= z < zones.len() && ends_on(#[trigger] zones[z], lane) by {
        let pedestrian = is_walked_on(g, lane);
        lemma_lanes_into(g, network.junctions@[j], pedestrian, lane);
        every_signalled_lane_has_a_zone(
            network,
            max_zone_length,
            stop_at_complex_intersections,
            j,
            lane,
            pedestrian,
        );
    }
}

/// Whether an entry stands at the start of its lane, or, on a lane longer than
/// the limit, as far before the lane's end as the limit says.
pub open spec fn is_entry(g: GraphView, entry: GateView, limit: Option<Double>) -> bool {
    entry.friendly_position == Some(true) && (entry.position == LanePosition::FromStart(zero())
        || limit is Some && lane_named(g.lanes, entry.lane) is Some && is_less(
        limit->0,
        (lane_named(g.lanes, entry.lane)->0).length,
    ) && entry.position == LanePosition::FromStart(
        minus((lane_named(g.lanes, entry.lane)->0).length, limit->0),
    ))
}

/// Whether an exit stands at the end of its lane.
pub open spec fn is_exit(g: GraphView, exit: GateView) -> bool {
    exit.friendly_position == Some(true) && lane_named(g.lanes, exit.lane) is Some && exit.position
        == LanePosition::FromStart((lane_named(g.lanes, exit.lane)->0).length)
}

proof fn lemma_gates(g: GraphView, lanes: Seq<Seq<char>>, reach: EntryReach)
    ensures
        forall|i: int|
            0 <= i < entries_of(g, lanes, reach).len() ==> is_entry(
                g,
                #[trigger] entries_of(g, lanes, reach)[i],
                reach.max_zone_length,
            ),
        forall|i: int|
            0 <= i < exits_of(g, lanes).len() ==> is_exit(g, #[trigger] exits_of(g, lanes)[i]),
    decreases lanes.len(),
{
    if lanes.len() > 0 {
        let rest = lanes.drop_last();
        lemma_gates(g, rest, reach);
        let entries = entries_of(g, rest, reach);
        let all = entries_of(g, lanes, reach);
        let exits = exits_of(g, rest);
        let ends = exits_of(g, lanes);
        assert forall|i: int| 0 <= i < all.len() implies is_entry(
            g,
            #[trigger] all[i],
            reach.max_zone_length,
        ) by {
            if i < entries.len() {
                assert(all[i] == entries[i]);
            } else {
                let l = lane_named(g.lanes, lanes.last())->0;
                let here = entries_of_lane(g, lanes.last(), l.length, reach);
                assert(all[i] == here[i - entries.len()]);
            }
        }
        assert forall|i: int| 0 <= i < ends.len() implies is_exit(g, #[trigger] ends[i]) by {
            if i < exits.len() {
                assert(ends[i] == exits[i]);
            }
        }
    }
}

/// Whether a zone says nothing but where it is and whom it detects.
pub open spec fn leaves_the_rest_unsaid(zone: DetectorView) -> bool {
    zone.file.len() == 0 && zone.period is None && zone.name is None && zone.speed_threshold is None
        && zone.time_threshold is None && zone.open_entry is None
}

/// Every exit of a zone is the end of its lane; every entry is the start of
/// its lane or, on a lane longer than the limit, as far before the end as the
/// limit says. All of them are friendly, and nothing else is said of a zone
/// but its icon and whom it detects.
pub proof fn gates_stand_at_the_ends_of_lanes(
    network: Network,
    max_zone_length: Option<Double>,
    stop_at_complex_intersections: bool,
    z: int,
)
    requires
        0 <= z < zones_of(network, max_zone_length, stop_at_complex_intersections).len(),
    ensures
        ({
            let zone = zones_of(network, max_zone_length, stop_at_complex_intersections)[z];
            &&& forall|i: int|
                0 <= i < zone.entries.len() ==> is_entry(
                    graph_of(network),
                    #[trigger] zone.entries[i],
                    max_zone_length,
                )
            &&& forall|i: int|
                0 <= i < zone.exits.len() ==> is_exit(graph_of(network), #[trigger] zone.exits[i])
            &&& leaves_the_rest_unsaid(zone)
            &&& zone.detect_persons.len() == 0 || zone.detect_persons == seq![PersonMode::Walk]
            &&& zone.icon_position is Some
        }),
{
    let g = graph_of(network);
    let programs = network.traffic_light_programs@;
    let junctions = network.junctions@;
    let stop = stop_at_complex_intersections;
    let merged = siblings_merged(g, vehicle_groups(g, programs, junctions));
    let vehicles = vehicle_zones_of(g, merged, max_zone_length, stop);
    if z < vehicles.len() {
        let m = lemma_vehicle_zone_origin(g, merged, max_zone_length, stop, z);
        lemma_gates(
            g,
            merged[m].lanes,
            EntryReach { max_zone_length, extend_backward: true, stop_at_complex_intersections },
        );
    } else {
        let (j, k) = lemma_pedestrian_zones_origin(
            g,
            programs,
            junctions,
            max_zone_length,
            z - vehicles.len(),
        );
        lemma_gates(
            g,
            groups_of(g, programs, lanes_into(g, junctions[j], true))[k].lanes,
            EntryReach {
                max_zone_length,
                extend_backward: false,
                stop_at_complex_intersections: false,
            },
        );
    }
}

proof fn lemma_entries_on_long_lanes(
    g: GraphView,
    lanes: Seq<Seq<char>>,
    reach: EntryReach,
    max: Double,
)
    requires
        reach.max_zone_length == Some(max),
        forall|i: int|
            0 <= i < lanes.len() && lane_named(g.lanes, #[trigger] lanes[i]) is Some ==> is_longer(
                g,
                lanes[i],
                max,
            ),
    ensures
        gate_lanes(entries_of(g, lanes, reach)) == gate_lanes(exits_of(g, lanes)),
    decreases lanes.len(),
{
    if lanes.len() > 0 {
        let rest = lanes.drop_last();
        assert forall|i: int|
            0 <= i < rest.len() && lane_named(g.lanes, #[trigger] rest[i]) is Some implies is_longer(
            g,
            rest[i],
            max,
        ) by {
            assert(rest[i] == lanes[i]);
        }
        lemma_entries_on_long_lanes(g, rest, reach, max);
        assert(lane_named(g.lanes, lanes[lanes.len() - 1]) is Some ==> is_longer(
            g,
            lanes[lanes.len() - 1],
            max,
        ));
        let entries = gate_lanes(entries_of(g, lanes, reach));
        let exits = gate_lanes(exits_of(g, lanes));
        let before = gate_lanes(entries_of(g, rest, reach));
        assert(before == gate_lanes(exits_of(g, rest)));
        assert(before.len() == exits_of(g, rest).len());
        if lane_named(g.lanes, lanes.last()) is Some {
            assert(entries =~= before.push(lanes.last()));
            assert(exits =~= before.push(lanes.last())) by {
                assert forall|i: int| 0 <= i < before.len() implies exits[i] == before[i] by {
                    assert(gate_lanes(exits_of(g, rest))[i] == before[i]);
                }
            }
        }
    }
}

/// Whether a lane is longer than the limit by more than nothing.
pub open spec fn is_longer(g: GraphView, lane: Seq<char>, max: Double) -> bool {
    lane_named(g.lanes, lane) is Some && is_less(max, (lane_named(g.lanes, lane)->0).length)
        && is_less(zero(), minus((lane_named(g.lanes, lane)->0).length, max))
}

/// Where every lane of a group is longer than the limit, its zone has one entry
/// on each of its own lanes, and goes on into no other.
pub proof fn a_zone_on_long_lanes_stays_on_them(
    id: Seq<char>,
    lanes: Seq<Seq<char>>,
    g: GraphView,
    icon: Point,
    reach: EntryReach,
    persons: Seq<PersonMode>,
    max: Double,
)
    requires
        reach.max_zone_length == Some(max),
        forall|i: int|
            0 <= i < lanes.len() && lane_named(g.lanes, #[trigger] lanes[i]) is Some ==> is_longer(
                g,
                lanes[i],
                max,
            ),
    ensures
        zone_of_group(id, lanes, g, icon, reach, persons) matches Some(zone) ==> gate_lanes(
            zone.entries,
        ) == gate_lanes(zone.exits),
{
    lemma_entries_on_long_lanes(g, lanes, reach, max);
}

/// A zone of vehicles is named after the edges and turns of a merged group and
/// ends on its lanes alone; a zone of pedestrians after the edge and turns of
/// a group of a junction, with a mark of its own.
pub proof fn zones_are_named_after_their_groups(
    network: Network,
    max_zone_length: Option<Double>,
    stop_at_complex_intersections: bool,
    z: int,
)
    requires
        0 <= z < zones_of(network, max_zone_length, stop_at_complex_intersections).len(),
    ensures
        ({
            let zone = zones_of(network, max_zone_length, stop_at_complex_intersections)[z];
            let g = graph_of(network);
            let programs = network.traffic_light_programs@;
            let merged = siblings_merged(g, vehicle_groups(g, programs, network.junctions@));
            if zone.detect_persons.len() == 0 {
                exists|m: int|
                    0 <= m < merged.len() && zone.id == merged_movement_name(
                        (#[trigger] merged[m]).from_edges,
                        merged[m].directions,
                    ) && zone.icon_position == Some(merged[m].icon) && zone.exits == exits_of(
                        g,
                        merged[m].lanes,
                    )
            } else {
                exists|j: int, k: int|
                    0 <= j < network.junctions@.len() && 0 <= k < groups_of(
                        g,
                        programs,
                        lanes_into(g, network.junctions@[j], true),
                    ).len() && ({
                        let group = #[trigger] groups_of(
                            g,
                            programs,
                            lanes_into(g, network.junctions@[j], true),
                        )[k];
                        zone.id == movement_name(
                            group.movement.from_edge,
                            group.movement.directions,
                        ) + "_ped"@ && zone.icon_position == Some(network.junctions@[j].position)
                            && zone.exits == exits_of(g, group.lanes)
                    })
            }
        }),
{
    let g = graph_of(network);
    let programs = network.traffic_light_programs@;
    let junctions = network.junctions@;
    let stop = stop_at_complex_intersections;
    let merged = siblings_merged(g, vehicle_groups(g, programs, junctions));
    let vehicles = vehicle_zones_of(g, merged, max_zone_length, stop);
    if z < vehicles.len() {
        let m = lemma_vehicle_zone_origin(g, merged, max_zone_length, stop, z);
        assert(merged[m].lanes.len() >= 0);
    } else {
        let (j, k) = lemma_pedestrian_zones_origin(
            g,
            programs,
            junctions,
            max_zone_length,
            z - vehicles.len(),
        );
        let group = groups_of(g, programs, lanes_into(g, junctions[j], true))[k];
        assert(group.lanes.len() >= 0);
    }
}

/// Naming its output file changes nothing else of a zone, and gives zones with
/// different ids different files.
pub proof fn each_zone_has_a_file_of_its_own(a: DetectorView, b: DetectorView)
    ensures
        (DetectorView { file: a.file, ..with_output_file(a) }) == a,
        a.id != b.id ==> with_output_file(a).file != with_output_file(b).file,
        with_output_file(a).file == "detector_output/"@ + a.id + ".xml"@,
{
    if with_output_file(a).file == with_output_file(b).file {
        let n = "detector_output/"@.len() as int;
        let m = ".xml"@.len() as int;
        let f = with_output_file(a).file;
        assert(f.subrange(n, f.len() - m) =~= a.id);
        assert(with_output_file(b).file.subrange(n, with_output_file(b).file.len() - m) =~= b.id);
    }
}

/// Whether a lane is passed over at a junction, with the reason.
pub open spec fn is_passed_over(
    g: GraphView,
    programs: Seq<TrafficLightProgram>,
    junction: Junction,
    skipped: SkippedView,
    pedestrian: bool,
) -> bool {
    has_traffic_lights(junction) && lists(junction, skipped.lane) && is_walked_on(g, skipped.lane)
        == pedestrian && skipped.junction == junction.id@ && movement_of_lane(
        g,
        programs,
        skipped.lane,
    ) == Err::<MovementView, UngroupedView>(skipped.reason)
}

proof fn lemma_skipped_among(
    g: GraphView,
    programs: Seq<TrafficLightProgram>,
    lanes: Seq<Seq<char>>,
    junction: Seq<char>,
    skipped: SkippedView,
)
    ensures
        skipped_among(g, programs, lanes, junction).contains(skipped) <==> lanes.contains(
            skipped.lane,
        ) && skipped.junction == junction && movement_of_lane(g, programs, skipped.lane) == Err::<
            MovementView,
            UngroupedView,
        >(skipped.reason),
    decreases lanes.len(),
{
    if lanes.len() > 0 {
        let rest = lanes.drop_last();
        let last = lanes.last();
        lemma_skipped_among(g, programs, rest, junction, skipped);
        let before = skipped_among(g, programs, rest, junction);
        let all = skipped_among(g, programs, lanes, junction);
        if before.contains(skipped) {
            let k = choose|k: int| 0 <= k < before.len() && before[k] == skipped;
            assert(all[k] == skipped);
            let i = choose|i: int| 0 <= i < rest.len() && rest[i] == skipped.lane;
            assert(lanes[i] == skipped.lane);
        }
        if all.contains(skipped) && !before.contains(skipped) {
            let k = choose|k: int| 0 <= k < all.len() && all[k] == skipped;
            if k < before.len() {
                assert(before[k] == skipped);
            }
            assert(lanes[lanes.len() - 1] == skipped.lane);
        }
        if lanes.contains(skipped.lane) && !rest.contains(skipped.lane) {
            let i = choose|i: int| 0 <= i < lanes.len() && lanes[i] == skipped.lane;
            if i < rest.len() {
                assert(rest[i] == skipped.lane);
            }
            assert(last == skipped.lane);
            if all.len() > before.len() {
                assert(all[before.len() as int] == all.last());
            }
        }
        assert(lanes.contains(last)) by {
            assert(lanes[lanes.len() - 1] == last);
        }
        if movement_of_lane(g, programs, skipped.lane) is Err && last == skipped.lane {
            assert(all[before.len() as int].lane == last);
            assert(all.contains(all[before.len() as int]));
            if skipped.junction == junction && movement_of_lane(g, programs, skipped.lane) == Err::<
                MovementView,
                UngroupedView,
            >(skipped.reason) {
                assert(all[before.len() as int] == skipped);
            }
        }
    }
}

/// The lanes that are passed over are those that end at a junction with
/// traffic lights and have no movement; each is told with its junction and
/// with the reason.
pub proof fn lanes_without_a_movement_are_passed_over(
    g: GraphView,
    programs: Seq<TrafficLightProgram>,
    junctions: Seq<Junction>,
    pedestrian: bool,
    skipped: SkippedView,
)
    ensures
        skipped_at(g, programs, junctions, pedestrian).contains(skipped) <==> exists|j: int|
            0 <= j < junctions.len() && is_passed_over(
                g,
                programs,
                #[trigger] junctions[j],
                skipped,
                pedestrian,
            ),
    decreases junctions.len(),
{
    if junctions.len() > 0 {
        let rest = junctions.drop_last();
        let last = junctions.last();
        lanes_without_a_movement_are_passed_over(g, programs, rest, pedestrian, skipped);
        lemma_skipped_among(
            g,
            programs,
            lanes_into(g, last, pedestrian),
            last.id@,
            skipped,
        );
        lemma_lanes_into(g, last, pedestrian, skipped.lane);
        let before = skipped_at(g, programs, rest, pedestrian);
        let here = skipped_among(g, programs, lanes_into(g, last, pedestrian), last.id@);
        let all = skipped_at(g, programs, junctions, pedestrian);
        if before.contains(skipped) {
            let k = choose|k: int| 0 <= k < before.len() && before[k] == skipped;
            assert(all[k] == skipped);
            let j = choose|j: int|
                0 <= j < rest.len() && is_passed_over(
                    g,
                    programs,
                    #[trigger] rest[j],
                    skipped,
                    pedestrian,
                );
            assert(junctions[j] == rest[j]);
        }
        if is_passed_over(g, programs, last, skipped, pedestrian) {
            let k = choose|k: int| 0 <= k < here.len() && here[k] == skipped;
            assert(all[before.len() + k] == skipped);
            assert(junctions[junctions.len() - 1] == last);
        }
        if all.contains(skipped) && !before.contains(skipped) {
            let k = choose|k: int| 0 <= k < all.len() && all[k] == skipped;
            if k < before.len() {
                assert(before[k] == skipped);
            }
            assert(here[k - before.len()] == skipped);
            assert(is_passed_over(g, programs, last, skipped, pedestrian));
        }
        if exists|j: int|
            0 <= j < junctions.len() && is_passed_over(
                g,
                programs,
                #[trigger] junctions[j],
                skipped,
                pedestrian,
            ) {
            let j = choose|j: int|
                0 <= j < junctions.len() && is_passed_over(
                    g,
                    programs,
                    #[trigger] junctions[j],
                    skipped,
                    pedestrian,
                );
            if j < rest.len() {
                assert(rest[j] == junctions[j]);
            }
        }
    }
}

} // verus!
