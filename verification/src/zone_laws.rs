//! What holds of the zones of a network as a whole.

use crate::approach::{
    extension, hop, is_passable, lemma_walk_each_grows, length_of, walk, walk_each,
};
use crate::boundaries::{
    entries_of, entries_of_lane, entry_position, exits_of, extension_budget, gate_at, zone_of_group,
    EntryReach,
};
use crate::connectivity::{
    graph_of, is_complex, lane_named, links_from, real_links, GraphView, LinkView,
};
use crate::detector::{DetectorView, GateView, PersonMode};
use crate::double::{is_less, minus, Double};
use crate::grouping::{controlled, groups_of, program_named, signal_of, GroupView};
use crate::movement::{merged_movement_name, movement_name};
use crate::network::{index_resolves, Junction, Network, Phase, Point, TrafficLightProgram};
use crate::siblings::{siblings_merged, VehicleGroupView};
use crate::zone_generator::{
    all_pedestrian_zones, lanes_into, pedestrian_zone_of, pedestrian_zones_of, vehicle_groups,
    vehicle_zones_of, zones_of,
};
use vstd::prelude::*;

verus! {

/// Whether the program named `id` has a state for the link at `index`.
pub open spec fn resolves(programs: Seq<TrafficLightProgram>, id: Seq<char>, index: i32) -> bool {
    match program_named(programs, id) {
        Some(program) => index_resolves(program.phases@, index as int),
        None => false,
    }
}

/// Whether two lists of programs control the same links.
pub open spec fn control_alike(a: Seq<TrafficLightProgram>, b: Seq<TrafficLightProgram>) -> bool {
    forall|id: Seq<char>, index: i32| #[trigger] resolves(a, id, index) == resolves(b, id, index)
}

proof fn lemma_filter_alike<T>(items: Seq<T>, p: spec_fn(T) -> bool, q: spec_fn(T) -> bool)
    requires
        forall|x: T| #[trigger] p(x) == q(x),
    ensures
        items.filter(p) == items.filter(q),
    decreases items.len(),
{
    reveal(Seq::filter);
    if items.len() > 0 {
        lemma_filter_alike(items.drop_last(), p, q);
        assert(p(items.last()) == q(items.last()));
    }
}

proof fn lemma_groups_alike(
    g: GraphView,
    a: Seq<TrafficLightProgram>,
    b: Seq<TrafficLightProgram>,
    lanes: Seq<Seq<char>>,
)
    requires
        control_alike(a, b),
    ensures
        groups_of(g, a, lanes) == groups_of(g, b, lanes),
    decreases lanes.len(),
{
    if lanes.len() > 0 {
        lemma_groups_alike(g, a, b, lanes.drop_last());
        let links = links_from(g.links, lanes.last());
        let in_a = |link: LinkView| signal_of(link, a) is Resolved;
        let in_b = |link: LinkView| signal_of(link, b) is Resolved;
        assert forall|link: LinkView| #[trigger] in_a(link) == in_b(link) by {
            match (link.traffic_light, link.link_index) {
                (Some(id), Some(index)) => {
                    assert(resolves(a, id, index) == resolves(b, id, index));
                },
                _ => {},
            }
        }
        lemma_filter_alike(links, in_a, in_b);
        assert(controlled(links, a) == controlled(links, b));
    }
}

proof fn lemma_vehicle_groups_alike(
    g: GraphView,
    a: Seq<TrafficLightProgram>,
    b: Seq<TrafficLightProgram>,
    junctions: Seq<Junction>,
)
    requires
        control_alike(a, b),
    ensures
        vehicle_groups(g, a, junctions) == vehicle_groups(g, b, junctions),
    decreases junctions.len(),
{
    if junctions.len() > 0 {
        lemma_vehicle_groups_alike(g, a, b, junctions.drop_last());
        lemma_groups_alike(g, a, b, lanes_into(g, junctions.last(), false));
    }
}

proof fn lemma_pedestrian_zones_alike(
    g: GraphView,
    a: Seq<TrafficLightProgram>,
    b: Seq<TrafficLightProgram>,
    junctions: Seq<Junction>,
    max_zone_length: Option<Double>,
)
    requires
        control_alike(a, b),
    ensures
        all_pedestrian_zones(g, a, junctions, max_zone_length) == all_pedestrian_zones(
            g,
            b,
            junctions,
            max_zone_length,
        ),
    decreases junctions.len(),
{
    if junctions.len() > 0 {
        lemma_pedestrian_zones_alike(g, a, b, junctions.drop_last(), max_zone_length);
        lemma_groups_alike(g, a, b, lanes_into(g, junctions.last(), true));
    }
}

/// Zones depend on the signal programs only through the links that these
/// control. Edits that leave each link controlled, or not, as it was change
/// neither the ids of the zones nor anything else about them.
pub proof fn zones_survive_program_edits(
    before: Network,
    after: Network,
    max_zone_length: Option<Double>,
    stop_at_complex_intersections: bool,
)
    requires
        after.edges@ == before.edges@,
        after.junctions@ == before.junctions@,
        after.connections@ == before.connections@,
        control_alike(before.traffic_light_programs@, after.traffic_light_programs@),
    ensures
        zones_of(after, max_zone_length, stop_at_complex_intersections) == zones_of(
            before,
            max_zone_length,
            stop_at_complex_intersections,
        ),
{
    let g = graph_of(before);
    assert(graph_of(after) == g);
    let a = before.traffic_light_programs@;
    let b = after.traffic_light_programs@;
    lemma_vehicle_groups_alike(g, a, b, before.junctions@);
    lemma_pedestrian_zones_alike(g, a, b, before.junctions@, max_zone_length);
}

/// Whether two programs have the same id and the same phases, in whatever
/// order.
pub open spec fn reordered(a: TrafficLightProgram, b: TrafficLightProgram) -> bool {
    a.id@ == b.id@ && forall|phase: Phase| #[trigger]
        a.phases@.contains(phase) <==> b.phases@.contains(phase)
}

proof fn lemma_reordered_resolves(a: TrafficLightProgram, b: TrafficLightProgram, index: int)
    requires
        reordered(a, b),
        index_resolves(a.phases@, index),
    ensures
        index_resolves(b.phases@, index),
{
    assert forall|i: int| 0 <= i < b.phases@.len() implies index < (
    #[trigger] b.phases@[i]).state@.len() by {
        assert(b.phases@.contains(b.phases@[i]));
        assert(a.phases@.contains(b.phases@[i]));
        let k = choose|k: int| 0 <= k < a.phases@.len() && a.phases@[k] == b.phases@[i];
        assert(index < a.phases@[k].state@.len());
    }
}

proof fn lemma_reordered_named(
    a: Seq<TrafficLightProgram>,
    b: Seq<TrafficLightProgram>,
    id: Seq<char>,
)
    requires
        a.len() == b.len(),
        forall|i: int| 0 <= i < a.len() ==> reordered(#[trigger] a[i], b[i]),
    ensures
        match (program_named(a, id), program_named(b, id)) {
            (Some(p), Some(q)) => reordered(p, q),
            (None, None) => true,
            _ => false,
        },
    decreases a.len(),
{
    if a.len() > 0 {
        let shorter_a = a.drop_last();
        let shorter_b = b.drop_last();
        assert forall|i: int| 0 <= i < shorter_a.len() implies reordered(
            #[trigger] shorter_a[i],
            shorter_b[i],
        ) by {
            assert(reordered(a[i], b[i]));
        }
        lemma_reordered_named(shorter_a, shorter_b, id);
        assert(reordered(a[a.len() - 1], b[a.len() - 1]));
    }
}

/// Changing the order of the phases of any program changes no zone.
pub proof fn zones_survive_phase_reordering(
    before: Network,
    after: Network,
    max_zone_length: Option<Double>,
    stop_at_complex_intersections: bool,
)
    requires
        after.edges@ == before.edges@,
        after.junctions@ == before.junctions@,
        after.connections@ == before.connections@,
        after.traffic_light_programs@.len() == before.traffic_light_programs@.len(),
        forall|i: int|
            0 <= i < before.traffic_light_programs@.len() ==> reordered(
                #[trigger] before.traffic_light_programs@[i],
                after.traffic_light_programs@[i],
            ),
    ensures
        zones_of(after, max_zone_length, stop_at_complex_intersections) == zones_of(
            before,
            max_zone_length,
            stop_at_complex_intersections,
        ),
{
    let a = before.traffic_light_programs@;
    let b = after.traffic_light_programs@;
    assert forall|id: Seq<char>, index: i32| #[trigger]
        resolves(a, id, index) == resolves(b, id, index) by {
        lemma_reordered_named(a, b, id);
        match (program_named(a, id), program_named(b, id)) {
            (Some(p), Some(q)) => {
                if index_resolves(p.phases@, index as int) {
                    lemma_reordered_resolves(p, q, index as int);
                }
                if index_resolves(q.phases@, index as int) {
                    assert(reordered(q, p));
                    lemma_reordered_resolves(q, p, index as int);
                }
            },
            _ => {},
        }
    }
    zones_survive_program_edits(before, after, max_zone_length, stop_at_complex_intersections);
}

/// The lanes that gates stand on.
pub open spec fn gate_lanes(gates: Seq<GateView>) -> Seq<Seq<char>> {
    gates.map_values(|gate: GateView| gate.lane)
}

/// Whether the exits of a zone stand where they should: each at the end of its
/// lane, at a friendly position, and on a lane that has an entry too.
pub open spec fn exits_are_stop_lines(g: GraphView, zone: DetectorView) -> bool {
    forall|i: int|
        0 <= i < zone.exits.len() ==> (lane_named(
            g.lanes,
            (#[trigger] zone.exits[i]).lane,
        ) matches Some(l) && zone.exits[i] == gate_at(zone.exits[i].lane, l.length) && gate_lanes(
            zone.entries,
        ).contains(zone.exits[i].lane))
}

/// What holds of every zone: it has entries and exits, its exits are stop
/// lines, and its output file is yet to be named.
pub open spec fn is_zone(g: GraphView, zone: DetectorView) -> bool {
    zone.entries.len() > 0 && zone.exits.len() > 0 && exits_are_stop_lines(g, zone)
        && zone.file.len() == 0
}

/// What holds of every pedestrian zone besides: it detects walkers, and its
/// entries are on the very lanes of its exits.
pub open spec fn is_pedestrian_zone(zone: DetectorView) -> bool {
    zone.detect_persons == seq![PersonMode::Walk] && gate_lanes(zone.entries) == gate_lanes(
        zone.exits,
    )
}

proof fn lemma_entries_have_exits(
    g: GraphView,
    lanes: Seq<Seq<char>>,
    reach: EntryReach,
)
    ensures
        entries_of(g, lanes, reach).len() > 0 <==> exits_of(g, lanes).len() > 0,
        forall|i: int|
            0 <= i < exits_of(g, lanes).len() ==> (lane_named(
                g.lanes,
                (#[trigger] exits_of(g, lanes)[i]).lane,
            ) matches Some(l) && exits_of(g, lanes)[i] == gate_at(
                exits_of(g, lanes)[i].lane,
                l.length,
            ) && gate_lanes(entries_of(g, lanes, reach)).contains(exits_of(g, lanes)[i].lane)),
    decreases lanes.len(),
{
    if lanes.len() > 0 {
        let before = lanes.drop_last();
        lemma_entries_have_exits(g, before, reach);
        let entries = entries_of(g, lanes, reach);
        let exits = exits_of(g, lanes);
        let early = entries_of(g, before, reach);
        match lane_named(g.lanes, lanes.last()) {
            Some(l) => {
                let here = entries_of_lane(g, lanes.last(), l.length, reach);
                assert(here.len() > 0 && here[0].lane == lanes.last());
                assert(entries == early + here);
                assert forall|i: int| 0 <= i < exits.len() implies (lane_named(
                    g.lanes,
                    (#[trigger] exits[i]).lane,
                ) matches Some(l) && exits[i] == gate_at(exits[i].lane, l.length) && gate_lanes(
                    entries,
                ).contains(exits[i].lane)) by {
                    if i < exits.len() - 1 {
                        assert(exits[i] == exits_of(g, before)[i]);
                        let k = choose|k: int|
                            0 <= k < gate_lanes(early).len() && gate_lanes(early)[k]
                                == exits[i].lane;
                        assert(gate_lanes(entries)[k] == exits[i].lane);
                    } else {
                        assert(gate_lanes(entries)[early.len() as int] == lanes.last());
                    }
                }
            },
            None => {},
        }
    }
}

proof fn lemma_zone_of_group(
    id: Seq<char>,
    lanes: Seq<Seq<char>>,
    g: GraphView,
    icon: Point,
    reach: EntryReach,
    persons: Seq<PersonMode>,
)
    ensures
        zone_of_group(id, lanes, g, icon, reach, persons) matches Some(zone) ==> is_zone(g, zone),
{
    lemma_entries_have_exits(g, lanes, reach);
}

/// Without reaching back, entries are on the lanes of the exits.
proof fn lemma_entries_on_exit_lanes(g: GraphView, lanes: Seq<Seq<char>>, reach: EntryReach)
    requires
        !reach.extend_backward,
    ensures
        gate_lanes(entries_of(g, lanes, reach)) == gate_lanes(exits_of(g, lanes)),
    decreases lanes.len(),
{
    if lanes.len() == 0 {
        assert(gate_lanes(entries_of(g, lanes, reach)) =~= gate_lanes(exits_of(g, lanes)));
    } else {
        lemma_entries_on_exit_lanes(g, lanes.drop_last(), reach);
        match lane_named(g.lanes, lanes.last()) {
            Some(l) => {
                let here = entries_of_lane(g, lanes.last(), l.length, reach);
                assert(here.len() == 1 && here[0].lane == lanes.last());
                assert(gate_lanes(entries_of(g, lanes, reach)) =~= gate_lanes(
                    entries_of(g, lanes.drop_last(), reach),
                ).push(lanes.last()));
                assert(gate_lanes(exits_of(g, lanes)) =~= gate_lanes(
                    exits_of(g, lanes.drop_last()),
                ).push(lanes.last()));
            },
            None => {},
        }
    }
}

proof fn lemma_vehicle_zones(
    g: GraphView,
    groups: Seq<VehicleGroupView>,
    max_zone_length: Option<Double>,
    stop_at_complex_intersections: bool,
)
    ensures
        forall|i: int|
            0 <= i < vehicle_zones_of(g, groups, max_zone_length, stop_at_complex_intersections).len() ==> is_zone(
                g,
                #[trigger] vehicle_zones_of(g, groups, max_zone_length, stop_at_complex_intersections)[i],
            ) && vehicle_zones_of(g, groups, max_zone_length, stop_at_complex_intersections)[i].detect_persons.len() == 0,
    decreases groups.len(),
{
    if groups.len() > 0 {
        lemma_vehicle_zones(
            g,
            groups.drop_last(),
            max_zone_length,
            stop_at_complex_intersections,
        );
        let group = groups.last();
        lemma_zone_of_group(
            merged_movement_name(group.from_edges, group.directions),
            group.lanes,
            g,
            group.icon,
            EntryReach { max_zone_length, extend_backward: true, stop_at_complex_intersections },
            Seq::empty(),
        );
    }
}

proof fn lemma_pedestrian_zones(
    g: GraphView,
    groups: Seq<GroupView>,
    junction: Junction,
    max_zone_length: Option<Double>,
)
    ensures
        forall|i: int|
            0 <= i < pedestrian_zones_of(g, groups, junction, max_zone_length).len() ==> is_zone(
                g,
                #[trigger] pedestrian_zones_of(g, groups, junction, max_zone_length)[i],
            ) && is_pedestrian_zone(pedestrian_zones_of(g, groups, junction, max_zone_length)[i]),
    decreases groups.len(),
{
    if groups.len() > 0 {
        lemma_pedestrian_zones(g, groups.drop_last(), junction, max_zone_length);
        let group = groups.last();
        let reach = EntryReach {
            max_zone_length,
            extend_backward: false,
            stop_at_complex_intersections: false,
        };
        lemma_zone_of_group(
            movement_name(group.movement.from_edge, group.movement.directions)
                + "_ped"@,
            group.lanes,
            g,
            junction.position,
            reach,
            seq![PersonMode::Walk],
        );
        lemma_entries_on_exit_lanes(g, group.lanes, reach);
        let before = pedestrian_zones_of(g, groups.drop_last(), junction, max_zone_length);
        let all = pedestrian_zones_of(g, groups, junction, max_zone_length);
        assert forall|i: int| 0 <= i < all.len() implies is_zone(g, #[trigger] all[i])
            && is_pedestrian_zone(all[i]) by {
            if i < before.len() {
                assert(all[i] == before[i]);
            } else {
                let zone = pedestrian_zone_of(g, group, junction, max_zone_length)->0;
                assert(all[i] == zone);
                assert(gate_lanes(zone.entries) == gate_lanes(zone.exits));
            }
        }
    }
}

proof fn lemma_all_pedestrian_zones(
    g: GraphView,
    programs: Seq<TrafficLightProgram>,
    junctions: Seq<Junction>,
    max_zone_length: Option<Double>,
)
    ensures
        forall|i: int|
            0 <= i < all_pedestrian_zones(g, programs, junctions, max_zone_length).len()
                ==> is_zone(
                g,
                #[trigger] all_pedestrian_zones(g, programs, junctions, max_zone_length)[i],
            ) && is_pedestrian_zone(
                all_pedestrian_zones(g, programs, junctions, max_zone_length)[i],
            ),
    decreases junctions.len(),
{
    if junctions.len() > 0 {
        let before = all_pedestrian_zones(g, programs, junctions.drop_last(), max_zone_length);
        lemma_all_pedestrian_zones(g, programs, junctions.drop_last(), max_zone_length);
        let junction = junctions.last();
        let groups = groups_of(g, programs, lanes_into(g, junction, true));
        let here = pedestrian_zones_of(g, groups, junction, max_zone_length);
        lemma_pedestrian_zones(g, groups, junction, max_zone_length);
        let all = all_pedestrian_zones(g, programs, junctions, max_zone_length);
        assert forall|i: int| 0 <= i < all.len() implies is_zone(g, #[trigger] all[i])
            && is_pedestrian_zone(all[i]) by {
            if i < before.len() {
                assert(all[i] == before[i]);
            } else {
                assert(all[i] == here[i - before.len()]);
            }
        }
    }
}

/// Every zone has entries and exits; each exit is the end of its lane, which
/// has an entry as well. A zone detects vehicles only, or else it is a
/// pedestrian zone, which never reaches beyond the lanes that it ends on.
pub proof fn every_zone_is_sound(
    network: Network,
    max_zone_length: Option<Double>,
    stop_at_complex_intersections: bool,
)
    ensures
        forall|i: int|
            0 <= i < zones_of(network, max_zone_length, stop_at_complex_intersections).len()
                ==> is_zone(
                graph_of(network),
                #[trigger] zones_of(network, max_zone_length, stop_at_complex_intersections)[i],
            ) && (zones_of(
                network,
                max_zone_length,
                stop_at_complex_intersections,
            )[i].detect_persons.len() == 0 || is_pedestrian_zone(
                zones_of(network, max_zone_length, stop_at_complex_intersections)[i],
            )),
{
    let g = graph_of(network);
    let programs = network.traffic_light_programs@;
    let groups = siblings_merged(g, vehicle_groups(g, programs, network.junctions@));
    lemma_vehicle_zones(g, groups, max_zone_length, stop_at_complex_intersections);
    lemma_all_pedestrian_zones(g, programs, network.junctions@, max_zone_length);
    let vehicles = vehicle_zones_of(g, groups, max_zone_length, stop_at_complex_intersections);
    let pedestrians = all_pedestrian_zones(g, programs, network.junctions@, max_zone_length);
    let all = zones_of(network, max_zone_length, stop_at_complex_intersections);
    assert forall|i: int| 0 <= i < all.len() implies is_zone(g, #[trigger] all[i]) && (
    all[i].detect_persons.len() == 0 || is_pedestrian_zone(all[i])) by {
        if i < vehicles.len() {
            assert(all[i] == vehicles[i]);
        } else {
            assert(all[i] == pedestrians[i - vehicles.len()]);
        }
    }
}

proof fn lemma_walk_without_complex(
    g: GraphView,
    lane: Seq<char>,
    visited: Set<Seq<char>>,
    budget: Double,
    depth: nat,
)
    requires
        g.complex_junctions == Set::<Seq<char>>::empty(),
    ensures
        walk(g, lane, visited, budget, true, depth) == walk(g, lane, visited, budget, false, depth),
    decreases depth, 0nat,
{
    if depth > 0 {
        lemma_walk_each_without_complex(
            g,
            lane,
            g.predecessors(lane),
            visited.insert(lane),
            budget,
            (depth - 1) as nat,
        );
    }
}

proof fn lemma_walk_each_without_complex(
    g: GraphView,
    lane: Seq<char>,
    lanes: Seq<Seq<char>>,
    visited: Set<Seq<char>>,
    budget: Double,
    depth: nat,
)
    requires
        g.complex_junctions == Set::<Seq<char>>::empty(),
    ensures
        walk_each(g, lane, lanes, visited, budget, true, depth) == walk_each(
            g,
            lane,
            lanes,
            visited,
            budget,
            false,
            depth,
        ),
    decreases depth, lanes.len() + 1,
{
    if lanes.len() > 0 {
        lemma_walk_each_without_complex(g, lane, lanes.drop_last(), visited, budget, depth);
        let seen = walk_each(g, lane, lanes.drop_last(), visited, budget, false, depth).1;
        let from = lanes.last();
        lemma_walk_without_complex(g, from, seen, minus(budget, length_of(g, from)), depth);
    }
}

proof fn lemma_entries_without_complex(
    g: GraphView,
    lanes: Seq<Seq<char>>,
    max_zone_length: Option<Double>,
)
    requires
        g.complex_junctions == Set::<Seq<char>>::empty(),
    ensures
        entries_of(
            g,
            lanes,
            EntryReach {
                max_zone_length,
                extend_backward: true,
                stop_at_complex_intersections: true,
            },
        ) == entries_of(
            g,
            lanes,
            EntryReach {
                max_zone_length,
                extend_backward: true,
                stop_at_complex_intersections: false,
            },
        ),
    decreases lanes.len(),
{
    if lanes.len() > 0 {
        lemma_entries_without_complex(g, lanes.drop_last(), max_zone_length);
        lemma_walk_without_complex(
            g,
            lanes.last(),
            Set::empty(),
            extension_budget(max_zone_length),
            g.lanes.len() + 2,
        );
    }
}

proof fn lemma_vehicle_zones_without_complex(
    g: GraphView,
    groups: Seq<VehicleGroupView>,
    max_zone_length: Option<Double>,
)
    requires
        g.complex_junctions == Set::<Seq<char>>::empty(),
    ensures
        vehicle_zones_of(g, groups, max_zone_length, true) == vehicle_zones_of(
            g,
            groups,
            max_zone_length,
            false,
        ),
    decreases groups.len(),
{
    if groups.len() > 0 {
        lemma_vehicle_zones_without_complex(g, groups.drop_last(), max_zone_length);
        lemma_entries_without_complex(g, groups.last().lanes, max_zone_length);
    }
}

/// Stopping at complex intersections changes nothing where there are none:
/// where every signal program controls links through one junction only.
pub proof fn stopping_changes_nothing_without_complex_junctions(
    network: Network,
    max_zone_length: Option<Double>,
)
    requires
        forall|junction: Seq<char>|
            !(#[trigger] is_complex(
                real_links(network.connections@, network.edges@),
                network.edges@,
                junction,
            )),
    ensures
        zones_of(network, max_zone_length, true) == zones_of(network, max_zone_length, false),
{
    let g = graph_of(network);
    assert(g.complex_junctions =~= Set::empty());
    let groups = vehicle_groups(g, network.traffic_light_programs@, network.junctions@);
    lemma_vehicle_zones_without_complex(g, siblings_merged(g, groups), max_zone_length);
}

/// Whether all the traffic of `lane` goes one way, and no signal holds it
/// back.
pub open spec fn leads_one_way(g: GraphView, lane: Seq<char>) -> bool {
    lane_named(g.lanes, lane) is Some && !g.is_signal_controlled(lane) && g.successors(lane).len()
        == 1
}

/// Whether `lane` is the internal lane between two others.
pub open spec fn bridges(g: GraphView, lane: Seq<char>) -> bool {
    exists|from: Seq<char>, to: Seq<char>| #[trigger] g.via_between(from, to) == Some(lane)
}

/// Whether a zone may go on into each of `lanes`.
pub open spec fn all_led(g: GraphView, lanes: Seq<Seq<char>>) -> bool {
    forall|i: int|
        0 <= i < lanes.len() ==> leads_one_way(g, #[trigger] lanes[i]) || bridges(g, lanes[i])
}

proof fn lemma_walk_led(
    g: GraphView,
    lane: Seq<char>,
    visited: Set<Seq<char>>,
    budget: Double,
    stop: bool,
    depth: nat,
)
    ensures
        all_led(g, walk(g, lane, visited, budget, stop, depth).0),
    decreases depth, 0nat,
{
    if depth > 0 {
        lemma_walk_each_led(
            g,
            lane,
            g.predecessors(lane),
            visited.insert(lane),
            budget,
            stop,
            (depth - 1) as nat,
        );
    }
}

proof fn lemma_walk_each_led(
    g: GraphView,
    lane: Seq<char>,
    lanes: Seq<Seq<char>>,
    visited: Set<Seq<char>>,
    budget: Double,
    stop: bool,
    depth: nat,
)
    ensures
        all_led(g, walk_each(g, lane, lanes, visited, budget, stop, depth).0),
    decreases depth, lanes.len() + 1,
{
    if lanes.len() > 0 {
        lemma_walk_each_led(g, lane, lanes.drop_last(), visited, budget, stop, depth);
        let (covered, seen) = walk_each(
            g,
            lane,
            lanes.drop_last(),
            visited,
            budget,
            stop,
            depth,
        );
        let from = lanes.last();
        if is_passable(g, from, budget) && !seen.contains(from) {
            let left = minus(budget, length_of(g, from));
            lemma_walk_led(g, from, seen, left, stop, depth);
            let further = walk(g, from, seen, left, stop, depth).0;
            let step = hop(g, from, lane);
            let all = covered + step + further;
            assert forall|i: int| 0 <= i < all.len() implies leads_one_way(g, #[trigger] all[i])
                || bridges(g, all[i]) by {
                if i < covered.len() {
                    assert(all[i] == covered[i]);
                } else if i < covered.len() + step.len() {
                    assert(all[i] == step[i - covered.len()]);
                    match g.via_between(from, lane) {
                        Some(via) => {
                            if i == covered.len() {
                                assert(g.via_between(from, lane) == Some(all[i]));
                            }
                        },
                        None => {},
                    }
                } else {
                    assert(all[i] == further[i - covered.len() - step.len()]);
                }
            }
        }
    }
}

/// A zone goes on only into lanes whose traffic all goes one way and that no
/// signal holds back, and into the internal lanes between them.
pub proof fn a_zone_goes_on_only_where_traffic_is_led(
    g: GraphView,
    lane: Seq<char>,
    budget: Double,
    stop_at_complex_intersections: bool,
)
    ensures
        all_led(g, extension(g, lane, budget, stop_at_complex_intersections)),
{
    lemma_walk_led(
        g,
        lane,
        Set::empty(),
        budget,
        stop_at_complex_intersections,
        g.lanes.len() + 2,
    );
}

/// Whether those of `lanes` that are among `others` are internal lanes between
/// two others.
pub open spec fn only_bridges_among(
    g: GraphView,
    lanes: Seq<Seq<char>>,
    others: Set<Seq<char>>,
) -> bool {
    forall|i: int|
        0 <= i < lanes.len() && others.contains(#[trigger] lanes[i]) ==> bridges(g, lanes[i])
}

/// A walk covers none of the lanes visited before it, nor the lane that it
/// starts from, unless one of them is an internal lane between two others.
pub proof fn a_walk_goes_over_no_lane_again(
    g: GraphView,
    lane: Seq<char>,
    visited: Set<Seq<char>>,
    budget: Double,
    stop_at_complex_intersections: bool,
    depth: nat,
)
    ensures
        only_bridges_among(
            g,
            walk(g, lane, visited, budget, stop_at_complex_intersections, depth).0,
            visited.insert(lane),
        ),
    decreases depth, 0nat,
{
    if depth > 0 {
        lemma_walk_each_again(
            g,
            lane,
            g.predecessors(lane),
            visited.insert(lane),
            budget,
            stop_at_complex_intersections,
            (depth - 1) as nat,
        );
    }
}

proof fn lemma_walk_each_again(
    g: GraphView,
    lane: Seq<char>,
    lanes: Seq<Seq<char>>,
    visited: Set<Seq<char>>,
    budget: Double,
    stop: bool,
    depth: nat,
)
    ensures
        only_bridges_among(
            g,
            walk_each(g, lane, lanes, visited, budget, stop, depth).0,
            visited,
        ),
    decreases depth, lanes.len() + 1,
{
    if lanes.len() > 0 {
        lemma_walk_each_again(g, lane, lanes.drop_last(), visited, budget, stop, depth);
        lemma_walk_each_grows(g, lane, lanes.drop_last(), visited, budget, stop, depth);
        let (covered, seen) = walk_each(
            g,
            lane,
            lanes.drop_last(),
            visited,
            budget,
            stop,
            depth,
        );
        let from = lanes.last();
        if is_passable(g, from, budget) && !seen.contains(from) {
            let left = minus(budget, length_of(g, from));
            a_walk_goes_over_no_lane_again(g, from, seen, left, stop, depth);
            let further = walk(g, from, seen, left, stop, depth).0;
            let step = hop(g, from, lane);
            let all = covered + step + further;
            assert forall|i: int|
                0 <= i < all.len() && visited.contains(#[trigger] all[i]) implies bridges(
                g,
                all[i],
            ) by {
                if i < covered.len() {
                    assert(all[i] == covered[i]);
                } else if i < covered.len() + step.len() {
                    assert(all[i] == step[i - covered.len()]);
                    assert(seen.contains(all[i]));
                    assert(g.via_between(from, lane) == Some(all[i]));
                } else {
                    assert(all[i] == further[i - covered.len() - step.len()]);
                    assert(seen.insert(from).contains(all[i]));
                }
            }
        }
    }
}

/// The lanes that a zone goes on into do not hold the lane that it ends on,
/// unless that is an internal lane between two others.
pub proof fn a_zone_does_not_go_on_into_its_own_lane(
    g: GraphView,
    lane: Seq<char>,
    budget: Double,
    stop_at_complex_intersections: bool,
)
    requires
        !bridges(g, lane),
    ensures
        !extension(g, lane, budget, stop_at_complex_intersections).contains(lane),
{
    a_walk_goes_over_no_lane_again(
        g,
        lane,
        Set::empty(),
        budget,
        stop_at_complex_intersections,
        g.lanes.len() + 2,
    );
    let covered = extension(g, lane, budget, stop_at_complex_intersections);
    assert forall|i: int| 0 <= i < covered.len() implies covered[i] != lane by {
        if covered[i] == lane {
            assert(Set::<Seq<char>>::empty().insert(lane).contains(covered[i]));
        }
    }
}

/// A limit that the lane does not exceed leaves the entry at the lane's start.
pub proof fn a_limit_beyond_the_lane_has_no_effect(length: Double, max: Double)
    requires
        !is_less(max, length),
    ensures
        entry_position(length, Some(max)) == entry_position(length, None),
{
}

} // verus!
