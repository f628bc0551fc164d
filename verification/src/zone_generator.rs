//! Generates the waiting zones of a network: at every junction with traffic
//! lights, one zone per movement of vehicles, and one per movement of
//! pedestrians.
//!
//! Lanes share a zone where they come from the same edge and turn the same
//! way. What a signal program does in its phases plays no part, only whether
//! it controls a connection at all; so a zone keeps its id and its lanes when
//! a program is edited. The program is the one that the connection names,
//! never one that bears the junction's id: joined programs span junctions.
//!
//! A zone ends at its lane's end, the stop line, and begins at the lane's
//! start. Vehicle zones go on from there into the lanes that lead nowhere
//! else.

use crate::boundaries::{zone_from_group, zone_of_group, EntryReach};
use crate::connectivity::{graph_of, lane_named, ConnectivityGraph, GraphView};
use crate::detector::{detectors, DetectorView, E3Detector, PersonMode};
use crate::double::Double;
use crate::grouping::{
    group_key_for_lane, group_lanes, group_views, groups_of, movement_of_lane, reason_text,
    GroupView, MovementGroup, SignalPrograms, UngroupedReason, UngroupedView,
};
use crate::movement::{
    merged_movement_id, merged_movement_name, movement_id, movement_name,
};
use crate::network::{
    is_traffic_light, traffic_light_kind, Junction, Network, TrafficLightProgram,
};
use crate::order::texts;
use crate::siblings::{
    copy_directions, copy_strings, merge_fork_sibling_groups, siblings_merged, vehicle_group_views, VehicleGroup, VehicleGroupView,
};
use vstd::prelude::*;

verus! {

/// Whether `lane` is known to be for pedestrians only.
pub open spec fn is_pedestrian_lane(g: GraphView, lane: Seq<char>) -> bool {
    match lane_named(g.lanes, lane) {
        Some(l) => l.pedestrian_only,
        None => false,
    }
}

/// The lanes into `junction` that are for pedestrians only, or those that are
/// not.
pub open spec fn lanes_into(g: GraphView, junction: Junction, pedestrian: bool) -> Seq<Seq<char>> {
    texts(junction.incoming_lanes@).filter(
        |lane: Seq<char>| is_pedestrian_lane(g, lane) == pedestrian,
    )
}

/// The vehicle movements at one junction.
pub open spec fn vehicle_groups_at(
    g: GraphView,
    programs: Seq<TrafficLightProgram>,
    junction: Junction,
) -> Seq<VehicleGroupView> {
    groups_of(g, programs, lanes_into(g, junction, false)).map_values(
        |group: GroupView|
            VehicleGroupView {
                from_edges: seq![group.movement.from_edge],
                directions: group.movement.directions,
                lanes: group.lanes,
                icon: junction.position,
            },
    )
}

/// The vehicle movements at all junctions with traffic lights.
pub open spec fn vehicle_groups(
    g: GraphView,
    programs: Seq<TrafficLightProgram>,
    junctions: Seq<Junction>,
) -> Seq<VehicleGroupView>
    decreases junctions.len(),
{
    if junctions.len() == 0 {
        Seq::empty()
    } else {
        let before = vehicle_groups(g, programs, junctions.drop_last());
        if traffic_light_kind(junctions.last().kind) {
            before + vehicle_groups_at(g, programs, junctions.last())
        } else {
            before
        }
    }
}

/// The zone of a vehicle movement.
pub open spec fn vehicle_zone_of(
    g: GraphView,
    group: VehicleGroupView,
    max_zone_length: Option<Double>,
    stop_at_complex_intersections: bool,
) -> Option<DetectorView> {
    zone_of_group(
        merged_movement_name(group.from_edges, group.directions),
        group.lanes,
        g,
        group.icon,
        EntryReach { max_zone_length, extend_backward: true, stop_at_complex_intersections },
        Seq::empty(),
    )
}

/// The zones of vehicle movements.
pub open spec fn vehicle_zones_of(
    g: GraphView,
    groups: Seq<VehicleGroupView>,
    max_zone_length: Option<Double>,
    stop_at_complex_intersections: bool,
) -> Seq<DetectorView>
    decreases groups.len(),
{
    if groups.len() == 0 {
        Seq::empty()
    } else {
        let before = vehicle_zones_of(
            g,
            groups.drop_last(),
            max_zone_length,
            stop_at_complex_intersections,
        );
        match vehicle_zone_of(g, groups.last(), max_zone_length, stop_at_complex_intersections) {
            Some(zone) => before.push(zone),
            None => before,
        }
    }
}

/// The zone of a pedestrian movement at a junction.
pub open spec fn pedestrian_zone_of(
    g: GraphView,
    group: GroupView,
    junction: Junction,
    max_zone_length: Option<Double>,
) -> Option<DetectorView> {
    zone_of_group(
        movement_name(group.movement.from_edge, group.movement.directions) + "_ped"@,
        group.lanes,
        g,
        junction.position,
        EntryReach {
            max_zone_length,
            extend_backward: false,
            stop_at_complex_intersections: false,
        },
        seq![PersonMode::Walk],
    )
}

/// The zones of pedestrian movements at a junction.
pub open spec fn pedestrian_zones_of(
    g: GraphView,
    groups: Seq<GroupView>,
    junction: Junction,
    max_zone_length: Option<Double>,
) -> Seq<DetectorView>
    decreases groups.len(),
{
    if groups.len() == 0 {
        Seq::empty()
    } else {
        let before = pedestrian_zones_of(g, groups.drop_last(), junction, max_zone_length);
        match pedestrian_zone_of(g, groups.last(), junction, max_zone_length) {
            Some(zone) => before.push(zone),
            None => before,
        }
    }
}

/// The zones of pedestrian movements at all junctions with traffic lights.
pub open spec fn all_pedestrian_zones(
    g: GraphView,
    programs: Seq<TrafficLightProgram>,
    junctions: Seq<Junction>,
    max_zone_length: Option<Double>,
) -> Seq<DetectorView>
    decreases junctions.len(),
{
    if junctions.len() == 0 {
        Seq::empty()
    } else {
        let before = all_pedestrian_zones(g, programs, junctions.drop_last(), max_zone_length);
        let junction = junctions.last();
        if traffic_light_kind(junction.kind) {
            before + pedestrian_zones_of(
                g,
                groups_of(g, programs, lanes_into(g, junction, true)),
                junction,
                max_zone_length,
            )
        } else {
            before
        }
    }
}

/// The waiting zones of a network.
pub open spec fn zones_of(
    network: Network,
    max_zone_length: Option<Double>,
    stop_at_complex_intersections: bool,
) -> Seq<DetectorView> {
    let g = graph_of(network);
    let programs = network.traffic_light_programs@;
    let groups = vehicle_groups(g, programs, network.junctions@);
    vehicle_zones_of(
        g,
        siblings_merged(g, groups),
        max_zone_length,
        stop_at_complex_intersections,
    ) + all_pedestrian_zones(
        g,
        programs,
        network.junctions@,
        max_zone_length,
    )
}

/// The lanes into `junction` that are for pedestrians only, or those that are
/// not.
fn select_lanes(junction: &Junction, graph: &ConnectivityGraph, pedestrian: bool) -> (lanes: Vec<
    String,
>)
    ensures
        texts(lanes@) == lanes_into(graph@, *junction, pedestrian),
{
    let ghost all = texts(junction.incoming_lanes@);
    let ghost g = graph@;
    let ghost wanted = |lane: Seq<char>| is_pedestrian_lane(g, lane) == pedestrian;
    let mut lanes: Vec<String> = Vec::new();
    proof {
        reveal(Seq::filter);
        assert(all.take(0) =~= Seq::empty());
        assert(texts(lanes@) =~= all.take(0).filter(wanted));
    }
    let mut i: usize = 0;
    while i < junction.incoming_lanes.len()
        invariant
            i <= junction.incoming_lanes.len(),
            all == texts(junction.incoming_lanes@),
            g == graph@,
            wanted == (|lane: Seq<char>| is_pedestrian_lane(g, lane) == pedestrian),
            texts(lanes@) == all.take(i as int).filter(wanted),
        decreases junction.incoming_lanes.len() - i,
    {
        let id: &String = &junction.incoming_lanes[i];
        proof {
            reveal(Seq::filter);
            assert(all.take(i + 1).drop_last() =~= all.take(i as int));
            assert(all.take(i + 1).last() == id@);
        }
        let is_pedestrian: bool = match graph.lane(id.as_str()) {
            Some(info) => info.pedestrian_only,
            None => false,
        };
        if is_pedestrian == pedestrian {
            let ghost before = texts(lanes@);
            lanes.push(id.clone());
            assert(texts(lanes@) =~= before.push(id@));
        }
        i = i + 1;
    }
    assert(all.take(all.len() as int) =~= all);
    lanes
}

/// Adds the vehicle movements at `junction` to `groups`.
fn add_vehicle_groups(
    junction: &Junction,
    graph: &ConnectivityGraph,
    programs: &SignalPrograms,
    groups: &mut Vec<VehicleGroup>,
)
    ensures
        vehicle_group_views(final(groups)@) == vehicle_group_views(old(groups)@)
            + vehicle_groups_at(graph@, programs@, *junction),
{
    let lanes: Vec<String> = select_lanes(junction, graph, false);
    let found: Vec<MovementGroup> = group_lanes(&lanes, graph, programs);
    let ghost before = vehicle_group_views(groups@);
    let ghost here = vehicle_groups_at(graph@, programs@, *junction);
    assert(before + here.take(0) =~= before);
    let mut i: usize = 0;
    while i < found.len()
        invariant
            i <= found.len(),
            group_views(found@) == groups_of(
                graph@,
                programs@,
                lanes_into(graph@, *junction, false),
            ),
            here == vehicle_groups_at(graph@, programs@, *junction),
            vehicle_group_views(groups@) == before + here.take(i as int),
        decreases found.len() - i,
    {
        let group: &MovementGroup = &found[i];
        let mut from_edges: Vec<String> = Vec::new();
        from_edges.push(group.movement.from_edge.clone());
        assert(texts(from_edges@) =~= seq![group.movement.from_edge@]);
        let vehicles: VehicleGroup = VehicleGroup {
            from_edges,
            directions: copy_directions(&group.movement.directions),
            lanes: copy_strings(&group.lanes),
            icon: junction.position,
        };
        assert(group_views(found@)[i as int] == group@);
        assert(vehicles@ == here[i as int]);
        let ghost so_far = vehicle_group_views(groups@);
        let ghost added = vehicles@;
        groups.push(vehicles);
        assert(vehicle_group_views(groups@) =~= so_far.push(added));
        assert(before + here.take(i + 1) =~= so_far.push(added));
        i = i + 1;
    }
    assert(here.take(here.len() as int) =~= here);
}

/// The zones of the vehicle movements at the junctions with traffic lights.
/// Movements are taken over all junctions at once: fork siblings may lead into
/// different ones.
pub fn vehicle_zones(
    junctions: &Vec<Junction>,
    graph: &ConnectivityGraph,
    programs: &SignalPrograms,
    max_zone_length: Option<Double>,
    stop_at_complex_intersections: bool,
) -> (zones: Vec<E3Detector>)
    ensures
        detectors(zones@) == vehicle_zones_of(
            graph@,
            siblings_merged(graph@, vehicle_groups(graph@, programs@, junctions@)),
            max_zone_length,
            stop_at_complex_intersections,
        ),
{
    let mut groups: Vec<VehicleGroup> = Vec::new();
    assert(junctions@.take(0) =~= Seq::empty());
    assert(vehicle_group_views(groups@) =~= Seq::empty());
    let mut i: usize = 0;
    while i < junctions.len()
        invariant
            i <= junctions.len(),
            vehicle_group_views(groups@) == vehicle_groups(
                graph@,
                programs@,
                junctions@.take(i as int),
            ),
        decreases junctions.len() - i,
    {
        assert(junctions@.take(i + 1).drop_last() =~= junctions@.take(i as int));
        assert(junctions@.take(i + 1).last() == junctions@[i as int]);
        if is_traffic_light(junctions[i].kind) {
            add_vehicle_groups(&junctions[i], graph, programs, &mut groups);
        }
        i = i + 1;
    }
    assert(junctions@.take(junctions@.len() as int) =~= junctions@);
    let merged: Vec<VehicleGroup> = merge_fork_sibling_groups(&groups, graph);
    let ghost views = vehicle_group_views(merged@);
    let mut zones: Vec<E3Detector> = Vec::new();
    assert(views.take(0) =~= Seq::empty());
    assert(detectors(zones@) =~= Seq::empty());
    let mut k: usize = 0;
    while k < merged.len()
        invariant
            k <= merged.len(),
            views == vehicle_group_views(merged@),
            detectors(zones@) == vehicle_zones_of(
                graph@,
                views.take(k as int),
                max_zone_length,
                stop_at_complex_intersections,
            ),
        decreases merged.len() - k,
    {
        let group: &VehicleGroup = &merged[k];
        assert(views.take(k + 1).drop_last() =~= views.take(k as int));
        assert(views.take(k + 1).last() == group@);
        let persons: Vec<PersonMode> = Vec::new();
        assert(persons@ =~= Seq::empty());
        let id: String = merged_movement_id(&group.from_edges, &group.directions);
        match zone_from_group(
            id,
            &group.lanes,
            graph,
            group.icon,
            EntryReach { max_zone_length, extend_backward: true, stop_at_complex_intersections },
            persons,
        ) {
            Some(zone) => {
                let ghost before = detectors(zones@);
                let ghost added = zone@;
                zones.push(zone);
                assert(detectors(zones@) =~= before.push(added));
            },
            None => {},
        }
        k = k + 1;
    }
    assert(views.take(views.len() as int) =~= views);
    zones
}

/// The zones of the pedestrian movements at `junction`: the walkingareas that
/// lead into its crossings. They never reach back beyond their own lanes.
pub fn pedestrian_zones(
    junction: &Junction,
    graph: &ConnectivityGraph,
    programs: &SignalPrograms,
    max_zone_length: Option<Double>,
) -> (zones: Vec<E3Detector>)
    ensures
        detectors(zones@) == pedestrian_zones_of(
            graph@,
            groups_of(graph@, programs@, lanes_into(graph@, *junction, true)),
            *junction,
            max_zone_length,
        ),
{
    let lanes: Vec<String> = select_lanes(junction, graph, true);
    let groups: Vec<MovementGroup> = group_lanes(&lanes, graph, programs);
    let ghost views = group_views(groups@);
    let mut zones: Vec<E3Detector> = Vec::new();
    assert(views.take(0) =~= Seq::empty());
    assert(detectors(zones@) =~= Seq::empty());
    let mut k: usize = 0;
    while k < groups.len()
        invariant
            k <= groups.len(),
            views == group_views(groups@),
            detectors(zones@) == pedestrian_zones_of(
                graph@,
                views.take(k as int),
                *junction,
                max_zone_length,
            ),
        decreases groups.len() - k,
    {
        let group: &MovementGroup = &groups[k];
        assert(views.take(k + 1).drop_last() =~= views.take(k as int));
        assert(views.take(k + 1).last() == group@);
        let mut persons: Vec<PersonMode> = Vec::new();
        persons.push(PersonMode::Walk);
        assert(persons@ =~= seq![PersonMode::Walk]);
        let mut id: String = movement_id(
            group.movement.from_edge.as_str(),
            &group.movement.directions,
        );
        id.append("_ped");
        match zone_from_group(
            id,
            &group.lanes,
            graph,
            junction.position,
            EntryReach {
            max_zone_length,
            extend_backward: false,
            stop_at_complex_intersections: false,
        },
            persons,
        ) {
            Some(zone) => {
                let ghost before = detectors(zones@);
                let ghost added = zone@;
                zones.push(zone);
                assert(detectors(zones@) =~= before.push(added));
            },
            None => {},
        }
        k = k + 1;
    }
    assert(views.take(views.len() as int) =~= views);
    zones
}

/// The waiting zones of `network`: those of vehicles, then those of
/// pedestrians.
///
/// `max_zone_length` limits how far a zone reaches back from its stop line.
/// `stop_at_complex_intersections` ends that reach where one signal program
/// spans several junctions.
pub fn generate(
    network: &Network,
    max_zone_length: Option<Double>,
    stop_at_complex_intersections: bool,
) -> (zones: Vec<E3Detector>)
    ensures
        detectors(zones@) == zones_of(*network, max_zone_length, stop_at_complex_intersections),
{
    let graph: ConnectivityGraph = ConnectivityGraph::of(network);
    let programs: SignalPrograms = SignalPrograms::of(&network.traffic_light_programs);
    let mut zones: Vec<E3Detector> = vehicle_zones(
        &network.junctions,
        &graph,
        &programs,
        max_zone_length,
        stop_at_complex_intersections,
    );
    let ghost vehicles = detectors(zones@);
    let ghost junctions = network.junctions@;
    assert(junctions.take(0) =~= Seq::empty());
    assert(vehicles + Seq::empty() =~= vehicles);
    let mut i: usize = 0;
    while i < network.junctions.len()
        invariant
            i <= network.junctions.len(),
            junctions == network.junctions@,
            detectors(zones@) == vehicles + all_pedestrian_zones(
                graph@,
                programs@,
                junctions.take(i as int),
                max_zone_length,
            ),
        decreases network.junctions.len() - i,
    {
        assert(junctions.take(i + 1).drop_last() =~= junctions.take(i as int));
        assert(junctions.take(i + 1).last() == junctions[i as int]);
        if is_traffic_light(network.junctions[i].kind) {
            let mut more: Vec<E3Detector> = pedestrian_zones(
                &network.junctions[i],
                &graph,
                &programs,
                max_zone_length,
            );
            let ghost before = detectors(zones@);
            let ghost added = detectors(more@);
            zones.append(&mut more);
            assert(detectors(zones@) =~= before + added);
        }
        assert(detectors(zones@) =~= vehicles + all_pedestrian_zones(
            graph@,
            programs@,
            junctions.take(i + 1),
            max_zone_length,
        ));
        i = i + 1;
    }
    assert(junctions.take(junctions.len() as int) =~= junctions);
    zones
}

/// A lane that belongs to no zone, though it leads into a junction with
/// traffic lights.
#[derive(Debug, PartialEq, Eq)]
pub struct SkippedLane {
    pub lane: String,
    pub junction: String,
    pub reason: UngroupedReason,
}

/// What a [`SkippedLane`] says.
#[verifier::ext_equal]
pub struct SkippedView {
    pub lane: Seq<char>,
    pub junction: Seq<char>,
    pub reason: UngroupedView,
}

impl View for SkippedLane {
    type V = SkippedView;

    open spec fn view(&self) -> SkippedView {
        SkippedView { lane: self.lane@, junction: self.junction@, reason: self.reason@ }
    }
}

/// What a list of skipped lanes says.
pub open spec fn skipped_views(list: Seq<SkippedLane>) -> Seq<SkippedView> {
    Seq::new(list.len(), |i: int| list[i]@)
}

/// Those of `lanes` that belong to no movement.
pub open spec fn skipped_among(
    g: GraphView,
    programs: Seq<TrafficLightProgram>,
    lanes: Seq<Seq<char>>,
    junction: Seq<char>,
) -> Seq<SkippedView>
    decreases lanes.len(),
{
    if lanes.len() == 0 {
        Seq::empty()
    } else {
        let before = skipped_among(g, programs, lanes.drop_last(), junction);
        match movement_of_lane(g, programs, lanes.last()) {
            Ok(_) => before,
            Err(reason) => before.push(SkippedView { lane: lanes.last(), junction, reason }),
        }
    }
}

/// The lanes, of pedestrians or of vehicles, that belong to no movement at the
/// junctions with traffic lights.
pub open spec fn skipped_at(
    g: GraphView,
    programs: Seq<TrafficLightProgram>,
    junctions: Seq<Junction>,
    pedestrian: bool,
) -> Seq<SkippedView>
    decreases junctions.len(),
{
    if junctions.len() == 0 {
        Seq::empty()
    } else {
        let before = skipped_at(g, programs, junctions.drop_last(), pedestrian);
        let junction = junctions.last();
        if traffic_light_kind(junction.kind) {
            before + skipped_among(
                g,
                programs,
                lanes_into(g, junction, pedestrian),
                junction.id@,
            )
        } else {
            before
        }
    }
}

/// The text of a warning about a skipped lane.
pub open spec fn skipped_text(skipped: SkippedView) -> Seq<char> {
    "lane \""@ + skipped.lane + "\" at junction \""@ + skipped.junction + "\" skipped: "@
        + reason_text(skipped.reason)
}

impl SkippedLane {
    /// The text of a warning about this lane.
    pub fn message(&self) -> (text: String)
        ensures
            text@ == skipped_text(self@),
    {
        let mut text: String = "lane \"".to_owned();
        text.append(self.lane.as_str());
        text.append("\" at junction \"");
        text.append(self.junction.as_str());
        text.append("\" skipped: ");
        text.append(self.reason.message().as_str());
        text
    }
}

/// Adds those of the junctions' lanes, of pedestrians or of vehicles, that
/// belong to no movement.
fn add_skipped(
    junctions: &Vec<Junction>,
    graph: &ConnectivityGraph,
    programs: &SignalPrograms,
    pedestrian: bool,
    skipped: &mut Vec<SkippedLane>,
)
    ensures
        skipped_views(final(skipped)@) == skipped_views(old(skipped)@) + skipped_at(
            graph@,
            programs@,
            junctions@,
            pedestrian,
        ),
{
    let ghost start = skipped_views(skipped@);
    assert(junctions@.take(0) =~= Seq::empty());
    assert(start + Seq::empty() =~= start);
    let mut i: usize = 0;
    while i < junctions.len()
        invariant
            i <= junctions.len(),
            skipped_views(skipped@) == start + skipped_at(
                graph@,
                programs@,
                junctions@.take(i as int),
                pedestrian,
            ),
        decreases junctions.len() - i,
    {
        let junction: &Junction = &junctions[i];
        assert(junctions@.take(i + 1).drop_last() =~= junctions@.take(i as int));
        assert(junctions@.take(i + 1).last() == junction);
        if is_traffic_light(junction.kind) {
            let lanes: Vec<String> = select_lanes(junction, graph, pedestrian);
            let ghost ids = texts(lanes@);
            let ghost before = skipped_views(skipped@);
            assert(ids.take(0) =~= Seq::empty());
            assert(before + Seq::empty() =~= before);
            let mut k: usize = 0;
            while k < lanes.len()
                invariant
                    k <= lanes.len(),
                    ids == texts(lanes@),
                    skipped_views(skipped@) == before + skipped_among(
                        graph@,
                        programs@,
                        ids.take(k as int),
                        junction.id@,
                    ),
                decreases lanes.len() - k,
            {
                assert(ids.take(k + 1).drop_last() =~= ids.take(k as int));
                assert(ids.take(k + 1).last() == lanes@[k as int]@);
                let ghost listed = skipped_views(skipped@);
                match group_key_for_lane(lanes[k].as_str(), graph, programs) {
                    Ok(_) => {},
                    Err(reason) => {
                        let entry: SkippedLane = SkippedLane {
                            lane: lanes[k].clone(),
                            junction: junction.id.clone(),
                            reason,
                        };
                        let ghost added = entry@;
                        skipped.push(entry);
                        assert(skipped_views(skipped@) =~= listed.push(added));
                    },
                }
                assert(skipped_views(skipped@) =~= before + skipped_among(
                    graph@,
                    programs@,
                    ids.take(k + 1),
                    junction.id@,
                ));
                k = k + 1;
            }
            assert(ids.take(ids.len() as int) =~= ids);
        }
        assert(skipped_views(skipped@) =~= start + skipped_at(
            graph@,
            programs@,
            junctions@.take(i + 1),
            pedestrian,
        ));
        i = i + 1;
    }
    assert(junctions@.take(junctions@.len() as int) =~= junctions@);
}

/// The lanes that belong to no zone because they belong to no movement: those
/// of vehicles, then those of pedestrians.
pub fn skipped_lanes(network: &Network) -> (skipped: Vec<SkippedLane>)
    ensures
        skipped_views(skipped@) == skipped_at(
            graph_of(*network),
            network.traffic_light_programs@,
            network.junctions@,
            false,
        ) + skipped_at(
            graph_of(*network),
            network.traffic_light_programs@,
            network.junctions@,
            true,
        ),
{
    let graph: ConnectivityGraph = ConnectivityGraph::of(network);
    let programs: SignalPrograms = SignalPrograms::of(&network.traffic_light_programs);
    let mut skipped: Vec<SkippedLane> = Vec::new();
    assert(skipped_views(skipped@) =~= Seq::empty());
    add_skipped(&network.junctions, &graph, &programs, false, &mut skipped);
    add_skipped(&network.junctions, &graph, &programs, true, &mut skipped);
    assert(skipped_views(skipped@) =~= skipped_at(
        graph@,
        programs@,
        network.junctions@,
        false,
    ) + skipped_at(graph@, programs@, network.junctions@, true));
    skipped
}

} // verus!
