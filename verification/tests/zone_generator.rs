//! Zones generated from small networks.

use waiting_zones::approach::extended_entry_lanes;
use waiting_zones::boundaries::DEFAULT_EXTENSION_METERS;
use waiting_zones::connectivity::ConnectivityGraph;
use waiting_zones::detector::{E3Detector, LanePosition, PersonMode};
use waiting_zones::double::Double;
use waiting_zones::grouping::{group_key_for_lane, SignalPrograms, UngroupedReason};
use waiting_zones::id_set::IdSet;
use waiting_zones::network::{
    Connection, ConnectionDirection, Edge, EdgeFunction, Junction, JunctionKind, Lane, Location,
    Network, Phase, Point, Projection, TrafficLightProgram,
};
use waiting_zones::zone_generator::{generate, skipped_lanes};

fn meters(value: f64) -> Double {
    Double { bits: value.to_bits() }
}

fn origin() -> Point {
    Point { x: meters(0.0), y: meters(0.0), z: meters(0.0) }
}

fn empty_network() -> Network {
    Network {
        location: Location { net_offset: origin(), projection: Projection::Local },
        edges: vec![],
        junctions: vec![],
        connections: vec![],
        traffic_light_programs: vec![],
    }
}

fn lane(id: &str, length_m: f64) -> Lane {
    Lane {
        id: id.into(),
        index: 0,
        length: meters(length_m),
        width: meters(3.2),
        shape: vec![],
        allow: vec![],
        disallow: vec![],
    }
}

fn indexed_lane(id: &str, index: usize, length_m: f64) -> Lane {
    Lane { index, ..lane(id, length_m) }
}

fn pedestrian_lane(id: &str, length_m: f64) -> Lane {
    Lane { allow: vec!["pedestrian".into()], ..lane(id, length_m) }
}

fn edge(id: &str, lanes: Vec<Lane>) -> Edge {
    edge_with_function(id, EdgeFunction::Normal, lanes)
}

fn edge_with_function(id: &str, function: EdgeFunction, lanes: Vec<Lane>) -> Edge {
    Edge { id: id.into(), function, from: None, lanes }
}

fn junction(id: &str, kind: JunctionKind, incoming_lanes: Vec<&str>) -> Junction {
    Junction {
        id: id.into(),
        position: origin(),
        kind,
        incoming_lanes: incoming_lanes.into_iter().map(|l| l.to_string()).collect(),
    }
}

fn program(id: &str, phases: Vec<&str>) -> TrafficLightProgram {
    TrafficLightProgram {
        id: id.into(),
        phases: phases.into_iter().map(|state| Phase { state: state.into() }).collect(),
    }
}

fn vehicle_connection(from_edge: &str, from_lane: usize, tl: &str, link_index: i32) -> Connection {
    Connection {
        from_edge: from_edge.into(),
        to_edge: "out".into(),
        from_lane,
        to_lane: 0,
        direction: ConnectionDirection::Straight,
        via: None,
        traffic_light: Some(tl.into()),
        link_index: Some(link_index),
    }
}

fn plain_connection(from_edge: &str, from_lane: usize, to_edge: &str, to_lane: usize) -> Connection {
    Connection {
        from_edge: from_edge.into(),
        to_edge: to_edge.into(),
        from_lane,
        to_lane,
        direction: ConnectionDirection::Straight,
        via: None,
        traffic_light: None,
        link_index: None,
    }
}

#[test]
fn groups_lanes_from_the_same_edge_and_direction_into_one_zone() {
    let network = Network {
        edges: vec![edge(
            "e0",
            vec![indexed_lane("e0_0", 0, 25.0), indexed_lane("e0_1", 1, 25.0)],
        )],
        junctions: vec![junction(
            "j0",
            JunctionKind::TrafficLight,
            vec!["e0_0", "e0_1"],
        )],
        connections: vec![
            vehicle_connection("e0", 0, "j0", 0),
            vehicle_connection("e0", 1, "j0", 1),
        ],
        traffic_light_programs: vec![program("j0", vec!["GG", "rr"])],
        ..empty_network()
    };

    let zones = generate(&network, None, false);

    assert_eq!(
        zones.len(),
        1,
        "both lanes are on e0 going straight -> one movement, one zone"
    );
    assert_eq!(zones[0].entries.len(), 2);
    assert_eq!(zones[0].id, "e0_straight");
}

#[test]
fn keeps_lanes_from_different_edges_in_separate_zones_even_with_identical_signal_state() {
    let network = Network {
        edges: vec![
            edge("e0", vec![indexed_lane("e0_0", 0, 25.0)]),
            edge("e1", vec![indexed_lane("e1_0", 0, 40.0)]),
        ],
        junctions: vec![junction(
            "j0",
            JunctionKind::TrafficLight,
            vec!["e0_0", "e1_0"],
        )],
        connections: vec![
            vehicle_connection("e0", 0, "j0", 0),
            vehicle_connection("e1", 0, "j0", 1),
        ],
        traffic_light_programs: vec![program("j0", vec!["GG", "rr"])],
        ..empty_network()
    };

    let zones = generate(&network, None, false);

    assert_eq!(zones.len(), 2, "different edges are different movements");
    assert_eq!(zones[0].id, "e0_straight");
    assert_eq!(zones[1].id, "e1_straight");
}

#[test]
fn waiting_zone_id_is_unaffected_by_reordering_the_signal_program() {
    let network_with_phases = |phases: Vec<&str>| Network {
        edges: vec![
            edge("e0", vec![indexed_lane("e0_0", 0, 25.0)]),
            edge("e1", vec![indexed_lane("e1_0", 0, 40.0)]),
        ],
        junctions: vec![junction(
            "j0",
            JunctionKind::TrafficLight,
            vec!["e0_0", "e1_0"],
        )],
        connections: vec![
            vehicle_connection("e0", 0, "j0", 0),
            vehicle_connection("e1", 0, "j0", 1),
        ],
        traffic_light_programs: vec![program("j0", phases)],
        ..empty_network()
    };

    let original = generate(&network_with_phases(vec!["Gr", "rG"]), None, false);
    let reordered = generate(&network_with_phases(vec!["rG", "Gr"]), None, false);

    let ids = |zones: &[E3Detector]| {
        let mut ids: Vec<_> = zones.iter().map(|z| z.id.clone()).collect();
        ids.sort();
        ids
    };

    assert_eq!(
        ids(&original),
        ids(&reordered),
        "swapping the two phases must not rename either zone"
    );
}

#[test]
fn skips_every_lane_when_the_network_has_no_traffic_light_programs_at_all() {
    let network = Network {
        edges: vec![edge("e0", vec![indexed_lane("e0_0", 0, 25.0)])],
        junctions: vec![junction(
            "j0",
            JunctionKind::TrafficLightUnregulated,
            vec!["e0_0"],
        )],
        connections: vec![vehicle_connection("e0", 0, "j0", 0)],
        traffic_light_programs: vec![],
        ..empty_network()
    };

    assert!(generate(&network, None, false).is_empty());
}

#[test]
fn resolves_a_lanes_program_from_its_connections_tl_not_the_junctions_own_id() {
    let network = Network {
        edges: vec![edge("e0", vec![indexed_lane("e0_0", 0, 25.0)])],
        junctions: vec![junction("j0", JunctionKind::TrafficLight, vec!["e0_0"])],
        connections: vec![vehicle_connection("e0", 0, "joinedS_j0_j1", 0)],
        traffic_light_programs: vec![program("joinedS_j0_j1", vec!["G"])],
        ..empty_network()
    };

    let zones = generate(&network, None, false);

    assert_eq!(
        zones.len(),
        1,
        "the connection names \"joinedS_j0_j1\" as its controlling program directly; \
         the junction's own id (\"j0\") never has to match anything"
    );
}

#[test]
fn skips_lane_and_warns_when_it_has_no_signal_controlled_connection() {
    let network = Network {
        edges: vec![edge("e0", vec![indexed_lane("e0_0", 0, 25.0)])],
        junctions: vec![junction("j0", JunctionKind::TrafficLight, vec!["e0_0"])],
        connections: vec![],
        traffic_light_programs: vec![program("j0", vec!["G"])],
        ..empty_network()
    };

    assert!(generate(&network, None, false).is_empty());
}

#[test]
fn excludes_pedestrian_only_lanes_from_vehicle_zones() {
    let network = Network {
        edges: vec![
            edge("e0", vec![indexed_lane("e0_0", 0, 25.0)]),
            edge_with_function(
                ":j0_w0",
                EdgeFunction::Walkingarea,
                vec![pedestrian_lane(":j0_w0_0", 2.0)],
            ),
        ],
        junctions: vec![junction(
            "j0",
            JunctionKind::TrafficLight,
            vec!["e0_0", ":j0_w0_0"],
        )],
        connections: vec![vehicle_connection("e0", 0, "j0", 0)],
        traffic_light_programs: vec![program("j0", vec!["G"])],
        ..empty_network()
    };

    let zones = generate(&network, None, false);

    assert_eq!(zones.len(), 1, "the walkingarea lane isn't a vehicle lane");
    assert_eq!(zones[0].entries.len(), 1);
    assert_eq!(zones[0].entries[0].lane, "e0_0");
}

#[test]
fn generates_a_pedestrian_zone_for_a_walkingarea_leading_into_a_crossing() {
    let network = Network {
        edges: vec![
            edge("e0", vec![indexed_lane("e0_0", 0, 25.0)]),
            edge_with_function(
                ":j0_w0",
                EdgeFunction::Walkingarea,
                vec![pedestrian_lane(":j0_w0_0", 3.3)],
            ),
            edge_with_function(
                ":j0_c0",
                EdgeFunction::Crossing,
                vec![pedestrian_lane(":j0_c0_0", 6.4)],
            ),
        ],
        junctions: vec![junction(
            "j0",
            JunctionKind::TrafficLight,
            vec!["e0_0", ":j0_w0_0"],
        )],
        connections: vec![
            vehicle_connection("e0", 0, "j0", 0),
            vehicle_connection(":j0_w0", 0, "j0", 1),
        ],
        traffic_light_programs: vec![program("j0", vec!["GG", "rr"])],
        ..empty_network()
    };

    let zones = generate(&network, None, false);
    let pedestrian_zone = zones
        .iter()
        .find(|zone| zone.detect_persons.contains(&PersonMode::Walk))
        .expect("a pedestrian zone for the walkingarea");

    assert_eq!(zones.len(), 2, "one vehicle zone and one pedestrian zone");
    assert_eq!(pedestrian_zone.entries.len(), 1);
    assert_eq!(pedestrian_zone.entries[0].lane, ":j0_w0_0");
    assert!(
        pedestrian_zone.id.ends_with("_ped"),
        "{:?} should be marked as a pedestrian zone",
        pedestrian_zone.id
    );
    assert!(
        zones
            .iter()
            .all(|zone| zone.detect_persons.is_empty() || zone == pedestrian_zone),
        "only the pedestrian zone should set detectPersons"
    );
}

#[test]
fn pedestrian_zones_never_extend_backward_even_through_an_unambiguous_chain() {
    let network = Network {
        edges: vec![
            edge("e0", vec![indexed_lane("e0_0", 0, 25.0)]),
            edge_with_function(
                "e_sidewalk",
                EdgeFunction::Walkingarea,
                vec![pedestrian_lane("e_sidewalk_0", 20.0)],
            ),
            edge_with_function(
                ":j0_w0",
                EdgeFunction::Walkingarea,
                vec![pedestrian_lane(":j0_w0_0", 0.1)],
            ),
        ],
        junctions: vec![junction(
            "j0",
            JunctionKind::TrafficLight,
            vec!["e0_0", ":j0_w0_0"],
        )],
        connections: vec![
            vehicle_connection("e0", 0, "j0", 0),
            plain_connection("e_sidewalk", 0, ":j0_w0", 0),
            vehicle_connection(":j0_w0", 0, "j0", 1),
        ],
        traffic_light_programs: vec![program("j0", vec!["GG", "rr"])],
        ..empty_network()
    };

    let zones = generate(&network, None, false);
    let pedestrian_zone = zones
        .iter()
        .find(|zone| zone.detect_persons.contains(&PersonMode::Walk))
        .expect("a pedestrian zone for the walkingarea");

    assert_eq!(
        pedestrian_zone.entries.len(),
        1,
        "e_sidewalk doesn't fork -- a vehicle zone in this exact shape would extend \
         through it, but a pedestrian zone must stay just its own gate: {:?}",
        pedestrian_zone.entries
    );
    assert_eq!(pedestrian_zone.entries[0].lane, ":j0_w0_0");
}

#[test]
fn pedestrian_zone_id_has_no_leading_colon_despite_the_walkingareas_own_internal_edge_id() {
    let network = Network {
        edges: vec![
            edge("e0", vec![indexed_lane("e0_0", 0, 25.0)]),
            edge_with_function(
                ":j0_w0",
                EdgeFunction::Walkingarea,
                vec![pedestrian_lane(":j0_w0_0", 3.3)],
            ),
        ],
        junctions: vec![junction(
            "j0",
            JunctionKind::TrafficLight,
            vec!["e0_0", ":j0_w0_0"],
        )],
        connections: vec![vehicle_connection(":j0_w0", 0, "j0", 0)],
        traffic_light_programs: vec![program("j0", vec!["G"])],
        ..empty_network()
    };

    let zones = generate(&network, None, false);

    assert_eq!(zones.len(), 1);
    assert_eq!(zones[0].id, "j0_w0_straight_ped");
}

#[test]
fn max_zone_length_caps_the_entry_but_keeps_the_exit_at_the_stop_line() {
    let network = Network {
        edges: vec![edge("e0", vec![indexed_lane("e0_0", 0, 100.0)])],
        junctions: vec![junction("j0", JunctionKind::TrafficLight, vec!["e0_0"])],
        connections: vec![vehicle_connection("e0", 0, "j0", 0)],
        traffic_light_programs: vec![program("j0", vec!["G"])],
        ..empty_network()
    };

    let zones = generate(&network, Some(meters(20.0)), false);

    assert_eq!(zones.len(), 1);
    assert_eq!(
        zones[0].entries[0].position,
        LanePosition::FromStart(meters(80.0))
    );
    assert_eq!(
        zones[0].exits[0].position,
        LanePosition::FromStart(meters(100.0))
    );
}

#[test]
fn max_zone_length_longer_than_the_lane_has_no_effect() {
    let network = Network {
        edges: vec![edge("e0", vec![indexed_lane("e0_0", 0, 25.0)])],
        junctions: vec![junction("j0", JunctionKind::TrafficLight, vec!["e0_0"])],
        connections: vec![vehicle_connection("e0", 0, "j0", 0)],
        traffic_light_programs: vec![program("j0", vec!["G"])],
        ..empty_network()
    };

    let zones = generate(&network, Some(meters(1000.0)), false);

    assert_eq!(
        zones[0].entries[0].position,
        LanePosition::FromStart(meters(0.0))
    );
}

#[test]
fn zones_at_the_same_junction_share_the_junction_position_as_icon_position() {
    let network = Network {
        edges: vec![
            edge("e0", vec![indexed_lane("e0_0", 0, 25.0)]),
            edge("e1", vec![indexed_lane("e1_0", 1, 40.0)]),
        ],
        junctions: vec![Junction {
            id: "j0".to_string(),
            position: Point {
                x: meters(42.0),
                y: meters(7.0),
                z: meters(0.0),
            },
            kind: JunctionKind::TrafficLight,
            incoming_lanes: vec!["e0_0".to_string(), "e1_0".to_string()],
        }],
        connections: vec![
            vehicle_connection("e0", 0, "j0", 0),
            vehicle_connection("e1", 1, "j0", 1),
        ],
        traffic_light_programs: vec![program("j0", vec!["GG", "Gr"])],
        ..empty_network()
    };

    let zones = generate(&network, None, false);

    assert_eq!(zones.len(), 2, "two signal groups at the same junction");
    for zone in &zones {
        assert_eq!(
            zone.icon_position,
            Some(Point {
                x: meters(42.0),
                y: meters(7.0),
                z: meters(0.0)
            }),
            "zone {:?} should be anchored at the junction's own position",
            zone.id
        );
    }
}

#[test]
fn extends_a_short_lanes_entry_back_through_an_unambiguous_predecessor_chain() {
    let network = Network {
        edges: vec![
            edge("e0", vec![indexed_lane("e0_0", 0, 25.0)]),
            edge("e1", vec![indexed_lane("e1_0", 0, 0.1)]),
        ],
        junctions: vec![junction("j0", JunctionKind::TrafficLight, vec!["e1_0"])],
        connections: vec![
            plain_connection("e0", 0, "e1", 0),
            vehicle_connection("e1", 0, "j0", 0),
        ],
        traffic_light_programs: vec![program("j0", vec!["G"])],
        ..empty_network()
    };

    let zones = generate(&network, None, false);
    assert_eq!(zones.len(), 1);
    let zone = &zones[0];

    assert_eq!(zone.exits.len(), 1, "the exit stays on the real controlled lane");
    assert_eq!(zone.exits[0].lane, "e1_0");

    let mut entry_lanes: Vec<String> = zone.entries.iter().map(|g| g.lane.clone()).collect();
    entry_lanes.sort();
    assert_eq!(entry_lanes, vec!["e0_0".to_string(), "e1_0".to_string()]);
    assert!(
        zone.entries
            .iter()
            .all(|g| g.position == LanePosition::FromStart(meters(0.0)))
    );
}

#[test]
fn extending_through_a_hop_also_adds_its_own_internal_via_lane() {
    let network = Network {
        edges: vec![
            edge("e0", vec![indexed_lane("e0_0", 0, 25.0)]),
            edge_with_function(
                ":j0_0",
                EdgeFunction::Internal,
                vec![indexed_lane(":j0_0_0", 0, 4.0)],
            ),
            edge("e1", vec![indexed_lane("e1_0", 0, 0.1)]),
        ],
        junctions: vec![junction("j0", JunctionKind::TrafficLight, vec!["e1_0"])],
        connections: vec![
            Connection {
                via: Some(":j0_0_0".to_string()),
                ..plain_connection("e0", 0, "e1", 0)
            },
            vehicle_connection("e1", 0, "j0", 0),
        ],
        traffic_light_programs: vec![program("j0", vec!["G"])],
        ..empty_network()
    };

    let zones = generate(&network, None, false);
    let zone = &zones[0];

    let mut entry_lanes: Vec<String> = zone.entries.iter().map(|g| g.lane.clone()).collect();
    entry_lanes.sort();
    assert_eq!(
        entry_lanes,
        vec![":j0_0_0".to_string(), "e0_0".to_string(), "e1_0".to_string()],
        "the internal lane bridging e0 and e1 should be drawn too, not just the two \
         real lanes on either side of it"
    );
}

#[test]
fn stops_extending_at_a_predecessor_that_forks() {
    let network = Network {
        edges: vec![
            edge("e0", vec![indexed_lane("e0_0", 0, 25.0)]),
            edge("e1", vec![indexed_lane("e1_0", 0, 0.1)]),
            edge("e2", vec![indexed_lane("e2_0", 0, 10.0)]),
        ],
        junctions: vec![junction("j0", JunctionKind::TrafficLight, vec!["e1_0"])],
        connections: vec![
            plain_connection("e0", 0, "e1", 0),
            plain_connection("e0", 0, "e2", 0),
            vehicle_connection("e1", 0, "j0", 0),
        ],
        traffic_light_programs: vec![program("j0", vec!["G"])],
        ..empty_network()
    };

    let zones = generate(&network, None, false);
    let zone = &zones[0];

    assert_eq!(zone.entries.len(), 1);
    assert_eq!(
        zone.entries[0].lane,
        "e1_0",
        "e0 forks (leads to both e1 and e2) -- extension must stop before it, not \
         silently claim traffic that's actually headed to e2 as part of this zone"
    );
}

#[test]
fn stops_extending_at_a_predecessor_that_already_has_its_own_signal_controlled_zone() {
    let network = Network {
        edges: vec![
            edge("e_further_back", vec![indexed_lane("e_further_back_0", 0, 40.0)]),
            edge("e0", vec![indexed_lane("e0_0", 0, 25.0)]),
            edge("e1", vec![indexed_lane("e1_0", 0, 0.1)]),
        ],
        junctions: vec![
            junction("j_upstream", JunctionKind::TrafficLight, vec!["e0_0"]),
            junction("j0", JunctionKind::TrafficLight, vec!["e1_0"]),
        ],
        connections: vec![
            plain_connection("e_further_back", 0, "e0", 0),
            vehicle_connection("e0", 0, "j_upstream", 0),
            plain_connection("e0", 0, "e1", 0),
            vehicle_connection("e1", 0, "j0", 0),
        ],
        traffic_light_programs: vec![
            program("j_upstream", vec!["G"]),
            program("j0", vec!["G"]),
        ],
        ..empty_network()
    };

    let zones = generate(&network, None, false);
    let j0_zone = zones
        .iter()
        .find(|z| z.exits.iter().any(|g| g.lane == "e1_0"))
        .expect("a zone for j0");

    let entry_lanes: Vec<String> = j0_zone.entries.iter().map(|g| g.lane.clone()).collect();
    assert!(
        entry_lanes.contains(&"e1_0".to_string()),
        "e1's own gate is always kept"
    );
    assert!(
        !entry_lanes.iter().any(|l| l == "e0_0" || l == "e_further_back_0"),
        "e0 already has its own zone at j_upstream (and doesn't fork) -- j0's zone must \
         not extend through it (or past it, onto e_further_back) and draw a rectangle on \
         top of j_upstream's own: {entry_lanes:?}"
    );
}

#[test]
fn extends_through_every_predecessor_that_individually_only_leads_here() {
    let network = Network {
        edges: vec![
            edge("e0", vec![indexed_lane("e0_0", 0, 25.0)]),
            edge("e2", vec![indexed_lane("e2_0", 0, 15.0)]),
            edge("e1", vec![indexed_lane("e1_0", 0, 0.1)]),
        ],
        junctions: vec![junction("j0", JunctionKind::TrafficLight, vec!["e1_0"])],
        connections: vec![
            plain_connection("e0", 0, "e1", 0),
            plain_connection("e2", 0, "e1", 0),
            vehicle_connection("e1", 0, "j0", 0),
        ],
        traffic_light_programs: vec![program("j0", vec!["G"])],
        ..empty_network()
    };

    let zones = generate(&network, None, false);
    let zone = &zones[0];

    let mut entry_lanes: Vec<String> = zone.entries.iter().map(|g| g.lane.clone()).collect();
    entry_lanes.sort();
    assert_eq!(
        entry_lanes,
        vec!["e0_0".to_string(), "e1_0".to_string(), "e2_0".to_string()],
        "e1's own gate is kept in addition to both extended ancestors"
    );
}

#[test]
fn max_zone_length_suppresses_extension_when_it_caps_the_entry_short_of_the_lanes_own_start() {
    let network = Network {
        edges: vec![
            edge("e0", vec![indexed_lane("e0_0", 0, 25.0)]),
            edge("e1", vec![indexed_lane("e1_0", 0, 50.0)]),
        ],
        junctions: vec![junction("j0", JunctionKind::TrafficLight, vec!["e1_0"])],
        connections: vec![
            plain_connection("e0", 0, "e1", 0),
            vehicle_connection("e1", 0, "j0", 0),
        ],
        traffic_light_programs: vec![program("j0", vec!["G"])],
        ..empty_network()
    };

    let zones = generate(&network, Some(meters(20.0)), false);
    let zone = &zones[0];

    assert_eq!(zone.entries.len(), 1);
    assert_eq!(zone.entries[0].lane, "e1_0");
    assert_eq!(
        zone.entries[0].position,
        LanePosition::FromStart(meters(30.0))
    );
}

fn key_of(network: &Network, lane: &str) -> Result<(String, Vec<ConnectionDirection>), UngroupedReason> {
    let graph = ConnectivityGraph::of(network);
    let programs = SignalPrograms::of(&network.traffic_light_programs);
    group_key_for_lane(lane, &graph, &programs).map(|key| (key.from_edge, key.directions))
}

#[test]
fn group_key_for_lane_reports_no_outgoing_connection_at_all() {
    let network = empty_network();
    assert_eq!(key_of(&network, "e0_0"), Err(UngroupedReason::NoOutgoingConnection));
}

#[test]
fn group_key_for_lane_reports_no_resolvable_program() {
    let network = Network {
        edges: vec![edge("e0", vec![indexed_lane("e0_0", 0, 25.0)])],
        connections: vec![vehicle_connection("e0", 0, "j0", 0)],
        ..empty_network()
    };
    assert_eq!(key_of(&network, "e0_0"), Err(UngroupedReason::NoResolvableProgram));
}

#[test]
fn group_key_for_lane_reports_link_index_out_of_range() {
    let network = Network {
        edges: vec![edge("e0", vec![indexed_lane("e0_0", 0, 25.0)])],
        connections: vec![vehicle_connection("e0", 0, "j0", 5)],
        traffic_light_programs: vec![program("j0", vec!["G"])],
        ..empty_network()
    };
    assert_eq!(
        key_of(&network, "e0_0"),
        Err(UngroupedReason::LinkIndexOutOfRange { program: "j0".into(), index: 5 })
    );
}

fn extension(network: &Network, lane: &str, stop: bool) -> Vec<String> {
    let graph = ConnectivityGraph::of(network);
    let mut visited = IdSet::new();
    let budget = Double { bits: DEFAULT_EXTENSION_METERS };
    extended_entry_lanes(lane, &graph, &mut visited, budget, stop)
}

#[test]
fn extended_entry_lanes_terminates_on_a_cycle_no_real_network_would_produce() {
    let network = Network {
        edges: vec![edge("a", vec![lane("a_0", 10.0)]), edge("b", vec![lane("b_0", 10.0)])],
        connections: vec![plain_connection("a", 0, "b", 0), plain_connection("b", 0, "a", 0)],
        ..empty_network()
    };
    let frontier = extension(&network, "a_0", false);
    assert!(!frontier.is_empty(), "must terminate with a real answer, not hang");
    assert_eq!(frontier, vec!["b_0"], "the lane it starts from adds nothing further");
}

#[test]
fn extended_entry_lanes_stops_once_the_budget_runs_out() {
    let segment_length = f64::from_bits(DEFAULT_EXTENSION_METERS) / 2.0 + 1.0;
    let network = Network {
        edges: vec![
            edge("a", vec![lane("a_0", segment_length)]),
            edge("b", vec![lane("b_0", segment_length)]),
            edge("c", vec![lane("c_0", segment_length)]),
        ],
        connections: vec![plain_connection("b", 0, "a", 0), plain_connection("c", 0, "b", 0)],
        ..empty_network()
    };
    assert_eq!(extension(&network, "a_0", false), vec!["b_0"], "b fits the budget, c does not");
}

#[test]
fn stop_at_complex_intersections_flag_gates_the_new_stopping_condition() {
    // Only b starts at the complex junction: the program T controls a link
    // through it and a link through another junction, far from here.
    let network = Network {
        edges: vec![
            edge("a", vec![lane("a_0", 10.0)]),
            Edge { from: Some("complex_junction".into()), ..edge("b", vec![lane("b_0", 10.0)]) },
            edge("c", vec![lane("c_0", 10.0)]),
            edge("p", vec![lane("p_0", 10.0)]),
            Edge { from: Some("elsewhere".into()), ..edge("q", vec![lane("q_0", 10.0)]) },
        ],
        connections: vec![
            plain_connection("b", 0, "a", 0),
            Connection { traffic_light: Some("T".into()), ..plain_connection("c", 0, "b", 0) },
            Connection { traffic_light: Some("T".into()), ..plain_connection("p", 0, "q", 0) },
        ],
        ..empty_network()
    };
    assert_eq!(
        extension(&network, "a_0", false),
        vec!["b_0", "c_0"],
        "flag off: an ordinary unbounded walk reaches c"
    );
    assert_eq!(
        extension(&network, "a_0", true),
        vec!["b_0"],
        "flag on: b is still included, but the walk stops there instead of also looking at c"
    );
}

#[test]
fn a_skipped_lane_is_reported_with_its_junction_and_the_reason() {
    let network = Network {
        edges: vec![edge("e0", vec![indexed_lane("e0_0", 0, 25.0), indexed_lane("e0_1", 1, 25.0)])],
        junctions: vec![junction("j0", JunctionKind::TrafficLight, vec!["e0_0", "e0_1", "gone_0"])],
        connections: vec![vehicle_connection("e0", 0, "j0", -3), vehicle_connection("e0", 1, "k", 0)],
        traffic_light_programs: vec![program("j0", vec!["G"])],
        ..empty_network()
    };
    let messages: Vec<String> = skipped_lanes(&network).iter().map(|s| s.message()).collect();
    assert_eq!(
        messages,
        vec![
            "lane \"e0_0\" at junction \"j0\" skipped: connection's linkIndex -3 is out of range for \
             tlLogic \"j0\"'s phases",
            "lane \"e0_1\" at junction \"j0\" skipped: none of its connections are signal-controlled \
             (no `tl` naming a program this file defines)",
            "lane \"gone_0\" at junction \"j0\" skipped: no outgoing connection in the network at all",
        ]
    );
}

#[test]
fn fork_siblings_under_one_program_become_one_zone() {
    // One upstream edge forks into a and b, which lead into different
    // junctions of one joined program.
    let mut network = Network {
        edges: vec![
            edge("up", vec![indexed_lane("up_0", 0, 50.0), indexed_lane("up_1", 1, 50.0)]),
            edge("b", vec![lane("b_0", 10.0)]),
            edge("a", vec![lane("a_0", 10.0)]),
        ],
        junctions: vec![
            Junction {
                position: Point { x: meters(1.0), ..origin() },
                ..junction("jb", JunctionKind::TrafficLight, vec!["b_0"])
            },
            Junction {
                position: Point { x: meters(2.0), ..origin() },
                ..junction("ja", JunctionKind::TrafficLight, vec!["a_0"])
            },
        ],
        connections: vec![
            plain_connection("up", 0, "b", 0),
            plain_connection("up", 1, "a", 0),
            vehicle_connection("b", 0, "joined", 0),
            vehicle_connection("a", 0, "joined", 1),
        ],
        traffic_light_programs: vec![program("joined", vec!["Gr", "rG"])],
        ..empty_network()
    };
    let zones = generate(&network, None, false);
    assert_eq!(zones.len(), 1);
    assert_eq!(zones[0].id, "a+b_straight");
    let exits: Vec<&str> = zones[0].exits.iter().map(|g| g.lane.as_str()).collect();
    assert_eq!(exits, vec!["b_0", "a_0"]);
    assert_eq!(zones[0].icon_position, Some(Point { x: meters(2.0), ..origin() }));

    // A fork behind a signal of its own makes two queues.
    network.connections[0].traffic_light = Some("upstream".into());
    network.connections[0].link_index = Some(0);
    network.connections[1].traffic_light = Some("upstream".into());
    network.connections[1].link_index = Some(1);
    let ids: Vec<String> = generate(&network, None, false).into_iter().map(|z| z.id).collect();
    assert_eq!(ids, vec!["a_straight", "b_straight"]);
}

#[test]
fn sharing_lanes_with_several_turns_name_them_all_in_order() {
    let mut left = vehicle_connection("e0", 0, "j0", 0);
    left.direction = ConnectionDirection::Left;
    let mut right = vehicle_connection("e0", 0, "j0", 1);
    right.direction = ConnectionDirection::Right;
    let network = Network {
        edges: vec![edge("e0", vec![indexed_lane("e0_0", 0, 25.0)])],
        junctions: vec![junction("j0", JunctionKind::TrafficLight, vec!["e0_0"])],
        connections: vec![right, left, vehicle_connection("e0", 0, "j0", 2)],
        traffic_light_programs: vec![program("j0", vec!["GGG"])],
        ..empty_network()
    };
    let zones = generate(&network, None, false);
    assert_eq!(zones[0].id, "e0_straight+left+right");
}

#[test]
fn reversing_every_programs_phases_changes_no_zone() {
    let mut network = Network {
        edges: vec![edge("e0", vec![indexed_lane("e0_0", 0, 25.0), indexed_lane("e0_1", 1, 30.0)])],
        junctions: vec![junction("j0", JunctionKind::TrafficLight, vec!["e0_1", "e0_0"])],
        connections: vec![vehicle_connection("e0", 0, "j0", 0), vehicle_connection("e0", 1, "j0", 1)],
        traffic_light_programs: vec![program("j0", vec!["Gr", "yr", "rG", "ry"])],
        ..empty_network()
    };
    let before = generate(&network, None, false);
    for program in &mut network.traffic_light_programs {
        program.phases.reverse();
    }
    assert_eq!(before, generate(&network, None, false));
}

#[test]
fn every_signalled_lane_has_a_zone_and_no_other_has_one() {
    let mut e2 = junction("j1", JunctionKind::Priority, vec!["e2_0"]);
    e2.position = Point { x: meters(9.0), ..origin() };
    let network = Network {
        edges: vec![
            edge("e0", vec![lane("e0_0", 30.0)]),
            edge("e1", vec![lane("e1_0", 40.0)]),
            edge("e2", vec![lane("e2_0", 50.0)]),
            edge_with_function(
                ":j0_w0",
                EdgeFunction::Walkingarea,
                vec![pedestrian_lane(":j0_w0_0", 5.0)],
            ),
        ],
        junctions: vec![
            junction("j0", JunctionKind::TrafficLight, vec!["e0_0", "e1_0", ":j0_w0_0"]),
            e2,
        ],
        connections: vec![
            vehicle_connection("e0", 0, "j0", 0),
            plain_connection("e1", 0, "e2", 0),
            vehicle_connection("e2", 0, "j0", 1),
            vehicle_connection(":j0_w0", 0, "j0", 1),
        ],
        traffic_light_programs: vec![program("j0", vec!["Gr", "rG"])],
        ..empty_network()
    };
    let zones = generate(&network, None, false);
    let exits: Vec<(&str, bool)> = zones
        .iter()
        .flat_map(|zone| {
            let pedestrian = !zone.detect_persons.is_empty();
            zone.exits.iter().map(move |exit| (exit.lane.as_str(), pedestrian))
        })
        .collect();
    assert_eq!(exits, vec![("e0_0", false), (":j0_w0_0", true)]);
    for zone in &zones {
        assert_eq!(zone.icon_position, Some(origin()));
        for entry in &zone.entries {
            assert_eq!(entry.position, LanePosition::FromStart(meters(0.0)));
        }
    }
    let skipped = skipped_lanes(&network);
    assert_eq!(skipped.len(), 1);
    assert_eq!(skipped[0].lane, "e1_0");
}
