//! What the zone generator reads of a SUMO road network: edges and their
//! lanes, junctions, the connections between lanes, and signal programs.

use crate::double::Double;
use vstd::prelude::*;

verus! {

/// A point in the network's own coordinates.
#[derive(Clone, Copy, Debug, PartialEq, Eq, Structural)]
pub struct Point {
    pub x: Double,
    pub y: Double,
    pub z: Double,
}

/// How a network's coordinates relate to the globe.
#[derive(Clone, Debug, PartialEq, Eq)]
pub enum Projection {
    /// Plain local coordinates, related to nothing.
    Local,
    /// A PROJ definition string.
    Proj4(String),
}

/// Where a network lies.
#[derive(Clone, Debug, PartialEq, Eq)]
pub struct Location {
    pub net_offset: Point,
    pub projection: Projection,
}

/// A lane of an edge; its lengths are in metres.
#[derive(Clone, Debug, PartialEq, Eq)]
pub struct Lane {
    pub id: String,
    /// The lane's place within its edge, counted from the right.
    pub index: usize,
    pub length: Double,
    pub width: Double,
    pub shape: Vec<Point>,
    /// The vehicle classes that alone may use the lane; empty for no limit.
    pub allow: Vec<String>,
    /// The vehicle classes kept off the lane, where `allow` is empty.
    pub disallow: Vec<String>,
}

/// The role an edge plays.
#[derive(Clone, Copy, Debug, PartialEq, Eq, Structural)]
pub enum EdgeFunction {
    Normal,
    /// A path through the inside of a junction.
    Internal,
    Connector,
    Crossing,
    Walkingarea,
}

/// A directed edge.
#[derive(Clone, Debug, PartialEq, Eq)]
pub struct Edge {
    pub id: String,
    pub function: EdgeFunction,
    /// The junction at which the edge starts, where the network names it.
    pub from: Option<String>,
    pub lanes: Vec<Lane>,
}

/// How right of way is decided at a junction.
#[derive(Clone, Copy, Debug, PartialEq, Eq, Structural)]
pub enum JunctionKind {
    TrafficLight,
    TrafficLightUnregulated,
    TrafficLightRightOnRed,
    RailSignal,
    RailCrossing,
    Priority,
    PriorityStop,
    LeftBeforeRight,
    RightBeforeLeft,
    AllWayStop,
    Zipper,
    District,
    Unregulated,
    Internal,
    DeadEnd,
}

/// A place where edges meet.
#[derive(Clone, Debug, PartialEq, Eq)]
pub struct Junction {
    pub id: String,
    pub position: Point,
    pub kind: JunctionKind,
    /// The ids of the lanes that end here, walkingareas among them.
    pub incoming_lanes: Vec<String>,
}

/// The turn that a connection makes.
#[derive(Clone, Copy, Debug, PartialEq, Eq, Structural)]
pub enum ConnectionDirection {
    Straight,
    Turn,
    TurnLeftHand,
    Left,
    Right,
    PartialLeft,
    PartialRight,
}

/// A way from one lane to another. Lanes are named by edge and index.
#[derive(Clone, Debug, PartialEq, Eq)]
pub struct Connection {
    pub from_edge: String,
    pub to_edge: String,
    pub from_lane: usize,
    pub to_lane: usize,
    pub direction: ConnectionDirection,
    /// The internal lane that bridges the two, where there is one.
    pub via: Option<String>,
    /// The signal program that controls the connection.
    pub traffic_light: Option<String>,
    /// The connection's place in the program's phase states.
    pub link_index: Option<i32>,
}

/// One phase of a signal program; the character at a link's index is that
/// link's state.
#[derive(Clone, Debug, PartialEq, Eq)]
pub struct Phase {
    pub state: String,
}

/// A signal program. Two programs may bear one id.
#[derive(Clone, Debug, PartialEq, Eq)]
pub struct TrafficLightProgram {
    pub id: String,
    pub phases: Vec<Phase>,
}

/// A road network.
#[derive(Clone, Debug, PartialEq, Eq)]
pub struct Network {
    pub location: Location,
    pub edges: Vec<Edge>,
    pub junctions: Vec<Junction>,
    pub connections: Vec<Connection>,
    pub traffic_light_programs: Vec<TrafficLightProgram>,
}

/// Whether every class named in `allow` is the pedestrian, and there is one.
pub open spec fn allows_pedestrians_only(allow: Seq<String>) -> bool {
    allow.len() > 0 && forall|i: int| 0 <= i < allow.len() ==> (#[trigger] allow[i])@ == "pedestrian"@
}

impl Lane {
    /// Whether nobody but pedestrians may use this lane.
    pub fn is_pedestrian_only(&self) -> (only: bool)
        ensures
            only == allows_pedestrians_only(self.allow@),
    {
        if self.allow.len() == 0 {
            return false;
        }
        let pedestrian: String = "pedestrian".to_owned();
        for i in 0..self.allow.len()
            invariant
                pedestrian@ == "pedestrian"@,
                forall|j: int| 0 <= j < i ==> (#[trigger] self.allow@[j])@ == "pedestrian"@,
        {
            if self.allow[i] != pedestrian {
                return false;
            }
        }
        true
    }
}

/// Junction kinds that let traffic through by a traffic light. Rail signals
/// are not among them: no road traffic queues there.
pub open spec fn traffic_light_kind(kind: JunctionKind) -> bool {
    kind == JunctionKind::TrafficLight || kind == JunctionKind::TrafficLightUnregulated || kind
        == JunctionKind::TrafficLightRightOnRed
}

/// Whether vehicles queue for a green phase at a junction of this kind.
pub fn is_traffic_light(kind: JunctionKind) -> (yes: bool)
    ensures
        yes == traffic_light_kind(kind),
{
    matches!(
        kind,
        JunctionKind::TrafficLight
        | JunctionKind::TrafficLightUnregulated
        | JunctionKind::TrafficLightRightOnRed
    )
}

/// Whether every phase has a state for the link at `link_index`.
pub open spec fn index_resolves(phases: Seq<Phase>, link_index: int) -> bool {
    link_index >= 0 && forall|i: int|
        0 <= i < phases.len() ==> link_index < (#[trigger] phases[i]).state@.len()
}

/// Whether `link_index` points into every phase of `program`. What state a
/// phase gives the link is never read.
pub fn link_index_in_range(program: &TrafficLightProgram, link_index: i32) -> (in_range: bool)
    ensures
        in_range == index_resolves(program.phases@, link_index as int),
{
    if link_index < 0 {
        return false;
    }
    let index: usize = link_index as usize;
    for i in 0..program.phases.len()
        invariant
            index == link_index,
            link_index >= 0,
            forall|j: int| 0 <= j < i ==> link_index < (#[trigger] program.phases@[j]).state@.len(),
    {
        if program.phases[i].state.as_str().unicode_len() <= index {
            return false;
        }
    }
    true
}

} // verus!
