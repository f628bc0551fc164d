//! What is drawn for a zone: outlines of pavement, and strokes along lanes.

use crate::chains::{
    add_id, add_points, chain_from, chain_shape, count_feeders, feeders, lanes_held, with_id, Chain,
    ChainView,
};
use crate::connectivity::{last_where, GraphView};
use crate::detector::{gates, DetectorGate, DetectorView, E3Detector, GateView};
use crate::double::{plus, zero, Double};
use crate::grid::{part_on_grid, snap_coords};
use crate::lane_table::{lane_called, LaneTable};
use crate::network::{Lane, Point};
use crate::order::{characters, texts};
use crate::plane::{Coord, TWO};
use crate::polygons::{
    closed_up, drop_interior_rings, drop_slivers, ground_plan, parts_worth_keeping,
    pedestrian_outline,
};
use crate::product::{over, times};
use crate::quoting::{quote, quoted};
use crate::ring::{least, least_is_the_first, lemma_least, optional_coords};
use crate::shape::{
    corners, distance_from_start, entry_with_padding, length_of_segments, metres_from_start,
    padded_entry, segment_count, segments_between, shape_length, trimmed_path_points,
};
use crate::splitting::{polygon_views, solid, Polygon, PolygonView};
use crate::successors::Successors;
use vstd::prelude::*;

verus! {

/// The length, by bit pattern, that a zone is drawn at least: 5 metres.
pub const MIN_DRAWN_LANE_LENGTH_METERS: u64 = 0x4014_0000_0000_0000;

/// The angle, by bit pattern, that each segment of a round join spans: 0.3
/// radians.
pub const ROUND_JOIN_SEGMENT_ANGLE_RADIANS: u64 = 0x3fd3_3333_3333_3333;

/// The distance, by bit pattern, that simplifying what is drawn for vehicles
/// may move its boundary by: 5 centimetres.
pub const SIMPLIFY_TOLERANCE_METERS: u64 = 0x3fa9_9999_9999_999a;

/// How a stroke ends.
#[derive(Clone, Copy, Debug, PartialEq, Eq, Structural)]
pub enum LineEnd {
    /// Straight across.
    Butt,
    /// Straight across, half the stroke's width further on.
    Square,
}

/// A stroke along a line, with a flat start. A line of fewer than two points
/// draws nothing.
#[derive(Debug, PartialEq, Eq)]
pub struct Stroke {
    pub path: Vec<Point>,
    pub width: Double,
    pub end: LineEnd,
}

/// What a [`Stroke`] says.
#[verifier::ext_equal]
pub struct StrokeView {
    pub path: Seq<Point>,
    pub width: Double,
    pub end: LineEnd,
}

impl View for Stroke {
    type V = StrokeView;

    open spec fn view(&self) -> StrokeView {
        StrokeView { path: self.path@, width: self.width, end: self.end }
    }
}

/// What a list of strokes says.
pub open spec fn stroke_views(strokes: Seq<Stroke>) -> Seq<StrokeView> {
    Seq::new(strokes.len(), |i: int| strokes[i]@)
}

/// The stroke along the part of a line between `entry` and `exit` metres, half
/// as wide to either side as a lane of this width.
pub open spec fn stroke_along(
    points: Seq<Point>,
    entry: Double,
    exit: Double,
    lane_width: Double,
    end: LineEnd,
) -> StrokeView {
    StrokeView {
        path: corners(segments_between(points, entry, exit)),
        width: times(Double { bits: TWO }, over(lane_width, Double { bits: TWO })),
        end,
    }
}

/// The stroke along the part of a line between `entry` and `exit` metres, half
/// as wide to either side as a lane of this width.
pub fn buffer_shape(
    points: &Vec<Point>,
    entry: Double,
    exit: Double,
    lane_width: Double,
    end: LineEnd,
) -> (stroke: Stroke)
    ensures
        stroke@ == stroke_along(points@, entry, exit, lane_width, end),
{
    let two: Double = Double { bits: TWO };
    Stroke {
        path: trimmed_path_points(points, entry, exit),
        width: two.multiply(lane_width.divide(two)),
        end,
    }
}

/// The first gate on a lane that the network does not have.
pub open spec fn unknown_gate(gates: Seq<GateView>, lanes: Seq<Lane>) -> Option<nat> {
    least(gates.len(), |i: int| lane_called(lanes, gates[i].lane) is None)
}

/// The first lane of a zone, exits first, that the network does not have.
pub open spec fn unknown_lane(zone: DetectorView, lanes: Seq<Lane>) -> Option<Seq<char>> {
    match unknown_gate(zone.exits, lanes) {
        Some(i) => Some(zone.exits[i as int].lane),
        None => match unknown_gate(zone.entries, lanes) {
            Some(i) => Some(zone.entries[i as int].lane),
            None => None,
        },
    }
}

fn find_unknown(list: &Vec<DetectorGate>, lanes: &LaneTable) -> (found: Option<usize>)
    ensures
        match found {
            Some(i) => i < list@.len() && unknown_gate(gates(list@), lanes@) == Some(i as nat),
            None => unknown_gate(gates(list@), lanes@) is None,
        },
{
    let ghost views = gates(list@);
    let ghost unknown = |i: int| lane_called(lanes@, views[i].lane) is None;
    let mut i: usize = 0;
    while i < list.len()
        invariant
            i <= list@.len(),
            views == gates(list@),
            unknown == (|i: int| lane_called(lanes@, views[i].lane) is None),
            least(i as nat, unknown) is None,
        decreases list@.len() - i,
    {
        let gate: &DetectorGate = &list[i];
        assert(views[i as int].lane == gate.lane@);
        match lanes.get(gate.lane.as_str()) {
            Some(_) => {},
            None => {
                proof {
                    assert(unknown(i as int));
                    lemma_least(views.len(), unknown, i as nat);
                }
                return Some(i);
            },
        }
        assert(!unknown(i as int));
        i = i + 1;
    }
    None
}

/// How far along its lane the zone's exit from `lane` lies; of several exits,
/// the last counts.
pub open spec fn exit_metres(
    exits: Seq<GateView>,
    lanes: Seq<Lane>,
    lane: Seq<char>,
) -> Option<Double> {
    match last_where(exits, |gate: GateView| gate.lane == lane) {
        Some(gate) => Some(metres_from_start(gate.position, (lane_called(lanes, lane)->0).length)),
        None => None,
    }
}

fn exit_distance(exits: &Vec<DetectorGate>, id: &String, lane: &Lane, lanes: &LaneTable) -> (metres:
    Option<Double>)
    requires
        lane_called(lanes@, id@) == Some(*lane),
    ensures
        metres == exit_metres(gates(exits@), lanes@, id@),
{
    let ghost views = gates(exits@);
    let ghost wanted = |gate: GateView| gate.lane == id@;
    let mut k: usize = exits.len();
    assert(views.take(k as int) =~= views);
    while k > 0
        invariant
            k <= exits@.len(),
            views == gates(exits@),
            wanted == (|gate: GateView| gate.lane == id@),
            lane_called(lanes@, id@) == Some(*lane),
            last_where(views, wanted) == last_where(views.take(k as int), wanted),
        decreases k,
    {
        let exit: &DetectorGate = &exits[k - 1];
        assert(views.take(k as int).last() == exit@);
        if exit.lane == *id {
            return Some(distance_from_start(exit.position, lane.length));
        }
        assert(views.take(k as int).drop_last() =~= views.take(k - 1));
        k = k - 1;
    }
    None
}

/// A lane that a zone controls, and the stretch of it that is drawn.
#[verifier::ext_equal]
pub struct CoreGateView {
    pub lane: Lane,
    pub entry: Double,
    pub exit: Double,
}

/// The stretches of the lanes that a zone controls, drawn at least `pad`
/// metres long, in the order of the zone's entries.
pub open spec fn core_gates(
    entries: Seq<GateView>,
    exits: Seq<GateView>,
    lanes: Seq<Lane>,
    pad: Double,
) -> Seq<CoreGateView>
    decreases entries.len(),
{
    if entries.len() == 0 {
        Seq::empty()
    } else {
        let before = core_gates(entries.drop_last(), exits, lanes, pad);
        let entry = entries.last();
        let lane = lane_called(lanes, entry.lane)->0;
        match exit_metres(exits, lanes, entry.lane) {
            Some(exit) => before.push(
                CoreGateView {
                    lane,
                    entry: entry_with_padding(
                        metres_from_start(entry.position, lane.length),
                        exit,
                        pad,
                    ),
                    exit,
                },
            ),
            None => before,
        }
    }
}

/// The lanes that a zone controls, in the order of its entries.
pub open spec fn core_lanes(
    entries: Seq<GateView>,
    exits: Seq<GateView>,
    lanes: Seq<Lane>,
) -> Seq<Lane>
    decreases entries.len(),
{
    if entries.len() == 0 {
        Seq::empty()
    } else {
        let before = core_lanes(entries.drop_last(), exits, lanes);
        let entry = entries.last();
        match exit_metres(exits, lanes, entry.lane) {
            Some(_) => before.push(lane_called(lanes, entry.lane)->0),
            None => before,
        }
    }
}

/// Whether an id is that of a lane through the inside of a junction.
pub open spec fn is_internal_id(id: Seq<char>) -> bool {
    id.len() > 0 && id[0] == ':'
}

/// The lanes that lead to those that a zone controls, in order.
pub open spec fn ancestor_lanes(
    entries: Seq<GateView>,
    exits: Seq<GateView>,
    lanes: Seq<Lane>,
) -> Seq<Seq<char>>
    decreases entries.len(),
{
    if entries.len() == 0 {
        Seq::empty()
    } else {
        let before = ancestor_lanes(entries.drop_last(), exits, lanes);
        let id = entries.last().lane;
        if exit_metres(exits, lanes, id) is None && !is_internal_id(id) {
            with_id(before, id)
        } else {
            before
        }
    }
}

/// A lane that a zone controls, and the stretch of it that is drawn.
struct CoreGate<'a> {
    lane: &'a Lane,
    entry: Double,
    exit: Double,
}

impl<'a> CoreGate<'a> {
    spec fn view(&self) -> CoreGateView {
        CoreGateView { lane: *self.lane, entry: self.entry, exit: self.exit }
    }
}

spec fn core_views(list: Seq<CoreGate<'_>>) -> Seq<CoreGateView> {
    Seq::new(list.len(), |i: int| list[i]@)
}

/// What a zone's gates come to: the stretches and the lanes that it controls,
/// and the lanes that lead there.
struct Gates<'a> {
    core: Vec<CoreGate<'a>>,
    lanes: Vec<&'a Lane>,
    ancestors: Vec<String>,
}

fn starts_with_colon(id: &String) -> (internal: bool)
    ensures
        internal == is_internal_id(id@),
{
    let chars: Vec<char> = characters(id.as_str());
    chars.len() > 0 && chars[0] == ':'
}

fn gates_of<'a>(zone: &E3Detector, lanes: &LaneTable<'a>, pad: Double) -> (found: Gates<'a>)
    requires
        unknown_gate(gates(zone.entries@), lanes@) is None,
    ensures
        core_views(found.core@) == core_gates(zone@.entries, zone@.exits, lanes@, pad),
        lanes_held(found.lanes@) == core_lanes(zone@.entries, zone@.exits, lanes@),
        texts(found.ancestors@) == ancestor_lanes(zone@.entries, zone@.exits, lanes@),
{
    let ghost entries = zone@.entries;
    let ghost exits = zone@.exits;
    let ghost unknown = |i: int| lane_called(lanes@, entries[i].lane) is None;
    proof {
        least_is_the_first(entries.len(), unknown);
    }
    let mut core: Vec<CoreGate<'a>> = Vec::new();
    let mut held: Vec<&'a Lane> = Vec::new();
    let mut ancestors: Vec<String> = Vec::new();
    assert(entries.take(0) =~= Seq::empty());
    assert(core_views(core@) =~= Seq::empty());
    assert(lanes_held(held@) =~= Seq::empty());
    assert(texts(ancestors@) =~= Seq::empty());
    let mut i: usize = 0;
    while i < zone.entries.len()
        invariant
            i <= zone.entries@.len(),
            entries == zone@.entries,
            exits == zone@.exits,
            entries.len() == zone.entries@.len(),
            unknown == (|i: int| lane_called(lanes@, entries[i].lane) is None),
            forall|k: int| 0 <= k < entries.len() ==> !(#[trigger] unknown(k)),
            core_views(core@) == core_gates(entries.take(i as int), exits, lanes@, pad),
            lanes_held(held@) == core_lanes(entries.take(i as int), exits, lanes@),
            texts(ancestors@) == ancestor_lanes(entries.take(i as int), exits, lanes@),
        decreases zone.entries@.len() - i,
    {
        let entry: &DetectorGate = &zone.entries[i];
        assert(!unknown(i as int));
        assert(entries.take(i + 1).drop_last() =~= entries.take(i as int));
        assert(entries.take(i + 1).last() == entry@);
        match lanes.get(entry.lane.as_str()) {
            Some(lane) => {
                match exit_distance(&zone.exits, &entry.lane, lane, lanes) {
                    Some(exit) => {
                        let from: Double = distance_from_start(entry.position, lane.length);
                        let gate: CoreGate<'a> = CoreGate {
                            lane,
                            entry: padded_entry(from, exit, pad),
                            exit,
                        };
                        let ghost listed = core_views(core@);
                        let ghost added = gate@;
                        core.push(gate);
                        assert(core_views(core@) =~= listed.push(added));
                        let ghost before = lanes_held(held@);
                        held.push(lane);
                        assert(lanes_held(held@) =~= before.push(*lane));
                    },
                    None => {
                        if !starts_with_colon(&entry.lane) {
                            add_id(&mut ancestors, &entry.lane);
                        }
                    },
                }
            },
            None => {},
        }
        i = i + 1;
    }
    assert(entries.take(entries.len() as int) =~= entries);
    Gates { core, lanes: held, ancestors }
}

/// Which stretch is one of the lane `id`; of several, the last.
pub open spec fn gate_on(gates: Seq<CoreGateView>, id: Seq<char>) -> Option<nat>
    decreases gates.len(),
{
    if gates.len() == 0 {
        None
    } else if gates.last().lane.id@ == id {
        Some((gates.len() - 1) as nat)
    } else {
        gate_on(gates.drop_last(), id)
    }
}

/// Whether gate `i` is drawn together with the chain that leads into it: only
/// one ancestor does.
pub open spec fn is_absorbed(
    gates: Seq<CoreGateView>,
    ancestors: Seq<Seq<char>>,
    graph: GraphView,
    i: int,
) -> bool {
    gate_on(gates, gates[i].lane.id@) == Some(i as nat) && feeders(
        ancestors,
        graph,
        gates[i].lane.id@,
    ) == 1
}

/// The strokes of those of the first `upto` gates that are drawn on their own.
pub open spec fn core_strokes(
    gates: Seq<CoreGateView>,
    ancestors: Seq<Seq<char>>,
    graph: GraphView,
    upto: nat,
) -> Seq<StrokeView>
    decreases upto,
{
    if upto == 0 {
        Seq::empty()
    } else {
        let before = core_strokes(gates, ancestors, graph, (upto - 1) as nat);
        let gate = gates[upto - 1];
        if is_absorbed(gates, ancestors, graph, upto - 1) {
            before
        } else {
            before.push(
                stroke_along(
                    gate.lane.shape@,
                    gate.entry,
                    gate.exit,
                    gate.lane.width,
                    LineEnd::Butt,
                ),
            )
        }
    }
}

/// The stroke of a chain: on through the controlled lane that it alone leads
/// into, or else up to its own end, with a square end to meet what it leads
/// into. It is drawn at least `pad` metres long. A chain of fewer
/// than two points draws nothing.
pub open spec fn chain_stroke(
    chain: ChainView,
    gates: Seq<CoreGateView>,
    ancestors: Seq<Seq<char>>,
    graph: GraphView,
    pad: Double,
) -> Option<StrokeView> {
    let length = length_of_segments(chain.points, segment_count(chain.points));
    let absorbing = match chain.successor {
        Some(id) => match gate_on(gates, id) {
            Some(i) => if is_absorbed(gates, ancestors, graph, i as int) {
                Some(gates[i as int])
            } else {
                None
            },
            None => None,
        },
        None => None,
    };
    if chain.points.len() < 2 {
        None
    } else {
        match absorbing {
            Some(gate) => {
                let exit = plus(length, gate.exit);
                Some(
                    stroke_along(
                        chain.points + gate.lane.shape@,
                        entry_with_padding(zero(), exit, pad),
                        exit,
                        gate.lane.width,
                        LineEnd::Butt,
                    ),
                )
            },
            None => Some(
                stroke_along(
                    chain.points,
                    entry_with_padding(zero(), length, pad),
                    length,
                    chain.lanes[0].width,
                    LineEnd::Square,
                ),
            ),
        }
    }
}

/// The strokes of the chains that start with one of the first `upto`
/// ancestors: those that no ancestor leads into, or several do.
pub open spec fn chain_strokes(
    gates: Seq<CoreGateView>,
    ancestors: Seq<Seq<char>>,
    graph: GraphView,
    lanes: Seq<Lane>,
    pad: Double,
    upto: nat,
) -> Seq<StrokeView>
    decreases upto,
{
    if upto == 0 {
        Seq::empty()
    } else {
        let before = chain_strokes(gates, ancestors, graph, lanes, pad, (upto - 1) as nat);
        let start = ancestors[upto - 1];
        if feeders(ancestors, graph, start) == 1 {
            before
        } else {
            match chain_stroke(
                chain_from(start, Set::empty(), ancestors, graph, lanes),
                gates,
                ancestors,
                graph,
                pad,
            ) {
                Some(stroke) => before.push(stroke),
                None => before,
            }
        }
    }
}

/// What is drawn for a zone. Where it is one of pedestrians, the union of the
/// outlines is taken, each united with itself first; otherwise the union of
/// the core strokes. The chains are then united with that one by one, and the
/// whole is simplified where the plan says so.
#[derive(Debug, PartialEq, Eq)]
pub struct ZonePlan {
    pub pedestrian: bool,
    /// The outlines of the pavement, where they have the points for one.
    pub outlines: Vec<Option<Vec<Coord>>>,
    pub core: Vec<Stroke>,
    pub chains: Vec<Stroke>,
    /// How far simplifying may move the boundary, where it is simplified.
    pub tolerance: Option<Double>,
}

/// What a [`ZonePlan`] says.
#[verifier::ext_equal]
pub struct ZonePlanView {
    pub pedestrian: bool,
    pub outlines: Seq<Option<Seq<Coord>>>,
    pub core: Seq<StrokeView>,
    pub chains: Seq<StrokeView>,
    pub tolerance: Option<Double>,
}

/// What a list of optional outlines says.
pub open spec fn outline_views(outlines: Seq<Option<Vec<Coord>>>) -> Seq<Option<Seq<Coord>>> {
    Seq::new(outlines.len(), |i: int| optional_coords(outlines[i]))
}

impl View for ZonePlan {
    type V = ZonePlanView;

    open spec fn view(&self) -> ZonePlanView {
        ZonePlanView {
            pedestrian: self.pedestrian,
            outlines: outline_views(self.outlines@),
            core: stroke_views(self.core@),
            chains: stroke_views(self.chains@),
            tolerance: self.tolerance,
        }
    }
}

/// The outline of a walkingarea, where it has the three points that one takes.
pub open spec fn outline_of(lane: Lane) -> Option<Seq<Coord>> {
    if lane.shape@.len() < 3 {
        None
    } else {
        Some(closed_up(ground_plan(lane.shape@)))
    }
}

/// What is drawn for a zone, at least `pad` metres long.
pub open spec fn plan_of(
    zone: DetectorView,
    lanes: Seq<Lane>,
    graph: GraphView,
    pad: Double,
) -> ZonePlanView {
    let pedestrian = zone.detect_persons.len() > 0;
    let ancestors = ancestor_lanes(zone.entries, zone.exits, lanes);
    let gates = if pedestrian {
        Seq::empty()
    } else {
        core_gates(zone.entries, zone.exits, lanes, pad)
    };
    ZonePlanView {
        pedestrian,
        outlines: if pedestrian {
            core_lanes(zone.entries, zone.exits, lanes).map_values(|lane: Lane| outline_of(lane))
        } else {
            Seq::empty()
        },
        core: core_strokes(gates, ancestors, graph, gates.len()),
        chains: chain_strokes(gates, ancestors, graph, lanes, pad, ancestors.len()),
        tolerance: if pedestrian {
            None
        } else {
            Some(Double { bits: SIMPLIFY_TOLERANCE_METERS })
        },
    }
}

fn find_gate<'a>(gates: &Vec<CoreGate<'a>>, id: &String) -> (found: Option<usize>)
    ensures
        match found {
            Some(i) => i < gates@.len() && gate_on(core_views(gates@), id@) == Some(i as nat),
            None => gate_on(core_views(gates@), id@) is None,
        },
{
    let ghost views = core_views(gates@);
    let mut k: usize = gates.len();
    assert(views.take(k as int) =~= views);
    while k > 0
        invariant
            k <= gates@.len(),
            views == core_views(gates@),
            gate_on(views, id@) == gate_on(views.take(k as int), id@),
        decreases k,
    {
        let gate: &CoreGate<'a> = &gates[k - 1];
        assert(views.take(k as int).last() == gate@);
        if gate.lane.id == *id {
            return Some(k - 1);
        }
        assert(views.take(k as int).drop_last() =~= views.take(k - 1));
        k = k - 1;
    }
    None
}

fn absorbs<'a>(
    gates: &Vec<CoreGate<'a>>,
    ancestors: &Vec<String>,
    successors: &Successors,
    i: usize,
) -> (absorbed: bool)
    requires
        i < gates@.len(),
    ensures
        absorbed == is_absorbed(core_views(gates@), texts(ancestors@), successors@, i as int),
{
    let lane: &Lane = gates[i].lane;
    assert(core_views(gates@)[i as int].lane == *lane);
    let last: bool = match find_gate(gates, &lane.id) {
        Some(found) => found == i,
        None => false,
    };
    last && count_feeders(ancestors, successors, &lane.id) == 1
}

/// The strokes of the gates that are drawn on their own.
fn merged_core<'a>(
    gates: &Vec<CoreGate<'a>>,
    ancestors: &Vec<String>,
    successors: &Successors,
) -> (strokes: Vec<Stroke>)
    ensures
        stroke_views(strokes@) == core_strokes(
            core_views(gates@),
            texts(ancestors@),
            successors@,
            gates@.len(),
        ),
{
    let ghost views = core_views(gates@);
    let mut strokes: Vec<Stroke> = Vec::new();
    assert(stroke_views(strokes@) =~= Seq::empty());
    let mut i: usize = 0;
    while i < gates.len()
        invariant
            i <= gates@.len(),
            views == core_views(gates@),
            stroke_views(strokes@) == core_strokes(
                views,
                texts(ancestors@),
                successors@,
                i as nat,
            ),
        decreases gates@.len() - i,
    {
        if !absorbs(gates, ancestors, successors, i) {
            let gate: &CoreGate<'a> = &gates[i];
            assert(views[i as int] == gate@);
            let stroke: Stroke = buffer_shape(
                &gate.lane.shape,
                gate.entry,
                gate.exit,
                gate.lane.width,
                LineEnd::Butt,
            );
            let ghost listed = stroke_views(strokes@);
            let ghost added = stroke@;
            strokes.push(stroke);
            assert(stroke_views(strokes@) =~= listed.push(added));
        }
        i = i + 1;
    }
    strokes
}

/// A chain that has points has a lane.
proof fn lemma_chain_has_lane(
    start: Seq<char>,
    ancestors: Seq<Seq<char>>,
    graph: GraphView,
    lanes: Seq<Lane>,
)
    ensures
        ({
            let chain = chain_from(start, Set::empty(), ancestors, graph, lanes);
            chain.points.len() > 0 ==> chain.lanes.len() > 0
        }),
{
}

fn stroke_of_chain<'a>(
    chain: &Chain<'a>,
    gates: &Vec<CoreGate<'a>>,
    ancestors: &Vec<String>,
    successors: &Successors,
    pad: Double,
) -> (stroke: Stroke)
    requires
        chain@.points.len() >= 2,
        chain@.lanes.len() > 0,
    ensures
        chain_stroke(chain@, core_views(gates@), texts(ancestors@), successors@, pad) == Some(
            stroke@,
        ),
{
    let nought: Double = Double { bits: 0 };
    let length: Double = shape_length(&chain.points);
    match &chain.successor {
        Some(id) => match find_gate(gates, id) {
            Some(i) => {
                if absorbs(gates, ancestors, successors, i) {
                    let gate: &CoreGate<'a> = &gates[i];
                    assert(core_views(gates@)[i as int] == gate@);
                    let mut points: Vec<Point> = Vec::new();
                    add_points(&mut points, &chain.points);
                    add_points(&mut points, &gate.lane.shape);
                    assert(points@ =~= chain.points@ + gate.lane.shape@);
                    let exit: Double = length.added_to(gate.exit);
                    return buffer_shape(
                        &points,
                        padded_entry(nought, exit, pad),
                        exit,
                        gate.lane.width,
                        LineEnd::Butt,
                    );
                }
            },
            None => {},
        },
        None => {},
    }
    assert(chain@.lanes[0] == *chain.lanes@[0]);
    buffer_shape(
        &chain.points,
        padded_entry(nought, length, pad),
        length,
        chain.lanes[0].width,
        LineEnd::Square,
    )
}

/// The strokes of the chains.
fn merged_chains<'a>(
    gates: &Vec<CoreGate<'a>>,
    ancestors: &Vec<String>,
    successors: &Successors,
    lanes: &LaneTable<'a>,
    pad: Double,
) -> (strokes: Vec<Stroke>)
    ensures
        stroke_views(strokes@) == chain_strokes(
            core_views(gates@),
            texts(ancestors@),
            successors@,
            lanes@,
            pad,
            ancestors@.len(),
        ),
{
    let ghost views = core_views(gates@);
    let ghost ids = texts(ancestors@);
    let mut strokes: Vec<Stroke> = Vec::new();
    assert(stroke_views(strokes@) =~= Seq::empty());
    let mut i: usize = 0;
    while i < ancestors.len()
        invariant
            i <= ancestors@.len(),
            views == core_views(gates@),
            ids == texts(ancestors@),
            stroke_views(strokes@) == chain_strokes(
                views,
                ids,
                successors@,
                lanes@,
                pad,
                i as nat,
            ),
        decreases ancestors@.len() - i,
    {
        let start: &String = &ancestors[i];
        assert(ids[i as int] == start@);
        if count_feeders(ancestors, successors, start) != 1 {
            proof {
                lemma_chain_has_lane(start@, ids, successors@, lanes@);
            }
            match chain_shape(start.as_str(), ancestors, successors, lanes) {
                Some(chain) => {
                    let stroke: Stroke = stroke_of_chain(
                        &chain,
                        gates,
                        ancestors,
                        successors,
                        pad,
                    );
                    let ghost listed = stroke_views(strokes@);
                    let ghost added = stroke@;
                    strokes.push(stroke);
                    assert(stroke_views(strokes@) =~= listed.push(added));
                },
                None => {},
            }
        }
        i = i + 1;
    }
    strokes
}

/// A zone with a gate on a lane that the network does not have.
#[derive(Debug, PartialEq, Eq)]
pub struct UnknownLane {
    pub zone: String,
    pub lane: String,
}

/// What tells that a zone has a gate on a lane that the network does not have,
/// where the ids of the two are shown like this.
pub open spec fn unknown_lane_text(zone: Seq<char>, lane: Seq<char>) -> Seq<char> {
    "zone DetectorId("@ + zone + ") references lane LaneRef("@ + lane
        + "), which isn't in the network"@
}

/// What tells that a zone has a gate on a lane that the network does not have,
/// where the ids of the two are shown like this.
pub fn unknown_lane_message(zone: &str, lane: &str) -> (text: String)
    ensures
        text@ == unknown_lane_text(zone@, lane@),
{
    let mut text: String = "zone DetectorId(".to_owned();
    text.append(zone);
    text.append(") references lane LaneRef(");
    text.append(lane);
    text.append("), which isn't in the network");
    text
}

impl UnknownLane {
    /// What the error tells its reader.
    pub fn message(&self) -> (text: String)
        ensures
            text@ == unknown_lane_text(quoted(self.zone@), quoted(self.lane@)),
    {
        let zone: String = quote(self.zone.as_str());
        let lane: String = quote(self.lane.as_str());
        unknown_lane_message(zone.as_str(), lane.as_str())
    }
}

/// What is drawn for a zone, at least `pad` metres long. It fails where a gate
/// of the zone is on a lane that the network does not have.
pub fn plan_zone(
    zone: &E3Detector,
    lanes: &LaneTable,
    successors: &Successors,
    pad: Double,
) -> (plan: Result<ZonePlan, UnknownLane>)
    ensures
        match plan {
            Ok(p) => unknown_lane(zone@, lanes@) is None && p@ == plan_of(
                zone@,
                lanes@,
                successors@,
                pad,
            ),
            Err(e) => e.zone@ == zone.id@ && unknown_lane(zone@, lanes@) == Some(e.lane@),
        },
{
    match find_unknown(&zone.exits, lanes) {
        Some(i) => {
            return Err(UnknownLane { zone: zone.id.clone(), lane: zone.exits[i].lane.clone() });
        },
        None => {},
    }
    match find_unknown(&zone.entries, lanes) {
        Some(i) => {
            return Err(UnknownLane { zone: zone.id.clone(), lane: zone.entries[i].lane.clone() });
        },
        None => {},
    }
    let pedestrian: bool = zone.detect_persons.len() > 0;
    let found: Gates = gates_of(zone, lanes, pad);
    let mut outlines: Vec<Option<Vec<Coord>>> = Vec::new();
    if pedestrian {
        let core: Vec<CoreGate> = Vec::new();
        assert(core_views(core@) =~= Seq::empty());
        let ghost areas = core_lanes(zone@.entries, zone@.exits, lanes@);
        let ghost shapes = areas.map_values(|lane: Lane| outline_of(lane));
        let mut i: usize = 0;
        while i < found.lanes.len()
            invariant
                i <= found.lanes@.len(),
                outlines@.len() == i,
                forall|k: int|
                    0 <= k < i ==> optional_coords(#[trigger] outlines@[k]) == outline_of(
                        *found.lanes@[k],
                    ),
            decreases found.lanes@.len() - i,
        {
            outlines.push(pedestrian_outline(&found.lanes[i].shape));
            i = i + 1;
        }
        assert(outline_views(outlines@) =~= shapes);
        let chains: Vec<Stroke> = merged_chains(
            &core,
            &found.ancestors,
            successors,
            lanes,
            pad,
        );
        let strokes: Vec<Stroke> = Vec::new();
        assert(stroke_views(strokes@) =~= Seq::empty());
        Ok(ZonePlan { pedestrian, outlines, core: strokes, chains, tolerance: None })
    } else {
        assert(outline_views(outlines@) =~= Seq::empty());
        let core: Vec<Stroke> = merged_core(&found.core, &found.ancestors, successors);
        let chains: Vec<Stroke> = merged_chains(
            &found.core,
            &found.ancestors,
            successors,
            lanes,
            pad,
        );
        let tolerance: Double = Double { bits: SIMPLIFY_TOLERANCE_METERS };
        Ok(ZonePlan { pedestrian, outlines, core, chains, tolerance: Some(tolerance) })
    }
}

/// What is left of the parts that were drawn, which have these areas without
/// their holes: the holes are filled, slivers are dropped, and what is left is
/// moved to the grid.
pub open spec fn finished_drawing(parts: Seq<PolygonView>, areas: Seq<Double>) -> Seq<PolygonView> {
    parts_worth_keeping(
        parts.map_values(|part: PolygonView| solid(part.exterior)),
        areas,
        parts.len(),
    ).map_values(|part: PolygonView| part_on_grid(part))
}

/// Finishes the drawing of a zone: fills the holes of the parts, drops the
/// slivers among them, and moves the rest to the grid. The areas are those of
/// the parts without their holes.
pub fn finish_drawing(parts: Vec<Polygon>, areas: &Vec<Double>) -> (finished: Vec<Polygon>)
    requires
        areas@.len() == parts@.len(),
    ensures
        polygon_views(finished@) == finished_drawing(polygon_views(parts@), areas@),
{
    let ghost count = parts@.len();
    let whole: Vec<Polygon> = drop_interior_rings(parts);
    assert(polygon_views(whole@).len() == count);
    let kept: Vec<Polygon> = drop_slivers(whole, areas);
    snap_coords(&kept)
}

} // verus!
