//! The entries and exits of a zone, and the detector they make up.

use crate::approach::{extended_entry_lanes, extension, lemma_extension_depth, walk};
use crate::connectivity::{lane_named, ConnectivityGraph, GraphView};
use crate::detector::{
    gates, DetectorGate, DetectorView, E3Detector, GateView, LanePosition, PersonMode,
};
use crate::double::{is_less, minus, zero, Double};
use crate::id_set::IdSet;
use crate::network::Point;
use crate::order::texts;
use vstd::prelude::*;

verus! {

/// How far back a zone reaches where nothing else says so: 120 metres, by bit
/// pattern. That is a long queue of sixteen vehicles.
pub const DEFAULT_EXTENSION_METERS: u64 = 0x405e_0000_0000_0000;

/// How far back the entries of a zone reach.
#[derive(Clone, Copy, Debug, PartialEq, Eq, Structural)]
pub struct EntryReach {
    /// The longest that a zone may be, where there is a limit.
    pub max_zone_length: Option<Double>,
    /// Whether the zone goes on into the lanes that lead into its own. A queue
    /// of vehicles does; people on a sidewalk are not committed to a crossing
    /// they may yet turn away from.
    pub extend_backward: bool,
    /// Whether it stops where one signal program spans several junctions.
    pub stop_at_complex_intersections: bool,
}

/// A gate at `position` metres from the start of `lane`. Positions are always
/// friendly: a lane's length may differ from that of its shape by the last few
/// digits, and a gate at its very end must not be refused for that.
pub open spec fn gate_at(lane: Seq<char>, position: Double) -> GateView {
    GateView {
        lane,
        position: LanePosition::FromStart(position),
        friendly_position: Some(true),
    }
}

/// Where a zone on a lane of this length begins: as far before the lane's end
/// as the limit allows, and no earlier than the lane's start.
pub open spec fn entry_position(length: Double, max_zone_length: Option<Double>) -> Double {
    match max_zone_length {
        Some(max) => if is_less(max, length) {
            minus(length, max)
        } else {
            zero()
        },
        None => zero(),
    }
}

/// How far beyond its own lane a zone may reach.
pub open spec fn extension_budget(max_zone_length: Option<Double>) -> Double {
    match max_zone_length {
        Some(max) => max,
        None => Double { bits: DEFAULT_EXTENSION_METERS },
    }
}

/// The entries of a zone on one lane: a single one where the limit cuts the
/// lane short, and otherwise one at the lane's start and one at the start of
/// every lane that the zone goes on into.
pub open spec fn entries_of_lane(
    g: GraphView,
    lane: Seq<char>,
    length: Double,
    reach: EntryReach,
) -> Seq<GateView> {
    let position = entry_position(length, reach.max_zone_length);
    if is_less(zero(), position) {
        seq![gate_at(lane, position)]
    } else if reach.extend_backward {
        seq![gate_at(lane, zero())] + extension(
            g,
            lane,
            extension_budget(reach.max_zone_length),
            reach.stop_at_complex_intersections,
        ).map_values(|l: Seq<char>| gate_at(l, zero()))
    } else {
        seq![gate_at(lane, zero())]
    }
}

/// The entries of a zone on `lanes`, those that the network knows.
pub open spec fn entries_of(g: GraphView, lanes: Seq<Seq<char>>, reach: EntryReach) -> Seq<GateView>
    decreases lanes.len(),
{
    if lanes.len() == 0 {
        Seq::empty()
    } else {
        match lane_named(g.lanes, lanes.last()) {
            Some(l) => entries_of(g, lanes.drop_last(), reach) + entries_of_lane(
                g,
                lanes.last(),
                l.length,
                reach,
            ),
            None => entries_of(g, lanes.drop_last(), reach),
        }
    }
}

/// The exits of a zone on `lanes`: the end of each that the network knows.
pub open spec fn exits_of(g: GraphView, lanes: Seq<Seq<char>>) -> Seq<GateView>
    decreases lanes.len(),
{
    if lanes.len() == 0 {
        Seq::empty()
    } else {
        match lane_named(g.lanes, lanes.last()) {
            Some(l) => exits_of(g, lanes.drop_last()).push(gate_at(lanes.last(), l.length)),
            None => exits_of(g, lanes.drop_last()),
        }
    }
}

/// The detector of a zone, unless the network knows none of its lanes.
pub open spec fn zone_of_group(
    id: Seq<char>,
    lanes: Seq<Seq<char>>,
    g: GraphView,
    icon: Point,
    reach: EntryReach,
    detect_persons: Seq<PersonMode>,
) -> Option<DetectorView> {
    if entries_of(g, lanes, reach).len() == 0 {
        None
    } else {
        Some(
            DetectorView {
                id,
                entries: entries_of(g, lanes, reach),
                exits: exits_of(g, lanes),
                file: Seq::empty(),
                period: None,
                name: None,
                icon_position: Some(icon),
                speed_threshold: None,
                time_threshold: None,
                open_entry: None,
                detect_persons,
            },
        )
    }
}

fn gate(lane: &str, position: Double) -> (gate: DetectorGate)
    ensures
        gate@ == gate_at(lane@, position),
{
    DetectorGate {
        lane: lane.to_owned(),
        position: LanePosition::FromStart(position),
        friendly_position: Some(true),
    }
}

/// The entries and the exits of a zone on `lanes`.
pub fn full_lane_boundaries(
    lanes: &Vec<String>,
    graph: &ConnectivityGraph,
    reach: EntryReach,
) -> (boundaries: (Vec<DetectorGate>, Vec<DetectorGate>))
    ensures
        gates(boundaries.0@) == entries_of(graph@, texts(lanes@), reach),
        gates(boundaries.1@) == exits_of(graph@, texts(lanes@)),
{
    let start: Double = Double { bits: 0 };
    let ghost ids = texts(lanes@);
    let mut entries: Vec<DetectorGate> = Vec::new();
    let mut exits: Vec<DetectorGate> = Vec::new();
    assert(ids.take(0) =~= Seq::empty());
    assert(gates(entries@) =~= Seq::empty());
    assert(gates(exits@) =~= Seq::empty());
    let mut i: usize = 0;
    while i < lanes.len()
        invariant
            i <= lanes.len(),
            ids == texts(lanes@),
            start == zero(),
            gates(entries@) == entries_of(graph@, ids.take(i as int), reach),
            gates(exits@) == exits_of(graph@, ids.take(i as int)),
        decreases lanes.len() - i,
    {
        let lane: &str = lanes[i].as_str();
        assert(ids[i as int] == lane@);
        assert(ids.take(i + 1).drop_last() =~= ids.take(i as int));
        assert(ids.take(i + 1).last() == lane@);
        let ghost entries_before = gates(entries@);
        let ghost exits_before = gates(exits@);
        match graph.lane(lane) {
            Some(info) => {
                exits.push(gate(lane, info.length));
                assert(gates(exits@) =~= exits_before.push(gate_at(lane@, info.length)));
                let position: Double = match reach.max_zone_length {
                    Some(max) => if max.less_than(info.length) {
                        info.length.subtract(max)
                    } else {
                        start
                    },
                    None => start,
                };
                assert(position == entry_position(info.length, reach.max_zone_length));
                let ghost here = entries_of_lane(graph@, lane@, info.length, reach);
                if start.less_than(position) {
                    entries.push(gate(lane, position));
                    assert(gates(entries@) =~= entries_before + here);
                } else {
                    entries.push(gate(lane, start));
                    assert(gates(entries@) =~= entries_before + seq![gate_at(lane@, zero())]);
                    if reach.extend_backward {
                        add_extension(lane, graph, reach, &mut entries);
                    }
                    assert(gates(entries@) =~= entries_before + here);
                }
            },
            None => {},
        }
        i = i + 1;
    }
    assert(ids.take(ids.len() as int) =~= ids);
    (entries, exits)
}

/// Adds an entry at the start of every lane that the zone of `lane` goes on
/// into.
fn add_extension(
    lane: &str,
    graph: &ConnectivityGraph,
    reach: EntryReach,
    entries: &mut Vec<DetectorGate>,
)
    ensures
        gates(final(entries)@) == gates(old(entries)@) + extension(
            graph@,
            lane@,
            extension_budget(reach.max_zone_length),
            reach.stop_at_complex_intersections,
        ).map_values(|l: Seq<char>| gate_at(l, zero())),
{
    let budget: Double = match reach.max_zone_length {
        Some(max) => max,
        None => Double { bits: DEFAULT_EXTENSION_METERS },
    };
    let mut visited: IdSet = IdSet::new();
    let stop: bool = reach.stop_at_complex_intersections;
    let extended: Vec<String> = extended_entry_lanes(lane, graph, &mut visited, budget, stop);
    let ghost ids = extension(graph@, lane@, budget, stop);
    let ghost f = |l: Seq<char>| gate_at(l, zero());
    proof {
        lemma_extension_depth(graph@, lane@);
        assert(walk(graph@, lane@, Set::empty(), budget, stop, graph@.lanes.len() + 2).0 == texts(
            extended@,
        ));
    }
    let mut i: usize = 0;
    assert(ids.take(0).map_values(f) =~= Seq::empty());
    assert(gates(entries@) =~= gates(old(entries)@) + ids.take(0).map_values(f));
    while i < extended.len()
        invariant
            i <= extended.len(),
            ids == texts(extended@),
            f == (|l: Seq<char>| gate_at(l, zero())),
            gates(entries@) == gates(old(entries)@) + ids.take(i as int).map_values(f),
        decreases extended.len() - i,
    {
        let ghost before = gates(entries@);
        entries.push(gate(extended[i].as_str(), Double { bits: 0 }));
        assert(gates(entries@) =~= before.push(gate_at(ids[i as int], zero())));
        assert(ids.take(i + 1).map_values(f) =~= ids.take(i as int).map_values(f).push(
            f(ids[i as int]),
        ));
        i = i + 1;
    }
    assert(ids.take(ids.len() as int) =~= ids);
}

/// The detector of a zone on `lanes`, unless the network knows none of them.
pub fn zone_from_group(
    id: String,
    lanes: &Vec<String>,
    graph: &ConnectivityGraph,
    icon: Point,
    reach: EntryReach,
    detect_persons: Vec<PersonMode>,
) -> (zone: Option<E3Detector>)
    ensures
        match zone {
            Some(z) => zone_of_group(
                id@,
                texts(lanes@),
                graph@,
                icon,
                reach,
                detect_persons@,
            ) == Some(z@),
            None => zone_of_group(
                id@,
                texts(lanes@),
                graph@,
                icon,
                reach,
                detect_persons@,
            ) is None,
        },
{
    let (entries, exits) = full_lane_boundaries(lanes, graph, reach);
    assert(gates(entries@).len() == entries@.len());
    if entries.len() == 0 {
        return None;
    }
    Some(
        E3Detector {
            id,
            entries,
            exits,
            file: String::new(),
            period: None,
            name: None,
            icon_position: Some(icon),
            speed_threshold: None,
            time_threshold: None,
            open_entry: None,
            detect_persons,
        },
    )
}

} // verus!
