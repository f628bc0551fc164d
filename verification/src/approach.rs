//! How far back a zone reaches: the lanes that lead into its own without a
//! fork and without a signal.

use crate::connectivity::{lane_named, ConnectivityGraph, GraphView, PlacedLane};
use crate::double::{is_at_most, is_less, minus, zero, Double};
use crate::id_set::IdSet;
use crate::order::texts;
use vstd::prelude::*;

verus! {

/// Whether a walk backward with `budget` metres left goes through `lane`: it
/// is a lane of the network, no signal holds its own traffic back, all of that
/// traffic is headed one way, and the budget outlasts it.
pub open spec fn is_passable(g: GraphView, lane: Seq<char>, budget: Double) -> bool {
    match lane_named(g.lanes, lane) {
        Some(l) => !g.is_signal_controlled(lane) && g.successors(lane).len() == 1 && is_less(
            l.length,
            budget,
        ),
        None => false,
    }
}

/// The lanes that a step back from `to` to `from` covers: the internal lane
/// between the two, where there is one, and `from`.
pub open spec fn hop(g: GraphView, from: Seq<char>, to: Seq<char>) -> Seq<Seq<char>> {
    match g.via_between(from, to) {
        Some(via) => seq![via, from],
        None => seq![from],
    }
}

/// The length of the lane that bears `id`.
pub open spec fn length_of(g: GraphView, id: Seq<char>) -> Double {
    match lane_named(g.lanes, id) {
        Some(l) => l.length,
        None => zero(),
    }
}

/// A walk backward from `lane` of at most `depth` steps: the lanes it covers,
/// and those it has visited by its end. It goes nowhere without budget, from a
/// lane visited before, or, where complex junctions end it, from a lane that
/// starts at one.
pub open spec fn walk(
    g: GraphView,
    lane: Seq<char>,
    visited: Set<Seq<char>>,
    budget: Double,
    stop_at_complex_intersections: bool,
    depth: nat,
) -> (Seq<Seq<char>>, Set<Seq<char>>)
    decreases depth, 0nat,
{
    if depth == 0 || is_at_most(budget, zero()) || visited.contains(lane) {
        (Seq::empty(), visited)
    } else if stop_at_complex_intersections && g.starts_at_complex_junction(lane) {
        (Seq::empty(), visited.insert(lane))
    } else {
        walk_each(
            g,
            lane,
            g.predecessors(lane),
            visited.insert(lane),
            budget,
            stop_at_complex_intersections,
            (depth - 1) as nat,
        )
    }
}

/// Walks backward from `lane` through each of `lanes` in turn, but for those
/// visited before.
pub open spec fn walk_each(
    g: GraphView,
    lane: Seq<char>,
    lanes: Seq<Seq<char>>,
    visited: Set<Seq<char>>,
    budget: Double,
    stop_at_complex_intersections: bool,
    depth: nat,
) -> (Seq<Seq<char>>, Set<Seq<char>>)
    decreases depth, lanes.len() + 1,
{
    if lanes.len() == 0 {
        (Seq::empty(), visited)
    } else {
        let (covered, seen) = walk_each(
            g,
            lane,
            lanes.drop_last(),
            visited,
            budget,
            stop_at_complex_intersections,
            depth,
        );
        let from = lanes.last();
        if is_passable(g, from, budget) && !seen.contains(from) {
            let (further, seen_after) = walk(
                g,
                from,
                seen,
                minus(budget, length_of(g, from)),
                stop_at_complex_intersections,
                depth,
            );
            (covered + hop(g, from, lane) + further, seen_after)
        } else {
            (covered, seen)
        }
    }
}

/// The ids of the network's lanes.
pub open spec fn lane_ids(g: GraphView) -> Set<Seq<char>> {
    g.lanes.map_values(|l: PlacedLane| l.id).to_set()
}

/// How many lanes a walk from `lane` could still visit. A walk that may take
/// more steps than that is never cut short.
pub open spec fn unvisited(g: GraphView, lane: Seq<char>, visited: Set<Seq<char>>) -> nat {
    lane_ids(g).insert(lane).difference(visited).len()
}

/// The lanes that the zone of `lane` covers beyond it.
pub open spec fn extension(
    g: GraphView,
    lane: Seq<char>,
    budget: Double,
    stop_at_complex_intersections: bool,
) -> Seq<Seq<char>> {
    walk(g, lane, Set::empty(), budget, stop_at_complex_intersections, g.lanes.len() + 2).0
}

/// A named lane is one of the network's lanes.
proof fn lemma_named_lane(lanes: Seq<PlacedLane>, id: Seq<char>)
    requires
        lane_named(lanes, id) is Some,
    ensures
        lanes.map_values(|l: PlacedLane| l.id).to_set().contains(id),
    decreases lanes.len(),
{
    let ids = lanes.map_values(|l: PlacedLane| l.id);
    if lanes.last().id == id {
        assert(ids[lanes.len() - 1] == id);
    } else {
        lemma_named_lane(lanes.drop_last(), id);
        let shorter = lanes.drop_last().map_values(|l: PlacedLane| l.id);
        let k = choose|k: int| 0 <= k < shorter.len() && shorter[k] == id;
        assert(ids[k] == id);
    }
}

/// Stepping back to a known lane leaves fewer lanes to visit.
proof fn lemma_step_shrinks(
    g: GraphView,
    lane: Seq<char>,
    visited: Set<Seq<char>>,
    from: Seq<char>,
    seen: Set<Seq<char>>,
)
    requires
        !visited.contains(lane),
        lane_named(g.lanes, from) is Some,
        visited.insert(lane).subset_of(seen),
    ensures
        unvisited(g, from, seen) < unvisited(g, lane, visited),
{
    let ids = lane_ids(g);
    lemma_named_lane(g.lanes, from);
    let small = ids.insert(from).difference(seen);
    let large = ids.insert(lane).difference(visited);
    assert(ids.insert(from) =~= ids);
    assert(ids.finite());
    assert(large.finite());
    assert(large.contains(lane));
    assert(small.subset_of(large.remove(lane)));
    vstd::set_lib::lemma_len_subset(small, large.remove(lane));
}

/// The depth of an extension is enough for any walk.
pub proof fn lemma_extension_depth(g: GraphView, lane: Seq<char>)
    ensures
        unvisited(g, lane, Set::empty()) < g.lanes.len() + 2,
{
    let ids = g.lanes.map_values(|l: PlacedLane| l.id);
    ids.lemma_cardinality_of_set();
    assert(ids.to_set().insert(lane).difference(Set::empty()) =~= ids.to_set().insert(lane));
}

/// Every lane to be covered by a zone that starts at `lane`, walking backward
/// from there with `remaining_budget` metres to go. `lane` itself is not among
/// them. Lanes visited before add nothing further, so a roundabout does not go
/// on for ever. Where `stop_at_complex_intersections` is set, the
/// walk ends where one signal program spans several junctions.
pub fn extended_entry_lanes(
    lane: &str,
    graph: &ConnectivityGraph,
    visited: &mut IdSet,
    remaining_budget: Double,
    stop_at_complex_intersections: bool,
) -> (extended: Vec<String>)
    ensures
        forall|depth: nat|
            depth > unvisited(graph@, lane@, old(visited)@) ==> #[trigger] walk(
                graph@,
                lane@,
                old(visited)@,
                remaining_budget,
                stop_at_complex_intersections,
                depth,
            ) == (texts(extended@), final(visited)@),
        old(visited)@.subset_of(final(visited)@),
    decreases unvisited(graph@, lane@, old(visited)@),
{
    let ghost start = visited@;
    let ghost bound = unvisited(graph@, lane@, start);
    let mut extended: Vec<String> = Vec::new();
    assert(texts(extended@) =~= Seq::empty());
    if remaining_budget.at_most(Double { bits: 0 }) || !visited.insert(lane) {
        assert(start.insert(lane@) =~= start || !start.contains(lane@));
        return extended;
    }
    if stop_at_complex_intersections && graph.starts_at_complex_junction(lane) {
        return extended;
    }
    let predecessors: Vec<String> = graph.predecessors(lane);
    let ghost lanes = graph@.predecessors(lane@);
    let ghost entered = start.insert(lane@);
    assert(lanes.take(0) =~= Seq::empty());
    let mut i: usize = 0;
    while i < predecessors.len()
        invariant
            i <= predecessors.len(),
            start == old(visited)@,
            lanes == texts(predecessors@),
            !start.contains(lane@),
            entered == start.insert(lane@),
            entered.subset_of(visited@),
            bound == unvisited(graph@, lane@, start),
            forall|depth: nat|
                depth >= bound ==> #[trigger] walk_each(
                    graph@,
                    lane@,
                    lanes.take(i as int),
                    entered,
                    remaining_budget,
                    stop_at_complex_intersections,
                    depth,
                ) == (texts(extended@), visited@),
        decreases predecessors.len() - i,
    {
        let from: &str = predecessors[i].as_str();
        let ghost covered = texts(extended@);
        let ghost seen = visited@;
        let ghost mut ahead = Seq::<Seq<char>>::empty();
        assert(lanes[i as int] == from@);
        assert(lanes.take(i + 1).drop_last() =~= lanes.take(i as int));
        let passable: bool = match graph.lane(from) {
            Some(info) => !graph.is_signal_controlled(from) && graph.successor_lane_count(from)
                == 1 && info.length.less_than(remaining_budget),
            None => false,
        };
        assert(passable == is_passable(graph@, from@, remaining_budget));
        let goes_on: bool = passable && !visited.contains(from);
        assert(lanes.take(i + 1).last() == from@);
        if goes_on {
            match graph.via_between(from, lane) {
                Some(via) => {
                    extended.push(via);
                },
                None => {},
            }
            extended.push(from.to_owned());
            assert(texts(extended@) =~= covered + hop(graph@, from@, lane@));
            let length: Double = match graph.lane(from) {
                Some(info) => info.length,
                None => Double { bits: 0 },
            };
            proof {
                lemma_step_shrinks(graph@, lane@, start, from@, seen);
            }
            let mut further: Vec<String> = extended_entry_lanes(
                from,
                graph,
                visited,
                remaining_budget.subtract(length),
                stop_at_complex_intersections,
            );
            proof {
                ahead = texts(further@);
            }
            let ghost here = texts(extended@);
            extended.append(&mut further);
            assert(texts(extended@) =~= here + ahead);
        }
        assert forall|depth: nat| depth >= bound implies #[trigger] walk_each(
            graph@,
            lane@,
            lanes.take(i + 1),
            entered,
            remaining_budget,
            stop_at_complex_intersections,
            depth,
        ) == (texts(extended@), visited@) by {
            assert(walk_each(
                graph@,
                lane@,
                lanes.take(i as int),
                entered,
                remaining_budget,
                stop_at_complex_intersections,
                depth,
            ) == (covered, seen));
            if goes_on {
                let left = minus(remaining_budget, length_of(graph@, from@));
                assert(walk(graph@, from@, seen, left, stop_at_complex_intersections, depth) == (
                    ahead,
                    visited@,
                ));
            }
        }
        i = i + 1;
    }
    assert(lanes.take(lanes.len() as int) =~= lanes);
    assert forall|depth: nat| depth > bound implies #[trigger] walk(
        graph@,
        lane@,
        start,
        remaining_budget,
        stop_at_complex_intersections,
        depth,
    ) == (texts(extended@), visited@) by {
        assert(walk_each(
            graph@,
            lane@,
            lanes,
            entered,
            remaining_budget,
            stop_at_complex_intersections,
            (depth - 1) as nat,
        ) == (texts(extended@), visited@));
    }
    extended
}

/// A walk only ever adds to the lanes visited.
proof fn lemma_walk_grows(
    g: GraphView,
    lane: Seq<char>,
    visited: Set<Seq<char>>,
    budget: Double,
    stop: bool,
    depth: nat,
)
    ensures
        visited.subset_of(walk(g, lane, visited, budget, stop, depth).1),
    decreases depth, 0nat,
{
    if depth > 0 {
        lemma_walk_each_grows(
            g,
            lane,
            g.predecessors(lane),
            visited.insert(lane),
            budget,
            stop,
            (depth - 1) as nat,
        );
    }
}

/// Walking through several lanes only ever adds to the lanes visited.
pub proof fn lemma_walk_each_grows(
    g: GraphView,
    lane: Seq<char>,
    lanes: Seq<Seq<char>>,
    visited: Set<Seq<char>>,
    budget: Double,
    stop: bool,
    depth: nat,
)
    ensures
        visited.subset_of(walk_each(g, lane, lanes, visited, budget, stop, depth).1),
    decreases depth, lanes.len() + 1,
{
    if lanes.len() > 0 {
        lemma_walk_each_grows(g, lane, lanes.drop_last(), visited, budget, stop, depth);
        let seen = walk_each(g, lane, lanes.drop_last(), visited, budget, stop, depth).1;
        let from = lanes.last();
        lemma_walk_grows(g, from, seen, minus(budget, length_of(g, from)), stop, depth);
    }
}

/// A walk that may take more steps than there are lanes left to visit is the
/// same however many it may take: it ends by itself, round any roundabout.
pub proof fn a_walk_ends_by_itself(
    g: GraphView,
    lane: Seq<char>,
    visited: Set<Seq<char>>,
    budget: Double,
    stop_at_complex_intersections: bool,
    depth: nat,
    other: nat,
)
    requires
        depth > unvisited(g, lane, visited),
        other > unvisited(g, lane, visited),
    ensures
        walk(g, lane, visited, budget, stop_at_complex_intersections, depth) == walk(
            g,
            lane,
            visited,
            budget,
            stop_at_complex_intersections,
            other,
        ),
    decreases depth, 0nat,
{
    if !visited.contains(lane) {
        lemma_walk_each_ends(
            g,
            lane,
            visited,
            g.predecessors(lane),
            budget,
            stop_at_complex_intersections,
            (depth - 1) as nat,
            (other - 1) as nat,
        );
    }
}

proof fn lemma_walk_each_ends(
    g: GraphView,
    lane: Seq<char>,
    visited: Set<Seq<char>>,
    lanes: Seq<Seq<char>>,
    budget: Double,
    stop: bool,
    depth: nat,
    other: nat,
)
    requires
        !visited.contains(lane),
        depth >= unvisited(g, lane, visited),
        other >= unvisited(g, lane, visited),
    ensures
        walk_each(g, lane, lanes, visited.insert(lane), budget, stop, depth) == walk_each(
            g,
            lane,
            lanes,
            visited.insert(lane),
            budget,
            stop,
            other,
        ),
    decreases depth, lanes.len() + 1,
{
    if lanes.len() > 0 {
        let entered = visited.insert(lane);
        lemma_walk_each_ends(g, lane, visited, lanes.drop_last(), budget, stop, depth, other);
        lemma_walk_each_grows(g, lane, lanes.drop_last(), entered, budget, stop, depth);
        let seen = walk_each(g, lane, lanes.drop_last(), entered, budget, stop, depth).1;
        let from = lanes.last();
        if is_passable(g, from, budget) {
            lemma_step_shrinks(g, lane, visited, from, seen);
            a_walk_ends_by_itself(
                g,
                from,
                seen,
                minus(budget, length_of(g, from)),
                stop,
                depth,
                other,
            );
        }
    }
}

} // verus!
