//! How far zones reach.

use crate::approach::{
    extension, hop, is_passable, lemma_walk_each_grows, length_of, walk, walk_each,
};
use crate::arithmetic_laws::{exact_differences_are_kept, taking_a_length_away_never_lengthens};
use crate::boundaries::{
    entries_of, entries_of_lane, entry_position, exits_of, extension_budget, EntryReach,
};
use crate::connectivity::{graph_of, lane_named, GraphView, PlacedLane};
use crate::coverage_laws::{lemma_exits, lemma_pedestrian_zones_origin, lemma_vehicle_zone_origin};
use crate::double::{
    comparison_follows_the_values, is_at_most, is_finite, is_less, minus, value, zero, Double,
};
use crate::fork_laws::flows_freely;
use crate::graph_laws::{
    a_signal_holds_a_lane_back_by_a_link, leads, lemma_last_where,
    predecessors_are_the_lanes_with_a_link_into_it, successors_are_the_lanes_with_a_link_from_it,
};
use crate::grouping::groups_of;
use crate::measure::is_same;
use crate::network::Network;
use crate::siblings::siblings_merged;
use crate::zone_generator::{lanes_into, vehicle_groups, vehicle_zones_of, zones_of};
use crate::zone_laws::{bridges, gate_lanes};
use vstd::prelude::*;

verus! {

/// What is left of a budget when the lengths of the lanes are taken from it,
/// one after another.
pub open spec fn left_of(g: GraphView, budget: Double, lanes: Seq<Seq<char>>) -> Double
    decreases lanes.len(),
{
    if lanes.len() == 0 {
        budget
    } else {
        minus(left_of(g, budget, lanes.drop_last()), length_of(g, lanes.last()))
    }
}

/// Whether the network knows `lane`, no signal holds its traffic back, and all
/// of it goes on into `to`.
pub open spec fn leads_only_into(g: GraphView, lane: Seq<char>, to: Seq<char>) -> bool {
    &&& lane_named(g.lanes, lane) is Some
    &&& flows_freely(g, lane)
    &&& exists|i: int| 0 <= i < g.links.len() && leads(#[trigger] g.links[i], lane, to)
    &&& forall|i: int|
        0 <= i < g.links.len() && (#[trigger] g.links[i]).from == Some(lane) && g.links[i].to is Some
            ==> g.links[i].to == Some(to)
}

/// Where the traffic of the lane at `k` on the way back from `lane` goes.
pub open spec fn onward(lane: Seq<char>, path: Seq<Seq<char>>, k: int) -> Seq<char> {
    if k == 0 {
        lane
    } else {
        path[k - 1]
    }
}

/// Whether `path` leads back from `lane`, each lane of it leading into the one
/// before and nowhere else, and each of them shorter than what the lanes
/// before it have left of the budget, which is more than nothing; if it is to
/// stop there, it does not go on from a lane that starts at a complex junction.
#[verifier::opaque]
pub open spec fn is_way_back(
    g: GraphView,
    lane: Seq<char>,
    path: Seq<Seq<char>>,
    budget: Double,
    stop: bool,
) -> bool {
    forall|k: int|
        0 <= k < path.len() ==> leads_only_into(g, #[trigger] path[k], onward(lane, path, k))
            && is_less(length_of(g, path[k]), left_of(g, budget, path.take(k))) && may_go_on(
            g,
            onward(lane, path, k),
            left_of(g, budget, path.take(k)),
            stop,
        )
}

/// Whether a zone may go on from `lane` with so much of its budget left.
pub open spec fn may_go_on(g: GraphView, lane: Seq<char>, left: Double, stop: bool) -> bool {
    !is_at_most(left, zero()) && !(stop && g.starts_at_complex_junction(lane))
}

/// Whether a lane is the last of a way back from `lane`, or the internal lane
/// that leads on from there.
pub open spec fn is_last_of(
    g: GraphView,
    lane: Seq<char>,
    path: Seq<Seq<char>>,
    covered: Seq<char>,
) -> bool {
    path.len() > 0 && (covered == path.last() || g.via_between(
        path.last(),
        onward(lane, path, path.len() - 1),
    ) == Some(covered))
}

/// Whether some way back from `lane` that the budget allows leads to
/// `covered`.
pub open spec fn is_reached(
    g: GraphView,
    lane: Seq<char>,
    budget: Double,
    stop: bool,
    covered: Seq<char>,
) -> bool {
    exists|path: Seq<Seq<char>>| #[trigger]
        is_way_back(g, lane, path, budget, stop) && is_last_of(g, lane, path, covered)
}

spec fn all_reached(
    g: GraphView,
    lane: Seq<char>,
    budget: Double,
    stop: bool,
    lanes: Seq<Seq<char>>,
) -> bool {
    forall|i: int| 0 <= i < lanes.len() ==> is_reached(g, lane, budget, stop, #[trigger] lanes[i])
}

proof fn lemma_reached_too(
    g: GraphView,
    lane: Seq<char>,
    budget: Double,
    stop: bool,
    a: Seq<Seq<char>>,
    b: Seq<Seq<char>>,
)
    requires
        all_reached(g, lane, budget, stop, a),
        all_reached(g, lane, budget, stop, b),
    ensures
        all_reached(g, lane, budget, stop, a + b),
{
    let all = a + b;
    assert forall|i: int| 0 <= i < all.len() implies is_reached(
        g,
        lane,
        budget,
        stop,
        #[trigger] all[i],
    ) by {
        if i < a.len() {
            assert(all[i] == a[i]);
        } else {
            assert(all[i] == b[i - a.len()]);
        }
    }
}

proof fn lemma_hop_reached(
    g: GraphView,
    lane: Seq<char>,
    budget: Double,
    stop: bool,
    path: Seq<Seq<char>>,
)
    requires
        path.len() > 0,
        is_way_back(g, lane, path, budget, stop),
    ensures
        all_reached(
            g,
            lane,
            budget,
            stop,
            hop(g, path.last(), onward(lane, path, path.len() - 1)),
        ),
{
    let step = hop(g, path.last(), onward(lane, path, path.len() - 1));
    assert forall|i: int| 0 <= i < step.len() implies is_reached(
        g,
        lane,
        budget,
        stop,
        #[trigger] step[i],
    ) by {
        assert(is_last_of(g, lane, path, step[i]));
    }
}

proof fn lemma_passable_leads_on(g: GraphView, from: Seq<char>, to: Seq<char>, budget: Double)
    requires
        is_passable(g, from, budget),
        g.predecessors(to).contains(from),
    ensures
        leads_only_into(g, from, to),
        is_less(length_of(g, from), budget),
{
    predecessors_are_the_lanes_with_a_link_into_it(g, to, from);
    a_signal_holds_a_lane_back_by_a_link(g, from);
    successors_are_the_lanes_with_a_link_from_it(g, from, to);
    assert forall|i: int|
        0 <= i < g.links.len() && (#[trigger] g.links[i]).from == Some(from) && g.links[i].to is Some implies g.links[i].to
        == Some(to) by {
        let other = g.links[i].to->0;
        assert(leads(g.links[i], from, other));
        successors_are_the_lanes_with_a_link_from_it(g, from, other);
    }
}

proof fn lemma_one_further(
    g: GraphView,
    lane: Seq<char>,
    path: Seq<Seq<char>>,
    budget: Double,
    stop: bool,
    from: Seq<char>,
)
    requires
        may_go_on(g, onward(lane, path, path.len() as int), left_of(g, budget, path), stop),
        is_way_back(g, lane, path, budget, stop),
        leads_only_into(g, from, onward(lane, path, path.len() as int)),
        is_less(length_of(g, from), left_of(g, budget, path)),
    ensures
        is_way_back(g, lane, path.push(from), budget, stop),
        left_of(g, budget, path.push(from)) == minus(
            left_of(g, budget, path),
            length_of(g, from),
        ),
{
    reveal(is_way_back);
    let further = path.push(from);
    assert(further.drop_last() =~= path);
    assert forall|k: int| 0 <= k < further.len() implies leads_only_into(
        g,
        #[trigger] further[k],
        onward(lane, further, k),
    ) && is_less(length_of(g, further[k]), left_of(g, budget, further.take(k))) && may_go_on(
        g,
        onward(lane, further, k),
        left_of(g, budget, further.take(k)),
        stop,
    ) by {
        assert(further.take(k) =~= path.take(k));
        if k < path.len() {
            assert(further[k] == path[k]);
        } else {
            assert(path.take(k) =~= path);
        }
    }
}

proof fn lemma_walk_reaches(
    g: GraphView,
    lane: Seq<char>,
    budget: Double,
    path: Seq<Seq<char>>,
    visited: Set<Seq<char>>,
    stop: bool,
    depth: nat,
)
    requires
        is_way_back(g, lane, path, budget, stop),
    ensures
        all_reached(
            g,
            lane,
            budget,
            stop,
            walk(
                g,
                onward(lane, path, path.len() as int),
                visited,
                left_of(g, budget, path),
                stop,
                depth,
            ).0,
        ),
    decreases depth, 0nat,
{
    let here = onward(lane, path, path.len() as int);
    if depth > 0 && may_go_on(g, here, left_of(g, budget, path), stop) {
        let origins = g.predecessors(here);
        assert forall|i: int| 0 <= i < origins.len() implies g.predecessors(here).contains(
            #[trigger] origins[i],
        ) by {}
        lemma_walk_each_reaches(
            g,
            lane,
            budget,
            path,
            origins,
            visited.insert(here),
            stop,
            (depth - 1) as nat,
        );
    }
}

proof fn lemma_walk_each_reaches(
    g: GraphView,
    lane: Seq<char>,
    budget: Double,
    path: Seq<Seq<char>>,
    lanes: Seq<Seq<char>>,
    visited: Set<Seq<char>>,
    stop: bool,
    depth: nat,
)
    requires
        may_go_on(g, onward(lane, path, path.len() as int), left_of(g, budget, path), stop),
        is_way_back(g, lane, path, budget, stop),
        forall|i: int|
            0 <= i < lanes.len() ==> g.predecessors(
                onward(lane, path, path.len() as int),
            ).contains(#[trigger] lanes[i]),
    ensures
        all_reached(
            g,
            lane,
            budget,
            stop,
            walk_each(
                g,
                onward(lane, path, path.len() as int),
                lanes,
                visited,
                left_of(g, budget, path),
                stop,
                depth,
            ).0,
        ),
    decreases depth, lanes.len() + 1,
{
    let here = onward(lane, path, path.len() as int);
    let left = left_of(g, budget, path);
    if lanes.len() > 0 {
        let rest = lanes.drop_last();
        assert forall|i: int| 0 <= i < rest.len() implies g.predecessors(here).contains(
            #[trigger] rest[i],
        ) by {
            assert(rest[i] == lanes[i]);
        }
        lemma_walk_each_reaches(g, lane, budget, path, rest, visited, stop, depth);
        let (covered, seen) = walk_each(g, here, rest, visited, left, stop, depth);
        let from = lanes.last();
        if is_passable(g, from, left) && !seen.contains(from) {
            assert(g.predecessors(here).contains(lanes[lanes.len() - 1]));
            lemma_passable_leads_on(g, from, here, left);
            lemma_one_further(g, lane, path, budget, stop, from);
            let longer = path.push(from);
            assert(onward(lane, longer, longer.len() as int) == from);
            lemma_walk_reaches(g, lane, budget, longer, seen, stop, depth);
            let further = walk(g, from, seen, minus(left, length_of(g, from)), stop, depth).0;
            let step = hop(g, from, here);
            assert(onward(lane, longer, longer.len() - 1) == here);
            assert(longer.last() == from);
            lemma_hop_reached(g, lane, budget, stop, longer);
            lemma_reached_too(g, lane, budget, stop, covered, step);
            lemma_reached_too(g, lane, budget, stop, covered + step, further);
        }
    }
}

/// Every lane that a zone goes on into lies on a way back from its own lane,
/// each lane of which leads, held back by no signal, into the one before and
/// nowhere else, and is shorter than what the lanes before it have left of the
/// budget; or it is the internal lane that leads on from the last of them. A
/// zone that is to stop at complex junctions goes on from no lane that starts
/// at one.
pub proof fn a_zone_goes_on_as_far_as_its_budget_lasts(
    g: GraphView,
    lane: Seq<char>,
    budget: Double,
    stop_at_complex_intersections: bool,
    covered: Seq<char>,
)
    requires
        extension(g, lane, budget, stop_at_complex_intersections).contains(covered),
    ensures
        is_reached(g, lane, budget, stop_at_complex_intersections, covered),
{
    let stop = stop_at_complex_intersections;
    let path = Seq::<Seq<char>>::empty();
    assert(is_way_back(g, lane, path, budget, stop)) by {
        reveal(is_way_back);
    }
    lemma_walk_reaches(
        g,
        lane,
        budget,
        path,
        Set::empty(),
        stop_at_complex_intersections,
        g.lanes.len() + 2,
    );
    let lanes = extension(g, lane, budget, stop_at_complex_intersections);
    let i = choose|i: int| 0 <= i < lanes.len() && lanes[i] == covered;
    assert(is_reached(g, lane, budget, stop, lanes[i]));
}

/// Whether no lane has a negative length.
pub open spec fn have_lengths(lanes: Seq<PlacedLane>) -> bool {
    forall|i: int| 0 <= i < lanes.len() ==> !is_less((#[trigger] lanes[i]).length, zero())
}

proof fn lemma_named_has_length(g: GraphView, id: Seq<char>)
    requires
        have_lengths(g.lanes),
    ensures
        !is_less(length_of(g, id), zero()),
{
    lemma_last_where(g.lanes, |lane: PlacedLane| lane.id == id);
}

proof fn lemma_less_is_left(
    g: GraphView,
    lane: Seq<char>,
    path: Seq<Seq<char>>,
    budget: Double,
    stop: bool,
    k: int,
)
    requires
        is_way_back(g, lane, path, budget, stop),
        have_lengths(g.lanes),
        0 <= k < path.len(),
    ensures
        is_at_most(left_of(g, budget, path.take(k)), budget),
    decreases k,
{
    reveal(is_way_back);
    if k == 0 {
        assert(is_less(length_of(g, path[0]), left_of(g, budget, path.take(0))));
    } else {
        lemma_less_is_left(g, lane, path, budget, stop, k - 1);
        let before = left_of(g, budget, path.take(k - 1));
        let length = length_of(g, path[k - 1]);
        assert(path.take(k).drop_last() =~= path.take(k - 1));
        assert(is_less(length, before));
        lemma_named_has_length(g, path[k - 1]);
        taking_a_length_away_never_lengthens(before, length);
    }
}

/// With a limit on the length of zones, every lane that a zone goes on into is
/// shorter than the limit, but for the internal lanes between two others.
pub proof fn a_limit_bounds_the_lanes_that_a_zone_goes_on_into(
    g: GraphView,
    lane: Seq<char>,
    max: Double,
    stop_at_complex_intersections: bool,
    covered: Seq<char>,
)
    requires
        have_lengths(g.lanes),
        extension(
            g,
            lane,
            extension_budget(Some(max)),
            stop_at_complex_intersections,
        ).contains(covered),
    ensures
        bridges(g, covered) || (lane_named(g.lanes, covered) matches Some(l) && is_less(
            l.length,
            max,
        )),
{
    let stop = stop_at_complex_intersections;
    a_zone_goes_on_as_far_as_its_budget_lasts(
        g,
        lane,
        max,
        stop_at_complex_intersections,
        covered,
    );
    let path = choose|path: Seq<Seq<char>>| #[trigger]
        is_way_back(g, lane, path, max, stop) && is_last_of(g, lane, path, covered);
    let n = path.len() - 1;
    if covered == path.last() {
        reveal(is_way_back);
        assert(leads_only_into(g, path[n], onward(lane, path, n)));
        lemma_less_is_left(g, lane, path, max, stop, n);
    } else {
        assert(g.via_between(path.last(), onward(lane, path, n)) == Some(covered));
    }
}

/// Whether a lane is shorter than the limit, as far as the network knows it.
pub open spec fn is_shorter(g: GraphView, lane: Seq<char>, max: Double) -> bool {
    lane_named(g.lanes, lane) matches Some(l) && is_less(l.length, max)
}

proof fn lemma_entries_within(
    g: GraphView,
    lanes: Seq<Seq<char>>,
    reach: EntryReach,
    max: Double,
    i: int,
)
    requires
        have_lengths(g.lanes),
        reach.max_zone_length == Some(max),
        0 <= i < entries_of(g, lanes, reach).len(),
    ensures
        ({
            let entry = entries_of(g, lanes, reach)[i];
            gate_lanes(exits_of(g, lanes)).contains(entry.lane) || bridges(g, entry.lane)
                || is_shorter(g, entry.lane, max)
        }),
    decreases lanes.len(),
{
    if lanes.len() > 0 {
        let rest = lanes.drop_last();
        let before = entries_of(g, rest, reach);
        let all = entries_of(g, lanes, reach);
        let entry = all[i];
        if i < before.len() {
            assert(entry == before[i]);
            lemma_entries_within(g, rest, reach, max, i);
            lemma_exits(g, rest, entry.lane);
            lemma_exits(g, lanes, entry.lane);
            if rest.contains(entry.lane) {
                let k = choose|k: int| 0 <= k < rest.len() && rest[k] == entry.lane;
                assert(lanes[k] == entry.lane);
            }
        } else {
            let lane = lanes.last();
            let length = (lane_named(g.lanes, lane)->0).length;
            let here = entries_of_lane(g, lane, length, reach);
            assert(entry == here[i - before.len()]);
            if entry.lane == lane {
                assert(lanes[lanes.len() - 1] == lane);
                lemma_exits(g, lanes, lane);
            } else {
                let on = extension(
                    g,
                    lane,
                    extension_budget(reach.max_zone_length),
                    reach.stop_at_complex_intersections,
                );
                assert(entry.lane == on[i - before.len() - 1]);
                a_limit_bounds_the_lanes_that_a_zone_goes_on_into(
                    g,
                    lane,
                    max,
                    reach.stop_at_complex_intersections,
                    entry.lane,
                );
            }
        }
    }
}

/// With a limit on the length of zones, every entry of a zone is on a lane
/// that the zone ends on, on a lane shorter than the limit, or on an internal
/// lane between two others.
pub proof fn a_limit_bounds_every_zone(
    network: Network,
    max: Double,
    stop_at_complex_intersections: bool,
    z: int,
    i: int,
)
    requires
        have_lengths(graph_of(network).lanes),
        0 <= z < zones_of(network, Some(max), stop_at_complex_intersections).len(),
        0 <= i < zones_of(network, Some(max), stop_at_complex_intersections)[z].entries.len(),
    ensures
        ({
            let zone = zones_of(network, Some(max), stop_at_complex_intersections)[z];
            let lane = zone.entries[i].lane;
            gate_lanes(zone.exits).contains(lane) || bridges(graph_of(network), lane)
                || is_shorter(graph_of(network), lane, max)
        }),
{
    let g = graph_of(network);
    let programs = network.traffic_light_programs@;
    let junctions = network.junctions@;
    let stop = stop_at_complex_intersections;
    let merged = siblings_merged(g, vehicle_groups(g, programs, junctions));
    let vehicles = vehicle_zones_of(g, merged, Some(max), stop);
    if z < vehicles.len() {
        let m = lemma_vehicle_zone_origin(g, merged, Some(max), stop, z);
        lemma_entries_within(
            g,
            merged[m].lanes,
            EntryReach {
                max_zone_length: Some(max),
                extend_backward: true,
                stop_at_complex_intersections,
            },
            max,
            i,
        );
    } else {
        let (j, k) = lemma_pedestrian_zones_origin(
            g,
            programs,
            junctions,
            Some(max),
            z - vehicles.len(),
        );
        lemma_entries_within(
            g,
            groups_of(g, programs, lanes_into(g, junctions[j], true))[k].lanes,
            EntryReach {
                max_zone_length: Some(max),
                extend_backward: false,
                stop_at_complex_intersections: false,
            },
            max,
            i,
        );
    }
}

/// Whether every lane visited was visited before, or is covered.
spec fn visits_what_it_covers(
    result: (Seq<Seq<char>>, Set<Seq<char>>),
    visited: Set<Seq<char>>,
) -> bool {
    forall|id: Seq<char>| #[trigger]
        result.1.contains(id) ==> visited.contains(id) || result.0.contains(id)
}

proof fn lemma_walk_visits(
    g: GraphView,
    lane: Seq<char>,
    visited: Set<Seq<char>>,
    budget: Double,
    stop: bool,
    depth: nat,
)
    ensures
        visits_what_it_covers(
            walk(g, lane, visited, budget, stop, depth),
            visited.insert(lane),
        ),
    decreases depth, 0nat,
{
    if depth > 0 {
        lemma_walk_each_visits(
            g,
            lane,
            g.predecessors(lane),
            visited.insert(lane),
            budget,
            stop,
            (depth - 1) as nat,
        );
    }
}

proof fn lemma_walk_each_visits(
    g: GraphView,
    lane: Seq<char>,
    lanes: Seq<Seq<char>>,
    visited: Set<Seq<char>>,
    budget: Double,
    stop: bool,
    depth: nat,
)
    ensures
        visits_what_it_covers(walk_each(g, lane, lanes, visited, budget, stop, depth), visited),
        forall|i: int|
            0 <= i < lanes.len() && is_passable(g, #[trigger] lanes[i], budget)
                && !visited.contains(lanes[i]) ==> walk_each(
                g,
                lane,
                lanes,
                visited,
                budget,
                stop,
                depth,
            ).0.contains(lanes[i]),
    decreases depth, lanes.len() + 1,
{
    if lanes.len() > 0 {
        let rest = lanes.drop_last();
        lemma_walk_each_visits(g, lane, rest, visited, budget, stop, depth);
        let before = walk_each(g, lane, rest, visited, budget, stop, depth);
        let all = walk_each(g, lane, lanes, visited, budget, stop, depth);
        let from = lanes.last();
        let step = hop(g, from, lane);
        if is_passable(g, from, budget) && !before.1.contains(from) {
            let left = minus(budget, length_of(g, from));
            lemma_walk_visits(g, from, before.1, left, stop, depth);
            let further = walk(g, from, before.1, left, stop, depth);
            assert(all.0 == before.0 + step + further.0);
            assert(step.last() == from);
            assert(all.0[before.0.len() + step.len() - 1] == from);
            assert forall|id: Seq<char>|
                before.0.contains(id) || further.0.contains(id) implies #[trigger] all.0.contains(
                id,
            ) by {
                if before.0.contains(id) {
                    let k = choose|k: int| 0 <= k < before.0.len() && before.0[k] == id;
                    assert(all.0[k] == id);
                } else {
                    let k = choose|k: int| 0 <= k < further.0.len() && further.0[k] == id;
                    assert(all.0[before.0.len() + step.len() + k] == id);
                }
            }
            assert forall|id: Seq<char>| #[trigger] all.1.contains(id) implies visited.contains(id)
                || all.0.contains(id) by {
                assert(further.1.contains(id));
                if before.1.insert(from).contains(id) {
                    if id != from {
                        assert(before.1.contains(id));
                    }
                }
            }
        }
        assert forall|i: int|
            0 <= i < lanes.len() && is_passable(g, #[trigger] lanes[i], budget)
                && !visited.contains(lanes[i]) implies all.0.contains(lanes[i]) by {
            if i < rest.len() {
                assert(rest[i] == lanes[i]);
                assert(before.0.contains(rest[i]));
            } else if before.1.contains(from) {
                assert(before.0.contains(from));
            }
        }
    }
}

pub(crate) proof fn lemma_is_passable(g: GraphView, lane: Seq<char>, budget: Double, from: Seq<char>)
    requires
        leads_only_into(g, from, lane),
        is_less(length_of(g, from), budget),
    ensures
        is_passable(g, from, budget),
        g.predecessors(lane).contains(from),
        g.predecessors(lane).no_duplicates(),
{
    predecessors_are_the_lanes_with_a_link_into_it(g, lane, from);
    a_signal_holds_a_lane_back_by_a_link(g, from);
    successors_are_the_lanes_with_a_link_from_it(g, from, lane);
    let next = g.successors(from);
    assert forall|k: int| 0 <= k < next.len() implies next[k] == lane by {
        assert(next.contains(next[k]));
        successors_are_the_lanes_with_a_link_from_it(g, from, next[k]);
        let i = choose|i: int| 0 <= i < g.links.len() && leads(#[trigger] g.links[i], from, next[k]);
        assert(g.links[i].from == Some(from));
    }
    assert(next.len() == 1) by {
        if next.len() > 1 {
            assert(next[0] == next[1]);
        }
    }
    assert(is_passable(g, from, budget));
}

/// A zone goes on into every lane, other than its own, that leads into its own
/// lane and nowhere else, held back by no signal, and is shorter than the
/// budget; unless the budget is nothing, or the zone is to stop at the complex
/// junction that its own lane starts at.
pub proof fn a_zone_goes_on_into_the_lanes_that_lead_into_it(
    g: GraphView,
    lane: Seq<char>,
    budget: Double,
    stop_at_complex_intersections: bool,
    from: Seq<char>,
)
    requires
        from != lane,
        leads_only_into(g, from, lane),
        is_less(length_of(g, from), budget),
        is_less(zero(), budget),
        !stop_at_complex_intersections || !g.starts_at_complex_junction(lane),
    ensures
        extension(g, lane, budget, stop_at_complex_intersections).contains(from),
{
    let origins = g.predecessors(lane);
    lemma_is_passable(g, lane, budget, from);
    let i = choose|i: int| 0 <= i < origins.len() && origins[i] == from;
    let here = Set::<Seq<char>>::empty().insert(lane);
    lemma_walk_each_visits(
        g,
        lane,
        origins,
        here,
        budget,
        stop_at_complex_intersections,
        (g.lanes.len() + 1) as nat,
    );
    assert(is_passable(g, origins[i], budget) && !here.contains(origins[i]));
}

/// What is held back from a walk that goes over other lanes only: a lane whose
/// traffic all goes on into one that has been visited.
proof fn lemma_walk_leaves_out(
    g: GraphView,
    lane: Seq<char>,
    from: Seq<char>,
    x: Seq<char>,
    visited: Set<Seq<char>>,
    budget: Double,
    stop: bool,
    depth: nat,
)
    requires
        leads_only_into(g, from, lane),
        visited.contains(lane),
        !visited.contains(from),
        x != from,
    ensures
        !walk(g, x, visited, budget, stop, depth).1.contains(from),
    decreases depth, 0nat,
{
    if depth > 0 && !visited.contains(x) {
        predecessors_are_the_lanes_with_a_link_into_it(g, x, from);
        assert(!g.predecessors(x).contains(from)) by {
            if g.predecessors(x).contains(from) {
                let i = choose|i: int| 0 <= i < g.links.len() && leads(#[trigger] g.links[i], from, x);
                assert(g.links[i].from == Some(from));
            }
        }
        lemma_walk_each_leaves_out(
            g,
            lane,
            from,
            x,
            g.predecessors(x),
            visited.insert(x),
            budget,
            stop,
            (depth - 1) as nat,
        );
    }
}

proof fn lemma_walk_each_leaves_out(
    g: GraphView,
    lane: Seq<char>,
    from: Seq<char>,
    x: Seq<char>,
    lanes: Seq<Seq<char>>,
    visited: Set<Seq<char>>,
    budget: Double,
    stop: bool,
    depth: nat,
)
    requires
        leads_only_into(g, from, lane),
        visited.contains(lane),
        !visited.contains(from),
        !lanes.contains(from),
    ensures
        !walk_each(g, x, lanes, visited, budget, stop, depth).1.contains(from),
        walk_each(g, x, lanes, visited, budget, stop, depth).1.contains(lane),
    decreases depth, lanes.len() + 1,
{
    if lanes.len() > 0 {
        let rest = lanes.drop_last();
        assert(!rest.contains(from)) by {
            if rest.contains(from) {
                let k = choose|k: int| 0 <= k < rest.len() && rest[k] == from;
                assert(lanes[k] == from);
            }
        }
        lemma_walk_each_leaves_out(g, lane, from, x, rest, visited, budget, stop, depth);
        let before = walk_each(g, x, rest, visited, budget, stop, depth);
        let y = lanes.last();
        assert(lanes[lanes.len() - 1] == y);
        assert(lanes.contains(y));
        if is_passable(g, y, budget) && !before.1.contains(y) {
            let left = minus(budget, length_of(g, y));
            lemma_walk_leaves_out(g, lane, from, y, before.1, left, stop, depth);
            lemma_walk_each_grows(
                g,
                y,
                g.predecessors(y),
                before.1.insert(y),
                left,
                stop,
                (depth - 1) as nat,
            );
        }
    }
}

/// Whether `covered` holds `first` and right after it `second`.
pub open spec fn holds_in_turn(covered: Seq<Seq<char>>, first: Seq<char>, second: Seq<char>, k: int) -> bool {
    0 <= k && k + 1 < covered.len() && covered[k] == first && covered[k + 1] == second
}

proof fn lemma_hop_is_covered(
    g: GraphView,
    lane: Seq<char>,
    from: Seq<char>,
    via: Seq<char>,
    lanes: Seq<Seq<char>>,
    visited: Set<Seq<char>>,
    budget: Double,
    stop: bool,
    depth: nat,
) -> (k: int)
    requires
        leads_only_into(g, from, lane),
        visited.contains(lane),
        !visited.contains(from),
        lanes.no_duplicates(),
        lanes.contains(from),
        is_passable(g, from, budget),
        g.via_between(from, lane) == Some(via),
    ensures
        holds_in_turn(
            walk_each(g, lane, lanes, visited, budget, stop, depth).0,
            via,
            from,
            k,
        ),
    decreases lanes.len(),
{
    let rest = lanes.drop_last();
    let before = walk_each(g, lane, rest, visited, budget, stop, depth);
    let all = walk_each(g, lane, lanes, visited, budget, stop, depth).0;
    let last = lanes.last();
    if last == from {
        assert(!rest.contains(from)) by {
            if rest.contains(from) {
                let m = choose|m: int| 0 <= m < rest.len() && rest[m] == from;
                assert(lanes[m] == lanes[lanes.len() - 1]);
            }
        }
        lemma_walk_each_leaves_out(g, lane, from, lane, rest, visited, budget, stop, depth);
        let step = hop(g, from, lane);
        let n = before.0.len() as int;
        assert(step == seq![via, from]);
        assert(all[n] == step[0] && all[n + 1] == step[1]);
        n
    } else {
        let i = choose|i: int| 0 <= i < lanes.len() && lanes[i] == from;
        assert(rest[i] == from);
        assert(rest.no_duplicates()) by {
            assert forall|a: int, b: int|
                0 <= a < rest.len() && 0 <= b < rest.len() && a != b implies rest[a] != rest[b] by {
                assert(lanes[a] != lanes[b]);
            }
        }
        let k = lemma_hop_is_covered(g, lane, from, via, rest, visited, budget, stop, depth);
        assert(all[k] == before.0[k] && all[k + 1] == before.0[k + 1]);
        k
    }
}

/// The internal lane between two lanes goes with the one that it leads out of:
/// where a zone goes on into a lane that leads into its own, it covers the
/// internal lane between them, and that lane right after it.
pub proof fn the_lane_between_goes_with_the_lane_behind_it(
    g: GraphView,
    lane: Seq<char>,
    budget: Double,
    stop_at_complex_intersections: bool,
    from: Seq<char>,
    via: Seq<char>,
)
    requires
        from != lane,
        leads_only_into(g, from, lane),
        is_less(length_of(g, from), budget),
        is_less(zero(), budget),
        !stop_at_complex_intersections || !g.starts_at_complex_junction(lane),
        g.via_between(from, lane) == Some(via),
    ensures
        exists|k: int| #[trigger]
            holds_in_turn(
                extension(g, lane, budget, stop_at_complex_intersections),
                via,
                from,
                k,
            ),
{
    let origins = g.predecessors(lane);
    lemma_is_passable(g, lane, budget, from);
    let here = Set::<Seq<char>>::empty().insert(lane);
    let k = lemma_hop_is_covered(
        g,
        lane,
        from,
        via,
        origins,
        here,
        budget,
        stop_at_complex_intersections,
        (g.lanes.len() + 1) as nat,
    );
    assert(holds_in_turn(
        extension(g, lane, budget, stop_at_complex_intersections),
        via,
        from,
        k,
    ));
}

/// A zone that is to stop at complex junctions goes on into nothing from a
/// lane that starts at one.
pub proof fn a_zone_stops_at_a_complex_junction(g: GraphView, lane: Seq<char>, budget: Double)
    requires
        g.starts_at_complex_junction(lane),
    ensures
        extension(g, lane, budget, true).len() == 0,
{
}

/// A limit moves the entry on a longer lane to as far before the lane's end as
/// it says, to the last digit where the difference can be told exactly; on any
/// other lane, and without a limit, the entry is at the start.
pub proof fn a_limit_is_measured_from_the_end_of_the_lane(
    length: Double,
    max: Double,
    position: Double,
)
    requires
        is_finite(length),
        is_finite(max),
        is_finite(position),
        value(position) == value(length) - value(max),
    ensures
        value(max) < value(length) ==> is_same(entry_position(length, Some(max)), position),
        value(max) >= value(length) ==> entry_position(length, Some(max)) == zero(),
        entry_position(length, None) == zero(),
{
    comparison_follows_the_values(max, length);
    exact_differences_are_kept(length, max, position);
}

} // verus!
