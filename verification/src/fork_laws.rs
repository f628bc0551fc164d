//! What fork siblings have in common.

use crate::connectivity::{edge_of, lane_named, links_from, GraphView, LinkView};
use crate::graph_laws::{
    a_signal_holds_a_lane_back_by_a_link, leads, lemma_filter_holds,
    predecessors_are_the_lanes_with_a_link_into_it,
};
use crate::sibling_laws::{are_linked, is_chain, merged_lanes_come_from_linked_groups};
use crate::siblings::{
    are_siblings, edges_into, feeding_edges, overlap, programs_at, programs_of, siblings_merged,
    VehicleGroupView,
};
use vstd::prelude::*;

verus! {

/// Whether a link out of one of `lanes` names the signal program.
pub open spec fn wait_for(g: GraphView, lanes: Seq<Seq<char>>, program: Seq<char>) -> bool {
    exists|i: int|
        0 <= i < g.links.len() && (#[trigger] g.links[i]).traffic_light == Some(program)
            && g.links[i].from is Some && lanes.contains(g.links[i].from->0)
}

/// Whether no link out of `lane` is under a signal.
pub open spec fn flows_freely(g: GraphView, lane: Seq<char>) -> bool {
    forall|i: int|
        0 <= i < g.links.len() && (#[trigger] g.links[i]).from == Some(lane)
            ==> g.links[i].traffic_light is None || g.links[i].link_index is None
}

/// Whether `link` leads into one of `lanes` out of a lane of `edge` that no
/// signal holds back.
pub open spec fn feeds(
    g: GraphView,
    link: LinkView,
    lanes: Seq<Seq<char>>,
    edge: Seq<char>,
) -> bool {
    link.from is Some && link.to is Some && lanes.contains(link.to->0) && flows_freely(
        g,
        link.from->0,
    ) && edge_of(lane_named(g.lanes, link.from->0)) == Some(edge)
}

/// Whether traffic comes freely from `edge` into one of `lanes`.
pub open spec fn are_fed_from(g: GraphView, lanes: Seq<Seq<char>>, edge: Seq<char>) -> bool {
    exists|i: int| 0 <= i < g.links.len() && feeds(g, #[trigger] g.links[i], lanes, edge)
}

proof fn lemma_programs_at(g: GraphView, lane: Seq<char>, program: Seq<char>)
    ensures
        programs_at(g, lane).contains(program) <==> exists|i: int|
            0 <= i < g.links.len() && (#[trigger] g.links[i]).traffic_light == Some(program)
                && g.links[i].from == Some(lane),
{
    let wanted = |link: LinkView| link.from == Some(lane);
    let named = |link: LinkView| link.traffic_light is Some;
    let out = g.links.filter(wanted);
    let kept = out.filter(named);
    let programs = kept.map_values(|link: LinkView| link.traffic_light->0);
    assert(links_from(g.links, lane) == out);
    assert(programs_at(g, lane) == programs);
    if programs.contains(program) {
        let k = choose|k: int| 0 <= k < programs.len() && programs[k] == program;
        assert(kept.contains(kept[k]));
        lemma_filter_holds(out, named, kept[k]);
        lemma_filter_holds(g.links, wanted, kept[k]);
        let i = choose|i: int| 0 <= i < g.links.len() && g.links[i] == kept[k];
        assert(g.links[i].traffic_light == Some(program));
    }
    if exists|i: int|
        0 <= i < g.links.len() && (#[trigger] g.links[i]).traffic_light == Some(program)
            && g.links[i].from == Some(lane) {
        let i = choose|i: int|
            0 <= i < g.links.len() && (#[trigger] g.links[i]).traffic_light == Some(program)
                && g.links[i].from == Some(lane);
        assert(g.links.contains(g.links[i]));
        lemma_filter_holds(g.links, wanted, g.links[i]);
        lemma_filter_holds(out, named, g.links[i]);
        let k = choose|k: int| 0 <= k < kept.len() && kept[k] == g.links[i];
        assert(programs[k] == program);
    }
}

proof fn lemma_programs_of(g: GraphView, lanes: Seq<Seq<char>>, program: Seq<char>)
    ensures
        programs_of(g, lanes).contains(program) <==> wait_for(g, lanes, program),
    decreases lanes.len(),
{
    if lanes.len() > 0 {
        let rest = lanes.drop_last();
        let last = lanes.last();
        let before = programs_of(g, rest);
        let here = programs_at(g, last);
        let all = programs_of(g, lanes);
        lemma_programs_of(g, rest, program);
        lemma_programs_at(g, last, program);
        assert(all.contains(program) <==> before.contains(program) || here.contains(program)) by {
            if before.contains(program) {
                let k = choose|k: int| 0 <= k < before.len() && before[k] == program;
                assert(all[k] == program);
            }
            if here.contains(program) {
                let k = choose|k: int| 0 <= k < here.len() && here[k] == program;
                assert(all[before.len() + k] == program);
            }
            if all.contains(program) {
                let k = choose|k: int| 0 <= k < all.len() && all[k] == program;
                if k < before.len() {
                    assert(before[k] == program);
                } else {
                    assert(here[k - before.len()] == program);
                }
            }
        }
        assert forall|x: Seq<char>| #[trigger]
            lanes.contains(x) <==> rest.contains(x) || x == last by {
            if rest.contains(x) {
                let k = choose|k: int| 0 <= k < rest.len() && rest[k] == x;
                assert(lanes[k] == x);
            }
            if x == last {
                assert(lanes[lanes.len() - 1] == x);
            }
            if lanes.contains(x) && x != last {
                let k = choose|k: int| 0 <= k < lanes.len() && lanes[k] == x;
                assert(rest[k] == x);
            }
        }
        if wait_for(g, lanes, program) && !wait_for(g, rest, program) {
            let i = choose|i: int|
                0 <= i < g.links.len() && (#[trigger] g.links[i]).traffic_light == Some(program)
                    && g.links[i].from is Some && lanes.contains(g.links[i].from->0);
            assert(g.links[i].from == Some(last));
        }
    }
}

proof fn lemma_edges_into(g: GraphView, lane: Seq<char>, edge: Seq<char>)
    ensures
        edges_into(g, lane).contains(edge) <==> exists|i: int|
            0 <= i < g.links.len() && feeds(g, #[trigger] g.links[i], seq![lane], edge),
{
    let origins = g.predecessors(lane);
    let wanted = |p: Seq<char>| !g.is_signal_controlled(p) && lane_named(g.lanes, p) is Some;
    let kept = origins.filter(wanted);
    let edges = kept.map_values(|p: Seq<char>| edge_of(lane_named(g.lanes, p))->0);
    assert(edges_into(g, lane) == edges);
    let here = seq![lane];
    assert(here.contains(lane)) by {
        assert(here[0] == lane);
    }
    if edges.contains(edge) {
        let k = choose|k: int| 0 <= k < edges.len() && edges[k] == edge;
        let p = kept[k];
        assert(kept.contains(p));
        lemma_filter_holds(origins, wanted, p);
        predecessors_are_the_lanes_with_a_link_into_it(g, lane, p);
        a_signal_holds_a_lane_back_by_a_link(g, p);
        let i = choose|i: int| 0 <= i < g.links.len() && leads(#[trigger] g.links[i], p, lane);
        assert(feeds(g, g.links[i], here, edge));
    }
    if exists|i: int| 0 <= i < g.links.len() && feeds(g, #[trigger] g.links[i], here, edge) {
        let i = choose|i: int|
            0 <= i < g.links.len() && feeds(g, #[trigger] g.links[i], here, edge);
        let p = g.links[i].from->0;
        assert(leads(g.links[i], p, lane));
        predecessors_are_the_lanes_with_a_link_into_it(g, lane, p);
        a_signal_holds_a_lane_back_by_a_link(g, p);
        lemma_filter_holds(origins, wanted, p);
        let k = choose|k: int| 0 <= k < kept.len() && kept[k] == p;
        assert(edges[k] == edge);
    }
}

proof fn lemma_feeding_edges(g: GraphView, lanes: Seq<Seq<char>>, edge: Seq<char>)
    ensures
        feeding_edges(g, lanes).contains(edge) <==> are_fed_from(g, lanes, edge),
    decreases lanes.len(),
{
    if lanes.len() > 0 {
        let rest = lanes.drop_last();
        let last = lanes.last();
        let before = feeding_edges(g, rest);
        let here = edges_into(g, last);
        let all = feeding_edges(g, lanes);
        lemma_feeding_edges(g, rest, edge);
        lemma_edges_into(g, last, edge);
        assert(all.contains(edge) <==> before.contains(edge) || here.contains(edge)) by {
            if before.contains(edge) {
                let k = choose|k: int| 0 <= k < before.len() && before[k] == edge;
                assert(all[k] == edge);
            }
            if here.contains(edge) {
                let k = choose|k: int| 0 <= k < here.len() && here[k] == edge;
                assert(all[before.len() + k] == edge);
            }
            if all.contains(edge) {
                let k = choose|k: int| 0 <= k < all.len() && all[k] == edge;
                if k < before.len() {
                    assert(before[k] == edge);
                } else {
                    assert(here[k - before.len()] == edge);
                }
            }
        }
        assert forall|x: Seq<char>| #[trigger]
            lanes.contains(x) <==> rest.contains(x) || seq![last].contains(x) by {
            if rest.contains(x) {
                let k = choose|k: int| 0 <= k < rest.len() && rest[k] == x;
                assert(lanes[k] == x);
            }
            if seq![last].contains(x) {
                assert(lanes[lanes.len() - 1] == x);
            }
            if lanes.contains(x) && x != last {
                let k = choose|k: int| 0 <= k < lanes.len() && lanes[k] == x;
                assert(rest[k] == x);
            }
            assert(seq![last][0] == last);
        }
        if are_fed_from(g, rest, edge) {
            let i = choose|i: int|
                0 <= i < g.links.len() && feeds(g, #[trigger] g.links[i], rest, edge);
            assert(lanes.contains(g.links[i].to->0));
            assert(feeds(g, g.links[i], lanes, edge));
        }
        if here.contains(edge) {
            let i = choose|i: int|
                0 <= i < g.links.len() && feeds(g, #[trigger] g.links[i], seq![last], edge);
            assert(lanes.contains(g.links[i].to->0));
            assert(feeds(g, g.links[i], lanes, edge));
        }
        if are_fed_from(g, lanes, edge) {
            let i = choose|i: int|
                0 <= i < g.links.len() && feeds(g, #[trigger] g.links[i], lanes, edge);
            assert(lanes.contains(g.links[i].to->0));
            assert(feeds(g, g.links[i], rest, edge) || feeds(g, g.links[i], seq![last], edge));
        }
    }
}

/// Whether two groups wait for one and the same signal program.
pub open spec fn share_a_program(g: GraphView, a: VehicleGroupView, b: VehicleGroupView) -> bool {
    exists|program: Seq<char>| #[trigger]
        wait_for(g, a.lanes, program) && wait_for(g, b.lanes, program)
}

/// Whether two groups are fed freely from one and the same edge.
pub open spec fn share_an_edge(g: GraphView, a: VehicleGroupView, b: VehicleGroupView) -> bool {
    exists|edge: Seq<char>| #[trigger]
        are_fed_from(g, a.lanes, edge) && are_fed_from(g, b.lanes, edge)
}

/// Two groups are fork siblings exactly where they turn alike, links out of
/// lanes of both name one signal program, and traffic comes into both freely
/// from one edge.
pub proof fn siblings_turn_alike_at_one_signal_behind_one_fork(
    g: GraphView,
    a: VehicleGroupView,
    b: VehicleGroupView,
)
    ensures
        are_siblings(g, a, b) <==> a.directions == b.directions && share_a_program(g, a, b)
            && share_an_edge(g, a, b),
{
    reveal(are_siblings);
    let programs_a = programs_of(g, a.lanes);
    let programs_b = programs_of(g, b.lanes);
    let edges_a = feeding_edges(g, a.lanes);
    let edges_b = feeding_edges(g, b.lanes);
    if overlap(programs_a, programs_b) {
        let x = choose|x: Seq<char>| #[trigger] programs_a.contains(x) && programs_b.contains(x);
        lemma_programs_of(g, a.lanes, x);
        lemma_programs_of(g, b.lanes, x);
        assert(wait_for(g, a.lanes, x) && wait_for(g, b.lanes, x));
    }
    if share_a_program(g, a, b) {
        let x = choose|x: Seq<char>| #[trigger]
            wait_for(g, a.lanes, x) && wait_for(g, b.lanes, x);
        lemma_programs_of(g, a.lanes, x);
        lemma_programs_of(g, b.lanes, x);
        assert(programs_a.contains(x) && programs_b.contains(x));
    }
    if overlap(edges_a, edges_b) {
        let x = choose|x: Seq<char>| #[trigger] edges_a.contains(x) && edges_b.contains(x);
        lemma_feeding_edges(g, a.lanes, x);
        lemma_feeding_edges(g, b.lanes, x);
        assert(are_fed_from(g, a.lanes, x) && are_fed_from(g, b.lanes, x));
    }
    if share_an_edge(g, a, b) {
        let x = choose|x: Seq<char>| #[trigger]
            are_fed_from(g, a.lanes, x) && are_fed_from(g, b.lanes, x);
        lemma_feeding_edges(g, a.lanes, x);
        lemma_feeding_edges(g, b.lanes, x);
        assert(edges_a.contains(x) && edges_b.contains(x));
    }
}

/// Whether `path` leads from group `i` to group `j`, each step between groups
/// that turn alike, wait for one signal program and are fed from one edge.
pub open spec fn is_fork_chain(
    g: GraphView,
    groups: Seq<VehicleGroupView>,
    path: Seq<int>,
    i: int,
    j: int,
) -> bool {
    &&& path.len() > 0
    &&& path[0] == i
    &&& path.last() == j
    &&& forall|k: int| 0 <= k < path.len() ==> 0 <= #[trigger] path[k] < groups.len()
    &&& forall|k: int|
        0 <= k < path.len() - 1 ==> {
            let a = groups[#[trigger] path[k]];
            let b = groups[path[k + 1]];
            a.directions == b.directions && share_a_program(g, a, b) && share_an_edge(g, a, b)
        }
}

/// Two lanes are put in one zone only where steps from group to group, each
/// between groups that turn alike, wait for one signal program and are fed
/// from one edge, lead from the group of the one to the group of the other.
pub proof fn lanes_of_one_zone_wait_for_a_chain_of_programs(
    g: GraphView,
    groups: Seq<VehicleGroupView>,
    i: int,
    a: Seq<char>,
    b: Seq<char>,
)
    requires
        0 <= i < siblings_merged(g, groups).len(),
        siblings_merged(g, groups)[i].lanes.contains(a),
        siblings_merged(g, groups)[i].lanes.contains(b),
    ensures
        exists|k: int, l: int, path: Seq<int>|
            groups[k].lanes.contains(a) && groups[l].lanes.contains(b) && #[trigger] is_fork_chain(
                g,
                groups,
                path,
                k,
                l,
            ),
{
    merged_lanes_come_from_linked_groups(g, groups, i, a, b);
    let (k, l) = choose|k: int, l: int|
        0 <= k < groups.len() && 0 <= l < groups.len() && groups[k].lanes.contains(a)
            && groups[l].lanes.contains(b) && #[trigger] are_linked(g, groups, k, l);
    let path = choose|path: Seq<int>| is_chain(g, groups, path, k, l);
    assert forall|m: int| 0 <= m < path.len() - 1 implies {
        let x = groups[#[trigger] path[m]];
        let y = groups[path[m + 1]];
        x.directions == y.directions && share_a_program(g, x, y) && share_an_edge(g, x, y)
    } by {
        siblings_turn_alike_at_one_signal_behind_one_fork(
            g,
            groups[path[m]],
            groups[path[m + 1]],
        );
    }
    assert(is_fork_chain(g, groups, path, k, l));
}

} // verus!
