//! What holds of the chains and gates that a zone is drawn by: no lane is
//! drawn twice, and every lane that a zone controls is drawn.

use crate::chains::{
    adding_an_id_keeps_the_order, chain_from, feeders, goes_on_into, is_sorted,
    lemma_one_more_visited, unvisited_ancestors, with_id, ChainView,
};
use crate::connectivity::GraphView;
use crate::detector::GateView;
use crate::double::Double;
use crate::drawing::{
    ancestor_lanes, chain_stroke, chain_strokes, core_strokes, exit_metres, is_absorbed,
    stroke_along, CoreGateView, LineEnd, StrokeView,
};
use crate::lane_table::lane_called;
use crate::network::Lane;
use crate::successors::single_successor;
use vstd::prelude::*;

verus! {

/// The ids of the lanes of a chain.
pub open spec fn chain_ids(chain: ChainView) -> Seq<Seq<char>> {
    chain.lanes.map_values(|lane: Lane| lane.id@)
}

proof fn lemma_called_bears_id(lanes: Seq<Lane>, id: Seq<char>)
    ensures
        match lane_called(lanes, id) {
            Some(lane) => lane.id@ == id,
            None => true,
        },
    decreases lanes.len(),
{
    if lanes.len() > 0 && lanes.last().id@ != id {
        lemma_called_bears_id(lanes.drop_last(), id);
        assert(lane_called(lanes, id) == lane_called(lanes.drop_last(), id));
    }
}

/// Whether `to` is the single successor of `from`.
pub open spec fn leads_into(graph: GraphView, from: Seq<char>, to: Seq<char>) -> bool {
    match single_successor(graph, from) {
        Some(next) => next.lane == to,
        None => false,
    }
}

/// A chain begins with its first lane, and each further lane is an ancestor
/// that the lane before it, and no other, leads into.
proof fn lemma_chain_links(
    current: Seq<char>,
    visited: Set<Seq<char>>,
    ancestors: Seq<Seq<char>>,
    graph: GraphView,
    lanes: Seq<Lane>,
)
    ensures
        ({
            let ids = chain_ids(chain_from(current, visited, ancestors, graph, lanes));
            &&& ids.len() > 0 ==> ids[0] == current
            &&& forall|i: int|
                1 <= i < ids.len() ==> goes_on_into(ancestors, graph, #[trigger] ids[i])
                    && leads_into(graph, ids[i - 1], ids[i])
        }),
    decreases
            unvisited_ancestors(ancestors, visited),
            if ancestors.contains(current) {
                0int
            } else {
                1int
            },
{
    lemma_called_bears_id(lanes, current);
    if lane_called(lanes, current) is Some && !visited.contains(current) {
        match single_successor(graph, current) {
            Some(next) => {
                if goes_on_into(ancestors, graph, next.lane) {
                    lemma_one_more_visited(ancestors, visited, current);
                    lemma_chain_links(
                        next.lane,
                        visited.insert(current),
                        ancestors,
                        graph,
                        lanes,
                    );
                    let ids = chain_ids(chain_from(current, visited, ancestors, graph, lanes));
                    let rest = chain_ids(
                        chain_from(next.lane, visited.insert(current), ancestors, graph, lanes),
                    );
                    assert(ids =~= seq![current] + rest);
                    assert forall|i: int| 1 <= i < ids.len() implies goes_on_into(
                        ancestors,
                        graph,
                        #[trigger] ids[i],
                    ) && leads_into(graph, ids[i - 1], ids[i]) by {
                        assert(ids[i] == rest[i - 1]);
                        if i > 1 {
                            assert(ids[i - 1] == rest[i - 2]);
                        }
                    }
                }
            },
            None => {},
        }
    }
}

proof fn lemma_two_feeders(
    ancestors: Seq<Seq<char>>,
    graph: GraphView,
    lane: Seq<char>,
    i: int,
    j: int,
)
    requires
        0 <= i < j < ancestors.len(),
        leads_into(graph, ancestors[i], lane),
        leads_into(graph, ancestors[j], lane),
    ensures
        feeders(ancestors, graph, lane) >= 2,
    decreases ancestors.len(),
{
    let rest = ancestors.drop_last();
    if j == rest.len() {
        lemma_a_feeder(rest, graph, lane, i);
    } else {
        lemma_two_feeders(rest, graph, lane, i, j);
    }
}

proof fn lemma_a_feeder(ancestors: Seq<Seq<char>>, graph: GraphView, lane: Seq<char>, i: int)
    requires
        0 <= i < ancestors.len(),
        leads_into(graph, ancestors[i], lane),
    ensures
        feeders(ancestors, graph, lane) >= 1,
    decreases ancestors.len(),
{
    let rest = ancestors.drop_last();
    if i < rest.len() {
        lemma_a_feeder(rest, graph, lane, i);
    }
}

proof fn lemma_some_feeder(ancestors: Seq<Seq<char>>, graph: GraphView, lane: Seq<char>) -> (i: int)
    requires
        feeders(ancestors, graph, lane) >= 1,
    ensures
        0 <= i < ancestors.len(),
        leads_into(graph, ancestors[i], lane),
    decreases ancestors.len(),
{
    let rest = ancestors.drop_last();
    if leads_into(graph, ancestors.last(), lane) {
        ancestors.len() - 1
    } else {
        lemma_some_feeder(rest, graph, lane)
    }
}

/// Of the ancestors, only one leads into a lane with a single feeder.
proof fn lemma_only_feeder(
    ancestors: Seq<Seq<char>>,
    graph: GraphView,
    lane: Seq<char>,
    a: Seq<char>,
    b: Seq<char>,
)
    requires
        feeders(ancestors, graph, lane) == 1,
        ancestors.contains(a),
        ancestors.contains(b),
        leads_into(graph, a, lane),
        leads_into(graph, b, lane),
    ensures
        a == b,
{
    let i = choose|i: int| 0 <= i < ancestors.len() && ancestors[i] == a;
    let j = choose|j: int| 0 <= j < ancestors.len() && ancestors[j] == b;
    if i < j {
        lemma_two_feeders(ancestors, graph, lane, i, j);
    } else if j < i {
        lemma_two_feeders(ancestors, graph, lane, j, i);
    }
}

proof fn lemma_chains_part(
    s: Seq<char>,
    t: Seq<char>,
    ancestors: Seq<Seq<char>>,
    graph: GraphView,
    lanes: Seq<Lane>,
    i: int,
    j: int,
)
    requires
        ancestors.contains(s),
        ancestors.contains(t),
        feeders(ancestors, graph, s) != 1,
        feeders(ancestors, graph, t) != 1,
        0 <= i < chain_ids(chain_from(s, Set::empty(), ancestors, graph, lanes)).len(),
        0 <= j < chain_ids(chain_from(t, Set::empty(), ancestors, graph, lanes)).len(),
        chain_ids(chain_from(s, Set::empty(), ancestors, graph, lanes))[i] == chain_ids(
            chain_from(t, Set::empty(), ancestors, graph, lanes),
        )[j],
    ensures
        s == t,
    decreases i,
{
    let first = chain_ids(chain_from(s, Set::empty(), ancestors, graph, lanes));
    let second = chain_ids(chain_from(t, Set::empty(), ancestors, graph, lanes));
    lemma_chain_links(s, Set::empty(), ancestors, graph, lanes);
    lemma_chain_links(t, Set::empty(), ancestors, graph, lanes);
    if i > 0 && j > 0 {
        assert(goes_on_into(ancestors, graph, first[i]));
        assert(goes_on_into(ancestors, graph, second[j]));
        if i > 1 {
            assert(goes_on_into(ancestors, graph, first[i - 1]));
        }
        if j > 1 {
            assert(goes_on_into(ancestors, graph, second[j - 1]));
        }
        lemma_only_feeder(ancestors, graph, first[i], first[i - 1], second[j - 1]);
        lemma_chains_part(s, t, ancestors, graph, lanes, i - 1, j - 1);
    } else if i > 0 {
        assert(goes_on_into(ancestors, graph, first[i]));
    } else if j > 0 {
        assert(goes_on_into(ancestors, graph, second[j]));
    }
}

/// No lane is drawn twice: chains that start with different ancestors have no
/// lane in common.
pub proof fn chains_share_no_lane(
    s: Seq<char>,
    t: Seq<char>,
    ancestors: Seq<Seq<char>>,
    graph: GraphView,
    lanes: Seq<Lane>,
    id: Seq<char>,
)
    requires
        ancestors.contains(s),
        ancestors.contains(t),
        s != t,
        feeders(ancestors, graph, s) != 1,
        feeders(ancestors, graph, t) != 1,
    ensures
        !(chain_ids(chain_from(s, Set::empty(), ancestors, graph, lanes)).contains(id)
            && chain_ids(chain_from(t, Set::empty(), ancestors, graph, lanes)).contains(id)),
{
    let first = chain_ids(chain_from(s, Set::empty(), ancestors, graph, lanes));
    let second = chain_ids(chain_from(t, Set::empty(), ancestors, graph, lanes));
    if first.contains(id) && second.contains(id) {
        let i = choose|i: int| 0 <= i < first.len() && first[i] == id;
        let j = choose|j: int| 0 <= j < second.len() && second[j] == id;
        lemma_chains_part(s, t, ancestors, graph, lanes, i, j);
    }
}

/// The ancestors of a zone stand in order, each once; none of them is a lane
/// that the zone controls.
pub proof fn ancestors_stand_in_order(
    entries: Seq<GateView>,
    exits: Seq<GateView>,
    lanes: Seq<Lane>,
)
    ensures
        is_sorted(ancestor_lanes(entries, exits, lanes)),
        forall|id: Seq<char>| #[trigger]
            ancestor_lanes(entries, exits, lanes).contains(id) ==> exit_metres(exits, lanes, id)
                is None && exists|i: int| 0 <= i < entries.len() && (#[trigger] entries[i]).lane == id,
    decreases entries.len(),
{
    if entries.len() > 0 {
        let rest = entries.drop_last();
        let before = ancestor_lanes(rest, exits, lanes);
        let id = entries.last().lane;
        ancestors_stand_in_order(rest, exits, lanes);
        adding_an_id_keeps_the_order(before, id);
        let all = ancestor_lanes(entries, exits, lanes);
        assert forall|other: Seq<char>| #[trigger] all.contains(other) implies exit_metres(
            exits,
            lanes,
            other,
        ) is None && exists|i: int|
            0 <= i < entries.len() && (#[trigger] entries[i]).lane == other by {
            if before.contains(other) {
                let i = choose|i: int| 0 <= i < rest.len() && (#[trigger] rest[i]).lane == other;
                assert(entries[i].lane == other);
            } else {
                assert(with_id(before, id).contains(other));
                assert(entries[entries.len() - 1].lane == other);
            }
        }
    }
}

/// Whether `path` leads from ancestor to ancestor and on into `end`, each but
/// the first having no other feeder.
spec fn is_path(
    path: Seq<Seq<char>>,
    ancestors: Seq<Seq<char>>,
    graph: GraphView,
    end: Seq<char>,
) -> bool {
    &&& path.len() > 0
    &&& forall|i: int| 0 <= i < path.len() ==> ancestors.contains(#[trigger] path[i])
    &&& forall|i: int|
        1 <= i < path.len() ==> feeders(ancestors, graph, #[trigger] path[i]) == 1 && leads_into(
            graph,
            path[i - 1],
            path[i],
        )
    &&& leads_into(graph, path.last(), end)
}

/// A path into a lane that is no ancestor never comes by the same lane twice.
proof fn lemma_path_is_simple(
    path: Seq<Seq<char>>,
    ancestors: Seq<Seq<char>>,
    graph: GraphView,
    end: Seq<char>,
    i: int,
    j: int,
)
    requires
        is_path(path, ancestors, graph, end),
        !ancestors.contains(end),
        0 <= i < j < path.len(),
    ensures
        path[i] != path[j],
    decreases path.len() - j,
{
    if path[i] == path[j] {
        assert(leads_into(graph, path[i], path[i + 1]));
        if j + 1 < path.len() {
            assert(leads_into(graph, path[j], path[j + 1]));
            lemma_path_is_simple(path, ancestors, graph, end, i + 1, j + 1);
        } else {
            assert(path[i + 1] == end);
            assert(ancestors.contains(path[i + 1]));
        }
    }
}

proof fn lemma_path_fits(
    path: Seq<Seq<char>>,
    ancestors: Seq<Seq<char>>,
    graph: GraphView,
    end: Seq<char>,
)
    requires
        is_path(path, ancestors, graph, end),
        !ancestors.contains(end),
    ensures
        path.len() <= ancestors.len(),
{
    assert forall|i: int, j: int| 0 <= i < path.len() && 0 <= j < path.len() && i != j implies path[i]
        != path[j] by {
        if i < j {
            lemma_path_is_simple(path, ancestors, graph, end, i, j);
        } else {
            lemma_path_is_simple(path, ancestors, graph, end, j, i);
        }
    }
    assert(path.no_duplicates());
    path.unique_seq_to_set();
    ancestors.lemma_cardinality_of_set();
    assert(path.to_set().subset_of(ancestors.to_set()));
    vstd::set_lib::lemma_len_subset(path.to_set(), ancestors.to_set());
}

/// The chain from vertex `k` of a path goes along the path to its end.
proof fn lemma_chain_follows_path(
    path: Seq<Seq<char>>,
    ancestors: Seq<Seq<char>>,
    graph: GraphView,
    lanes: Seq<Lane>,
    end: Seq<char>,
    visited: Set<Seq<char>>,
    k: int,
)
    requires
        is_path(path, ancestors, graph, end),
        !ancestors.contains(end),
        0 <= k < path.len(),
        forall|i: int| 0 <= i < path.len() ==> lane_called(lanes, #[trigger] path[i]) is Some,
        forall|i: int| k <= i < path.len() ==> !visited.contains(#[trigger] path[i]),
    ensures
        chain_from(path[k], visited, ancestors, graph, lanes).successor == Some(end),
    decreases path.len() - k,
{
    assert(lane_called(lanes, path[k]) is Some);
    if k + 1 < path.len() {
        let seen = visited.insert(path[k]);
        assert(leads_into(graph, path[k], path[k + 1])) by {
            assert(feeders(ancestors, graph, path[k + 1]) == 1);
        }
        assert(goes_on_into(ancestors, graph, path[k + 1])) by {
            assert(ancestors.contains(path[k + 1]));
        }
        assert forall|i: int| k + 1 <= i < path.len() implies !seen.contains(
            #[trigger] path[i],
        ) by {
            lemma_path_is_simple(path, ancestors, graph, end, k, i);
        }
        lemma_one_more_visited(ancestors, visited, path[k]);
        lemma_chain_follows_path(path, ancestors, graph, lanes, end, seen, k + 1);
        reveal_with_fuel(chain_from, 2);
        let next = single_successor(graph, path[k])->0;
        assert(chain_from(path[k], visited, ancestors, graph, lanes).successor == chain_from(
            next.lane,
            seen,
            ancestors,
            graph,
            lanes,
        ).successor);
    } else {
        assert(path[k] == path.last());
    }
}

/// From any path into a lane that is no ancestor, going back along single
/// feeders leads to an ancestor that starts a chain.
proof fn lemma_path_has_start(
    path: Seq<Seq<char>>,
    ancestors: Seq<Seq<char>>,
    graph: GraphView,
    lanes: Seq<Lane>,
    end: Seq<char>,
) -> (start: int)
    requires
        is_path(path, ancestors, graph, end),
        !ancestors.contains(end),
        forall|i: int| 0 <= i < ancestors.len() ==> lane_called(lanes, #[trigger] ancestors[i]) is Some,
    ensures
        0 <= start < ancestors.len(),
        feeders(ancestors, graph, ancestors[start]) != 1,
        chain_from(ancestors[start], Set::empty(), ancestors, graph, lanes).successor == Some(end),
    decreases ancestors.len() - path.len(),
{
    lemma_path_fits(path, ancestors, graph, end);
    assert(ancestors.contains(path[0]));
    if feeders(ancestors, graph, path[0]) == 1 {
        let feeder = lemma_some_feeder(ancestors, graph, path[0]);
        let longer = seq![ancestors[feeder]] + path;
        assert forall|i: int| 0 <= i < longer.len() implies ancestors.contains(
            #[trigger] longer[i],
        ) by {
            if i > 0 {
                assert(longer[i] == path[i - 1]);
            }
        }
        assert forall|i: int| 1 <= i < longer.len() implies feeders(
            ancestors,
            graph,
            #[trigger] longer[i],
        ) == 1 && leads_into(graph, longer[i - 1], longer[i]) by {
            assert(longer[i] == path[i - 1]);
            if i > 1 {
                assert(longer[i - 1] == path[i - 2]);
                assert(feeders(ancestors, graph, path[i - 1]) == 1);
            }
        }
        assert(longer.last() == path.last());
        lemma_path_fits(longer, ancestors, graph, end);
        lemma_path_has_start(longer, ancestors, graph, lanes, end)
    } else {
        let start = choose|i: int| 0 <= i < ancestors.len() && ancestors[i] == path[0];
        assert forall|i: int| 0 <= i < path.len() implies lane_called(
            lanes,
            #[trigger] path[i],
        ) is Some by {
            assert(ancestors.contains(path[i]));
            let k = choose|k: int| 0 <= k < ancestors.len() && ancestors[k] == path[i];
            assert(lane_called(lanes, ancestors[k]) is Some);
        }
        lemma_chain_follows_path(path, ancestors, graph, lanes, end, Set::empty(), 0);
        start
    }
}

/// A gate that is drawn together with a chain is where a chain ends.
pub proof fn an_absorbed_gate_ends_a_chain(
    gates: Seq<CoreGateView>,
    ancestors: Seq<Seq<char>>,
    graph: GraphView,
    lanes: Seq<Lane>,
    i: int,
) -> (start: int)
    requires
        0 <= i < gates.len(),
        is_absorbed(gates, ancestors, graph, i),
        !ancestors.contains(gates[i].lane.id@),
        forall|k: int| 0 <= k < ancestors.len() ==> lane_called(lanes, #[trigger] ancestors[k]) is Some,
    ensures
        0 <= start < ancestors.len(),
        feeders(ancestors, graph, ancestors[start]) != 1,
        chain_from(ancestors[start], Set::empty(), ancestors, graph, lanes).successor == Some(
            gates[i].lane.id@,
        ),
{
    let end = gates[i].lane.id@;
    let feeder = lemma_some_feeder(ancestors, graph, end);
    let path = seq![ancestors[feeder]];
    assert(ancestors.contains(path[0]));
    lemma_path_has_start(path, ancestors, graph, lanes, end)
}

proof fn lemma_core_stroke_drawn(
    gates: Seq<CoreGateView>,
    ancestors: Seq<Seq<char>>,
    graph: GraphView,
    upto: nat,
    i: int,
)
    requires
        0 <= i < upto <= gates.len(),
        !is_absorbed(gates, ancestors, graph, i),
    ensures
        core_strokes(gates, ancestors, graph, upto).contains(own_stroke(gates[i])),
    decreases upto,
{
    let drawn = core_strokes(gates, ancestors, graph, upto);
    let before = core_strokes(gates, ancestors, graph, (upto - 1) as nat);
    if i == upto - 1 {
        assert(drawn[before.len() as int] == own_stroke(gates[i]));
    } else {
        lemma_core_stroke_drawn(gates, ancestors, graph, (upto - 1) as nat, i);
        let k = choose|k: int| 0 <= k < before.len() && before[k] == own_stroke(gates[i]);
        assert(drawn[k] == own_stroke(gates[i]));
    }
}

proof fn lemma_chain_stroke_drawn(
    gates: Seq<CoreGateView>,
    ancestors: Seq<Seq<char>>,
    graph: GraphView,
    lanes: Seq<Lane>,
    pad: Double,
    upto: nat,
    start: int,
    stroke: StrokeView,
)
    requires
        0 <= start < upto <= ancestors.len(),
        feeders(ancestors, graph, ancestors[start]) != 1,
        chain_stroke(
            chain_from(ancestors[start], Set::empty(), ancestors, graph, lanes),
            gates,
            ancestors,
            graph,
            pad,
        ) == Some(stroke),
    ensures
        chain_strokes(gates, ancestors, graph, lanes, pad, upto).contains(stroke),
    decreases upto,
{
    let drawn = chain_strokes(gates, ancestors, graph, lanes, pad, upto);
    let before = chain_strokes(gates, ancestors, graph, lanes, pad, (upto - 1) as nat);
    if start == upto - 1 {
        assert(drawn[before.len() as int] == stroke);
    } else {
        lemma_chain_stroke_drawn(
            gates,
            ancestors,
            graph,
            lanes,
            pad,
            (upto - 1) as nat,
            start,
            stroke,
        );
        let k = choose|k: int| 0 <= k < before.len() && before[k] == stroke;
        assert(drawn[k] == stroke);
    }
}

/// The stroke of a gate that is drawn on its own.
pub open spec fn own_stroke(gate: CoreGateView) -> StrokeView {
    stroke_along(gate.lane.shape@, gate.entry, gate.exit, gate.lane.width, LineEnd::Butt)
}

/// Whether `stroke` is that of a chain which ends in the lane `id`.
pub open spec fn is_stroke_into(
    stroke: StrokeView,
    id: Seq<char>,
    gates: Seq<CoreGateView>,
    ancestors: Seq<Seq<char>>,
    graph: GraphView,
    lanes: Seq<Lane>,
    pad: Double,
) -> bool {
    exists|k: int|
        0 <= k < ancestors.len() && ({
            let chain = chain_from(
                #[trigger] ancestors[k],
                Set::empty(),
                ancestors,
                graph,
                lanes,
            );
            chain.successor == Some(id) && chain_stroke(chain, gates, ancestors, graph, pad)
                == Some(stroke)
        })
}

/// Every lane that a zone controls is drawn: its gate has a stroke of its own,
/// or there is a stroke of a chain that ends in it.
pub proof fn every_gate_is_drawn(
    gates: Seq<CoreGateView>,
    ancestors: Seq<Seq<char>>,
    graph: GraphView,
    lanes: Seq<Lane>,
    pad: Double,
    i: int,
)
    requires
        0 <= i < gates.len(),
        !ancestors.contains(gates[i].lane.id@),
        forall|k: int| 0 <= k < ancestors.len() ==> lane_called(lanes, #[trigger] ancestors[k]) is Some,
        forall|k: int|
            0 <= k < ancestors.len() ==> chain_from(
                #[trigger] ancestors[k],
                Set::empty(),
                ancestors,
                graph,
                lanes,
            ).points.len() >= 2,
    ensures
        core_strokes(gates, ancestors, graph, gates.len()).contains(own_stroke(gates[i]))
            || exists|stroke: StrokeView| #[trigger]
            chain_strokes(gates, ancestors, graph, lanes, pad, ancestors.len()).contains(stroke)
                && is_stroke_into(
                stroke,
                gates[i].lane.id@,
                gates,
                ancestors,
                graph,
                lanes,
                pad,
            ),
{
    if is_absorbed(gates, ancestors, graph, i) {
        let start = an_absorbed_gate_ends_a_chain(gates, ancestors, graph, lanes, i);
        let chain = chain_from(ancestors[start], Set::empty(), ancestors, graph, lanes);
        let stroke = chain_stroke(chain, gates, ancestors, graph, pad)->0;
        lemma_chain_stroke_drawn(
            gates,
            ancestors,
            graph,
            lanes,
            pad,
            ancestors.len(),
            start,
            stroke,
        );
    } else {
        lemma_core_stroke_drawn(gates, ancestors, graph, gates.len(), i);
    }
}

} // verus!
