//! Zones leave no way back untaken.

use crate::approach::{extension, hop, is_passable, length_of, walk, walk_each};
use crate::connectivity::{lane_named, GraphView, PlacedLane};
use crate::double::{is_less, minus, Double};
use crate::graph_laws::{
    leads, lemma_last_where, predecessors_are_the_lanes_with_a_link_into_it,
};
use crate::reach_laws::{
    is_way_back, leads_only_into, left_of, lemma_is_passable, may_go_on, onward,
};
use vstd::prelude::*;

verus! {

/// Whether `path` leads back from `lane`, each lane of it leading into the one
/// before and nowhere else.
#[verifier::opaque]
spec fn leads_back(g: GraphView, lane: Seq<char>, path: Seq<Seq<char>>) -> bool {
    forall|k: int|
        0 <= k < path.len() ==> leads_only_into(g, #[trigger] path[k], onward(lane, path, k))
}

/// Whether no lane of `path` is in `visited`.
spec fn spares(path: Seq<Seq<char>>, visited: Set<Seq<char>>) -> bool {
    forall|k: int| 0 <= k < path.len() ==> !visited.contains(#[trigger] path[k])
}

/// A lane of the way back that precedes `here` is the first one, and `here` is
/// the lane that the way leads back from.
proof fn lemma_only_one_way_on(
    g: GraphView,
    lane: Seq<char>,
    path: Seq<Seq<char>>,
    here: Seq<char>,
    from: Seq<char>,
)
    requires
        leads_back(g, lane, path),
        !path.contains(here),
        g.predecessors(here).contains(from),
        path.contains(from),
    ensures
        here == lane,
        from == path[0],
{
    reveal(leads_back);
    let k = choose|k: int| 0 <= k < path.len() && path[k] == from;
    assert(leads_only_into(g, path[k], onward(lane, path, k)));
    predecessors_are_the_lanes_with_a_link_into_it(g, here, from);
    let i = choose|i: int| 0 <= i < g.links.len() && leads(#[trigger] g.links[i], from, here);
    assert(g.links[i].from == Some(from));
    assert(onward(lane, path, k) == here);
    if k > 0 {
        assert(path.contains(path[k - 1]));
    }
}

proof fn lemma_walk_spares(
    g: GraphView,
    lane: Seq<char>,
    path: Seq<Seq<char>>,
    here: Seq<char>,
    visited: Set<Seq<char>>,
    budget: Double,
    stop: bool,
    depth: nat,
)
    requires
        leads_back(g, lane, path),
        !path.contains(here),
        visited.contains(lane),
        spares(path, visited),
    ensures
        spares(path, walk(g, here, visited, budget, stop, depth).1),
        walk(g, here, visited, budget, stop, depth).1.contains(lane),
    decreases depth, 0nat,
{
    if depth > 0 && !visited.contains(here) {
        assert forall|k: int| 0 <= k < path.len() implies !visited.insert(here).contains(
            #[trigger] path[k],
        ) by {
            assert(path.contains(path[k]));
        }
        lemma_walk_each_spares(
            g,
            lane,
            path,
            here,
            g.predecessors(here),
            visited.insert(here),
            budget,
            stop,
            (depth - 1) as nat,
        );
    }
}

proof fn lemma_walk_each_spares(
    g: GraphView,
    lane: Seq<char>,
    path: Seq<Seq<char>>,
    here: Seq<char>,
    lanes: Seq<Seq<char>>,
    visited: Set<Seq<char>>,
    budget: Double,
    stop: bool,
    depth: nat,
)
    requires
        leads_back(g, lane, path),
        !path.contains(here),
        visited.contains(lane),
        spares(path, visited),
        forall|i: int| 0 <= i < lanes.len() ==> g.predecessors(here).contains(#[trigger] lanes[i]),
        here == lane && path.len() > 0 ==> !lanes.contains(path[0]),
    ensures
        spares(path, walk_each(g, here, lanes, visited, budget, stop, depth).1),
        walk_each(g, here, lanes, visited, budget, stop, depth).1.contains(lane),
    decreases depth, lanes.len() + 1,
{
    if lanes.len() > 0 {
        let rest = lanes.drop_last();
        let from = lanes.last();
        assert forall|i: int| 0 <= i < rest.len() implies g.predecessors(here).contains(
            #[trigger] rest[i],
        ) by {
            assert(rest[i] == lanes[i]);
        }
        if rest.contains(path[0]) {
            let j = choose|j: int| 0 <= j < rest.len() && rest[j] == path[0];
            assert(lanes[j] == path[0]);
        }
        lemma_walk_each_spares(g, lane, path, here, rest, visited, budget, stop, depth);
        let before = walk_each(g, here, rest, visited, budget, stop, depth);
        assert(from == lanes[lanes.len() - 1]);
        if path.contains(from) {
            lemma_only_one_way_on(g, lane, path, here, from);
            assert(lanes.contains(path[0]));
        }
        if is_passable(g, from, budget) && !before.1.contains(from) {
            lemma_walk_spares(
                g,
                lane,
                path,
                from,
                before.1,
                minus(budget, length_of(g, from)),
                stop,
                depth,
            );
        }
    }
}

proof fn lemma_left_after_first(g: GraphView, budget: Double, path: Seq<Seq<char>>, k: int)
    requires
        0 < k <= path.len(),
    ensures
        left_of(g, budget, path.take(k)) == left_of(
            g,
            minus(budget, length_of(g, path[0])),
            path.skip(1).take(k - 1),
        ),
    decreases k,
{
    let p = path.take(k);
    let q = path.skip(1).take(k - 1);
    assert(p.drop_last() =~= path.take(k - 1));
    assert(p.last() == path[k - 1]);
    if k > 1 {
        lemma_left_after_first(g, budget, path, k - 1);
        assert(q.drop_last() =~= path.skip(1).take(k - 2));
        assert(q.last() == path[k - 1]);
    } else {
        assert(left_of(g, budget, p.drop_last()) == budget);
        assert(q.len() == 0);
    }
}

proof fn lemma_rest_of_the_way(
    g: GraphView,
    lane: Seq<char>,
    path: Seq<Seq<char>>,
    budget: Double,
    stop: bool,
)
    requires
        path.len() > 0,
        is_way_back(g, lane, path, budget, stop),
    ensures
        is_way_back(
            g,
            path[0],
            path.skip(1),
            minus(budget, length_of(g, path[0])),
            stop,
        ),
{
    reveal(is_way_back);
    let rest = path.skip(1);
    let left = minus(budget, length_of(g, path[0]));
    assert forall|k: int| 0 <= k < rest.len() implies leads_only_into(
        g,
        #[trigger] rest[k],
        onward(path[0], rest, k),
    ) && is_less(length_of(g, rest[k]), left_of(g, left, rest.take(k))) && may_go_on(
        g,
        onward(path[0], rest, k),
        left_of(g, left, rest.take(k)),
        stop,
    ) by {
        assert(rest[k] == path[k + 1]);
        assert(leads_only_into(g, path[k + 1], onward(lane, path, k + 1)));
        assert(onward(path[0], rest, k) == onward(lane, path, k + 1));
        lemma_left_after_first(g, budget, path, k + 1);
    }
}

proof fn lemma_way_is_taken(
    g: GraphView,
    lane: Seq<char>,
    path: Seq<Seq<char>>,
    visited: Set<Seq<char>>,
    budget: Double,
    stop: bool,
    depth: nat,
)
    requires
        path.len() > 0,
        is_way_back(g, lane, path, budget, stop),
        path.no_duplicates(),
        !path.contains(lane),
        !visited.contains(lane),
        spares(path, visited),
        depth >= path.len(),
    ensures
        walk(g, lane, visited, budget, stop, depth).0.contains(path.last()),
    decreases path.len(), 0nat,
{
    assert(leads_only_into(g, path[0], lane) && may_go_on(g, lane, budget, stop)
        && is_less(length_of(g, path[0]), budget)) by {
        reveal(is_way_back);
        assert(path.take(0) =~= Seq::empty());
        assert(onward(lane, path, 0) == lane);
        assert(leads_only_into(g, path[0], onward(lane, path, 0)));
    }
    lemma_is_passable(g, lane, budget, path[0]);
    let here = visited.insert(lane);
    assert forall|k: int| 0 <= k < path.len() implies !here.contains(#[trigger] path[k]) by {
        assert(path.contains(path[k]));
    }
    let origins = g.predecessors(lane);
    assert forall|i: int| 0 <= i < origins.len() implies g.predecessors(lane).contains(
        #[trigger] origins[i],
    ) by {}
    lemma_way_is_taken_among(
        g,
        lane,
        path,
        origins,
        here,
        budget,
        stop,
        (depth - 1) as nat,
    );
}

proof fn lemma_way_is_taken_among(
    g: GraphView,
    lane: Seq<char>,
    path: Seq<Seq<char>>,
    lanes: Seq<Seq<char>>,
    visited: Set<Seq<char>>,
    budget: Double,
    stop: bool,
    depth: nat,
)
    requires
        path.len() > 0,
        is_way_back(g, lane, path, budget, stop),
        is_passable(g, path[0], budget),
        path.no_duplicates(),
        !path.contains(lane),
        visited.contains(lane),
        spares(path, visited),
        depth + 1 >= path.len(),
        lanes.contains(path[0]),
        lanes.no_duplicates(),
        forall|i: int| 0 <= i < lanes.len() ==> g.predecessors(lane).contains(#[trigger] lanes[i]),
    ensures
        walk_each(g, lane, lanes, visited, budget, stop, depth).0.contains(path.last()),
    decreases path.len() - 1, lanes.len() + 1,
{
    let all = walk_each(g, lane, lanes, visited, budget, stop, depth);
    let others = lanes.drop_last();
    let from = lanes.last();
    let before = walk_each(g, lane, others, visited, budget, stop, depth);
    assert forall|i: int| 0 <= i < others.len() implies g.predecessors(lane).contains(
        #[trigger] others[i],
    ) by {
        assert(others[i] == lanes[i]);
    }
    let j = choose|j: int| 0 <= j < lanes.len() && lanes[j] == path[0];
    let step = hop(g, from, lane);
    if j == lanes.len() - 1 {
        assert(leads_back(g, lane, path)) by {
            reveal(is_way_back);
            reveal(leads_back);
        }
        if others.contains(path[0]) {
            let m = choose|m: int| 0 <= m < others.len() && others[m] == path[0];
            assert(lanes[m] == lanes[j]);
        }
        lemma_walk_each_spares(g, lane, path, lane, others, visited, budget, stop, depth);
        assert(!before.1.contains(path[0]));
        let left = minus(budget, length_of(g, from));
        let further = walk(g, from, before.1, left, stop, depth);
        assert(all.0 == before.0 + step + further.0);
        assert(step.last() == from);
        let at = before.0.len() + step.len();
        if path.len() == 1 {
            assert(all.0[at - 1] == path.last());
        } else {
            let rest = path.skip(1);
            lemma_rest_of_the_way(g, lane, path, budget, stop);
            assert forall|k: int| 0 <= k < rest.len() implies !before.1.contains(
                #[trigger] rest[k],
            ) by {
                assert(rest[k] == path[k + 1]);
            }
            if rest.contains(from) {
                let m = choose|m: int| 0 <= m < rest.len() && rest[m] == from;
                assert(path[m + 1] == path[0]);
            }
            lemma_way_is_taken(g, from, rest, before.1, left, stop, depth);
            assert(rest.last() == path.last());
            let m = choose|m: int| 0 <= m < further.0.len() && further.0[m] == path.last();
            assert(all.0[at + m] == path.last());
        }
    } else {
        assert(others[j] == path[0]);
        lemma_way_is_taken_among(g, lane, path, others, visited, budget, stop, depth);
        let m = choose|m: int| 0 <= m < before.0.len() && before.0[m] == path.last();
        assert(all.0[m] == path.last());
    }
}

/// A way back that visits no lane twice is no longer than there are lanes.
proof fn lemma_way_is_short(
    g: GraphView,
    lane: Seq<char>,
    path: Seq<Seq<char>>,
    budget: Double,
    stop: bool,
)
    requires
        is_way_back(g, lane, path, budget, stop),
        path.no_duplicates(),
    ensures
        path.len() <= g.lanes.len(),
{
    reveal(is_way_back);
    let ids = g.lanes.map_values(|l: PlacedLane| l.id);
    assert forall|id: Seq<char>| path.to_set().contains(id) implies #[trigger] ids.to_set().contains(
        id,
    ) by {
        let k = choose|k: int| 0 <= k < path.len() && path[k] == id;
        assert(leads_only_into(g, path[k], onward(lane, path, k)));
        let wanted = |l: PlacedLane| l.id == id;
        assert(lane_named(g.lanes, id) is Some);
        lemma_last_where(g.lanes, wanted);
        let l = lane_named(g.lanes, id)->0;
        let i = choose|i: int| 0 <= i < g.lanes.len() && #[trigger] g.lanes[i] == l;
        assert(ids[i] == id);
    }
    path.unique_seq_to_set();
    ids.lemma_cardinality_of_set();
    vstd::set_lib::lemma_len_subset(path.to_set(), ids.to_set());
}

/// Every way back is taken: a zone goes on into each lane that leads, over
/// lanes that each lead into the next and nowhere else, into its own, for as
/// long as its budget lasts, and as far as the complex junctions that it is to
/// stop at.
pub proof fn every_way_back_is_taken(
    g: GraphView,
    lane: Seq<char>,
    path: Seq<Seq<char>>,
    budget: Double,
    stop_at_complex_intersections: bool,
)
    requires
        path.len() > 0,
        is_way_back(g, lane, path, budget, stop_at_complex_intersections),
        path.no_duplicates(),
        !path.contains(lane),
    ensures
        extension(g, lane, budget, stop_at_complex_intersections).contains(path.last()),
{
    lemma_way_is_short(g, lane, path, budget, stop_at_complex_intersections);
    lemma_way_is_taken(
        g,
        lane,
        path,
        Set::empty(),
        budget,
        stop_at_complex_intersections,
        g.lanes.len() + 2,
    );
}

} // verus!
