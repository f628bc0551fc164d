//! What holds of the way from lane to lane.

use crate::chains::{chain_from, feeders, goes_on_into, unvisited_ancestors, via_points};
use crate::chains::lemma_one_more_visited;
use crate::connectivity::{links_from, GraphView, LinkView};
use crate::drawing::outline_of;
use crate::graph_laws::{leads, successors_are_the_lanes_with_a_link_from_it};
use crate::lane_table::lane_called;
use crate::network::{Lane, Point};
use crate::plane::{same_place, Coord};
use crate::ring::{least, least_is_the_first};
use crate::successors::{single_successor, SuccessorView};
use vstd::prelude::*;

verus! {

/// Whether the link at `i` is the first out of `lane` that leads into a known
/// lane.
pub open spec fn is_first_link(g: GraphView, lane: Seq<char>, i: int) -> bool {
    0 <= i < g.links.len() && g.links[i].from == Some(lane) && g.links[i].to is Some && forall|
        j: int,
    |
        0 <= j < i && (#[trigger] g.links[j]).from == Some(lane) ==> g.links[j].to is None
}

/// Whether every link out of `lane` into a known lane leads into `to`, and
/// there is one.
pub open spec fn leads_into_alone(g: GraphView, lane: Seq<char>, to: Seq<char>) -> bool {
    &&& exists|i: int| 0 <= i < g.links.len() && leads(#[trigger] g.links[i], lane, to)
    &&& forall|i: int|
        0 <= i < g.links.len() && (#[trigger] g.links[i]).from == Some(lane) && g.links[i].to is Some
            ==> g.links[i].to == Some(to)
}

proof fn lemma_single(g: GraphView, lane: Seq<char>)
    ensures
        g.successors(lane).len() == 1 <==> exists|to: Seq<char>| #[trigger]
            leads_into_alone(g, lane, to),
{
    let next = g.successors(lane);
    if next.len() == 1 {
        let to = next[0];
        assert(next.contains(to));
        successors_are_the_lanes_with_a_link_from_it(g, lane, to);
        assert forall|i: int|
            0 <= i < g.links.len() && (#[trigger] g.links[i]).from == Some(lane) && g.links[i].to is Some implies g.links[i].to
            == Some(to) by {
            let other = g.links[i].to->0;
            assert(leads(g.links[i], lane, other));
            successors_are_the_lanes_with_a_link_from_it(g, lane, other);
        }
        assert(leads_into_alone(g, lane, to));
    }
    if exists|to: Seq<char>| #[trigger] leads_into_alone(g, lane, to) {
        let to = choose|to: Seq<char>| #[trigger] leads_into_alone(g, lane, to);
        successors_are_the_lanes_with_a_link_from_it(g, lane, to);
        assert(next.contains(to));
        assert forall|k: int| 0 <= k < next.len() implies next[k] == to by {
            assert(next.contains(next[k]));
            successors_are_the_lanes_with_a_link_from_it(g, lane, next[k]);
            let i = choose|i: int|
                0 <= i < g.links.len() && leads(#[trigger] g.links[i], lane, next[k]);
            assert(g.links[i].from == Some(lane));
        }
        if next.len() > 1 {
            assert(next[0] == next[1]);
        }
    }
}

proof fn lemma_first_out(links: Seq<LinkView>, lane: Seq<char>) -> (i: int)
    ensures
        ({
            let out = links_from(links, lane);
            match least(out.len(), |k: int| out[k].to is Some) {
                Some(k) => k < out.len() && 0 <= i < links.len() && links[i] == out[k as int]
                    && links[i].from == Some(lane) && links[i].to is Some && forall|j: int|
                    0 <= j < i && (#[trigger] links[j]).from == Some(lane) ==> links[j].to is None,
                None => forall|j: int|
                    0 <= j < links.len() && (#[trigger] links[j]).from == Some(lane)
                        ==> links[j].to is None,
            }
        }),
    decreases links.len(),
{
    reveal(Seq::filter);
    let out = links_from(links, lane);
    let known = |k: int| out[k].to is Some;
    least_is_the_first(out.len(), known);
    if links.len() == 0 {
        0
    } else {
        let rest = links.drop_last();
        let last = links.last();
        let less = links_from(rest, lane);
        let known_less = |k: int| less[k].to is Some;
        let i = lemma_first_out(rest, lane);
        least_is_the_first(less.len(), known_less);
        assert forall|k: int| 0 <= k < less.len() implies out[k] == #[trigger] less[k] by {}
        assert forall|j: int| 0 <= j < rest.len() implies #[trigger] links[j] == rest[j] by {}
        match least(less.len(), known_less) {
            Some(k) => {
                assert(known(k as int));
                assert(least(out.len(), known) == Some(k)) by {
                    match least(out.len(), known) {
                        Some(m) => {
                            if m < k {
                                assert(!known_less(m as int));
                                assert(known(m as int));
                            } else if k < m {
                                assert(!known(k as int));
                            }
                        },
                        None => {
                            assert(!known(k as int));
                        },
                    }
                }
                i
            },
            None => {
                assert forall|j: int|
                    0 <= j < rest.len() && (#[trigger] links[j]).from == Some(lane) implies links[j].to is None by {
                    assert(rest[j].to is None);
                }
                if last.from == Some(lane) && last.to is Some {
                    assert(known(less.len() as int));
                    assert(least(out.len(), known) == Some(less.len())) by {
                        match least(out.len(), known) {
                            Some(m) => {
                                if m < less.len() {
                                    assert(known(m as int));
                                    assert(!known_less(m as int));
                                }
                                if less.len() < m {
                                    assert(!known(less.len() as int));
                                }
                            },
                            None => {
                                assert(!known(less.len() as int));
                            },
                        }
                    }
                } else {
                    if let Some(m) = least(out.len(), known) {
                        assert(known(m as int));
                        if m < less.len() {
                            assert(!known_less(m as int));
                        }
                    }
                }
                links.len() - 1
            },
        }
    }
}

/// A lane has a single successor where all its links into known lanes lead into
/// the same one. The way there is by the internal lane that the first of these
/// links names, if it names one.
pub proof fn a_single_successor_is_where_all_links_lead(g: GraphView, lane: Seq<char>)
    ensures
        single_successor(g, lane) is Some <==> exists|to: Seq<char>| #[trigger]
            leads_into_alone(g, lane, to),
        single_successor(g, lane) matches Some(next) ==> leads_into_alone(g, lane, next.lane)
            && exists|i: int| #[trigger]
            is_first_link(g, lane, i) && g.links[i].via == next.via,
{
    lemma_single(g, lane);
    let i = lemma_first_out(g.links, lane);
    let out = links_from(g.links, lane);
    if g.successors(lane).len() == 1 {
        let to = choose|to: Seq<char>| #[trigger] leads_into_alone(g, lane, to);
        let j = choose|j: int| 0 <= j < g.links.len() && leads(#[trigger] g.links[j], lane, to);
        assert(least(out.len(), |k: int| out[k].to is Some) is Some);
        assert(is_first_link(g, lane, i));
        assert(g.links[i].to == Some(to));
        assert(single_successor(g, lane) == Some(
            SuccessorView { lane: to, via: g.links[i].via },
        ));
    }
}

/// Lanes feed another one by one: those of two lists are those of the first and
/// those of the second.
pub proof fn feeders_are_counted_one_by_one(
    a: Seq<Seq<char>>,
    b: Seq<Seq<char>>,
    g: GraphView,
    lane: Seq<char>,
)
    ensures
        feeders(a + b, g, lane) == feeders(a, g, lane) + feeders(b, g, lane),
        b.len() == 1 ==> feeders(b, g, lane) == (if leads_into_alone(g, b[0], lane) {
            1int
        } else {
            0
        }),
    decreases b.len(),
{
    reveal_with_fuel(feeders, 2);
    if b.len() == 0 {
        assert(a + b =~= a);
    } else {
        feeders_are_counted_one_by_one(a, b.drop_last(), g, lane);
        assert((a + b).drop_last() =~= a + b.drop_last());
        assert((a + b).last() == b.last());
        if b.len() == 1 {
            a_single_successor_is_where_all_links_lead(g, b[0]);
            if let Some(next) = single_successor(g, b[0]) {
                if leads_into_alone(g, b[0], lane) {
                    let i = choose|i: int|
                        0 <= i < g.links.len() && leads(#[trigger] g.links[i], b[0], lane);
                    assert(g.links[i].from == Some(b[0]));
                }
            }
        }
    }
}

/// The shapes of lanes, one after another, each with the shape of the internal
/// lane that leads on from it.
pub open spec fn laid_end_to_end(course: Seq<Lane>, g: GraphView, lanes: Seq<Lane>) -> Seq<Point>
    decreases course.len(),
{
    if course.len() == 0 {
        Seq::empty()
    } else {
        let lane = course.last();
        let before = laid_end_to_end(course.drop_last(), g, lanes);
        match single_successor(g, lane.id@) {
            Some(next) => match next.via {
                Some(via) => match lane_called(lanes, via) {
                    Some(between) => before + lane.shape@ + between.shape@,
                    None => before + lane.shape@,
                },
                None => before + lane.shape@,
            },
            None => before + lane.shape@,
        }
    }
}

proof fn lemma_laid_on(first: Lane, course: Seq<Lane>, g: GraphView, lanes: Seq<Lane>)
    ensures
        laid_end_to_end(seq![first] + course, g, lanes) == laid_end_to_end(seq![first], g, lanes)
            + laid_end_to_end(course, g, lanes),
    decreases course.len(),
{
    if course.len() == 0 {
        assert(seq![first] + course =~= seq![first]);
        assert(laid_end_to_end(seq![first], g, lanes) + Seq::empty() =~= laid_end_to_end(
            seq![first],
            g,
            lanes,
        ));
    } else {
        let rest = course.drop_last();
        let all = seq![first] + course;
        lemma_laid_on(first, rest, g, lanes);
        assert(all.drop_last() =~= seq![first] + rest);
        assert(all.last() == course.last());
        let head = laid_end_to_end(seq![first], g, lanes);
        let middle = laid_end_to_end(rest, g, lanes);
        let shape = course.last().shape@;
        assert((head + middle) + shape =~= head + (middle + shape));
        if let Some(next) = single_successor(g, course.last().id@) {
            if let Some(via) = next.via {
                if let Some(between) = lane_called(lanes, via) {
                    let further = between.shape@;
                    assert((head + middle) + shape + further =~= head + (middle + shape + further));
                }
            }
        }
        assert(laid_end_to_end(all, g, lanes) =~= head + laid_end_to_end(course, g, lanes));
    }
}

proof fn lemma_called_bears_its_id(lanes: Seq<Lane>, id: Seq<char>)
    ensures
        lane_called(lanes, id) matches Some(lane) ==> lane.id@ == id,
    decreases lanes.len(),
{
    if lanes.len() > 0 && lanes.last().id@ != id {
        lemma_called_bears_its_id(lanes.drop_last(), id);
        assert(lane_called(lanes, id) == lane_called(lanes.drop_last(), id));
    }
}

/// The points of a chain are the shapes of its lanes, one after another, each
/// with the shape of the internal lane that leads on from it. The lane that it
/// is said to lead into last is the single successor of its last lane, and
/// where that has none, the last lane that another of the chain leads into.
pub proof fn a_chain_lays_its_lanes_end_to_end(
    current: Seq<char>,
    visited: Set<Seq<char>>,
    ancestors: Seq<Seq<char>>,
    g: GraphView,
    lanes: Seq<Lane>,
)
    ensures
        ({
            let chain = chain_from(current, visited, ancestors, g, lanes);
            &&& chain.points == laid_end_to_end(chain.lanes, g, lanes)
            &&& chain.lanes.len() > 0 <==> lane_called(lanes, current) is Some && !visited.contains(
                current,
            )
            &&& chain.lanes.len() > 0 ==> Some(chain.lanes[0]) == lane_called(lanes, current)
            &&& chain.lanes.len() > 0 ==> chain.successor == match single_successor(
                g,
                chain.lanes.last().id@,
            ) {
                Some(next) => Some(next.lane),
                None => if chain.lanes.len() > 1 {
                    Some(chain.lanes.last().id@)
                } else {
                    None
                },
            }
        }),
    decreases
            unvisited_ancestors(ancestors, visited),
            if ancestors.contains(current) {
                0int
            } else {
                1int
            },
{
    let chain = chain_from(current, visited, ancestors, g, lanes);
    if let Some(lane) = lane_called(lanes, current) {
        lemma_called_bears_its_id(lanes, current);
        if !visited.contains(current) {
            let one = seq![lane];
            assert(one.drop_last() =~= Seq::empty());
            reveal_with_fuel(laid_end_to_end, 2);
            assert(Seq::<Point>::empty() + lane.shape@ =~= lane.shape@);
            if let Some(next) = single_successor(g, current) {
                let here = lane.shape@ + via_points(next.via, lanes);
                assert(laid_end_to_end(one, g, lanes) =~= here);
                if goes_on_into(ancestors, g, next.lane) {
                    lemma_one_more_visited(ancestors, visited, current);
                    a_chain_lays_its_lanes_end_to_end(
                        next.lane,
                        visited.insert(current),
                        ancestors,
                        g,
                        lanes,
                    );
                    let rest = chain_from(
                        next.lane,
                        visited.insert(current),
                        ancestors,
                        g,
                        lanes,
                    );
                    lemma_laid_on(lane, rest.lanes, g, lanes);
                    assert(chain.lanes == one + rest.lanes);
                    if rest.lanes.len() == 0 {
                        assert(chain.lanes =~= one);
                        assert(rest.points =~= Seq::empty());
                    } else {
                        assert(chain.lanes.last() == rest.lanes.last());
                        lemma_called_bears_its_id(lanes, next.lane);
                    }
                }
            }
        }
    }
}

/// The outline of a pavement goes through the points of its lane's shape, in
/// order, and back to the first of them; with fewer than three points there is
/// none.
pub proof fn an_outline_goes_round_the_pavement(lane: Lane)
    ensures
        outline_of(lane) is Some <==> lane.shape@.len() >= 3,
        outline_of(lane) matches Some(ring) ==> {
            let points = lane.shape@;
            let first = Coord { x: points[0].x, y: points[0].y };
            let last = Coord { x: points.last().x, y: points.last().y };
            &&& forall|i: int|
                0 <= i < points.len() ==> #[trigger] ring[i] == (Coord {
                    x: points[i].x,
                    y: points[i].y,
                })
            &&& same_place(first, last) ==> ring.len() == points.len()
            &&& !same_place(first, last) ==> ring.len() == points.len() + 1 && ring.last() == first
        },
{
}

} // verus!
