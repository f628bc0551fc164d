//! Chains of lanes that lead one into the next, up to the lanes that a zone
//! controls.

use crate::connectivity::{is_among, GraphView};
use crate::id_set::IdSet;
use crate::lane_table::{lane_called, LaneTable};
use crate::network::{Lane, Point};
use crate::order::{
    compare_text, optional_text, text_order, text_order_is_total, text_rank, texts, Rank,
};
use crate::successors::{single_successor, Successors};
use vstd::prelude::*;

verus! {

/// A sorted list of ids with `id` put in where it belongs, unless it is there.
pub open spec fn with_id(ids: Seq<Seq<char>>, id: Seq<char>) -> Seq<Seq<char>>
    decreases ids.len(),
{
    if ids.len() == 0 {
        seq![id]
    } else {
        match text_rank(ids.last(), id) {
            Rank::Before => ids.push(id),
            Rank::Same => ids,
            Rank::After => with_id(ids.drop_last(), id).push(ids.last()),
        }
    }
}

/// Whether ids stand in order, each once.
pub open spec fn is_sorted(ids: Seq<Seq<char>>) -> bool {
    forall|i: int, j: int|
        0 <= i < j < ids.len() ==> #[trigger] text_rank(ids[i], ids[j]) == Rank::Before
}

/// Puts `id` into a sorted list of ids, unless it is there.
pub fn add_id(ids: &mut Vec<String>, id: &String)
    ensures
        texts(final(ids)@) == with_id(texts(old(ids)@), id@),
{
    let ghost start = texts(ids@);
    let mut k: usize = ids.len();
    assert(start.take(k as int) =~= start);
    assert(with_id(start, id@) =~= with_id(start.take(k as int), id@) + start.skip(k as int));
    let mut found: bool = false;
    while k > 0
        invariant_except_break
            !found,
        invariant
            start == texts(ids@),
            k <= ids@.len(),
            with_id(start, id@) == with_id(start.take(k as int), id@) + start.skip(k as int),
        ensures
            found ==> with_id(start, id@) == start,
            !found ==> with_id(start.take(k as int), id@) == start.take(k as int).push(id@),
        decreases k,
    {
        let ghost head = start.take(k as int);
        assert(head.last() == ids@[k - 1]@);
        match compare_text(ids[k - 1].as_str(), id.as_str()) {
            Rank::Before => {
                break;
            },
            Rank::Same => {
                found = true;
                assert(head + start.skip(k as int) =~= start);
                break;
            },
            Rank::After => {
                assert(head.drop_last() =~= start.take(k - 1));
                assert(with_id(head.drop_last(), id@).push(head.last()) + start.skip(k as int)
                    =~= with_id(start.take(k - 1), id@) + start.skip(k - 1));
                k = k - 1;
            },
        }
    }
    if !found {
        ids.insert(k, id.clone());
        assert(texts(ids@) =~= start.take(k as int).push(id@) + start.skip(k as int));
    }
}

/// Putting an id into a list of ids that stand in order leaves them in order,
/// and adds nothing else.
pub proof fn adding_an_id_keeps_the_order(ids: Seq<Seq<char>>, id: Seq<char>)
    requires
        is_sorted(ids),
    ensures
        is_sorted(with_id(ids, id)),
        forall|other: Seq<char>| #[trigger]
            with_id(ids, id).contains(other) <==> ids.contains(other) || other == id,
    decreases ids.len(),
{
    text_order_is_total();
    let order = text_order();
    let longer = with_id(ids, id);
    assert forall|a: Seq<char>, b: Seq<char>, c: Seq<char>|
        #[trigger] text_rank(a, b) == Rank::Before && #[trigger] text_rank(b, c)
            == Rank::Before implies text_rank(a, c) == Rank::Before by {
        assert(order(a, b) == Rank::Before && order(b, c) == Rank::Before);
        assert(order(a, c) == Rank::Before);
    }
    if ids.len() == 0 {
        assert(longer[0] == id);
    } else {
        let last = ids.last();
        assert(order(last, id) == text_rank(last, id));
        assert(ids[ids.len() - 1] == last);
        match text_rank(last, id) {
            Rank::Before => {
                assert forall|i: int, j: int|
                    0 <= i < j < longer.len() implies #[trigger] text_rank(longer[i], longer[j])
                    == Rank::Before by {
                    if j < ids.len() {
                        assert(text_rank(ids[i], ids[j]) == Rank::Before);
                    } else if i < ids.len() - 1 {
                        assert(text_rank(ids[i], ids[ids.len() - 1]) == Rank::Before);
                    }
                }
                assert forall|other: Seq<char>| #[trigger]
                    longer.contains(other) <==> ids.contains(other) || other == id by {
                    if ids.contains(other) {
                        let k = choose|k: int| 0 <= k < ids.len() && ids[k] == other;
                        assert(longer[k] == other);
                    }
                    assert(longer[ids.len() as int] == id);
                }
            },
            Rank::Same => {
                assert(order(last, id) == Rank::Same);
                assert(last == id);
            },
            Rank::After => {
                let rest = ids.drop_last();
                let inner = with_id(rest, id);
                assert forall|i: int, j: int|
                    0 <= i < j < rest.len() implies #[trigger] text_rank(rest[i], rest[j])
                    == Rank::Before by {
                    assert(text_rank(ids[i], ids[j]) == Rank::Before);
                }
                adding_an_id_keeps_the_order(rest, id);
                assert(order(id, last) == Rank::Before);
                assert forall|i: int, j: int|
                    0 <= i < j < longer.len() implies #[trigger] text_rank(longer[i], longer[j])
                    == Rank::Before by {
                    if j < inner.len() {
                        assert(text_rank(inner[i], inner[j]) == Rank::Before);
                    } else {
                        assert(inner.contains(inner[i]));
                        if inner[i] != id {
                            let k = choose|k: int| 0 <= k < rest.len() && rest[k] == inner[i];
                            assert(text_rank(ids[k], ids[ids.len() - 1]) == Rank::Before);
                        }
                    }
                }
                assert forall|other: Seq<char>| #[trigger]
                    longer.contains(other) <==> ids.contains(other) || other == id by {
                    assert(inner.contains(other) <==> rest.contains(other) || other == id);
                    if inner.contains(other) {
                        let k = choose|k: int| 0 <= k < inner.len() && inner[k] == other;
                        assert(longer[k] == other);
                    }
                    if rest.contains(other) {
                        let k = choose|k: int| 0 <= k < rest.len() && rest[k] == other;
                        assert(ids[k] == other);
                    }
                    assert(longer[inner.len() as int] == last);
                    if ids.contains(other) && other != last {
                        let k = choose|k: int| 0 <= k < ids.len() && ids[k] == other;
                        assert(rest[k] == other);
                    }
                }
            },
        }
    }
}

/// How many of `ancestors` have `lane` as their single successor.
pub open spec fn feeders(ancestors: Seq<Seq<char>>, graph: GraphView, lane: Seq<char>) -> nat
    decreases ancestors.len(),
{
    if ancestors.len() == 0 {
        0
    } else {
        let rest = feeders(ancestors.drop_last(), graph, lane);
        match single_successor(graph, ancestors.last()) {
            Some(next) => if next.lane == lane {
                rest + 1
            } else {
                rest
            },
            None => rest,
        }
    }
}

/// How many of `ancestors` have `lane` as their single successor.
pub fn count_feeders(ancestors: &Vec<String>, successors: &Successors, lane: &String) -> (count:
    usize)
    ensures
        count == feeders(texts(ancestors@), successors@, lane@),
        count <= ancestors@.len(),
{
    let ghost ids = texts(ancestors@);
    let mut count: usize = 0;
    let mut i: usize = 0;
    assert(ids.take(0) =~= Seq::empty());
    while i < ancestors.len()
        invariant
            ids == texts(ancestors@),
            i <= ancestors@.len(),
            count <= i,
            count == feeders(ids.take(i as int), successors@, lane@),
        decreases ancestors@.len() - i,
    {
        assert(ids.take(i + 1).drop_last() =~= ids.take(i as int));
        assert(ids.take(i + 1).last() == ancestors@[i as int]@);
        match successors.get(ancestors[i].as_str()) {
            Some(next) => {
                if next.lane == *lane {
                    count = count + 1;
                }
            },
            None => {},
        }
        i = i + 1;
    }
    assert(ids.take(ids.len() as int) =~= ids);
    count
}

/// A chain of lanes, drawn through as one line.
#[verifier::ext_equal]
pub struct ChainView {
    pub lanes: Seq<Lane>,
    pub points: Seq<Point>,
    /// The lane that the chain leads into last.
    pub successor: Option<Seq<char>>,
}

/// A chain of nothing.
pub open spec fn no_chain() -> ChainView {
    ChainView { lanes: Seq::empty(), points: Seq::empty(), successor: None }
}

/// The points of the internal lane `via`, where the network has it.
pub open spec fn via_points(via: Option<Seq<char>>, lanes: Seq<Lane>) -> Seq<Point> {
    match via {
        Some(id) => match lane_called(lanes, id) {
            Some(lane) => lane.shape@,
            None => Seq::empty(),
        },
        None => Seq::empty(),
    }
}

/// One chain after another.
pub open spec fn chained(first: ChainView, second: ChainView) -> ChainView {
    ChainView {
        lanes: first.lanes + second.lanes,
        points: first.points + second.points,
        successor: if second.successor is Some {
            second.successor
        } else {
            first.successor
        },
    }
}

/// How many ancestors have not been visited.
pub open spec fn unvisited_ancestors(
    ancestors: Seq<Seq<char>>,
    visited: Set<Seq<char>>,
) -> nat {
    ancestors.to_set().difference(visited).len()
}

/// Whether a chain goes on from a lane into `next`: an ancestor that no other
/// ancestor leads into.
pub open spec fn goes_on_into(
    ancestors: Seq<Seq<char>>,
    graph: GraphView,
    next: Seq<char>,
) -> bool {
    ancestors.contains(next) && feeders(ancestors, graph, next) == 1
}

/// The chain of lanes from `current` on, each the single successor of the one
/// before, through ancestors that no other ancestor leads into. It ends where
/// it would go through a lane again.
pub open spec fn chain_from(
    current: Seq<char>,
    visited: Set<Seq<char>>,
    ancestors: Seq<Seq<char>>,
    graph: GraphView,
    lanes: Seq<Lane>,
) -> ChainView
    decreases
            unvisited_ancestors(ancestors, visited),
            if ancestors.contains(current) {
                0int
            } else {
                1int
            },
{
    match lane_called(lanes, current) {
        Some(lane) => if visited.contains(current) {
            no_chain()
        } else {
            match single_successor(graph, current) {
                Some(next) => {
                    let here = ChainView {
                        lanes: seq![lane],
                        points: lane.shape@ + via_points(next.via, lanes),
                        successor: Some(next.lane),
                    };
                    if goes_on_into(ancestors, graph, next.lane) {
                        proof {
                            lemma_one_more_visited(ancestors, visited, current);
                        }
                        chained(
                            here,
                            chain_from(
                                next.lane,
                                visited.insert(current),
                                ancestors,
                                graph,
                                lanes,
                            ),
                        )
                    } else {
                        here
                    }
                },
                None => ChainView { lanes: seq![lane], points: lane.shape@, successor: None },
            }
        },
        None => no_chain(),
    }
}

pub proof fn lemma_one_more_visited(
    ancestors: Seq<Seq<char>>,
    visited: Set<Seq<char>>,
    current: Seq<char>,
)
    requires
        !visited.contains(current),
    ensures
        ancestors.contains(current) ==> unvisited_ancestors(ancestors, visited.insert(current))
            < unvisited_ancestors(ancestors, visited),
        unvisited_ancestors(ancestors, visited.insert(current)) <= unvisited_ancestors(
            ancestors,
            visited,
        ),
{
    ancestors.lemma_cardinality_of_set();
    let large = ancestors.to_set().difference(visited);
    let small = ancestors.to_set().difference(visited.insert(current));
    assert(large.finite());
    if ancestors.contains(current) {
        assert(large.contains(current));
        assert(small =~= large.remove(current));
    } else {
        assert(small =~= large);
    }
}

/// A chain of lanes, drawn through as one line.
pub struct Chain<'a> {
    pub lanes: Vec<&'a Lane>,
    pub points: Vec<Point>,
    /// The lane that the chain leads into last.
    pub successor: Option<String>,
}

/// What a list of references to lanes holds.
pub open spec fn lanes_held(list: Seq<&Lane>) -> Seq<Lane> {
    Seq::new(list.len(), |i: int| *list[i])
}

impl<'a> Chain<'a> {
    /// What the chain says.
    pub open spec fn view(&self) -> ChainView {
        ChainView {
            lanes: lanes_held(self.lanes@),
            points: self.points@,
            successor: optional_text(self.successor),
        }
    }
}

pub(crate) fn add_points(points: &mut Vec<Point>, more: &Vec<Point>)
    ensures
        final(points)@ == old(points)@ + more@,
{
    let ghost start = points@;
    assert(start + more@.take(0) =~= start);
    let mut i: usize = 0;
    while i < more.len()
        invariant
            i <= more@.len(),
            points@ == start + more@.take(i as int),
        decreases more@.len() - i,
    {
        points.push(more[i]);
        assert(points@ =~= start + more@.take(i + 1));
        i = i + 1;
    }
    assert(more@.take(more@.len() as int) =~= more@);
}

/// The chain of lanes that starts with `start` and leads towards the lanes
/// that a zone controls, where it has the two points that a line takes. It
/// stops before an ancestor that several others lead into, which starts a
/// chain of its own.
pub fn chain_shape<'a>(
    start: &str,
    ancestors: &Vec<String>,
    successors: &Successors,
    lanes: &LaneTable<'a>,
) -> (chain: Option<Chain<'a>>)
    ensures
        ({
            let whole = chain_from(
                start@,
                Set::empty(),
                texts(ancestors@),
                successors@,
                lanes@,
            );
            match chain {
                Some(c) => c@ == whole && whole.points.len() >= 2,
                None => whole.points.len() < 2,
            }
        }),
{
    let ghost ids = texts(ancestors@);
    let ghost whole = chain_from(start@, Set::empty(), ids, successors@, lanes@);
    let mut chain: Chain<'a> = Chain { lanes: Vec::new(), points: Vec::new(), successor: None };
    let mut visited: IdSet = IdSet::new();
    let mut current: String = start.to_owned();
    let mut going: bool = true;
    assert(chained(chain@, whole) =~= whole);
    while going
        invariant
            ids == texts(ancestors@),
            going ==> whole == chained(
                chain@,
                chain_from(current@, visited@, ids, successors@, lanes@),
            ),
            !going ==> whole == chain@,
        decreases
                if going {
                    1int
                } else {
                    0int
                },
                unvisited_ancestors(ids, visited@),
                if ids.contains(current@) {
                    0int
                } else {
                    1int
                },
    {
        let ghost done = chain@;
        let ghost rest = chain_from(current@, visited@, ids, successors@, lanes@);
        going = false;
        assert(chained(done, no_chain()) =~= done);
        match lanes.get(current.as_str()) {
            Some(lane) => {
                if !visited.contains(current.as_str()) {
                    chain.lanes.push(lane);
                    assert(lanes_held(chain.lanes@) =~= done.lanes + seq![*lane]);
                    add_points(&mut chain.points, &lane.shape);
                    match successors.get(current.as_str()) {
                        Some(next) => {
                            let ghost followed = next@;
                            match &next.via {
                                Some(via) => match lanes.get(via.as_str()) {
                                    Some(bridge) => {
                                        add_points(&mut chain.points, &bridge.shape);
                                    },
                                    None => {},
                                },
                                None => {},
                            }
                            chain.successor = Some(next.lane.clone());
                            assert(chain.points@ =~= done.points + (lane.shape@ + via_points(
                                followed.via,
                                lanes@,
                            )));
                            if is_next(ancestors, successors, &next.lane) {
                                proof {
                                    lemma_one_more_visited(ids, visited@, current@);
                                }
                                let ghost here = ChainView {
                                    lanes: seq![*lane],
                                    points: lane.shape@ + via_points(followed.via, lanes@),
                                    successor: Some(followed.lane),
                                };
                                let ghost beyond = chain_from(
                                    followed.lane,
                                    visited@.insert(current@),
                                    ids,
                                    successors@,
                                    lanes@,
                                );
                                assert(chained(done, chained(here, beyond)) =~= chained(
                                    chain@,
                                    beyond,
                                ));
                                visited.insert(current.as_str());
                                current = next.lane;
                                going = true;
                            } else {
                                assert(chain@ =~= chained(done, rest));
                            }
                        },
                        None => {
                            assert(chain@ =~= chained(done, rest));
                        },
                    }
                }
            },
            None => {},
        }
    }
    if chain.points.len() >= 2 {
        Some(chain)
    } else {
        None
    }
}

fn is_next(ancestors: &Vec<String>, successors: &Successors, next: &String) -> (goes_on: bool)
    ensures
        goes_on == goes_on_into(texts(ancestors@), successors@, next@),
{
    is_among(ancestors, next) && count_feeders(ancestors, successors, next) == 1
}

} // verus!
