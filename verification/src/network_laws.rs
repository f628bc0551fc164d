//! What holds of the lanes and links of a network as they are read.

use crate::connectivity::{
    edge_with_start, graph_of, id_of, is_complex, is_internal, is_real_to_real, junction_of,
    lane_at, lane_named, lane_with_start, lanes_of_edge, last_where, link_of, placed_lanes,
    GraphView, LinkView, PlacedLane,
};
use crate::graph_laws::lemma_last_where;
use crate::network::{Connection, Edge, EdgeFunction, Network};
use crate::order::optional_text;
use vstd::prelude::*;

verus! {

/// How many lanes the first `count` edges have.
pub open spec fn lanes_before(edges: Seq<Edge>, count: nat) -> nat
    decreases count,
{
    if count == 0 {
        0
    } else {
        lanes_before(edges, (count - 1) as nat) + edges[count - 1].lanes@.len()
    }
}

proof fn lemma_lanes_before(a: Seq<Edge>, b: Seq<Edge>, count: nat)
    requires
        count <= a.len(),
        count <= b.len(),
        forall|i: int| 0 <= i < count ==> a[i] == b[i],
    ensures
        lanes_before(a, count) == lanes_before(b, count),
    decreases count,
{
    if count > 0 {
        lemma_lanes_before(a, b, (count - 1) as nat);
    }
}

proof fn lemma_placed(edges: Seq<Edge>)
    ensures
        placed_lanes(edges).len() == lanes_before(edges, edges.len()),
    decreases edges.len(),
{
    if edges.len() > 0 {
        lemma_placed(edges.drop_last());
        lemma_lanes_before(edges, edges.drop_last(), (edges.len() - 1) as nat);
    }
}

proof fn lemma_placed_at(edges: Seq<Edge>, i: int, j: int)
    requires
        0 <= i < edges.len(),
        0 <= j < edges[i].lanes@.len(),
    ensures
        lanes_before(edges, i as nat) + j < placed_lanes(edges).len(),
        placed_lanes(edges)[lanes_before(edges, i as nat) + j] == lanes_of_edge(edges[i])[j],
    decreases edges.len(),
{
    let rest = edges.drop_last();
    lemma_placed(rest);
    lemma_lanes_before(edges, rest, i as nat);
    if i < rest.len() {
        lemma_placed_at(rest, i, j);
        assert(rest[i] == edges[i]);
    } else {
        assert(placed_lanes(edges) == placed_lanes(rest) + lanes_of_edge(edges[i]));
    }
}

/// Whether a lane may be used by nobody but pedestrians: it allows some, and
/// no one else.
pub open spec fn is_for_pedestrians(allow: Seq<String>) -> bool {
    allow.len() > 0 && !exists|k: int|
        0 <= k < allow.len() && (#[trigger] allow[k])@ != "pedestrian"@
}

/// The lanes of a network are those of its edges, edge by edge in order: each
/// has the id, the index and the length that it is given, its edge's id, and
/// the junction at which the edge starts; it is for pedestrians alone where it
/// allows nobody else.
pub proof fn lanes_are_read_edge_by_edge(network: Network, i: int, j: int)
    requires
        0 <= i < network.edges@.len(),
        0 <= j < network.edges@[i].lanes@.len(),
    ensures
        graph_of(network).lanes.len() == lanes_before(network.edges@, network.edges@.len()),
        ({
            let edge = network.edges@[i];
            let lane = edge.lanes@[j];
            let placed = graph_of(network).lanes[lanes_before(network.edges@, i as nat) + j];
            &&& placed.id == lane.id@
            &&& placed.edge == edge.id@
            &&& placed.index == lane.index
            &&& placed.length == lane.length
            &&& edge.from matches Some(from) ==> placed.start == Some(from@)
            &&& edge.from is None ==> placed.start is None
            &&& placed.pedestrian_only <==> is_for_pedestrians(lane.allow@)
        }),
{
    lemma_placed(network.edges@);
    lemma_placed_at(network.edges@, i, j);
}

/// Whether `lane` is the last of `lanes` at its index of its edge.
pub open spec fn is_last_at(
    lanes: Seq<PlacedLane>,
    edge: Seq<char>,
    index: int,
    id: Option<Seq<char>>,
) -> bool {
    match id {
        Some(id) => exists|k: int|
            0 <= k < lanes.len() && (#[trigger] lanes[k]).edge == edge && lanes[k].index == index
                && lanes[k].id == id && forall|l: int|
                k < l < lanes.len() ==> (#[trigger] lanes[l]).edge != edge || lanes[l].index
                    != index,
        None => forall|k: int|
            0 <= k < lanes.len() ==> (#[trigger] lanes[k]).edge != edge || lanes[k].index != index,
    }
}

proof fn lemma_lane_at(lanes: Seq<PlacedLane>, edge: Seq<char>, index: int)
    ensures
        is_last_at(lanes, edge, index, id_of(lane_at(lanes, edge, index))),
{
    let wanted = |lane: PlacedLane| lane.edge == edge && lane.index == index;
    lemma_last_where(lanes, wanted);
    assert(lane_at(lanes, edge, index) == last_where(lanes, wanted));
    if let Some(lane) = lane_at(lanes, edge, index) {
        let k = choose|k: int|
            0 <= k < lanes.len() && #[trigger] lanes[k] == lane && wanted(lane) && forall|l: int|
                k < l < lanes.len() ==> !wanted(#[trigger] lanes[l]);
        assert(lanes[k].id == lane.id);
        assert forall|l: int| k < l < lanes.len() implies (#[trigger] lanes[l]).edge != edge
            || lanes[l].index != index by {
            assert(!wanted(lanes[l]));
        }
    } else {
        assert forall|k: int| 0 <= k < lanes.len() implies (#[trigger] lanes[k]).edge != edge
            || lanes[k].index != index by {
            assert(!wanted(lanes[k]));
        }
    }
}

/// Whether no edge of this id is internal.
pub open spec fn is_real(edges: Seq<Edge>, id: Seq<char>) -> bool {
    forall|i: int|
        0 <= i < edges.len() && (#[trigger] edges[i]).id@ == id ==> edges[i].function
            != EdgeFunction::Internal
}

/// Whether `link` stands for `connection`: it has its edges, direction, lane
/// between, program and place in the program's phases, and at each end the
/// lane at the connection's index of the edge there.
pub open spec fn stands_for(
    link: LinkView,
    connection: Connection,
    lanes: Seq<PlacedLane>,
) -> bool {
    &&& link.from_edge == connection.from_edge@
    &&& link.to_edge == connection.to_edge@
    &&& link.direction == connection.direction
    &&& link.via == optional_text(connection.via)
    &&& link.traffic_light == optional_text(connection.traffic_light)
    &&& link.link_index == connection.link_index
    &&& is_last_at(lanes, connection.from_edge@, connection.from_lane as int, link.from)
    &&& is_last_at(lanes, connection.to_edge@, connection.to_lane as int, link.to)
}

/// The links of a network stand for its connections, one for each and in
/// order, but for those that begin or end on an internal edge: connections
/// added at the end add their links at the end.
pub proof fn links_stand_for_connections(network: Network, before: Network, last: Connection)
    requires
        network.edges@ == before.edges@,
        network.connections@ == before.connections@.push(last),
    ensures
        ({
            let links = graph_of(network).links;
            let earlier = graph_of(before).links;
            if is_real(network.edges@, last.from_edge@) && is_real(network.edges@, last.to_edge@) {
                links.len() == earlier.len() + 1 && links.drop_last() == earlier && stands_for(
                    links.last(),
                    last,
                    graph_of(network).lanes,
                )
            } else {
                links == earlier
            }
        }),
{
    reveal(Seq::filter);
    let edges = network.edges@;
    let lanes = placed_lanes(edges);
    let wanted = |c: Connection| is_real_to_real(c, edges);
    let kept = before.connections@.filter(wanted);
    assert(network.connections@.drop_last() =~= before.connections@);
    lemma_lane_at(lanes, last.from_edge@, last.from_lane as int);
    lemma_lane_at(lanes, last.to_edge@, last.to_lane as int);
    let links = graph_of(network).links;
    let earlier = graph_of(before).links;
    assert(wanted(last) <==> is_real(edges, last.from_edge@) && is_real(edges, last.to_edge@)) by {
        lemma_real(edges, last.from_edge@);
        lemma_real(edges, last.to_edge@);
    }
    if wanted(last) {
        assert(links.drop_last() =~= earlier);
        assert(links.last() == link_of(last, lanes));
    } else {
        assert(links =~= earlier);
    }
}

proof fn lemma_real(edges: Seq<Edge>, id: Seq<char>)
    ensures
        is_internal(edges, id) <==> !is_real(edges, id),
{
}

/// A network without connections has no links.
pub proof fn no_links_without_connections(network: Network)
    requires
        network.connections@.len() == 0,
    ensures
        graph_of(network).links.len() == 0,
{
    reveal(Seq::filter);
}

/// Whether the edges of this id start at `junction`, by the last of them that
/// names a junction.
#[verifier::opaque]
pub open spec fn starts_at(edges: Seq<Edge>, id: Seq<char>, junction: Seq<char>) -> bool {
    exists|i: int|
        0 <= i < edges.len() && (#[trigger] edges[i]).id@ == id && optional_text(edges[i].from)
            == Some(junction) && forall|k: int|
            i < k < edges.len() && (#[trigger] edges[k]).id@ == id ==> edges[k].from is None
}

spec fn is_last_start(edges: Seq<Edge>, id: Seq<char>, i: int) -> bool {
    0 <= i < edges.len() && edges[i].id@ == id && edges[i].from is Some && forall|k: int|
        i < k < edges.len() && (#[trigger] edges[k]).id@ == id ==> edges[k].from is None
}

proof fn lemma_edge_with_start(edges: Seq<Edge>, id: Seq<char>) -> (i: int)
    ensures
        match edge_with_start(edges, id) {
            Some(edge) => is_last_start(edges, id, i) && edges[i] == edge,
            None => forall|k: int|
                0 <= k < edges.len() && (#[trigger] edges[k]).id@ == id ==> edges[k].from is None,
        },
    decreases edges.len(),
{
    if edges.len() == 0 {
        0
    } else if edges.last().id@ == id && edges.last().from is Some {
        edges.len() - 1
    } else {
        let rest = edges.drop_last();
        assert(edge_with_start(edges, id) == edge_with_start(rest, id));
        let i = lemma_edge_with_start(rest, id);
        assert forall|k: int|
            0 <= k < edges.len() && (#[trigger] edges[k]).id@ == id && (k > i || edge_with_start(
                rest,
                id,
            ) is None) implies edges[k].from is None by {
            if k < rest.len() {
                assert(rest[k] == edges[k]);
            }
        }
        i
    }
}

proof fn lemma_junction_of(link: LinkView, edges: Seq<Edge>, junction: Seq<char>)
    ensures
        junction_of(link, edges) == Some(junction) <==> starts_at(edges, link.to_edge, junction),
{
    reveal(starts_at);
    let id = link.to_edge;
    let i = lemma_edge_with_start(edges, id);
    if starts_at(edges, id, junction) {
        let m = choose|m: int|
            0 <= m < edges.len() && (#[trigger] edges[m]).id@ == id && optional_text(edges[m].from)
                == Some(junction) && forall|k: int|
                m < k < edges.len() && (#[trigger] edges[k]).id@ == id ==> edges[k].from is None;
        assert(edges[m].from is Some);
        assert(edge_with_start(edges, id) is Some);
        assert(edges[i].id@ == id);
        assert(m == i);
    }
}

/// Whether two links under one signal program lead through two junctions, the
/// first of them through `junction`.
pub open spec fn spans_beyond(
    links: Seq<LinkView>,
    edges: Seq<Edge>,
    junction: Seq<char>,
    a: int,
    b: int,
    other: Seq<char>,
) -> bool {
    0 <= a < links.len() && 0 <= b < links.len() && links[a].traffic_light is Some
        && links[a].traffic_light == links[b].traffic_light && other != junction && starts_at(
        edges,
        links[a].to_edge,
        junction,
    ) && starts_at(edges, links[b].to_edge, other)
}

proof fn lemma_complex(links: Seq<LinkView>, edges: Seq<Edge>, junction: Seq<char>)
    ensures
        is_complex(links, edges, junction) <==> exists|a: int, b: int, other: Seq<char>| #[trigger]
            spans_beyond(links, edges, junction, a, b, other),
{
    if is_complex(links, edges, junction) {
        let (a, b) = choose|a: int, b: int|
            0 <= a < links.len() && 0 <= b < links.len() && (
            #[trigger] links[a]).traffic_light is Some && links[a].traffic_light == (
            #[trigger] links[b]).traffic_light && junction_of(links[a], edges) == Some(junction)
                && junction_of(links[b], edges) is Some && junction_of(links[b], edges) != Some(
                junction,
            );
        let other = junction_of(links[b], edges)->0;
        lemma_junction_of(links[a], edges, junction);
        lemma_junction_of(links[b], edges, other);
        assert(spans_beyond(links, edges, junction, a, b, other));
    }
    if exists|a: int, b: int, other: Seq<char>| #[trigger]
        spans_beyond(links, edges, junction, a, b, other) {
        let (a, b, other) = choose|a: int, b: int, other: Seq<char>| #[trigger]
            spans_beyond(links, edges, junction, a, b, other);
        lemma_junction_of(links[a], edges, junction);
        lemma_junction_of(links[b], edges, other);
        assert(links[a].traffic_light == links[b].traffic_light);
    }
}

/// A junction is complex exactly where a signal program controls a link
/// through it and a link through another junction.
pub proof fn a_junction_is_complex_where_its_program_spans_another(
    network: Network,
    junction: Seq<char>,
)
    ensures
        graph_of(network).complex_junctions.contains(junction) <==> exists|
            a: int,
            b: int,
            other: Seq<char>,
        | #[trigger]
            spans_beyond(graph_of(network).links, network.edges@, junction, a, b, other),
{
    lemma_complex(graph_of(network).links, network.edges@, junction);
}

/// The lane of an id is the last of that id; where there is none, it is
/// unknown.
pub proof fn a_lane_is_known_by_its_id(g: GraphView, id: Seq<char>)
    ensures
        match lane_named(g.lanes, id) {
            Some(lane) => exists|k: int|
                0 <= k < g.lanes.len() && #[trigger] g.lanes[k] == lane && lane.id == id && forall|
                    l: int,
                |
                    k < l < g.lanes.len() ==> (#[trigger] g.lanes[l]).id != id,
            None => forall|k: int| 0 <= k < g.lanes.len() ==> (#[trigger] g.lanes[k]).id != id,
        },
{
    let wanted = |lane: PlacedLane| lane.id == id;
    lemma_last_where(g.lanes, wanted);
    assert(lane_named(g.lanes, id) == last_where(g.lanes, wanted));
    if let Some(lane) = lane_named(g.lanes, id) {
        let k = choose|k: int|
            0 <= k < g.lanes.len() && #[trigger] g.lanes[k] == lane && wanted(lane) && forall|
                l: int,
            |
                k < l < g.lanes.len() ==> !wanted(#[trigger] g.lanes[l]);
        assert forall|l: int| k < l < g.lanes.len() implies (#[trigger] g.lanes[l]).id != id by {
            assert(!wanted(g.lanes[l]));
        }
    } else {
        assert forall|k: int| 0 <= k < g.lanes.len() implies (#[trigger] g.lanes[k]).id != id by {
            assert(!wanted(g.lanes[k]));
        }
    }
}

/// A lane starts at a complex junction where the last of its id whose edge
/// names a junction names a complex one.
pub proof fn a_lane_starts_where_its_edge_does(g: GraphView, id: Seq<char>)
    ensures
        g.starts_at_complex_junction(id) <==> exists|k: int|
            0 <= k < g.lanes.len() && (#[trigger] g.lanes[k]).id == id && g.lanes[k].start is Some
                && g.complex_junctions.contains(g.lanes[k].start->0) && forall|l: int|
                k < l < g.lanes.len() && (#[trigger] g.lanes[l]).id == id ==> g.lanes[l].start is None,
{
    let wanted = |lane: PlacedLane| lane.id == id && lane.start is Some;
    lemma_last_where(g.lanes, wanted);
    assert(lane_with_start(g.lanes, id) == last_where(g.lanes, wanted));
    if let Some(lane) = lane_with_start(g.lanes, id) {
        let k = choose|k: int|
            0 <= k < g.lanes.len() && #[trigger] g.lanes[k] == lane && wanted(lane) && forall|
                l: int,
            |
                k < l < g.lanes.len() ==> !wanted(#[trigger] g.lanes[l]);
        assert forall|l: int|
            k < l < g.lanes.len() && (#[trigger] g.lanes[l]).id == id implies g.lanes[l].start is None by {
            assert(!wanted(g.lanes[l]));
        }
        assert(g.lanes[k].id == id);
        assert forall|m: int|
            0 <= m < g.lanes.len() && (#[trigger] g.lanes[m]).id == id && g.lanes[m].start is Some
                && g.complex_junctions.contains(g.lanes[m].start->0) && (forall|l: int|
                m < l < g.lanes.len() && (#[trigger] g.lanes[l]).id == id ==> g.lanes[l].start is None) implies m
            == k by {}
    } else {
        assert forall|k: int|
            0 <= k < g.lanes.len() && (#[trigger] g.lanes[k]).id == id implies g.lanes[k].start is None by {
            assert(!wanted(g.lanes[k]));
        }
    }
}

} // verus!
