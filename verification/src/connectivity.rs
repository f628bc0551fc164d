//! The lanes of a network and how they connect: which lane leads into which,
//! which are held back by a signal, and where a junction is a complex one.

use crate::double::Double;
use crate::id_set::IdSet;
use crate::network::{
    allows_pedestrians_only, Connection, ConnectionDirection, Edge, EdgeFunction, Network,
};
use crate::order::{optional_text, texts};
use vstd::hash_map::StringHashMap;
use vstd::prelude::*;

verus! {

/// The last item of `items` that `wanted` picks.
pub open spec fn last_where<T>(items: Seq<T>, wanted: spec_fn(T) -> bool) -> Option<T>
    decreases items.len(),
{
    if items.len() == 0 {
        None
    } else if wanted(items.last()) {
        Some(items.last())
    } else {
        last_where(items.drop_last(), wanted)
    }
}

/// The distinct items of `items`, in the order of their first appearance.
pub open spec fn distinct<T>(items: Seq<T>) -> Seq<T>
    decreases items.len(),
{
    if items.len() == 0 {
        Seq::empty()
    } else {
        let before = distinct(items.drop_last());
        if before.contains(items.last()) {
            before
        } else {
            before.push(items.last())
        }
    }
}

/// A lane together with the edge that it belongs to.
#[verifier::ext_equal]
pub struct PlacedLane {
    pub id: Seq<char>,
    /// The id of its edge.
    pub edge: Seq<char>,
    /// The junction at which that edge starts.
    pub start: Option<Seq<char>>,
    /// Its index within the edge.
    pub index: int,
    pub length: Double,
    pub pedestrian_only: bool,
}

/// The lanes of one edge.
pub open spec fn lanes_of_edge(edge: Edge) -> Seq<PlacedLane> {
    Seq::new(
        edge.lanes@.len(),
        |j: int|
            PlacedLane {
                id: edge.lanes@[j].id@,
                edge: edge.id@,
                start: optional_text(edge.from),
                index: edge.lanes@[j].index as int,
                length: edge.lanes@[j].length,
                pedestrian_only: allows_pedestrians_only(edge.lanes@[j].allow@),
            },
    )
}

/// Every lane of the network, edge by edge.
pub open spec fn placed_lanes(edges: Seq<Edge>) -> Seq<PlacedLane>
    decreases edges.len(),
{
    if edges.len() == 0 {
        Seq::empty()
    } else {
        placed_lanes(edges.drop_last()) + lanes_of_edge(edges.last())
    }
}

/// The lane that bears `id`; of several, the last.
pub open spec fn lane_named(lanes: Seq<PlacedLane>, id: Seq<char>) -> Option<PlacedLane> {
    last_where(lanes, |lane: PlacedLane| lane.id == id)
}

/// The lane of edge `edge` at `index`; of several, the last.
pub open spec fn lane_at(lanes: Seq<PlacedLane>, edge: Seq<char>, index: int) -> Option<
    PlacedLane,
> {
    last_where(lanes, |lane: PlacedLane| lane.edge == edge && lane.index == index)
}

/// The lane that bears `id` and lies on an edge with a known start; of
/// several, the last.
pub open spec fn lane_with_start(lanes: Seq<PlacedLane>, id: Seq<char>) -> Option<PlacedLane> {
    last_where(lanes, |lane: PlacedLane| lane.id == id && lane.start is Some)
}

/// The edge that bears `id` and has a known start; of several, the last.
pub open spec fn edge_with_start(edges: Seq<Edge>, id: Seq<char>) -> Option<Edge> {
    last_where(edges, |edge: Edge| edge.id@ == id && edge.from is Some)
}

/// Whether `id` names an edge through the inside of a junction.
pub open spec fn is_internal(edges: Seq<Edge>, id: Seq<char>) -> bool {
    exists|i: int|
        0 <= i < edges.len() && (#[trigger] edges[i]).id@ == id && edges[i].function
            == EdgeFunction::Internal
}

/// A connection between two real edges, its lanes named by their ids.
#[verifier::ext_equal]
pub struct LinkView {
    pub from_edge: Seq<char>,
    pub to_edge: Seq<char>,
    /// The lane it leaves, where the network has that lane.
    pub from: Option<Seq<char>>,
    /// The lane it leads into, where the network has that lane.
    pub to: Option<Seq<char>>,
    pub direction: ConnectionDirection,
    pub via: Option<Seq<char>>,
    pub traffic_light: Option<Seq<char>>,
    pub link_index: Option<i32>,
}

/// The id of a lane, where there is one.
pub open spec fn id_of(lane: Option<PlacedLane>) -> Option<Seq<char>> {
    match lane {
        Some(l) => Some(l.id),
        None => None,
    }
}

/// `connection` with its lanes looked up in `lanes`.
pub open spec fn link_of(connection: Connection, lanes: Seq<PlacedLane>) -> LinkView {
    LinkView {
        from_edge: connection.from_edge@,
        to_edge: connection.to_edge@,
        from: id_of(lane_at(lanes, connection.from_edge@, connection.from_lane as int)),
        to: id_of(lane_at(lanes, connection.to_edge@, connection.to_lane as int)),
        direction: connection.direction,
        via: optional_text(connection.via),
        traffic_light: optional_text(connection.traffic_light),
        link_index: connection.link_index,
    }
}

/// Whether `connection` runs from a real edge to a real edge, and not along
/// the inside of a junction.
pub open spec fn is_real_to_real(connection: Connection, edges: Seq<Edge>) -> bool {
    !is_internal(edges, connection.from_edge@) && !is_internal(edges, connection.to_edge@)
}

/// The connections between real edges, in file order.
pub open spec fn real_links(connections: Seq<Connection>, edges: Seq<Edge>) -> Seq<LinkView> {
    connections.filter(|c: Connection| is_real_to_real(c, edges)).map_values(
        |c: Connection| link_of(c, placed_lanes(edges)),
    )
}

/// The junction that `link` leads through: the start of the edge it enters.
pub open spec fn junction_of(link: LinkView, edges: Seq<Edge>) -> Option<Seq<char>> {
    match edge_with_start(edges, link.to_edge) {
        Some(edge) => optional_text(edge.from),
        None => None,
    }
}

/// Whether one signal program controls a link through `junction` and a link
/// through another junction as well.
pub open spec fn is_complex(links: Seq<LinkView>, edges: Seq<Edge>, junction: Seq<char>) -> bool {
    exists|a: int, b: int|
        0 <= a < links.len() && 0 <= b < links.len() && (#[trigger] links[a]).traffic_light is Some
            && links[a].traffic_light == (#[trigger] links[b]).traffic_light && junction_of(
            links[a],
            edges,
        ) == Some(junction) && junction_of(links[b], edges) is Some && junction_of(links[b], edges)
            != Some(junction)
}

/// The lanes of a network and the links between them.
#[verifier::ext_equal]
pub struct GraphView {
    pub lanes: Seq<PlacedLane>,
    pub links: Seq<LinkView>,
    /// The junctions that share a signal program with another junction.
    pub complex_junctions: Set<Seq<char>>,
}

/// The graph of `network`.
pub open spec fn graph_of(network: Network) -> GraphView {
    let links = real_links(network.connections@, network.edges@);
    GraphView {
        lanes: placed_lanes(network.edges@),
        links,
        complex_junctions: Set::new(|j: Seq<char>| is_complex(links, network.edges@, j)),
    }
}

/// The links out of `lane`, in file order.
pub open spec fn links_from(links: Seq<LinkView>, lane: Seq<char>) -> Seq<LinkView> {
    links.filter(|link: LinkView| link.from == Some(lane))
}

/// The links from a known lane into `lane`, in file order.
pub open spec fn links_into(links: Seq<LinkView>, lane: Seq<char>) -> Seq<LinkView> {
    links.filter(|link: LinkView| link.from is Some && link.to == Some(lane))
}

impl GraphView {
    /// The lanes that lead directly into `lane`, by first appearance.
    pub open spec fn predecessors(self, lane: Seq<char>) -> Seq<Seq<char>> {
        distinct(links_into(self.links, lane).map_values(|link: LinkView| link.from->0))
    }

    /// The known lanes that `lane` leads into, by first appearance.
    pub open spec fn successors(self, lane: Seq<char>) -> Seq<Seq<char>> {
        distinct(
            links_from(self.links, lane).filter(|link: LinkView| link.to is Some).map_values(
                |link: LinkView| link.to->0,
            ),
        )
    }

    /// The internal lane between `from` and `to`; of several, the last.
    pub open spec fn via_between(self, from: Seq<char>, to: Seq<char>) -> Option<Seq<char>> {
        match last_where(
            links_into(self.links, to),
            |link: LinkView| link.from == Some(from) && link.via is Some,
        ) {
            Some(link) => link.via,
            None => None,
        }
    }

    /// Whether a signal holds traffic back at the end of `lane`.
    pub open spec fn is_signal_controlled(self, lane: Seq<char>) -> bool {
        let out = links_from(self.links, lane);
        exists|i: int|
            0 <= i < out.len() && (#[trigger] out[i]).traffic_light is Some && out[i].link_index is Some
    }

    /// Whether the edge of `lane` starts at a complex junction.
    pub open spec fn starts_at_complex_junction(self, lane: Seq<char>) -> bool {
        match lane_with_start(self.lanes, lane) {
            Some(l) => self.complex_junctions.contains(l.start->0),
            None => false,
        }
    }
}

proof fn lemma_last_where_push<T>(items: Seq<T>, item: T, wanted: spec_fn(T) -> bool)
    ensures
        last_where(items.push(item), wanted) == if wanted(item) {
            Some(item)
        } else {
            last_where(items, wanted)
        },
{
    assert(items.push(item).drop_last() =~= items);
}

/// A copy of an optional string.
fn copy_optional(text: &Option<String>) -> (copy: Option<String>)
    ensures
        optional_text(copy) == optional_text(*text),
{
    match text {
        Some(t) => Some(t.clone()),
        None => None,
    }
}

/// What is kept of a lane under its id.
struct LaneRecord {
    edge: String,
    length: Double,
    pedestrian_only: bool,
}

/// A lane by its index within an edge.
struct Place {
    index: usize,
    lane: String,
}

spec fn lanes_agree(table: Map<Seq<char>, LaneRecord>, lanes: Seq<PlacedLane>) -> bool {
    forall|id: Seq<char>|
        match #[trigger] lane_named(lanes, id) {
            Some(lane) => table.contains_key(id) && table[id].edge@ == lane.edge
                && table[id].length == lane.length && table[id].pedestrian_only
                == lane.pedestrian_only,
            None => !table.contains_key(id),
        }
}

spec fn starts_agree(table: Map<Seq<char>, String>, lanes: Seq<PlacedLane>) -> bool {
    forall|id: Seq<char>|
        match #[trigger] lane_with_start(lanes, id) {
            Some(lane) => table.contains_key(id) && Some(table[id]@) == lane.start,
            None => !table.contains_key(id),
        }
}

/// What a list of places says.
spec fn place_views(list: Seq<Place>) -> Seq<(int, Seq<char>)> {
    Seq::new(list.len(), |i: int| (list[i].index as int, list[i].lane@))
}

spec fn place_of(list: Seq<(int, Seq<char>)>, index: int) -> Option<(int, Seq<char>)> {
    last_where(list, |place: (int, Seq<char>)| place.0 == index)
}

spec fn places_listed(table: Map<Seq<char>, Vec<Place>>, edge: Seq<char>) -> Seq<(int, Seq<char>)> {
    if table.contains_key(edge) {
        place_views(table[edge]@)
    } else {
        Seq::empty()
    }
}

spec fn places_agree(table: Map<Seq<char>, Vec<Place>>, lanes: Seq<PlacedLane>) -> bool {
    forall|edge: Seq<char>, index: int|
        match #[trigger] lane_at(lanes, edge, index) {
            Some(lane) => place_of(places_listed(table, edge), index) == Some((index, lane.id)),
            None => place_of(places_listed(table, edge), index) is None,
        }
}

fn copy_places(list: &Vec<Place>) -> (copy: Vec<Place>)
    ensures
        place_views(copy@) == place_views(list@),
{
    let mut copy: Vec<Place> = Vec::new();
    for i in 0..list.len()
        invariant
            copy@.len() == i,
            forall|k: int|
                0 <= k < i ==> (#[trigger] copy@[k]).index == list@[k].index && copy@[k].lane@
                    == list@[k].lane@,
    {
        copy.push(Place { index: list[i].index, lane: list[i].lane.clone() });
    }
    assert(place_views(copy@) =~= place_views(list@));
    copy
}

/// The lanes of a network under their ids, and under edge and index.
struct LaneTables {
    by_id: StringHashMap<LaneRecord>,
    start_by_id: StringHashMap<String>,
    by_place: StringHashMap<Vec<Place>>,
}

impl LaneTables {
    spec fn agree(&self, lanes: Seq<PlacedLane>) -> bool {
        &&& lanes_agree(self.by_id@, lanes)
        &&& starts_agree(self.start_by_id@, lanes)
        &&& places_agree(self.by_place@, lanes)
    }

    fn empty() -> (tables: LaneTables)
        ensures
            tables.agree(Seq::empty()),
    {
        LaneTables {
            by_id: StringHashMap::new(),
            start_by_id: StringHashMap::new(),
            by_place: StringHashMap::new(),
        }
    }

    fn add(&mut self, edge: &Edge, j: usize, Ghost(lanes): Ghost<Seq<PlacedLane>>)
        requires
            j < edge.lanes@.len(),
            old(self).agree(lanes),
        ensures
            final(self).agree(lanes.push(lanes_of_edge(*edge)[j as int])),
    {
        let ghost added = lanes_of_edge(*edge)[j as int];
        let ghost after = lanes.push(added);
        let lane = &edge.lanes[j];
        let record: LaneRecord = LaneRecord {
            edge: edge.id.clone(),
            length: lane.length,
            pedestrian_only: lane.is_pedestrian_only(),
        };
        self.by_id.insert(lane.id.clone(), record);
        assert(lanes_agree(self.by_id@, after)) by {
            assert forall|id: Seq<char>|
                match #[trigger] lane_named(after, id) {
                    Some(lane) => self.by_id@.contains_key(id) && self.by_id@[id].edge@ == lane.edge
                        && self.by_id@[id].length == lane.length && self.by_id@[id].pedestrian_only
                        == lane.pedestrian_only,
                    None => !self.by_id@.contains_key(id),
                } by {
                lemma_last_where_push(lanes, added, |lane: PlacedLane| lane.id == id);
                assert(lane_named(lanes, id) == lane_named(lanes, id));
            }
        }
        match &edge.from {
            Some(junction) => {
                self.start_by_id.insert(lane.id.clone(), junction.clone());
            },
            None => {},
        }
        assert(starts_agree(self.start_by_id@, after)) by {
            assert forall|id: Seq<char>|
                match #[trigger] lane_with_start(after, id) {
                    Some(lane) => self.start_by_id@.contains_key(id) && Some(
                        self.start_by_id@[id]@,
                    ) == lane.start,
                    None => !self.start_by_id@.contains_key(id),
                } by {
                lemma_last_where_push(
                    lanes,
                    added,
                    |lane: PlacedLane| lane.id == id && lane.start is Some,
                );
                assert(lane_with_start(lanes, id) == lane_with_start(lanes, id));
            }
        }
        let mut list: Vec<Place> = match self.by_place.get(edge.id.as_str()) {
            Some(list) => copy_places(list),
            None => Vec::new(),
        };
        let ghost before = place_views(list@);
        assert(before =~= places_listed(self.by_place@, edge.id@));
        list.push(Place { index: lane.index, lane: lane.id.clone() });
        assert(place_views(list@) =~= before.push((lane.index as int, lane.id@)));
        self.by_place.insert(edge.id.clone(), list);
        assert(places_agree(self.by_place@, after)) by {
            assert forall|e: Seq<char>, index: int|
                match #[trigger] lane_at(after, e, index) {
                    Some(lane) => place_of(places_listed(self.by_place@, e), index) == Some(
                        (index, lane.id),
                    ),
                    None => place_of(places_listed(self.by_place@, e), index) is None,
                } by {
                lemma_last_where_push(
                    lanes,
                    added,
                    |lane: PlacedLane| lane.edge == e && lane.index == index,
                );
                assert(lane_at(lanes, e, index) == lane_at(lanes, e, index));
                if e == edge.id@ {
                    lemma_last_where_push(
                        before,
                        (lane.index as int, lane.id@),
                        |place: (int, Seq<char>)| place.0 == index,
                    );
                }
            }
        }
    }

    /// The tables of every lane of `edges`.
    fn of(edges: &Vec<Edge>) -> (tables: LaneTables)
        ensures
            tables.agree(placed_lanes(edges@)),
    {
        let mut tables: LaneTables = LaneTables::empty();
        for i in 0..edges.len()
            invariant
                tables.agree(placed_lanes(edges@.take(i as int))),
        {
            let ghost before = placed_lanes(edges@.take(i as int));
            let ghost here = lanes_of_edge(edges@[i as int]);
            assert(before + here.take(0) =~= before);
            let edge: &Edge = &edges[i];
            for j in 0..edge.lanes.len()
                invariant
                    *edge == edges@[i as int],
                    here == lanes_of_edge(edges@[i as int]),
                    tables.agree(before + here.take(j as int)),
            {
                tables.add(edge, j, Ghost(before + here.take(j as int)));
                assert((before + here.take(j as int)).push(here[j as int]) =~= before + here.take(
                    j + 1,
                ));
            }
            assert(here.take(here.len() as int) =~= here);
            assert(edges@.take(i + 1).drop_last() =~= edges@.take(i as int));
        }
        assert(edges@.take(edges@.len() as int) =~= edges@);
        tables
    }

    /// The id of the lane at `index` of edge `edge`.
    #[verifier::loop_isolation(false)]
    fn at(&self, edge: &str, index: usize, Ghost(lanes): Ghost<Seq<PlacedLane>>) -> (lane: Option<
        String,
    >)
        requires
            self.agree(lanes),
        ensures
            optional_text(lane) == id_of(lane_at(lanes, edge@, index as int)),
    {
        assert(lane_at(lanes, edge@, index as int) == lane_at(lanes, edge@, index as int));
        let list: &Vec<Place> = match self.by_place.get(edge) {
            Some(list) => list,
            None => {
                return None;
            },
        };
        let ghost views = place_views(list@);
        let mut k: usize = list.len();
        assert(views.take(k as int) =~= views);
        while k > 0
            invariant
                k <= list.len(),
                views == place_views(list@),
                place_of(views, index as int) == place_of(views.take(k as int), index as int),
            decreases k,
        {
            assert(views.take(k as int).last() == views[k - 1]);
            assert(views.take(k as int).drop_last() =~= views.take(k - 1));
            k = k - 1;
            if list[k].index == index {
                return Some(list[k].lane.clone());
            }
        }
        None
    }
}

/// The ids of the edges through the inside of junctions.
fn internal_edges(edges: &Vec<Edge>) -> (internal: IdSet)
    ensures
        forall|id: Seq<char>| #[trigger] internal@.contains(id) <==> is_internal(edges@, id),
{
    let mut internal: IdSet = IdSet::new();
    for i in 0..edges.len()
        invariant
            forall|id: Seq<char>|
                #[trigger] internal@.contains(id) <==> exists|k: int|
                    0 <= k < i && (#[trigger] edges@[k]).id@ == id && edges@[k].function
                        == EdgeFunction::Internal,
    {
        let ghost before = internal@;
        if edges[i].function == EdgeFunction::Internal {
            internal.insert(edges[i].id.as_str());
        }
        assert forall|id: Seq<char>|
            #[trigger] internal@.contains(id) <==> exists|k: int|
                0 <= k < i + 1 && (#[trigger] edges@[k]).id@ == id && edges@[k].function
                    == EdgeFunction::Internal by {
            assert(before.contains(id) <==> exists|k: int|
                0 <= k < i && (#[trigger] edges@[k]).id@ == id && edges@[k].function
                    == EdgeFunction::Internal);
            if internal@.contains(id) && !before.contains(id) {
                assert(edges@[i as int].id@ == id);
            }
        }
    }
    internal
}

spec fn edge_starts_agree(table: Map<Seq<char>, String>, edges: Seq<Edge>) -> bool {
    forall|id: Seq<char>|
        match #[trigger] edge_with_start(edges, id) {
            Some(edge) => table.contains_key(id) && Some(table[id]@) == optional_text(edge.from),
            None => !table.contains_key(id),
        }
}

/// The junction at which each edge starts, by the edge's id.
fn edge_starts(edges: &Vec<Edge>) -> (starts: StringHashMap<String>)
    ensures
        edge_starts_agree(starts@, edges@),
{
    let mut starts: StringHashMap<String> = StringHashMap::new();
    assert(edges@.take(0) =~= Seq::empty());
    for i in 0..edges.len()
        invariant
            edge_starts_agree(starts@, edges@.take(i as int)),
    {
        let ghost before = edges@.take(i as int);
        match &edges[i].from {
            Some(junction) => {
                starts.insert(edges[i].id.clone(), junction.clone());
            },
            None => {},
        }
        assert(edges@.take(i + 1) =~= before.push(edges@[i as int]));
        assert forall|id: Seq<char>|
            match #[trigger] edge_with_start(edges@.take(i + 1), id) {
                Some(edge) => starts@.contains_key(id) && Some(starts@[id]@) == optional_text(
                    edge.from,
                ),
                None => !starts@.contains_key(id),
            } by {
            lemma_last_where_push(
                before,
                edges@[i as int],
                |edge: Edge| edge.id@ == id && edge.from is Some,
            );
            assert(edge_with_start(before, id) == edge_with_start(before, id));
        }
    }
    assert(edges@.take(edges@.len() as int) =~= edges@);
    starts
}

/// A connection between two real edges, its lanes named by their ids.
#[derive(Debug, PartialEq, Eq)]
pub struct Link {
    pub from_edge: String,
    pub to_edge: String,
    pub from: Option<String>,
    pub to: Option<String>,
    pub direction: ConnectionDirection,
    pub via: Option<String>,
    pub traffic_light: Option<String>,
    pub link_index: Option<i32>,
}

impl View for Link {
    type V = LinkView;

    open spec fn view(&self) -> LinkView {
        LinkView {
            from_edge: self.from_edge@,
            to_edge: self.to_edge@,
            from: optional_text(self.from),
            to: optional_text(self.to),
            direction: self.direction,
            via: optional_text(self.via),
            traffic_light: optional_text(self.traffic_light),
            link_index: self.link_index,
        }
    }
}

/// What a list of links says.
pub open spec fn link_views(list: Seq<Link>) -> Seq<LinkView> {
    Seq::new(list.len(), |i: int| list[i]@)
}

/// The ids under which signal programs control links through two junctions
/// or more, and from them the junctions concerned.
fn complex_junctions(
    links: &Vec<Link>,
    starts: &StringHashMap<String>,
    Ghost(edges): Ghost<Seq<Edge>>,
) -> (complex: IdSet)
    requires
        edge_starts_agree(starts@, edges),
    ensures
        forall|j: Seq<char>| #[trigger]
            complex@.contains(j) <==> is_complex(link_views(links@), edges, j),
{
    let ghost views = link_views(links@);
    let mut first: StringHashMap<String> = StringHashMap::new();
    let mut shared: IdSet = IdSet::new();
    for i in 0..links.len()
        invariant
            views == link_views(links@),
            edge_starts_agree(starts@, edges),
            forall|k: int|
                0 <= k < i && (#[trigger] views[k]).traffic_light is Some && junction_of(
                    views[k],
                    edges,
                ) is Some ==> first@.contains_key(views[k].traffic_light->0) && (junction_of(
                    views[k],
                    edges,
                ) != Some(first@[views[k].traffic_light->0]@) ==> shared@.contains(
                    views[k].traffic_light->0,
                )),
            forall|tl: Seq<char>| #[trigger]
                first@.contains_key(tl) ==> exists|k: int|
                    0 <= k < i && (#[trigger] views[k]).traffic_light == Some(tl) && junction_of(
                        views[k],
                        edges,
                    ) == Some(first@[tl]@),
            forall|tl: Seq<char>| #[trigger]
                shared@.contains(tl) ==> first@.contains_key(tl) && exists|k: int|
                    0 <= k < i && (#[trigger] views[k]).traffic_light == Some(tl) && junction_of(
                        views[k],
                        edges,
                    ) is Some && junction_of(views[k], edges) != Some(first@[tl]@),
    {
        let link: &Link = &links[i];
        assert(views[i as int] == link@);
        assert(edge_with_start(edges, link.to_edge@) == edge_with_start(edges, link.to_edge@));
        match (&link.traffic_light, starts.get(link.to_edge.as_str())) {
            (Some(tl), Some(junction)) => {
                assert(junction_of(views[i as int], edges) == Some(junction@));
                match first.get(tl.as_str()) {
                    Some(known) => {
                        if *known != *junction {
                            shared.insert(tl.as_str());
                        }
                    },
                    None => {
                        first.insert(tl.clone(), junction.clone());
                    },
                }
            },
            _ => {},
        }
    }
    let mut complex: IdSet = IdSet::new();
    for i in 0..links.len()
        invariant
            views == link_views(links@),
            edge_starts_agree(starts@, edges),
            forall|j: Seq<char>| #[trigger]
                complex@.contains(j) <==> exists|k: int|
                    0 <= k < i && (#[trigger] views[k]).traffic_light is Some && shared@.contains(
                        views[k].traffic_light->0,
                    ) && junction_of(views[k], edges) == Some(j),
    {
        let ghost before = complex@;
        let link: &Link = &links[i];
        assert(views[i as int] == link@);
        assert(edge_with_start(edges, link.to_edge@) == edge_with_start(edges, link.to_edge@));
        match (&link.traffic_light, starts.get(link.to_edge.as_str())) {
            (Some(tl), Some(junction)) => {
                if shared.contains(tl.as_str()) {
                    complex.insert(junction.as_str());
                }
            },
            _ => {},
        }
        assert forall|j: Seq<char>| #[trigger]
            complex@.contains(j) <==> exists|k: int|
                0 <= k < i + 1 && (#[trigger] views[k]).traffic_light is Some && shared@.contains(
                    views[k].traffic_light->0,
                ) && junction_of(views[k], edges) == Some(j) by {
            if complex@.contains(j) && !before.contains(j) {
                assert(views[i as int].traffic_light is Some);
            }
            assert(before.contains(j) ==> complex@.contains(j));
        }
    }
    assert forall|j: Seq<char>| #[trigger]
        complex@.contains(j) <==> is_complex(views, edges, j) by {
        if complex@.contains(j) {
            let a = choose|k: int|
                0 <= k < links.len() && (#[trigger] views[k]).traffic_light is Some
                    && shared@.contains(views[k].traffic_light->0) && junction_of(views[k], edges)
                    == Some(j);
            let tl = views[a].traffic_light->0;
            assert(shared@.contains(tl));
            let other = choose|k: int|
                0 <= k < links.len() && (#[trigger] views[k]).traffic_light == Some(tl)
                    && junction_of(views[k], edges) is Some && junction_of(views[k], edges) != Some(
                    first@[tl]@,
                );
            assert(first@.contains_key(tl));
            let head = choose|k: int|
                0 <= k < links.len() && (#[trigger] views[k]).traffic_light == Some(tl)
                    && junction_of(views[k], edges) == Some(first@[tl]@);
            if junction_of(views[other], edges) != Some(j) {
                assert(views[a].traffic_light == views[other].traffic_light);
            } else {
                assert(views[a].traffic_light == views[head].traffic_light);
            }
        }
        if is_complex(views, edges, j) {
            let (a, b) = choose|a: int, b: int|
                0 <= a < views.len() && 0 <= b < views.len() && (
                #[trigger] views[a]).traffic_light is Some && views[a].traffic_light == (
                #[trigger] views[b]).traffic_light && junction_of(views[a], edges) == Some(j)
                    && junction_of(views[b], edges) is Some && junction_of(views[b], edges)
                    != Some(j);
            assert(views[a].traffic_light is Some);
            assert(views[b].traffic_light is Some);
            assert(shared@.contains(views[a].traffic_light->0));
        }
    }
    complex
}

/// The positions listed under `id`.
spec fn listed(table: Map<Seq<char>, Vec<usize>>, id: Seq<char>) -> Seq<usize> {
    if table.contains_key(id) {
        table[id]@
    } else {
        Seq::empty()
    }
}

/// The links at the positions of `list`.
spec fn picked(links: Seq<LinkView>, list: Seq<usize>) -> Seq<LinkView> {
    Seq::new(list.len(), |k: int| links[list[k] as int])
}

spec fn within(list: Seq<usize>, len: nat) -> bool {
    forall|k: int| 0 <= k < list.len() ==> (#[trigger] list[k]) < len
}

spec fn outgoing_agree(table: Map<Seq<char>, Vec<usize>>, links: Seq<LinkView>) -> bool {
    forall|id: Seq<char>|
        within(#[trigger] listed(table, id), links.len()) && picked(links, listed(table, id))
            == links_from(links, id)
}

spec fn incoming_agree(table: Map<Seq<char>, Vec<usize>>, links: Seq<LinkView>) -> bool {
    forall|id: Seq<char>|
        within(#[trigger] listed(table, id), links.len()) && picked(links, listed(table, id))
            == links_into(links, id)
}

proof fn lemma_filter_push<T>(items: Seq<T>, item: T, wanted: spec_fn(T) -> bool)
    ensures
        items.push(item).filter(wanted) == if wanted(item) {
            items.filter(wanted).push(item)
        } else {
            items.filter(wanted)
        },
{
    reveal(Seq::filter);
    assert(items.push(item).drop_last() =~= items);
}

proof fn lemma_picked_push(links: Seq<LinkView>, link: LinkView, list: Seq<usize>)
    requires
        within(list, links.len()),
        links.len() <= usize::MAX,
    ensures
        picked(links.push(link), list) == picked(links, list),
        picked(links.push(link), list.push(links.len() as usize)) == picked(links, list).push(link),
        within(list, links.push(link).len()),
        within(list.push(links.len() as usize), links.push(link).len()),
{
    assert(picked(links.push(link), list) =~= picked(links, list));
    assert(picked(links.push(link), list.push(links.len() as usize)) =~= picked(links, list).push(
        link,
    ));
}

proof fn lemma_real_links_push(connections: Seq<Connection>, c: Connection, edges: Seq<Edge>)
    ensures
        real_links(connections.push(c), edges) == if is_real_to_real(c, edges) {
            real_links(connections, edges).push(link_of(c, placed_lanes(edges)))
        } else {
            real_links(connections, edges)
        },
{
    let wanted = |c: Connection| is_real_to_real(c, edges);
    let f = |c: Connection| link_of(c, placed_lanes(edges));
    lemma_filter_push(connections, c, wanted);
    if is_real_to_real(c, edges) {
        assert(connections.filter(wanted).push(c).map_values(f) =~= connections.filter(
            wanted,
        ).map_values(f).push(f(c)));
    }
}

/// Lists `position` under `id` as well.
fn list_under(table: &mut StringHashMap<Vec<usize>>, id: &str, position: usize)
    ensures
        forall|other: Seq<char>| #[trigger]
            listed(final(table)@, other) == if other == id@ {
                listed(old(table)@, other).push(position)
            } else {
                listed(old(table)@, other)
            },
{
    let mut list: Vec<usize> = Vec::new();
    match table.get(id) {
        Some(known) => {
            for i in 0..known.len()
                invariant
                    list@ == known@.take(i as int),
            {
                list.push(known[i]);
                assert(list@ =~= known@.take(i + 1));
            }
            assert(known@.take(known@.len() as int) =~= known@);
        },
        None => {},
    }
    assert(list@ =~= listed(table@, id@));
    list.push(position);
    table.insert(id.to_owned(), list);
}

/// The lanes of a network under their ids, and the links between them under
/// the lanes that they join.
pub struct ConnectivityGraph {
    lanes: StringHashMap<LaneRecord>,
    start_by_lane: StringHashMap<String>,
    links: Vec<Link>,
    outgoing: StringHashMap<Vec<usize>>,
    incoming: StringHashMap<Vec<usize>>,
    complex: IdSet,
    placed: Ghost<Seq<PlacedLane>>,
}

impl View for ConnectivityGraph {
    type V = GraphView;

    closed spec fn view(&self) -> GraphView {
        GraphView {
            lanes: self.placed@,
            links: link_views(self.links@),
            complex_junctions: self.complex@,
        }
    }
}

impl ConnectivityGraph {
    #[verifier::type_invariant]
    spec fn well_formed(&self) -> bool {
        &&& lanes_agree(self.lanes@, self.placed@)
        &&& starts_agree(self.start_by_lane@, self.placed@)
        &&& outgoing_agree(self.outgoing@, link_views(self.links@))
        &&& incoming_agree(self.incoming@, link_views(self.links@))
    }

    /// The graph of `network`.
    pub fn of(network: &Network) -> (graph: ConnectivityGraph)
        ensures
            graph@ == graph_of(*network),
    {
        let ghost edges = network.edges@;
        let ghost placed = placed_lanes(edges);
        let tables: LaneTables = LaneTables::of(&network.edges);
        let internal: IdSet = internal_edges(&network.edges);
        let mut links: Vec<Link> = Vec::new();
        let mut outgoing: StringHashMap<Vec<usize>> = StringHashMap::new();
        let mut incoming: StringHashMap<Vec<usize>> = StringHashMap::new();
        proof {
            reveal(Seq::filter);
            assert(network.connections@.take(0) =~= Seq::empty());
            assert(link_views(links@) =~= real_links(network.connections@.take(0), edges));
            assert forall|id: Seq<char>| within(#[trigger] listed(outgoing@, id), 0) && picked(
                link_views(links@),
                listed(outgoing@, id),
            ) == links_from(link_views(links@), id) by {
                assert(picked(link_views(links@), listed(outgoing@, id)) =~= links_from(
                    link_views(links@),
                    id,
                ));
            }
            assert forall|id: Seq<char>| within(#[trigger] listed(incoming@, id), 0) && picked(
                link_views(links@),
                listed(incoming@, id),
            ) == links_into(link_views(links@), id) by {
                assert(picked(link_views(links@), listed(incoming@, id)) =~= links_into(
                    link_views(links@),
                    id,
                ));
            }
        }
        for i in 0..network.connections.len()
            invariant
                edges == network.edges@,
                placed == placed_lanes(edges),
                tables.agree(placed),
                forall|id: Seq<char>| #[trigger] internal@.contains(id) <==> is_internal(edges, id),
                link_views(links@) == real_links(network.connections@.take(i as int), edges),
                outgoing_agree(outgoing@, link_views(links@)),
                incoming_agree(incoming@, link_views(links@)),
        {
            let c: &Connection = &network.connections[i];
            assert(network.connections@.take(i + 1) =~= network.connections@.take(i as int).push(*c));
            proof {
                lemma_real_links_push(network.connections@.take(i as int), *c, edges);
            }
            if !internal.contains(c.from_edge.as_str()) && !internal.contains(c.to_edge.as_str()) {
                let link: Link = Link {
                    from_edge: c.from_edge.clone(),
                    to_edge: c.to_edge.clone(),
                    from: tables.at(c.from_edge.as_str(), c.from_lane, Ghost(placed)),
                    to: tables.at(c.to_edge.as_str(), c.to_lane, Ghost(placed)),
                    direction: c.direction,
                    via: copy_optional(&c.via),
                    traffic_light: copy_optional(&c.traffic_light),
                    link_index: c.link_index,
                };
                let ghost before = link_views(links@);
                let ghost outgoing_before = outgoing@;
                let ghost incoming_before = incoming@;
                let position: usize = links.len();
                match &link.from {
                    Some(from) => {
                        list_under(&mut outgoing, from.as_str(), position);
                        match &link.to {
                            Some(to) => {
                                list_under(&mut incoming, to.as_str(), position);
                            },
                            None => {},
                        }
                    },
                    None => {},
                }
                let ghost added = link@;
                links.push(link);
                assert(link_views(links@) =~= before.push(added));
                assert forall|id: Seq<char>|
                    within(#[trigger] listed(outgoing@, id), link_views(links@).len()) && picked(
                        link_views(links@),
                        listed(outgoing@, id),
                    ) == links_from(link_views(links@), id) by {
                    lemma_picked_push(before, added, listed(outgoing_before, id));
                    lemma_filter_push(before, added, |link: LinkView| link.from == Some(id));
                }
                assert forall|id: Seq<char>|
                    within(#[trigger] listed(incoming@, id), link_views(links@).len()) && picked(
                        link_views(links@),
                        listed(incoming@, id),
                    ) == links_into(link_views(links@), id) by {
                    lemma_picked_push(before, added, listed(incoming_before, id));
                    lemma_filter_push(
                        before,
                        added,
                        |link: LinkView| link.from is Some && link.to == Some(id),
                    );
                }
            }
        }
        assert(network.connections@.take(network.connections@.len() as int)
            =~= network.connections@);
        let starts: StringHashMap<String> = edge_starts(&network.edges);
        let complex: IdSet = complex_junctions(&links, &starts, Ghost(edges));
        let graph: ConnectivityGraph = ConnectivityGraph {
            lanes: tables.by_id,
            start_by_lane: tables.start_by_id,
            links,
            outgoing,
            incoming,
            complex,
            placed: Ghost(placed),
        };
        assert(graph@.complex_junctions =~= graph_of(*network).complex_junctions);
        graph
    }
}

/// What the zones need to know of a lane.
#[derive(Clone, Copy, Debug, PartialEq, Eq, Structural)]
pub struct LaneInfo {
    pub length: Double,
    pub pedestrian_only: bool,
}

/// What is known of a lane, where there is one.
pub open spec fn info_of(lane: Option<PlacedLane>) -> Option<LaneInfo> {
    match lane {
        Some(l) => Some(LaneInfo { length: l.length, pedestrian_only: l.pedestrian_only }),
        None => None,
    }
}

/// The edge of a lane, where there is one.
pub open spec fn edge_of(lane: Option<PlacedLane>) -> Option<Seq<char>> {
    match lane {
        Some(l) => Some(l.edge),
        None => None,
    }
}

/// What a list of references to links says.
pub open spec fn linked(list: Seq<&Link>) -> Seq<LinkView> {
    Seq::new(list.len(), |i: int| list[i]@)
}

proof fn lemma_distinct_push<T>(items: Seq<T>, item: T)
    ensures
        distinct(items.push(item)) == if distinct(items).contains(item) {
            distinct(items)
        } else {
            distinct(items).push(item)
        },
{
    assert(items.push(item).drop_last() =~= items);
}

/// Whether `id` is among `ids`.
pub fn is_among(ids: &Vec<String>, id: &String) -> (found: bool)
    ensures
        found == texts(ids@).contains(id@),
{
    for i in 0..ids.len()
        invariant
            forall|k: int| 0 <= k < i ==> (#[trigger] ids@[k])@ != id@,
    {
        if ids[i] == *id {
            assert(texts(ids@)[i as int] == id@);
            return true;
        }
    }
    assert forall|k: int| 0 <= k < texts(ids@).len() implies texts(ids@)[k] != id@ by {
        assert(ids@[k]@ != id@);
    }
    false
}

/// Adds `id` to `ids` unless it is among them.
pub fn add_distinct(ids: &mut Vec<String>, id: &String)
    ensures
        texts(final(ids)@) == if texts(old(ids)@).contains(id@) {
            texts(old(ids)@)
        } else {
            texts(old(ids)@).push(id@)
        },
{
    if !is_among(ids, id) {
        ids.push(id.clone());
        assert(texts(ids@) =~= texts(old(ids)@).push(id@));
    }
}

impl ConnectivityGraph {
    /// What is known of the lane that bears `id`.
    pub fn lane(&self, id: &str) -> (info: Option<LaneInfo>)
        ensures
            info == info_of(lane_named(self@.lanes, id@)),
    {
        proof {
            use_type_invariant(self);
            assert(lane_named(self.placed@, id@) == lane_named(self.placed@, id@));
        }
        match self.lanes.get(id) {
            Some(record) => Some(
                LaneInfo { length: record.length, pedestrian_only: record.pedestrian_only },
            ),
            None => None,
        }
    }

    /// The edge of the lane that bears `id`.
    pub fn edge(&self, id: &str) -> (edge: Option<String>)
        ensures
            optional_text(edge) == edge_of(lane_named(self@.lanes, id@)),
    {
        proof {
            use_type_invariant(self);
            assert(lane_named(self.placed@, id@) == lane_named(self.placed@, id@));
        }
        match self.lanes.get(id) {
            Some(record) => Some(record.edge.clone()),
            None => None,
        }
    }

    /// The links at the positions that `table` lists under `id`.
    fn pick<'a>(&'a self, table: &StringHashMap<Vec<usize>>, id: &str) -> (found: Vec<&'a Link>)
        requires
            within(listed(table@, id@), self.links@.len()),
        ensures
            linked(found@) == picked(link_views(self.links@), listed(table@, id@)),
    {
        let mut found: Vec<&'a Link> = Vec::new();
        match table.get(id) {
            Some(list) => {
                for i in 0..list.len()
                    invariant
                        within(list@, self.links@.len()),
                        found@.len() == i,
                        forall|k: int|
                            0 <= k < i ==> (#[trigger] found@[k])@
                                == self.links@[list@[k] as int]@,
                {
                    assert(list@[i as int] < self.links@.len());
                    found.push(&self.links[list[i]]);
                }
            },
            None => {},
        }
        assert(linked(found@) =~= picked(link_views(self.links@), listed(table@, id@)));
        found
    }

    /// The links out of the lane that bears `id`.
    pub fn links_from(&self, id: &str) -> (found: Vec<&Link>)
        ensures
            linked(found@) == links_from(self@.links, id@),
    {
        proof {
            use_type_invariant(self);
            assert(listed(self.outgoing@, id@) == listed(self.outgoing@, id@));
        }
        self.pick(&self.outgoing, id)
    }

    /// The links from known lanes into the lane that bears `id`.
    pub fn links_into(&self, id: &str) -> (found: Vec<&Link>)
        ensures
            linked(found@) == links_into(self@.links, id@),
    {
        proof {
            use_type_invariant(self);
            assert(listed(self.incoming@, id@) == listed(self.incoming@, id@));
        }
        self.pick(&self.incoming, id)
    }

    /// The lanes that lead directly into the lane that bears `id`.
    pub fn predecessors(&self, id: &str) -> (lanes: Vec<String>)
        ensures
            texts(lanes@) == self@.predecessors(id@),
    {
        let links: Vec<&Link> = self.links_into(id);
        let ghost views = links_into(self@.links, id@);
        let ghost origins = views.map_values(|link: LinkView| link.from->0);
        let mut lanes: Vec<String> = Vec::new();
        assert(texts(lanes@) =~= distinct(origins.take(0)));
        for i in 0..links.len()
            invariant
                linked(links@) == views,
                views == links_into(self@.links, id@),
                origins == views.map_values(|link: LinkView| link.from->0),
                texts(lanes@) == distinct(origins.take(i as int)),
        {
            assert(views[i as int] == links@[i as int]@);
            proof {
                self@.links.lemma_filter_pred(
                    |link: LinkView| link.from is Some && link.to == Some(id@),
                    i as int,
                );
                lemma_distinct_push(origins.take(i as int), origins[i as int]);
                assert(origins.take(i + 1) =~= origins.take(i as int).push(origins[i as int]));
            }
            match &links[i].from {
                Some(from) => {
                    add_distinct(&mut lanes, from);
                },
                None => {},
            }
        }
        assert(origins.take(origins.len() as int) =~= origins);
        lanes
    }

    /// How many lanes the lane that bears `id` leads into.
    pub fn successor_lane_count(&self, id: &str) -> (count: usize)
        ensures
            count == self@.successors(id@).len(),
    {
        let links: Vec<&Link> = self.links_from(id);
        let ghost views = links_from(self@.links, id@);
        let ghost known = |link: LinkView| link.to is Some;
        let ghost target = |link: LinkView| link.to->0;
        let mut lanes: Vec<String> = Vec::new();
        proof {
            reveal(Seq::filter);
            assert(views.take(0).filter(known).map_values(target) =~= Seq::empty());
            assert(texts(lanes@) =~= Seq::empty());
        }
        for i in 0..links.len()
            invariant
                linked(links@) == views,
                known == (|link: LinkView| link.to is Some),
                target == (|link: LinkView| link.to->0),
                texts(lanes@) == distinct(views.take(i as int).filter(known).map_values(target)),
        {
            assert(views[i as int] == links@[i as int]@);
            let ghost before = views.take(i as int);
            proof {
                assert(views.take(i + 1) =~= before.push(views[i as int]));
                lemma_filter_push(before, views[i as int], known);
                lemma_distinct_push(before.filter(known).map_values(target), target(views[i as int]));
                assert(before.filter(known).push(views[i as int]).map_values(target)
                    =~= before.filter(known).map_values(target).push(target(views[i as int])));
            }
            match &links[i].to {
                Some(to) => {
                    add_distinct(&mut lanes, to);
                },
                None => {},
            }
        }
        assert(views.take(views.len() as int) =~= views);
        lanes.len()
    }

    /// The internal lane that bridges `from` and `to`.
    #[verifier::loop_isolation(false)]
    pub fn via_between(&self, from: &str, to: &str) -> (via: Option<String>)
        ensures
            optional_text(via) == self@.via_between(from@, to@),
    {
        let from_id: String = from.to_owned();
        let links: Vec<&Link> = self.links_into(to);
        let ghost views = links_into(self@.links, to@);
        let ghost wanted = |link: LinkView| link.from == Some(from@) && link.via is Some;
        let mut k: usize = links.len();
        assert(views.take(k as int) =~= views);
        while k > 0
            invariant
                k <= links.len(),
                last_where(views, wanted) == last_where(views.take(k as int), wanted),
            decreases k,
        {
            assert(views.take(k as int).last() == links@[k - 1]@);
            assert(views.take(k as int).drop_last() =~= views.take(k - 1));
            k = k - 1;
            match (&links[k].from, &links[k].via) {
                (Some(origin), Some(via)) => {
                    if *origin == from_id {
                        return Some(via.clone());
                    }
                },
                _ => {},
            }
        }
        None
    }

    /// Whether a signal holds traffic back at the end of the lane.
    pub fn is_signal_controlled(&self, id: &str) -> (controlled: bool)
        ensures
            controlled == self@.is_signal_controlled(id@),
    {
        let links: Vec<&Link> = self.links_from(id);
        let ghost views = links_from(self@.links, id@);
        for i in 0..links.len()
            invariant
                linked(links@) == views,
                views == links_from(self@.links, id@),
                forall|k: int|
                    0 <= k < i ==> !((#[trigger] views[k]).traffic_light is Some
                        && views[k].link_index is Some),
        {
            assert(views[i as int] == links@[i as int]@);
            if links[i].traffic_light.is_some() && links[i].link_index.is_some() {
                return true;
            }
        }
        false
    }

    /// Whether the edge of the lane starts at a complex junction.
    pub fn starts_at_complex_junction(&self, id: &str) -> (complex: bool)
        ensures
            complex == self@.starts_at_complex_junction(id@),
    {
        proof {
            use_type_invariant(self);
            assert(lane_with_start(self.placed@, id@) == lane_with_start(self.placed@, id@));
        }
        match self.start_by_lane.get(id) {
            Some(junction) => self.complex.contains(junction.as_str()),
            None => false,
        }
    }
}

} // verus!
