//! The lanes of a network under their ids, and the junctions that they lead
//! to.

use crate::connectivity::last_where;
use crate::network::{Edge, Junction, Lane, Network};
use crate::order::texts;
use vstd::hash_map::StringHashMap;
use vstd::prelude::*;

verus! {

/// Every lane of the network, edge by edge.
pub open spec fn all_lanes(edges: Seq<Edge>) -> Seq<Lane>
    decreases edges.len(),
{
    if edges.len() == 0 {
        Seq::empty()
    } else {
        all_lanes(edges.drop_last()) + edges.last().lanes@
    }
}

/// The lane that bears `id`; of several, the last.
pub open spec fn lane_called(lanes: Seq<Lane>, id: Seq<char>) -> Option<Lane> {
    last_where(lanes, |lane: Lane| lane.id@ == id)
}

/// The lanes of a network under their ids.
pub struct LaneTable<'a> {
    edges: &'a Vec<Edge>,
    places: StringHashMap<(usize, usize)>,
}

/// Whether `place`, an edge and a lane of it, is where `lane` is.
spec fn is_place(edges: Seq<Edge>, place: (usize, usize), lane: Lane) -> bool {
    let (i, j) = (place.0 as int, place.1 as int);
    i < edges.len() && j < edges[i].lanes@.len() && edges[i].lanes@[j] == lane
}

spec fn places_agree(
    places: Map<Seq<char>, (usize, usize)>,
    edges: Seq<Edge>,
    lanes: Seq<Lane>,
) -> bool {
    forall|id: Seq<char>|
        match #[trigger] lane_called(lanes, id) {
            Some(lane) => places.contains_key(id) && is_place(edges, places[id], lane),
            None => !places.contains_key(id),
        }
}

impl<'a> LaneTable<'a> {
    #[verifier::type_invariant]
    spec fn agrees(&self) -> bool {
        places_agree(self.places@, self.edges@, all_lanes(self.edges@))
    }

    /// The lanes that the table was made of.
    pub closed spec fn view(&self) -> Seq<Lane> {
        all_lanes(self.edges@)
    }

    /// The table of a network's lanes.
    pub fn of(network: &'a Network) -> (table: LaneTable<'a>)
        ensures
            table@ == all_lanes(network.edges@),
    {
        let edges: &'a Vec<Edge> = &network.edges;
        let mut places: StringHashMap<(usize, usize)> = StringHashMap::new();
        assert(edges@.take(0) =~= Seq::empty());
        let mut i: usize = 0;
        while i < edges.len()
            invariant
                i <= edges@.len(),
                places_agree(places@, edges@, all_lanes(edges@.take(i as int))),
            decreases edges@.len() - i,
        {
            let edge: &Edge = &edges[i];
            let ghost before = all_lanes(edges@.take(i as int));
            assert(before + edge.lanes@.take(0) =~= before);
            let mut j: usize = 0;
            while j < edge.lanes.len()
                invariant
                    i < edges@.len(),
                    *edge == edges@[i as int],
                    j <= edge.lanes@.len(),
                    places_agree(places@, edges@, before + edge.lanes@.take(j as int)),
                decreases edge.lanes@.len() - j,
            {
                let lane: &Lane = &edge.lanes[j];
                let ghost listed = before + edge.lanes@.take(j as int);
                let ghost longer = before + edge.lanes@.take(j + 1);
                places.insert(lane.id.clone(), (i, j));
                assert(longer =~= listed.push(*lane));
                assert forall|id: Seq<char>|
                    match #[trigger] lane_called(longer, id) {
                        Some(lane) => places@.contains_key(id) && is_place(edges@, places@[id], lane),
                        None => !places@.contains_key(id),
                    } by {
                    assert(longer.drop_last() =~= listed);
                    assert(lane_called(listed, id) == lane_called(listed, id));
                }
                j = j + 1;
            }
            assert(edge.lanes@.take(edge.lanes@.len() as int) =~= edge.lanes@);
            assert(edges@.take(i + 1).drop_last() =~= edges@.take(i as int));
            i = i + 1;
        }
        assert(edges@.take(edges@.len() as int) =~= edges@);
        LaneTable { edges, places }
    }

    /// The lane that bears `id`.
    pub fn get(&self, id: &str) -> (lane: Option<&'a Lane>)
        ensures
            match lane {
                Some(l) => lane_called(self@, id@) == Some(*l),
                None => lane_called(self@, id@) is None,
            },
    {
        proof {
            use_type_invariant(self);
            assert(lane_called(self@, id@) == lane_called(self@, id@));
        }
        match self.places.get(id) {
            Some(place) => Some(&self.edges[place.0].lanes[place.1]),
            None => None,
        }
    }
}

/// The junction that lists `lane` among the lanes that lead to it; of several,
/// the last.
pub open spec fn junction_listing(junctions: Seq<Junction>, lane: Seq<char>) -> Option<Seq<char>> {
    match last_where(junctions, |j: Junction| texts(j.incoming_lanes@).contains(lane)) {
        Some(junction) => Some(junction.id@),
        None => None,
    }
}

/// The junctions under the lanes that lead to them.
pub struct JunctionTable {
    junction_by_lane: StringHashMap<String>,
    junctions: Ghost<Seq<Junction>>,
}

spec fn junctions_agree(table: Map<Seq<char>, String>, junctions: Seq<Junction>) -> bool {
    forall|lane: Seq<char>|
        match #[trigger] junction_listing(junctions, lane) {
            Some(id) => table.contains_key(lane) && table[lane]@ == id,
            None => !table.contains_key(lane),
        }
}

/// Whether `table` holds `id` under `lane` where it is among `lanes`, and
/// otherwise what `before` holds.
spec fn is_entered(
    table: Map<Seq<char>, String>,
    before: Map<Seq<char>, String>,
    lanes: Seq<Seq<char>>,
    id: Seq<char>,
    lane: Seq<char>,
) -> bool {
    if lanes.contains(lane) {
        table.contains_key(lane) && table[lane]@ == id
    } else {
        table.contains_key(lane) == before.contains_key(lane) && (before.contains_key(lane)
            ==> table[lane] == before[lane])
    }
}

spec fn entered(
    table: Map<Seq<char>, String>,
    before: Map<Seq<char>, String>,
    lanes: Seq<Seq<char>>,
    id: Seq<char>,
) -> bool {
    forall|lane: Seq<char>| #[trigger] is_entered(table, before, lanes, id, lane)
}

impl JunctionTable {
    #[verifier::type_invariant]
    spec fn agrees(&self) -> bool {
        junctions_agree(self.junction_by_lane@, self.junctions@)
    }

    /// The junctions that the table was made of.
    pub closed spec fn view(&self) -> Seq<Junction> {
        self.junctions@
    }

    /// The table of a network's junctions.
    pub fn of(network: &Network) -> (table: JunctionTable)
        ensures
            table@ == network.junctions@,
    {
        let junctions: &Vec<Junction> = &network.junctions;
        let mut table: StringHashMap<String> = StringHashMap::new();
        assert(junctions@.take(0) =~= Seq::empty());
        let mut i: usize = 0;
        while i < junctions.len()
            invariant
                i <= junctions@.len(),
                junctions_agree(table@, junctions@.take(i as int)),
            decreases junctions@.len() - i,
        {
            let junction: &Junction = &junctions[i];
            let ghost earlier = junctions@.take(i as int);
            let ghost before = table@;
            let mut j: usize = 0;
            while j < junction.incoming_lanes.len()
                invariant
                    j <= junction.incoming_lanes@.len(),
                    entered(
                        table@,
                        before,
                        texts(junction.incoming_lanes@.take(j as int)),
                        junction.id@,
                    ),
                decreases junction.incoming_lanes@.len() - j,
            {
                let ghost listed = texts(junction.incoming_lanes@.take(j as int));
                let ghost longer = texts(junction.incoming_lanes@.take(j + 1));
                let ghost held = table@;
                table.insert(junction.incoming_lanes[j].clone(), junction.id.clone());
                assert(longer =~= listed.push(junction.incoming_lanes@[j as int]@));
                assert forall|lane: Seq<char>| #[trigger]
                    is_entered(table@, before, longer, junction.id@, lane) by {
                    assert(is_entered(held, before, listed, junction.id@, lane));
                    if longer.contains(lane) {
                        let k = choose|k: int| 0 <= k < longer.len() && longer[k] == lane;
                        if k < listed.len() {
                            assert(listed[k] == lane);
                        }
                    }
                    if listed.contains(lane) {
                        let k = choose|k: int| 0 <= k < listed.len() && listed[k] == lane;
                        assert(longer[k] == lane);
                    }
                    assert(longer[listed.len() as int] == junction.incoming_lanes@[j as int]@);
                }
                j = j + 1;
            }
            let ghost longer = junctions@.take(i + 1);
            assert(longer.drop_last() =~= earlier);
            assert(junction.incoming_lanes@.take(junction.incoming_lanes@.len() as int)
                =~= junction.incoming_lanes@);
            assert forall|lane: Seq<char>|
                match #[trigger] junction_listing(longer, lane) {
                    Some(id) => table@.contains_key(lane) && table@[lane]@ == id,
                    None => !table@.contains_key(lane),
                } by {
                assert(junction_listing(earlier, lane) == junction_listing(earlier, lane));
                assert(is_entered(
                    table@,
                    before,
                    texts(junction.incoming_lanes@),
                    junction.id@,
                    lane,
                ));
            }
            i = i + 1;
        }
        assert(junctions@.take(junctions@.len() as int) =~= junctions@);
        JunctionTable { junction_by_lane: table, junctions: Ghost(network.junctions@) }
    }

    /// The junction that lists `lane` among the lanes that lead to it.
    pub fn get(&self, lane: &str) -> (junction: Option<String>)
        ensures
            match junction {
                Some(id) => junction_listing(self@, lane@) == Some(id@),
                None => junction_listing(self@, lane@) is None,
            },
    {
        proof {
            use_type_invariant(self);
            assert(junction_listing(self@, lane@) == junction_listing(self@, lane@));
        }
        match self.junction_by_lane.get(lane) {
            Some(id) => Some(id.clone()),
            None => None,
        }
    }
}

} // verus!
