//! How often lanes are counted: once each, on the way from the lanes of a
//! junction to the exits of zones.

use crate::boundaries::exits_of;
use crate::connectivity::{graph_of, lane_named, GraphView};
use crate::detector::DetectorView;
use crate::double::Double;
use crate::grouping::{groups_of, movement_of_lane, with_lane, GroupView};
use crate::movement::{movement_rank, MovementView};
use crate::network::{traffic_light_kind, Junction, Network, TrafficLightProgram};
use crate::order::{texts, Rank};
use crate::sibling_laws::labels_are_positions;
use crate::siblings::{
    group_rank, merged_group, merged_groups, sibling_labels, siblings_merged, sorted_groups,
    with_group, VehicleGroupView,
};
use crate::zone_generator::{
    all_pedestrian_zones, is_pedestrian_lane, lanes_into, pedestrian_zone_of, pedestrian_zones_of,
    vehicle_groups, vehicle_groups_at, vehicle_zone_of, vehicle_zones_of, zones_of,
};
use crate::zone_laws::gate_lanes;
use vstd::multiset::Multiset;
use vstd::prelude::*;
use vstd::seq_lib::lemma_multiset_commutative;

verus! {

/// The lanes of all groups, one group after the other.
pub open spec fn lanes_of_groups(groups: Seq<VehicleGroupView>) -> Seq<Seq<char>>
    decreases groups.len(),
{
    if groups.len() == 0 {
        Seq::empty()
    } else {
        lanes_of_groups(groups.drop_last()) + groups.last().lanes
    }
}

/// How often each lane is among those of the groups.
pub open spec fn lane_counts(groups: Seq<VehicleGroupView>) -> Multiset<Seq<char>> {
    lanes_of_groups(groups).to_multiset()
}

proof fn lemma_counts_of_one_more(groups: Seq<VehicleGroupView>, group: VehicleGroupView)
    ensures
        lane_counts(groups.push(group)) == lane_counts(groups).add(group.lanes.to_multiset()),
{
    assert(groups.push(group).drop_last() =~= groups);
    lemma_multiset_commutative(lanes_of_groups(groups), group.lanes);
}

proof fn lemma_no_counts()
    ensures
        lane_counts(Seq::empty()) == Multiset::<Seq<char>>::empty(),
{
    let none = Seq::<Seq<char>>::empty();
    none.to_multiset_ensures();
    assert(none.to_multiset().len() == 0);
    assert(none.to_multiset() =~= Multiset::empty());
    assert(lanes_of_groups(Seq::empty()) =~= none);
}

proof fn lemma_placing_counts(groups: Seq<VehicleGroupView>, group: VehicleGroupView)
    ensures
        lane_counts(with_group(groups, group)) == lane_counts(groups).add(
            group.lanes.to_multiset(),
        ),
    decreases groups.len(),
{
    if groups.len() > 0 && group_rank(groups.last(), group) == Rank::After {
        let rest = groups.drop_last();
        lemma_placing_counts(rest, group);
        lemma_counts_of_one_more(with_group(rest, group), groups.last());
        lemma_counts_of_one_more(rest, groups.last());
        assert(rest.push(groups.last()) =~= groups);
        assert(lane_counts(with_group(groups, group)) =~= lane_counts(groups).add(
            group.lanes.to_multiset(),
        ));
    } else {
        lemma_counts_of_one_more(groups, group);
    }
}

proof fn lemma_sorting_counts(groups: Seq<VehicleGroupView>)
    ensures
        lane_counts(sorted_groups(groups)) == lane_counts(groups),
    decreases groups.len(),
{
    if groups.len() == 0 {
        assert(sorted_groups(groups) =~= groups);
    } else {
        let rest = groups.drop_last();
        lemma_sorting_counts(rest);
        lemma_placing_counts(sorted_groups(rest), groups.last());
        lemma_counts_of_one_more(rest, groups.last());
        assert(rest.push(groups.last()) =~= groups);
    }
}

/// How often each lane is among those that the first `upto` roots have
/// absorbed from the groups before `end`.
spec fn rooted_counts(
    groups: Seq<VehicleGroupView>,
    labels: Seq<int>,
    upto: int,
    end: int,
) -> Multiset<Seq<char>>
    decreases upto,
{
    if upto <= 0 {
        Multiset::empty()
    } else {
        let before = rooted_counts(groups, labels, upto - 1, end);
        if labels[upto - 1] == upto - 1 {
            before.add(merged_group(groups, labels, upto - 1, end).lanes.to_multiset())
        } else {
            before
        }
    }
}

/// A group that comes up is absorbed by its root and by no other.
proof fn lemma_one_more_absorbed(
    groups: Seq<VehicleGroupView>,
    labels: Seq<int>,
    upto: int,
    end: int,
)
    requires
        0 <= upto <= end < groups.len(),
        labels.len() == groups.len(),
        0 <= labels[end] <= end,
        labels[labels[end]] == labels[end],
    ensures
        rooted_counts(groups, labels, upto, end + 1) == if labels[end] < upto {
            rooted_counts(groups, labels, upto, end).add(groups[end].lanes.to_multiset())
        } else {
            rooted_counts(groups, labels, upto, end)
        },
    decreases upto,
{
    if upto > 0 {
        lemma_one_more_absorbed(groups, labels, upto - 1, end);
        let root = upto - 1;
        let before = merged_group(groups, labels, root, end);
        lemma_multiset_commutative(before.lanes, groups[end].lanes);
        let now = rooted_counts(groups, labels, upto, end + 1);
        let earlier = rooted_counts(groups, labels, upto, end);
        if labels[end] < upto {
            assert(now =~= earlier.add(groups[end].lanes.to_multiset()));
        } else {
            assert(now =~= earlier);
        }
    }
}

proof fn lemma_all_absorbed(groups: Seq<VehicleGroupView>, labels: Seq<int>, end: int)
    requires
        0 <= end <= groups.len(),
        labels.len() == groups.len(),
        forall|k: int|
            0 <= k < groups.len() ==> 0 <= (#[trigger] labels[k]) <= k && labels[labels[k]]
                == labels[k],
    ensures
        rooted_counts(groups, labels, end, end) == lane_counts(groups.take(end)),
    decreases end,
{
    if end == 0 {
        lemma_no_counts();
        assert(groups.take(0) =~= Seq::empty());
    } else {
        let k = end - 1;
        lemma_all_absorbed(groups, labels, k);
        assert(0 <= labels[k] <= k);
        lemma_one_more_absorbed(groups, labels, k, k);
        lemma_counts_of_one_more(groups.take(k), groups[k]);
        assert(groups.take(k).push(groups[k]) =~= groups.take(end));
        assert(merged_group(groups, labels, k, end) == groups[k]);
    }
}

proof fn lemma_merged_counts(groups: Seq<VehicleGroupView>, labels: Seq<int>, upto: int)
    requires
        0 <= upto <= groups.len(),
    ensures
        lane_counts(merged_groups(groups, labels, upto)) == rooted_counts(
            groups,
            labels,
            upto,
            groups.len() as int,
        ),
    decreases upto,
{
    if upto == 0 {
        lemma_no_counts();
        assert(merged_groups(groups, labels, upto) =~= Seq::empty());
    } else {
        lemma_merged_counts(groups, labels, upto - 1);
        lemma_counts_of_one_more(
            merged_groups(groups, labels, upto - 1),
            merged_group(groups, labels, upto - 1, groups.len() as int),
        );
    }
}

/// Merging siblings neither loses a lane nor doubles one: each is among the
/// lanes of the merged groups as often as among those of the groups.
pub proof fn merging_counts_every_lane_once(g: GraphView, groups: Seq<VehicleGroupView>)
    ensures
        lanes_of_groups(siblings_merged(g, groups)).to_multiset() == lanes_of_groups(
            groups,
        ).to_multiset(),
{
    let labels = sibling_labels(g, groups);
    let n = groups.len() as int;
    labels_are_positions(g, groups);
    lemma_all_absorbed(groups, labels, n);
    lemma_merged_counts(groups, labels, n);
    lemma_sorting_counts(merged_groups(groups, labels, n));
    assert(groups.take(n) =~= groups);
}

/// How often `lane` is among `lanes`.
pub open spec fn tally(lanes: Seq<Seq<char>>, lane: Seq<char>) -> nat {
    lanes.to_multiset().count(lane)
}

proof fn lemma_tally_push(lanes: Seq<Seq<char>>, last: Seq<char>, lane: Seq<char>)
    ensures
        tally(lanes.push(last), lane) == tally(lanes, lane) + if last == lane {
            1nat
        } else {
            0
        },
{
    lanes.to_multiset_ensures();
}

proof fn lemma_tally_none(lane: Seq<char>)
    ensures
        tally(Seq::empty(), lane) == 0,
{
    Seq::<Seq<char>>::empty().to_multiset_ensures();
    assert(!Seq::<Seq<char>>::empty().contains(lane));
}

proof fn lemma_tally_joined(a: Seq<Seq<char>>, b: Seq<Seq<char>>, lane: Seq<char>)
    ensures
        tally(a + b, lane) == tally(a, lane) + tally(b, lane),
{
    lemma_multiset_commutative(a, b);
}

/// How often `lane` is in the lists.
spec fn tally_all(lists: Seq<Seq<Seq<char>>>, lane: Seq<char>) -> nat
    decreases lists.len(),
{
    if lists.len() == 0 {
        0
    } else {
        tally_all(lists.drop_last(), lane) + tally(lists.last(), lane)
    }
}

proof fn lemma_tally_all_joined(a: Seq<Seq<Seq<char>>>, b: Seq<Seq<Seq<char>>>, lane: Seq<char>)
    ensures
        tally_all(a + b, lane) == tally_all(a, lane) + tally_all(b, lane),
    decreases b.len(),
{
    if b.len() == 0 {
        assert(a + b =~= a);
    } else {
        lemma_tally_all_joined(a, b.drop_last(), lane);
        assert((a + b).drop_last() =~= a + b.drop_last());
        assert((a + b).last() == b.last());
    }
}

proof fn lemma_tally_all_one(list: Seq<Seq<char>>, lane: Seq<char>)
    ensures
        tally_all(seq![list], lane) == tally(list, lane),
{
    assert(seq![list].drop_last() =~= Seq::empty());
    assert(seq![list].last() == list);
    assert(tally_all(Seq::empty(), lane) == 0);
}

spec fn lane_lists(groups: Seq<GroupView>) -> Seq<Seq<Seq<char>>> {
    groups.map_values(|group: GroupView| group.lanes)
}

/// A lane is put into one group.
proof fn lemma_placed_once(
    groups: Seq<GroupView>,
    movement: MovementView,
    last: Seq<char>,
    lane: Seq<char>,
)
    ensures
        tally_all(lane_lists(with_lane(groups, movement, last)), lane) == tally_all(
            lane_lists(groups),
            lane,
        ) + if last == lane {
            1nat
        } else {
            0
        },
    decreases groups.len(),
{
    let all = with_lane(groups, movement, last);
    let alone = seq![last];
    lemma_tally_none(lane);
    lemma_tally_push(Seq::empty(), last, lane);
    assert(Seq::<Seq<char>>::empty().push(last) =~= alone);
    lemma_tally_all_one(alone, lane);
    if groups.len() == 0 {
        assert(lane_lists(all) =~= seq![alone]);
        assert(lane_lists(groups) =~= Seq::empty());
    } else {
        let first = groups[0];
        let rest = groups.drop_first();
        lemma_tally_all_one(first.lanes, lane);
        lemma_tally_all_joined(seq![first.lanes], lane_lists(rest), lane);
        assert(lane_lists(groups) =~= seq![first.lanes] + lane_lists(rest));
        match movement_rank(first.movement, movement) {
            Rank::Before => {
                lemma_placed_once(rest, movement, last, lane);
                let placed = with_lane(rest, movement, last);
                lemma_tally_all_joined(seq![first.lanes], lane_lists(placed), lane);
                assert(lane_lists(all) =~= seq![first.lanes] + lane_lists(placed));
            },
            Rank::Same => {
                let joined = first.lanes.push(last);
                lemma_tally_push(first.lanes, last, lane);
                lemma_tally_all_one(joined, lane);
                lemma_tally_all_joined(seq![joined], lane_lists(rest), lane);
                assert(lane_lists(all) =~= seq![joined] + lane_lists(rest));
            },
            Rank::After => {
                lemma_tally_all_joined(seq![alone], lane_lists(groups), lane);
                assert(lane_lists(all) =~= seq![alone] + lane_lists(groups));
            },
        }
    }
}

/// Grouping doubles no lane.
proof fn lemma_grouped_once(
    g: GraphView,
    programs: Seq<TrafficLightProgram>,
    lanes: Seq<Seq<char>>,
    lane: Seq<char>,
)
    ensures
        tally_all(lane_lists(groups_of(g, programs, lanes)), lane) <= tally(lanes, lane),
    decreases lanes.len(),
{
    if lanes.len() == 0 {
        assert(lane_lists(groups_of(g, programs, lanes)) =~= Seq::empty());
    } else {
        let rest = lanes.drop_last();
        lemma_grouped_once(g, programs, rest, lane);
        lemma_tally_push(rest, lanes.last(), lane);
        assert(rest.push(lanes.last()) =~= lanes);
        if let Ok(movement) = movement_of_lane(g, programs, lanes.last()) {
            lemma_placed_once(groups_of(g, programs, rest), movement, lanes.last(), lane);
        }
    }
}

/// The lanes that zones end on, one zone after the other.
pub open spec fn exit_lanes(zones: Seq<DetectorView>) -> Seq<Seq<char>>
    decreases zones.len(),
{
    if zones.len() == 0 {
        Seq::empty()
    } else {
        exit_lanes(zones.drop_last()) + gate_lanes(zones.last().exits)
    }
}

proof fn lemma_exit_lanes_push(zones: Seq<DetectorView>, zone: DetectorView, lane: Seq<char>)
    ensures
        tally(exit_lanes(zones.push(zone)), lane) == tally(exit_lanes(zones), lane) + tally(
            gate_lanes(zone.exits),
            lane,
        ),
{
    assert(zones.push(zone).drop_last() =~= zones);
    lemma_tally_joined(exit_lanes(zones), gate_lanes(zone.exits), lane);
}

proof fn lemma_exit_lanes_joined(a: Seq<DetectorView>, b: Seq<DetectorView>, lane: Seq<char>)
    ensures
        tally(exit_lanes(a + b), lane) == tally(exit_lanes(a), lane) + tally(exit_lanes(b), lane),
    decreases b.len(),
{
    lemma_tally_none(lane);
    if b.len() == 0 {
        assert(a + b =~= a);
    } else {
        let rest = b.drop_last();
        lemma_exit_lanes_joined(a, rest, lane);
        lemma_exit_lanes_push(a + rest, b.last(), lane);
        lemma_exit_lanes_push(rest, b.last(), lane);
        assert((a + rest).push(b.last()) =~= a + b);
        assert(rest.push(b.last()) =~= b);
    }
}

proof fn lemma_exits_once(g: GraphView, lanes: Seq<Seq<char>>, lane: Seq<char>)
    ensures
        tally(gate_lanes(exits_of(g, lanes)), lane) <= tally(lanes, lane),
    decreases lanes.len(),
{
    if lanes.len() == 0 {
        assert(gate_lanes(exits_of(g, lanes)) =~= lanes);
    } else {
        let rest = lanes.drop_last();
        lemma_exits_once(g, rest, lane);
        lemma_tally_push(rest, lanes.last(), lane);
        assert(rest.push(lanes.last()) =~= lanes);
        if lane_named(g.lanes, lanes.last()) is Some {
            let before = gate_lanes(exits_of(g, rest));
            lemma_tally_push(before, lanes.last(), lane);
            assert(gate_lanes(exits_of(g, lanes)) =~= before.push(lanes.last()));
        }
    }
}

proof fn lemma_vehicle_exits_once(
    g: GraphView,
    groups: Seq<VehicleGroupView>,
    max_zone_length: Option<Double>,
    stop: bool,
    lane: Seq<char>,
)
    ensures
        tally(exit_lanes(vehicle_zones_of(g, groups, max_zone_length, stop)), lane) <= tally(
            lanes_of_groups(groups),
            lane,
        ),
    decreases groups.len(),
{
    lemma_tally_none(lane);
    if groups.len() > 0 {
        let rest = groups.drop_last();
        let group = groups.last();
        lemma_vehicle_exits_once(g, rest, max_zone_length, stop, lane);
        lemma_tally_joined(lanes_of_groups(rest), group.lanes, lane);
        lemma_exits_once(g, group.lanes, lane);
        if let Some(zone) = vehicle_zone_of(g, group, max_zone_length, stop) {
            lemma_exit_lanes_push(
                vehicle_zones_of(g, rest, max_zone_length, stop),
                zone,
                lane,
            );
        }
    }
}

proof fn lemma_pedestrian_exits_once(
    g: GraphView,
    groups: Seq<GroupView>,
    junction: Junction,
    max_zone_length: Option<Double>,
    lane: Seq<char>,
)
    ensures
        tally(exit_lanes(pedestrian_zones_of(g, groups, junction, max_zone_length)), lane)
            <= tally_all(lane_lists(groups), lane),
    decreases groups.len(),
{
    lemma_tally_none(lane);
    if groups.len() > 0 {
        let rest = groups.drop_last();
        let group = groups.last();
        lemma_pedestrian_exits_once(g, rest, junction, max_zone_length, lane);
        lemma_exits_once(g, group.lanes, lane);
        assert(lane_lists(groups).drop_last() =~= lane_lists(rest));
        assert(lane_lists(groups).last() == group.lanes);
        if let Some(zone) = pedestrian_zone_of(g, group, junction, max_zone_length) {
            lemma_exit_lanes_push(
                pedestrian_zones_of(g, rest, junction, max_zone_length),
                zone,
                lane,
            );
        }
    }
}

proof fn lemma_lanes_of_listed_groups(groups: Seq<VehicleGroupView>, lane: Seq<char>)
    ensures
        tally(lanes_of_groups(groups), lane) == tally_all(
            groups.map_values(|group: VehicleGroupView| group.lanes),
            lane,
        ),
    decreases groups.len(),
{
    let lists = groups.map_values(|group: VehicleGroupView| group.lanes);
    lemma_tally_none(lane);
    if groups.len() > 0 {
        let rest = groups.drop_last();
        lemma_lanes_of_listed_groups(rest, lane);
        lemma_tally_joined(lanes_of_groups(rest), groups.last().lanes, lane);
        assert(lists.drop_last() =~= rest.map_values(|group: VehicleGroupView| group.lanes));
        assert(lists.last() == groups.last().lanes);
    }
}

proof fn lemma_lanes_of_joined_groups(
    a: Seq<VehicleGroupView>,
    b: Seq<VehicleGroupView>,
    lane: Seq<char>,
)
    ensures
        tally(lanes_of_groups(a + b), lane) == tally(lanes_of_groups(a), lane) + tally(
            lanes_of_groups(b),
            lane,
        ),
{
    let listed = |group: VehicleGroupView| group.lanes;
    lemma_lanes_of_listed_groups(a, lane);
    lemma_lanes_of_listed_groups(b, lane);
    lemma_lanes_of_listed_groups(a + b, lane);
    lemma_tally_all_joined(a.map_values(listed), b.map_values(listed), lane);
    assert((a + b).map_values(listed) =~= a.map_values(listed) + b.map_values(listed));
}

/// A lane is for pedestrians only or it is not.
proof fn lemma_lanes_parted(
    lanes: Seq<Seq<char>>,
    wanted: spec_fn(Seq<char>) -> bool,
    others: spec_fn(Seq<char>) -> bool,
    lane: Seq<char>,
)
    requires
        forall|l: Seq<char>| #[trigger] others(l) == !wanted(l),
    ensures
        tally(lanes.filter(wanted), lane) + tally(lanes.filter(others), lane) == tally(
            lanes,
            lane,
        ),
    decreases lanes.len(),
{
    reveal(Seq::filter);
    lemma_tally_none(lane);
    if lanes.len() == 0 {
        assert(lanes =~= Seq::empty());
        assert(lanes.filter(wanted) =~= Seq::empty());
        assert(lanes.filter(others) =~= Seq::empty());
    } else {
        let rest = lanes.drop_last();
        assert(others(lanes.last()) == !wanted(lanes.last()));
        lemma_lanes_parted(rest, wanted, others, lane);
        lemma_tally_push(rest, lanes.last(), lane);
        lemma_tally_push(rest.filter(wanted), lanes.last(), lane);
        lemma_tally_push(rest.filter(others), lanes.last(), lane);
        assert(rest.push(lanes.last()) =~= lanes);
    }
}

/// The lanes that junctions with traffic lights list, one junction after the
/// other.
pub open spec fn listed_lanes(junctions: Seq<Junction>) -> Seq<Seq<char>>
    decreases junctions.len(),
{
    if junctions.len() == 0 {
        Seq::empty()
    } else if traffic_light_kind(junctions.last().kind) {
        listed_lanes(junctions.drop_last()) + texts(junctions.last().incoming_lanes@)
    } else {
        listed_lanes(junctions.drop_last())
    }
}

proof fn lemma_zones_once(
    g: GraphView,
    programs: Seq<TrafficLightProgram>,
    junctions: Seq<Junction>,
    max_zone_length: Option<Double>,
    lane: Seq<char>,
)
    ensures
        tally(lanes_of_groups(vehicle_groups(g, programs, junctions)), lane) + tally(
            exit_lanes(all_pedestrian_zones(g, programs, junctions, max_zone_length)),
            lane,
        ) <= tally(listed_lanes(junctions), lane),
    decreases junctions.len(),
{
    lemma_tally_none(lane);
    if junctions.len() > 0 {
        let rest = junctions.drop_last();
        let junction = junctions.last();
        lemma_zones_once(g, programs, rest, max_zone_length, lane);
        if traffic_light_kind(junction.kind) {
            let all = texts(junction.incoming_lanes@);
            let on_foot = lanes_into(g, junction, true);
            let driving = lanes_into(g, junction, false);
            lemma_lanes_parted(
                all,
                |l: Seq<char>| is_pedestrian_lane(g, l) == true,
                |l: Seq<char>| is_pedestrian_lane(g, l) == false,
                lane,
            );
            lemma_tally_joined(listed_lanes(rest), all, lane);
            lemma_grouped_once(g, programs, driving, lane);
            lemma_grouped_once(g, programs, on_foot, lane);
            let here = vehicle_groups_at(g, programs, junction);
            lemma_lanes_of_listed_groups(here, lane);
            assert(here.map_values(|group: VehicleGroupView| group.lanes) =~= lane_lists(
                groups_of(g, programs, driving),
            ));
            lemma_lanes_of_joined_groups(vehicle_groups(g, programs, rest), here, lane);
            let groups = groups_of(g, programs, on_foot);
            lemma_pedestrian_exits_once(g, groups, junction, max_zone_length, lane);
            lemma_exit_lanes_joined(
                all_pedestrian_zones(g, programs, rest, max_zone_length),
                pedestrian_zones_of(g, groups, junction, max_zone_length),
                lane,
            );
        }
    }
}

/// Zones end on a lane no more often than junctions with traffic lights list
/// it.
pub proof fn zones_end_on_a_lane_as_often_as_it_is_listed(
    network: Network,
    max_zone_length: Option<Double>,
    stop_at_complex_intersections: bool,
    lane: Seq<char>,
)
    ensures
        tally(
            exit_lanes(zones_of(network, max_zone_length, stop_at_complex_intersections)),
            lane,
        ) <= tally(listed_lanes(network.junctions@), lane),
{
    let g = graph_of(network);
    let programs = network.traffic_light_programs@;
    let groups = vehicle_groups(g, programs, network.junctions@);
    let merged = siblings_merged(g, groups);
    merging_counts_every_lane_once(g, groups);
    lemma_vehicle_exits_once(g, merged, max_zone_length, stop_at_complex_intersections, lane);
    lemma_zones_once(g, programs, network.junctions@, max_zone_length, lane);
    lemma_exit_lanes_joined(
        vehicle_zones_of(g, merged, max_zone_length, stop_at_complex_intersections),
        all_pedestrian_zones(g, programs, network.junctions@, max_zone_length),
        lane,
    );
}

/// Where junctions list each lane once, no lane ends two zones.
pub proof fn no_lane_ends_two_zones(
    network: Network,
    max_zone_length: Option<Double>,
    stop_at_complex_intersections: bool,
)
    requires
        listed_lanes(network.junctions@).no_duplicates(),
    ensures
        exit_lanes(
            zones_of(network, max_zone_length, stop_at_complex_intersections),
        ).no_duplicates(),
{
    let listed = listed_lanes(network.junctions@);
    let ends = exit_lanes(zones_of(network, max_zone_length, stop_at_complex_intersections));
    listed.lemma_multiset_has_no_duplicates();
    assert forall|lane: Seq<char>| ends.to_multiset().contains(lane) implies #[trigger]
    ends.to_multiset().count(lane) == 1 by {
        zones_end_on_a_lane_as_often_as_it_is_listed(
            network,
            max_zone_length,
            stop_at_complex_intersections,
            lane,
        );
        assert(tally(listed, lane) > 0);
        assert(listed.to_multiset().contains(lane));
    }
    ends.lemma_multiset_has_no_duplicates_conv();
}

} // verus!
