//! What holds of lanes grouped by movement.

use crate::connectivity::GraphView;
use crate::grouping::{groups_of, movement_of_lane, with_lane, GroupView, UngroupedView};
use crate::movement::{movement_order, movement_order_is_total, movement_rank, MovementView};
use crate::network::TrafficLightProgram;
use crate::order::Rank;
use vstd::prelude::*;

verus! {

/// Whether the groups are in the order of their movements, no movement twice.
pub open spec fn is_ordered(groups: Seq<GroupView>) -> bool {
    forall|i: int, j: int|
        0 <= i < j < groups.len() ==> movement_rank(
            (#[trigger] groups[i]).movement,
            (#[trigger] groups[j]).movement,
        ) == Rank::Before
}

/// The lanes that `groups` holds under `movement`.
pub open spec fn lanes_under(groups: Seq<GroupView>, movement: MovementView) -> Seq<Seq<char>>
    decreases groups.len(),
{
    if groups.len() == 0 {
        Seq::empty()
    } else if groups[0].movement == movement {
        groups[0].lanes
    } else {
        lanes_under(groups.drop_first(), movement)
    }
}

/// Those of `lanes` that have `movement`.
pub open spec fn lanes_with_movement(
    g: GraphView,
    programs: Seq<TrafficLightProgram>,
    lanes: Seq<Seq<char>>,
    movement: MovementView,
) -> Seq<Seq<char>> {
    lanes.filter(
        |lane: Seq<char>|
            movement_of_lane(g, programs, lane) == Ok::<MovementView, UngroupedView>(movement),
    )
}

/// Whether every group holds a lane.
pub open spec fn none_empty(groups: Seq<GroupView>) -> bool {
    forall|i: int| 0 <= i < groups.len() ==> (#[trigger] groups[i]).lanes.len() > 0
}

proof fn lemma_rank(a: MovementView, b: MovementView)
    ensures
        movement_rank(a, b) == Rank::Same <==> a == b,
        movement_rank(a, b) == Rank::Before <==> movement_rank(b, a) == Rank::After,
{
    movement_order_is_total();
    let order = movement_order();
    assert(order(a, b) == Rank::Same <==> a == b);
    assert(order(a, b) == Rank::Before <==> order(b, a) == Rank::After);
}

proof fn lemma_rank_transitive(a: MovementView, b: MovementView, c: MovementView)
    requires
        movement_rank(a, b) == Rank::Before,
        movement_rank(b, c) == Rank::Before,
    ensures
        movement_rank(a, c) == Rank::Before,
{
    movement_order_is_total();
    let order = movement_order();
    assert(order(a, b) == Rank::Before && order(b, c) == Rank::Before);
}

/// A movement that none of the groups has has no lanes under it.
proof fn lemma_absent(groups: Seq<GroupView>, movement: MovementView)
    requires
        forall|i: int| 0 <= i < groups.len() ==> (#[trigger] groups[i]).movement != movement,
    ensures
        lanes_under(groups, movement).len() == 0,
    decreases groups.len(),
{
    if groups.len() > 0 {
        assert(groups[0].movement != movement);
        assert forall|i: int| 0 <= i < groups.drop_first().len() implies (
        #[trigger] groups.drop_first()[i]).movement != movement by {
            assert(groups.drop_first()[i] == groups[i + 1]);
        }
        lemma_absent(groups.drop_first(), movement);
    }
}

/// Whether one of `groups` has `movement`.
spec fn has_movement(groups: Seq<GroupView>, movement: MovementView) -> bool {
    exists|k: int| 0 <= k < groups.len() && (#[trigger] groups[k]).movement == movement
}

/// A lane brings no movement but its own.
proof fn lemma_movements_kept(
    groups: Seq<GroupView>,
    movement: MovementView,
    lane: Seq<char>,
    i: int,
)
    requires
        0 <= i < with_lane(groups, movement, lane).len(),
    ensures
        with_lane(groups, movement, lane)[i].movement == movement || has_movement(
            groups,
            with_lane(groups, movement, lane)[i].movement,
        ),
    decreases groups.len(),
{
    let result = with_lane(groups, movement, lane);
    if groups.len() > 0 {
        let first = groups[0];
        let rest = groups.drop_first();
        lemma_rank(first.movement, movement);
        match movement_rank(first.movement, movement) {
            Rank::Before => {
                if i == 0 {
                    assert(groups[0].movement == result[0].movement);
                } else {
                    lemma_movements_kept(rest, movement, lane, i - 1);
                    assert(result[i] == with_lane(rest, movement, lane)[i - 1]);
                    if result[i].movement != movement {
                        let k = choose|k: int|
                            0 <= k < rest.len() && (#[trigger] rest[k]).movement
                                == result[i].movement;
                        assert(groups[k + 1].movement == result[i].movement);
                    }
                }
            },
            Rank::Same => {
                assert(groups[i].movement == result[i].movement);
            },
            Rank::After => {
                if i > 0 {
                    assert(groups[i - 1].movement == result[i].movement);
                }
            },
        }
    }
}

/// Adding a lane keeps the groups in order.
proof fn lemma_order_kept(groups: Seq<GroupView>, movement: MovementView, lane: Seq<char>)
    requires
        is_ordered(groups),
    ensures
        is_ordered(with_lane(groups, movement, lane)),
    decreases groups.len(),
{
    let result = with_lane(groups, movement, lane);
    if groups.len() > 0 {
        let first = groups[0];
        let rest = groups.drop_first();
        lemma_rank(first.movement, movement);
        match movement_rank(first.movement, movement) {
            Rank::Before => {
                let further = with_lane(rest, movement, lane);
                assert(is_ordered(rest)) by {
                    assert(forall|i: int|
                        0 <= i < rest.len() ==> (#[trigger] rest[i]) == groups[i + 1]);
                }
                lemma_order_kept(rest, movement, lane);
                assert forall|i: int, j: int| 0 <= i < j < result.len() implies movement_rank(
                    (#[trigger] result[i]).movement,
                    (#[trigger] result[j]).movement,
                ) == Rank::Before by {
                    assert(result[j] == further[j - 1]);
                    if i == 0 {
                        lemma_movements_kept(rest, movement, lane, j - 1);
                        if further[j - 1].movement != movement {
                            let k = choose|k: int|
                                0 <= k < rest.len() && (#[trigger] rest[k]).movement
                                    == further[j - 1].movement;
                            assert(groups[k + 1] == rest[k]);
                            assert(movement_rank(groups[0].movement, groups[k + 1].movement)
                                == Rank::Before);
                        }
                    } else {
                        assert(result[i] == further[i - 1]);
                    }
                }
            },
            Rank::Same => {
                assert forall|i: int, j: int| 0 <= i < j < result.len() implies movement_rank(
                    (#[trigger] result[i]).movement,
                    (#[trigger] result[j]).movement,
                ) == Rank::Before by {
                    assert(result[i].movement == groups[i].movement);
                    assert(result[j].movement == groups[j].movement);
                }
            },
            Rank::After => {
                lemma_rank(movement, first.movement);
                assert forall|i: int, j: int| 0 <= i < j < result.len() implies movement_rank(
                    (#[trigger] result[i]).movement,
                    (#[trigger] result[j]).movement,
                ) == Rank::Before by {
                    assert(result[j] == groups[j - 1]);
                    if i == 0 {
                        if j > 1 {
                            lemma_rank_transitive(
                                movement,
                                groups[0].movement,
                                groups[j - 1].movement,
                            );
                        }
                    } else {
                        assert(result[i] == groups[i - 1]);
                    }
                }
            },
        }
    }
}

/// Adding a lane leaves no group empty.
proof fn lemma_none_empty_kept(groups: Seq<GroupView>, movement: MovementView, lane: Seq<char>)
    requires
        none_empty(groups),
    ensures
        none_empty(with_lane(groups, movement, lane)),
    decreases groups.len(),
{
    let result = with_lane(groups, movement, lane);
    if groups.len() > 0 {
        let rest = groups.drop_first();
        assert(none_empty(rest)) by {
            assert(forall|i: int| 0 <= i < rest.len() ==> (#[trigger] rest[i]) == groups[i + 1]);
        }
        lemma_none_empty_kept(rest, movement, lane);
        assert forall|i: int| 0 <= i < result.len() implies (#[trigger] result[i]).lanes.len()
            > 0 by {
            match movement_rank(groups[0].movement, movement) {
                Rank::Before => {
                    if i > 0 {
                        assert(result[i] == with_lane(rest, movement, lane)[i - 1]);
                    } else {
                        assert(groups[0].lanes.len() > 0);
                    }
                },
                Rank::Same => {
                    assert(groups[i].lanes.len() > 0);
                },
                Rank::After => {
                    if i > 0 {
                        assert(result[i] == groups[i - 1]);
                    }
                },
            }
        }
    }
}

/// Adding a lane changes what is held under its own movement only.
proof fn lemma_lane_added(
    groups: Seq<GroupView>,
    movement: MovementView,
    lane: Seq<char>,
    other: MovementView,
)
    requires
        is_ordered(groups),
    ensures
        lanes_under(with_lane(groups, movement, lane), other) == if other == movement {
            lanes_under(groups, movement).push(lane)
        } else {
            lanes_under(groups, other)
        },
    decreases groups.len(),
{
    let alone = GroupView { movement, lanes: seq![lane] };
    let result = with_lane(groups, movement, lane);
    if groups.len() == 0 {
        assert(result =~= seq![alone]);
        assert(result[0] == alone);
        assert(lanes_under(result.drop_first(), other) =~= Seq::empty());
        assert(lanes_under(groups, movement).push(lane) =~= seq![lane]);
    } else {
        let first = groups[0];
        let rest = groups.drop_first();
        lemma_rank(first.movement, movement);
        match movement_rank(first.movement, movement) {
            Rank::Before => {
                assert(is_ordered(rest)) by {
                    assert(forall|i: int|
                        0 <= i < rest.len() ==> (#[trigger] rest[i]) == groups[i + 1]);
                }
                lemma_lane_added(rest, movement, lane, other);
                assert(result[0] == first);
                assert(result.drop_first() =~= with_lane(rest, movement, lane));
            },
            Rank::Same => {
                assert(result[0].lanes == first.lanes.push(lane));
                assert(result.drop_first() =~= rest);
            },
            Rank::After => {
                assert(result[0] == alone);
                assert(result.drop_first() =~= groups);
                lemma_rank(movement, first.movement);
                assert forall|i: int| 0 <= i < groups.len() implies (
                #[trigger] groups[i]).movement != movement by {
                    if i > 0 {
                        lemma_rank_transitive(movement, groups[0].movement, groups[i].movement);
                    }
                    lemma_rank(movement, groups[i].movement);
                }
                lemma_absent(groups, movement);
                assert(lanes_under(groups, movement).push(lane) =~= seq![lane]);
            },
        }
    }
}

proof fn lemma_groups(
    g: GraphView,
    programs: Seq<TrafficLightProgram>,
    lanes: Seq<Seq<char>>,
    movement: MovementView,
)
    ensures
        is_ordered(groups_of(g, programs, lanes)),
        none_empty(groups_of(g, programs, lanes)),
        lanes_under(groups_of(g, programs, lanes), movement) == lanes_with_movement(
            g,
            programs,
            lanes,
            movement,
        ),
    decreases lanes.len(),
{
    reveal(Seq::filter);
    if lanes.len() > 0 {
        lemma_groups(g, programs, lanes.drop_last(), movement);
        match movement_of_lane(g, programs, lanes.last()) {
            Ok(m) => {
                let before = groups_of(g, programs, lanes.drop_last());
                lemma_order_kept(before, m, lanes.last());
                lemma_none_empty_kept(before, m, lanes.last());
                lemma_lane_added(before, m, lanes.last(), movement);
            },
            Err(_) => {},
        }
    }
}

/// What ordered groups hold under the movement of one of them is what that
/// group holds.
proof fn lemma_under_own_movement(groups: Seq<GroupView>, i: int)
    requires
        is_ordered(groups),
        0 <= i < groups.len(),
    ensures
        lanes_under(groups, groups[i].movement) == groups[i].lanes,
    decreases groups.len(),
{
    if i > 0 {
        lemma_rank(groups[0].movement, groups[i].movement);
        assert(movement_rank(groups[0].movement, groups[i].movement) == Rank::Before);
        let rest = groups.drop_first();
        assert(forall|k: int| 0 <= k < rest.len() ==> (#[trigger] rest[k]) == groups[k + 1]);
        lemma_under_own_movement(rest, i - 1);
    }
}

/// The groups come in the order of their movements, each movement once and
/// none without lanes.
pub proof fn groups_are_ordered(
    g: GraphView,
    programs: Seq<TrafficLightProgram>,
    lanes: Seq<Seq<char>>,
)
    ensures
        is_ordered(groups_of(g, programs, lanes)),
        none_empty(groups_of(g, programs, lanes)),
{
    let any = MovementView { from_edge: Seq::empty(), directions: Seq::empty() };
    lemma_groups(g, programs, lanes, any);
}

/// A group holds exactly the lanes of its movement, in the order given.
pub proof fn a_group_holds_the_lanes_of_its_movement(
    g: GraphView,
    programs: Seq<TrafficLightProgram>,
    lanes: Seq<Seq<char>>,
    i: int,
)
    requires
        0 <= i < groups_of(g, programs, lanes).len(),
    ensures
        groups_of(g, programs, lanes)[i].lanes == lanes_with_movement(
            g,
            programs,
            lanes,
            groups_of(g, programs, lanes)[i].movement,
        ),
{
    let groups = groups_of(g, programs, lanes);
    lemma_groups(g, programs, lanes, groups[i].movement);
    lemma_under_own_movement(groups, i);
}

/// Every lane that has a movement is in a group of that movement.
pub proof fn every_lane_with_a_movement_is_grouped(
    g: GraphView,
    programs: Seq<TrafficLightProgram>,
    lanes: Seq<Seq<char>>,
    lane: Seq<char>,
    movement: MovementView,
)
    requires
        lanes.contains(lane),
        movement_of_lane(g, programs, lane) == Ok::<MovementView, UngroupedView>(movement),
    ensures
        exists|i: int|
            0 <= i < groups_of(g, programs, lanes).len() && (#[trigger] groups_of(
                g,
                programs,
                lanes,
            )[i]).movement == movement && groups_of(g, programs, lanes)[i].lanes.contains(lane),
{
    let groups = groups_of(g, programs, lanes);
    lemma_groups(g, programs, lanes, movement);
    let wanted = |l: Seq<char>|
        movement_of_lane(g, programs, l) == Ok::<MovementView, UngroupedView>(movement);
    let k = choose|k: int| 0 <= k < lanes.len() && lanes[k] == lane;
    lanes.lemma_filter_contains(wanted, k);
    assert(lanes_with_movement(g, programs, lanes, movement).contains(lane));
    if forall|i: int| 0 <= i < groups.len() ==> (#[trigger] groups[i]).movement != movement {
        lemma_absent(groups, movement);
    }
    let i = choose|i: int| 0 <= i < groups.len() && (#[trigger] groups[i]).movement == movement;
    lemma_under_own_movement(groups, i);
}

} // verus!
