//! What holds of messages, and of the order in which groups stand.

use crate::decimal::{decimal, digits};
use crate::drawing::unknown_lane_text;
use crate::features::{cut_away_text, not_one_part_text};
use crate::grouping::{reason_text, UngroupedView};
use crate::listing_laws::{is_earlier, texts_stand_by_the_first_difference};
use crate::movement::{
    direction_number, direction_order, directions_rank, movement_rank, MovementView,
};
use crate::network::ConnectionDirection;
use crate::order::{lexicographic, number_rank, Rank};
use crate::overlaps::Pair;
use crate::reprojection::invalid_projection_text;
use crate::resolution::{cuts_of, unresolved_text};
use crate::siblings::{group_rank, VehicleGroupView};
use crate::signal_laws::place_of_turn;
use crate::zone_generator::{skipped_text, SkippedView};
use vstd::prelude::*;

verus! {

/// Whether two texts say the same of two things: they begin alike, name each
/// its own, and end alike.
pub open spec fn say_alike(
    a: Seq<char>,
    named_a: Seq<char>,
    b: Seq<char>,
    named_b: Seq<char>,
    before: Seq<char>,
    after: Seq<char>,
) -> bool {
    a == before + named_a + after && b == before + named_b + after
}

/// What is told of one zone, or of one projection, is told of every other in
/// the same words, with its own name in its place.
pub proof fn messages_differ_in_what_they_name(
    a: Seq<char>,
    b: Seq<char>,
    lane: Seq<char>,
    parts: nat,
)
    ensures
        exists|before: Seq<char>, after: Seq<char>| #[trigger]
            say_alike(cut_away_text(a), a, cut_away_text(b), b, before, after),
        exists|before: Seq<char>, after: Seq<char>| #[trigger]
            say_alike(
                unknown_lane_text(a, lane),
                a,
                unknown_lane_text(b, lane),
                b,
                before,
                after,
            ),
        exists|before: Seq<char>, after: Seq<char>| #[trigger]
            say_alike(
                unknown_lane_text(lane, a),
                a,
                unknown_lane_text(lane, b),
                b,
                before,
                after,
            ),
        exists|before: Seq<char>, after: Seq<char>| #[trigger]
            say_alike(
                not_one_part_text(a, parts),
                a,
                not_one_part_text(b, parts),
                b,
                before,
                after,
            ),
        exists|before: Seq<char>, after: Seq<char>| #[trigger]
            say_alike(
                unresolved_text(a, lane),
                a,
                unresolved_text(b, lane),
                b,
                before,
                after,
            ),
        exists|before: Seq<char>, after: Seq<char>| #[trigger]
            say_alike(
                unresolved_text(lane, a),
                a,
                unresolved_text(lane, b),
                b,
                before,
                after,
            ),
        exists|before: Seq<char>, after: Seq<char>| #[trigger]
            say_alike(
                invalid_projection_text(a),
                a,
                invalid_projection_text(b),
                b,
                before,
                after,
            ),
{
    let zone = "zone DetectorId("@;
    let away = ") was fully cut away by overlap resolution; omitted from the GeoJSON output"@;
    assert(say_alike(cut_away_text(a), a, cut_away_text(b), b, zone, away));
    let gone = "), which isn't in the network"@;
    let of_lane = ") references lane LaneRef("@ + lane + gone;
    assert(unknown_lane_text(a, lane) =~= zone + a + of_lane);
    assert(unknown_lane_text(b, lane) =~= zone + b + of_lane);
    assert(say_alike(unknown_lane_text(a, lane), a, unknown_lane_text(b, lane), b, zone, of_lane));
    let of_zone = zone + lane + ") references lane LaneRef("@;
    assert(say_alike(unknown_lane_text(lane, a), a, unknown_lane_text(lane, b), b, of_zone, gone));
    let count = ") resolved to "@ + digits(parts)
        + " polygon part(s), expected exactly 1 \u{2014} geojson_output only emits a Polygon, not a MultiPolygon"@;
    assert(not_one_part_text(a, parts) =~= zone + a + count);
    assert(not_one_part_text(b, parts) =~= zone + b + count);
    assert(say_alike(not_one_part_text(a, parts), a, not_one_part_text(b, parts), b, zone, count));
    let zones = "zones DetectorId("@;
    let left = ") still overlap after 8 resolution rounds \u{2014} left as-is"@;
    let other = ") and DetectorId("@ + lane + left;
    assert(unresolved_text(a, lane) =~= zones + a + other);
    assert(unresolved_text(b, lane) =~= zones + b + other);
    assert(say_alike(unresolved_text(a, lane), a, unresolved_text(b, lane), b, zones, other));
    let first = zones + lane + ") and DetectorId("@;
    assert(say_alike(unresolved_text(lane, a), a, unresolved_text(lane, b), b, first, left));
    let invalid = "invalid PROJ4 string in .net.xml location: "@;
    let none = Seq::<char>::empty();
    assert(invalid_projection_text(a) =~= invalid + a + none);
    assert(invalid_projection_text(b) =~= invalid + b + none);
    assert(say_alike(
        invalid_projection_text(a),
        a,
        invalid_projection_text(b),
        b,
        invalid,
        none,
    ));
}

/// A lane that is passed over is told with its junction and the reason, in the
/// same words for every lane; a link that is out of place with its program and
/// its place there.
pub proof fn lanes_passed_over_are_told_alike(
    a: SkippedView,
    b: SkippedView,
    program: Seq<char>,
    other: Seq<char>,
    index: i32,
)
    requires
        a.junction == b.junction,
        a.reason == b.reason,
    ensures
        exists|before: Seq<char>, after: Seq<char>| #[trigger]
            say_alike(skipped_text(a), a.lane, skipped_text(b), b.lane, before, after)
                && reason_text(a.reason).is_suffix_of(after),
        exists|before: Seq<char>, after: Seq<char>| #[trigger]
            say_alike(
                reason_text(UngroupedView::LinkIndexOutOfRange { program, index }),
                program,
                reason_text(UngroupedView::LinkIndexOutOfRange { program: other, index }),
                other,
                before,
                after,
            ) && exists|front: Seq<char>, back: Seq<char>| before == #[trigger] (front + decimal(index as int) + back),
{
    let lane = "lane \""@;
    let rest = "\" at junction \""@ + a.junction + "\" skipped: "@ + reason_text(a.reason);
    assert(skipped_text(a) =~= lane + a.lane + rest);
    assert(skipped_text(b) =~= lane + b.lane + rest);
    assert(say_alike(skipped_text(a), a.lane, skipped_text(b), b.lane, lane, rest));
    assert(rest.skip(rest.len() - reason_text(a.reason).len()) =~= reason_text(a.reason));
    let front = "connection's linkIndex "@;
    let middle = " is out of range for tlLogic \""@;
    let before = front + decimal(index as int) + middle;
    let after = "\"'s phases"@;
    assert(say_alike(
        reason_text(UngroupedView::LinkIndexOutOfRange { program, index }),
        program,
        reason_text(UngroupedView::LinkIndexOutOfRange { program: other, index }),
        other,
        before,
        after,
    ));
}

/// A zone is cut by what it shares with each zone of a pair that it is in, pair
/// by pair in order.
pub proof fn a_zone_is_cut_by_all_its_pairs(pairs: Seq<Pair>, zone: int, upto: nat)
    requires
        upto <= pairs.len(),
    ensures
        forall|k: nat| #[trigger]
            cuts_of(pairs, zone, upto).contains(k) <==> k < upto && (pairs[k as int].0 == zone
                || pairs[k as int].1 == zone),
        forall|i: int, j: int|
            0 <= i < j < cuts_of(pairs, zone, upto).len() ==> #[trigger] cuts_of(
                pairs,
                zone,
                upto,
            )[i] < #[trigger] cuts_of(pairs, zone, upto)[j],
    decreases upto,
{
    if upto > 0 {
        let less = (upto - 1) as nat;
        a_zone_is_cut_by_all_its_pairs(pairs, zone, less);
        let before = cuts_of(pairs, zone, less);
        let all = cuts_of(pairs, zone, upto);
        assert forall|k: nat| #[trigger]
            all.contains(k) <==> k < upto && (pairs[k as int].0 == zone || pairs[k as int].1
                == zone) by {
            assert(before.contains(k) <==> k < less && (pairs[k as int].0 == zone
                || pairs[k as int].1 == zone));
            if before.contains(k) {
                let m = choose|m: int| 0 <= m < before.len() && before[m] == k;
                assert(all[m] == k);
            }
            if all.contains(k) && !before.contains(k) {
                let m = choose|m: int| 0 <= m < all.len() && all[m] == k;
                if m < before.len() {
                    assert(before[m] == k);
                }
            }
            if k == less && all.len() > before.len() {
                assert(all[before.len() as int] == k);
            }
        }
        assert forall|i: int, j: int| 0 <= i < j < all.len() implies #[trigger] all[i]
            < #[trigger] all[j] by {
            assert(all[i] == before[i]);
            if j < before.len() {
                assert(all[j] == before[j]);
            } else {
                assert(before.contains(before[i]));
            }
        }
    }
}

/// Whether turns come before others: they are the beginning of the others, or
/// at the first place where they differ their turn comes first in the order of
/// turns.
pub open spec fn turn_earlier(
    a: Seq<ConnectionDirection>,
    b: Seq<ConnectionDirection>,
    i: int,
) -> bool {
    &&& 0 <= i <= a.len()
    &&& i < b.len()
    &&& forall|k: int| 0 <= k < i ==> a[k] == b[k]
    &&& i < a.len() ==> place_of_turn(a[i]) < place_of_turn(b[i])
}

proof fn lemma_turns(a: Seq<ConnectionDirection>, b: Seq<ConnectionDirection>)
    ensures
        directions_rank(a, b) == Rank::Before <==> exists|i: int| turn_earlier(a, b, i),
        directions_rank(a, b) == Rank::Same <==> a == b,
    decreases a.len(),
{
    if a.len() == 0 {
        if b.len() == 0 {
            assert(a =~= b);
        } else {
            assert(turn_earlier(a, b, 0));
        }
    } else if b.len() > 0 {
        let x = a.drop_first();
        let y = b.drop_first();
        lemma_turns(x, y);
        let rank = direction_order();
        assert(rank(a[0], b[0]) == number_rank(direction_number(a[0]), direction_number(b[0])));
        if a[0] == b[0] {
            if exists|i: int| turn_earlier(x, y, i) {
                let i = choose|i: int| turn_earlier(x, y, i);
                assert forall|k: int| 0 <= k < i + 1 implies a[k] == b[k] by {
                    if k > 0 {
                        assert(x[k - 1] == y[k - 1]);
                    }
                }
                assert(turn_earlier(a, b, i + 1));
            }
            if exists|i: int| turn_earlier(a, b, i) {
                let i = choose|i: int| turn_earlier(a, b, i);
                assert(i > 0);
                assert forall|k: int| 0 <= k < i - 1 implies x[k] == y[k] by {
                    assert(a[k + 1] == b[k + 1]);
                }
                assert(turn_earlier(x, y, i - 1));
            }
            if x == y {
                assert forall|k: int| 0 <= k < a.len() implies a[k] == b[k] by {
                    if k > 0 {
                        assert(x[k - 1] == y[k - 1]);
                    }
                }
                assert(a =~= b);
            }
        } else {
            if exists|i: int| turn_earlier(a, b, i) {
                let i = choose|i: int| turn_earlier(a, b, i);
                assert(i == 0);
            }
            if place_of_turn(a[0]) < place_of_turn(b[0]) {
                assert(turn_earlier(a, b, 0));
            }
        }
    }
}

/// Movements stand in the order of their edges, and those of one edge in the
/// order of their turns.
pub proof fn movements_stand_by_edge_and_turns(a: MovementView, b: MovementView)
    ensures
        movement_rank(a, b) == Rank::Before <==> (exists|i: int|
            is_earlier(a.from_edge, b.from_edge, i)) || a.from_edge == b.from_edge && (exists|
            i: int,
        |
            turn_earlier(a.directions, b.directions, i)),
        movement_rank(a, b) == Rank::Same <==> a.from_edge == b.from_edge && a.directions
            == b.directions,
{
    texts_stand_by_the_first_difference(a.from_edge, b.from_edge);
    lemma_turns(a.directions, b.directions);
}

/// Groups of one edge each stand in the order of these edges, and those of one
/// edge in the order of their turns.
pub proof fn groups_stand_by_edge_and_turns(a: VehicleGroupView, b: VehicleGroupView)
    requires
        a.from_edges.len() == 1,
        b.from_edges.len() == 1,
    ensures
        group_rank(a, b) == Rank::Before <==> (exists|i: int|
            is_earlier(a.from_edges[0], b.from_edges[0], i)) || a.from_edges[0] == b.from_edges[0]
            && (exists|i: int| turn_earlier(a.directions, b.directions, i)),
{
    texts_stand_by_the_first_difference(a.from_edges[0], b.from_edges[0]);
    lemma_turns(a.directions, b.directions);
    reveal_with_fuel(lexicographic, 2);
    let rest = a.from_edges.drop_first();
    let others = b.from_edges.drop_first();
    assert(rest.len() == 0 && others.len() == 0);
}

} // verus!
