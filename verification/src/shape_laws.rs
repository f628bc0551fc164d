//! What holds of the parts of a polyline.

use crate::arithmetic_laws::{
    adding_a_length_never_shortens, adding_nothing_changes_no_length,
    adding_nothing_changes_no_number, is_length, no_number_stays_none, no_share_is_nothing,
    nothing_shared_is_nothing,
};
use crate::double::{is_at_most, is_finite, is_less, is_nan, minus, zero, Double, NAN_BITS};
use crate::hypotenuse::hypotenuse;
use crate::measure::is_same;
use crate::network::Point;
use crate::product::{over, times};
use crate::shape::{
    direction_between, distance_between, length_of_segments, parts_between, point_between,
    segment_count, segments_between, Segment,
};
use vstd::prelude::*;

verus! {

/// The distance between two points is a length, unless it is no number.
pub(crate) proof fn lemma_distance(a: Point, b: Point)
    ensures
        is_nan(distance_between(a, b)) || is_length(distance_between(a, b)),
{
    reveal(hypotenuse);
}

/// What is travelled up to a vertex is a length, or no number at all.
pub(crate) proof fn lemma_travelled(points: Seq<Point>, i: nat)
    ensures
        length_of_segments(points, i) == (Double { bits: NAN_BITS }) || is_length(
            length_of_segments(points, i),
        ),
    decreases i,
{
    if i > 0 {
        let before = length_of_segments(points, (i - 1) as nat);
        let step = distance_between(points[i - 1], points[i as int]);
        lemma_travelled(points, (i - 1) as nat);
        lemma_distance(points[i - 1], points[i as int]);
        if is_nan(before) || is_nan(step) {
            no_number_stays_none(before, step);
        } else {
            adding_a_length_never_shortens(before, step);
        }
    }
}

/// A segment without length leaves what is travelled as it is.
proof fn lemma_no_step(points: Seq<Point>, i: nat)
    requires
        is_at_most(distance_between(points[i as int], points[(i + 1) as int]), zero()),
    ensures
        length_of_segments(points, i + 1) == length_of_segments(points, i),
{
    let travelled = length_of_segments(points, i);
    let step = distance_between(points[i as int], points[(i + 1) as int]);
    lemma_travelled(points, i);
    lemma_distance(points[i as int], points[(i + 1) as int]);
    assert(step == zero());
    if is_length(travelled) {
        adding_nothing_changes_no_length(travelled);
    } else {
        no_number_stays_none(travelled, step);
    }
}

/// What is travelled never shrinks.
pub(crate) proof fn lemma_travelled_grows(points: Seq<Point>, i: nat, j: nat)
    requires
        i <= j,
        !is_nan(length_of_segments(points, j)),
    ensures
        is_at_most(length_of_segments(points, i), length_of_segments(points, j)),
    decreases j - i,
{
    lemma_travelled(points, j);
    if i < j {
        let before = length_of_segments(points, (j - 1) as nat);
        let step = distance_between(points[j - 1], points[j as int]);
        lemma_distance(points[j - 1], points[j as int]);
        if is_nan(before) || is_nan(step) {
            no_number_stays_none(before, step);
        } else {
            lemma_travelled(points, (j - 1) as nat);
            adding_a_length_never_shortens(before, step);
            lemma_travelled_grows(points, i, (j - 1) as nat);
        }
    }
}

proof fn lemma_some_part(points: Seq<Point>, i: nat, entry: Double, exit: Double)
    requires
        i <= segment_count(points),
        is_at_most(length_of_segments(points, i), entry),
        is_less(entry, exit),
    ensures
        parts_between(points, i, length_of_segments(points, i), entry, exit).len() > 0
            <==> !is_at_most(length_of_segments(points, segment_count(points)), entry),
    decreases points.len() - i,
{
    let n = segment_count(points);
    if i + 1 < points.len() {
        let step = distance_between(points[i as int], points[(i + 1) as int]);
        let end = length_of_segments(points, i + 1);
        if is_at_most(step, zero()) {
            lemma_no_step(points, i);
            lemma_some_part(points, i + 1, entry, exit);
        } else if is_at_most(end, entry) {
            lemma_some_part(points, i + 1, entry, exit);
        } else if is_at_most(length_of_segments(points, n), entry) {
            lemma_travelled_grows(points, i + 1, n);
        }
    }
}

/// A part of a polyline that begins on it and ends later is there if and only
/// if it begins before the polyline ends.
pub proof fn a_part_is_there_where_it_begins_on_the_line(
    points: Seq<Point>,
    entry: Double,
    exit: Double,
)
    requires
        is_at_most(zero(), entry),
        is_less(entry, exit),
    ensures
        segments_between(points, entry, exit).len() > 0 <==> !is_at_most(
            length_of_segments(points, segment_count(points)),
            entry,
        ),
{
    lemma_some_part(points, 0, entry, exit);
}

/// A stretch of one segment of a polyline, from so many metres along the line
/// to so many.
pub struct Stretch {
    pub segment: nat,
    pub from: Double,
    pub to: Double,
}

/// The share of segment `i` that is passed after so many metres along the
/// line.
pub open spec fn share_of_segment(points: Seq<Point>, i: nat, metres: Double) -> Double {
    over(
        minus(metres, length_of_segments(points, i)),
        distance_between(points[i as int], points[(i + 1) as int]),
    )
}

/// The piece of a polyline that a stretch covers.
pub open spec fn piece_of(points: Seq<Point>, stretch: Stretch) -> Segment {
    let i = stretch.segment;
    let a = points[i as int];
    let b = points[(i + 1) as int];
    Segment {
        start: point_between(a, b, share_of_segment(points, i, stretch.from)),
        end: point_between(a, b, share_of_segment(points, i, stretch.to)),
        tangent: direction_between(a, b, distance_between(a, b)),
    }
}

/// Whether a stretch lies on the segment that it is one of.
pub open spec fn lies_on_its_segment(points: Seq<Point>, stretch: Stretch) -> bool {
    &&& stretch.segment < segment_count(points)
    &&& is_at_most(length_of_segments(points, stretch.segment), stretch.from)
    &&& is_at_most(stretch.from, stretch.to)
    &&& is_at_most(stretch.to, length_of_segments(points, stretch.segment + 1))
}

/// Whether `stretches` cover a polyline from `entry` to `exit` metres without
/// a gap: the first begins at the one, the last ends at the other, and each
/// but the first begins at the very metre where the one before it ends, on a
/// later segment.
pub open spec fn cover(
    stretches: Seq<Stretch>,
    points: Seq<Point>,
    entry: Double,
    exit: Double,
) -> bool {
    &&& stretches.len() > 0
    &&& stretches[0].from == entry
    &&& stretches.last().to == exit
    &&& forall|k: int|
        0 <= k < stretches.len() ==> lies_on_its_segment(points, #[trigger] stretches[k])
    &&& forall|k: int, l: int|
        0 <= k && l == k + 1 && l < stretches.len() ==> (#[trigger] stretches[k]).to == (
        #[trigger] stretches[l]).from && stretches[k].segment < stretches[l].segment
}

/// The pieces that stretches cover.
pub open spec fn pieces_of(points: Seq<Point>, stretches: Seq<Stretch>) -> Seq<Segment> {
    stretches.map_values(|stretch: Stretch| piece_of(points, stretch))
}

/// Where the part at hand begins at a vertex, it goes on from there without a
/// gap.
proof fn lemma_goes_on(points: Seq<Point>, i: nat, entry: Double, exit: Double) -> (stretches: Seq<
    Stretch,
>)
    requires
        i <= segment_count(points),
        is_less(entry, length_of_segments(points, i)),
        is_less(length_of_segments(points, i), exit),
        is_at_most(exit, length_of_segments(points, segment_count(points))),
    ensures
        cover(stretches, points, length_of_segments(points, i), exit),
        stretches[0].segment >= i,
        parts_between(points, i, length_of_segments(points, i), entry, exit) == pieces_of(
            points,
            stretches,
        ),
    decreases points.len() - i,
{
    let n = segment_count(points);
    let travelled = length_of_segments(points, i);
    let step = distance_between(points[i as int], points[(i + 1) as int]);
    let end = length_of_segments(points, i + 1);
    assert(i < n);
    if is_at_most(step, zero()) {
        lemma_no_step(points, i);
        lemma_goes_on(points, i + 1, entry, exit)
    } else {
        lemma_travelled_grows(points, i + 1, n);
        lemma_travelled_grows(points, i, i + 1);
        if is_at_most(exit, end) {
            let only = Stretch { segment: i, from: travelled, to: exit };
            let stretches = seq![only];
            assert(pieces_of(points, stretches) =~= seq![piece_of(points, only)]);
            stretches
        } else {
            let first = Stretch { segment: i, from: travelled, to: end };
            let rest = lemma_goes_on(points, i + 1, entry, exit);
            let stretches = seq![first] + rest;
            assert(pieces_of(points, stretches) =~= seq![piece_of(points, first)] + pieces_of(
                points,
                rest,
            ));
            lemma_one_before(points, first, rest, end, exit);
            stretches
        }
    }
}

proof fn lemma_one_before(
    points: Seq<Point>,
    first: Stretch,
    rest: Seq<Stretch>,
    vertex: Double,
    exit: Double,
)
    requires
        cover(rest, points, vertex, exit),
        lies_on_its_segment(points, first),
        first.to == vertex,
        first.segment < rest[0].segment,
    ensures
        cover(seq![first] + rest, points, first.from, exit),
{
    let all = seq![first] + rest;
    assert(all.last() == rest.last());
    assert forall|k: int| 0 <= k < all.len() implies lies_on_its_segment(
        points,
        #[trigger] all[k],
    ) by {
        if k > 0 {
            assert(all[k] == rest[k - 1]);
        }
    }
    assert forall|k: int, l: int|
        0 <= k && l == k + 1 && l < all.len() implies (#[trigger] all[k]).to == (
    #[trigger] all[l]).from && all[k].segment < all[l].segment by {
        assert(all[l] == rest[k]);
        if k > 0 {
            assert(all[k] == rest[k - 1]);
            assert(rest[k - 1].to == rest[k].from);
        }
    }
}

proof fn lemma_begins(points: Seq<Point>, i: nat, entry: Double, exit: Double) -> (stretches: Seq<
    Stretch,
>)
    requires
        i <= segment_count(points),
        is_at_most(length_of_segments(points, i), entry),
        is_less(entry, exit),
        is_at_most(exit, length_of_segments(points, segment_count(points))),
    ensures
        cover(stretches, points, entry, exit),
        parts_between(points, i, length_of_segments(points, i), entry, exit) == pieces_of(
            points,
            stretches,
        ),
    decreases points.len() - i,
{
    let n = segment_count(points);
    let step = distance_between(points[i as int], points[(i + 1) as int]);
    let end = length_of_segments(points, i + 1);
    assert(i < n);
    if is_at_most(step, zero()) {
        lemma_no_step(points, i);
        lemma_begins(points, i + 1, entry, exit)
    } else if is_at_most(end, entry) {
        lemma_begins(points, i + 1, entry, exit)
    } else {
        lemma_travelled_grows(points, i + 1, n);
        if is_at_most(exit, end) {
            let only = Stretch { segment: i, from: entry, to: exit };
            let stretches = seq![only];
            assert(pieces_of(points, stretches) =~= seq![piece_of(points, only)]);
            stretches
        } else {
            let first = Stretch { segment: i, from: entry, to: end };
            let rest = lemma_goes_on(points, i + 1, entry, exit);
            let stretches = seq![first] + rest;
            assert(pieces_of(points, stretches) =~= seq![piece_of(points, first)] + pieces_of(
                points,
                rest,
            ));
            lemma_one_before(points, first, rest, end, exit);
            stretches
        }
    }
}

/// A part of a polyline between two places on it is there, from the one to the
/// other, and each of its pieces follows on the last: the pieces cover the
/// metres from `entry` to `exit` without a gap.
pub proof fn the_pieces_of_a_part_follow_on_each_other(
    points: Seq<Point>,
    entry: Double,
    exit: Double,
)
    requires
        is_at_most(zero(), entry),
        is_less(entry, exit),
        is_at_most(exit, length_of_segments(points, segment_count(points))),
    ensures
        segments_between(points, entry, exit).len() > 0,
        exists|stretches: Seq<Stretch>|
            cover(stretches, points, entry, exit) && segments_between(points, entry, exit)
                == #[trigger] pieces_of(points, stretches),
{
    let stretches = lemma_begins(points, 0, entry, exit);
    assert(segments_between(points, entry, exit) =~= pieces_of(points, stretches));
}

/// A piece that begins where its segment does begins on the vertex there.
pub proof fn a_piece_from_a_vertex_begins_on_it(points: Seq<Point>, stretch: Stretch)
    requires
        lies_on_its_segment(points, stretch),
        stretch.from == length_of_segments(points, stretch.segment),
        is_finite(stretch.from),
        is_less(
            zero(),
            distance_between(
                points[stretch.segment as int],
                points[(stretch.segment + 1) as int],
            ),
        ),
        is_finite(
            distance_between(
                points[stretch.segment as int],
                points[(stretch.segment + 1) as int],
            ),
        ),
        is_finite(points[stretch.segment as int].x),
        is_finite(points[stretch.segment as int].y),
    ensures
        is_same(piece_of(points, stretch).start.x, points[stretch.segment as int].x),
        is_same(piece_of(points, stretch).start.y, points[stretch.segment as int].y),
{
    let a = points[stretch.segment as int];
    let b = points[(stretch.segment + 1) as int];
    let dx = minus(b.x, a.x);
    let dy = minus(b.y, a.y);
    assert(is_finite(dx) && is_finite(dy)) by {
        reveal(hypotenuse);
    }
    nothing_shared_is_nothing(stretch.from, distance_between(a, b));
    no_share_is_nothing(dx);
    no_share_is_nothing(dy);
    adding_nothing_changes_no_number(a.x, times(dx, zero()));
    adding_nothing_changes_no_number(a.y, times(dy, zero()));
}

} // verus!
