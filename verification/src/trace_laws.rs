//! What holds of the lines that strokes follow.

use crate::chains::{chain_from, feeders, ChainView};
use crate::connectivity::GraphView;
use crate::double::{is_at_most, is_less, minus, plus, zero, Double};
use crate::drawing::{
    chain_stroke, chain_strokes, core_strokes, gate_on, is_absorbed, stroke_along, CoreGateView,
    LineEnd,
};
use crate::exact_laws::{a_quotient_that_fits_is_exact, few_bits_fit, unit};
use crate::geometry_laws::{
    counts, distances_follow_pythagoras, lemma_minus, lemma_plus, lemma_times, lemma_zero,
    stands_at,
};
use crate::measure::smaller;
use crate::network::{Lane, Point};
use crate::product::{over, times};
use crate::shape::{
    distance_between, entry_with_padding, lead_in, length_of_segments, parts_between, point_between,
    segment_count, segments_between,
};
use crate::shape_laws::{lemma_travelled, lemma_travelled_grows, share_of_segment};
use crate::stop_laws::{has_no_empty_segment, lies_along, lies_on};
use crate::threshold_laws::lemma_order;
use vstd::arithmetic::power2::lemma_pow2_pos;
use vstd::prelude::*;

verus! {

/// A stroke goes from the beginning of the first piece of its line to the end
/// of each piece in turn; without a piece there is nothing to follow.
pub proof fn a_stroke_follows_the_pieces_of_its_line(
    points: Seq<Point>,
    entry: Double,
    exit: Double,
    width: Double,
    end: LineEnd,
    i: int,
)
    ensures
        ({
            let pieces = segments_between(points, entry, exit);
            let path = stroke_along(points, entry, exit, width, end).path;
            &&& pieces.len() == 0 ==> path.len() == 0
            &&& pieces.len() > 0 ==> path.len() == pieces.len() + 1 && path[0] == pieces[0].start
            &&& 0 <= i < pieces.len() ==> path[i + 1] == pieces[i].end
        }),
{
}

proof fn lemma_last_piece(points: Seq<Point>, i: nat, k: nat, entry: Double, exit: Double)
    requires
        i <= k,
        has_no_empty_segment(points),
        lies_on(points, k, exit),
        is_less(length_of_segments(points, i), exit),
        is_less(entry, exit),
    ensures
        ({
            let pieces = parts_between(points, i, length_of_segments(points, i), entry, exit);
            pieces.len() > 0 && pieces.last().end == point_between(
                points[k as int],
                points[(k + 1) as int],
                share_of_segment(points, k, exit),
            )
        }),
    decreases k - i,
{
    let a = points[i as int];
    let b = points[(i + 1) as int];
    let length = distance_between(a, b);
    let travelled = length_of_segments(points, i);
    let stop = length_of_segments(points, i + 1);
    assert(is_less(zero(), distance_between(points[i as int], points[i as int + 1])));
    if i < k {
        lemma_travelled_grows(points, i + 1, k);
        lemma_last_piece(points, i + 1, k, entry, exit);
        let rest = parts_between(points, i + 1, stop, entry, exit);
        let pieces = parts_between(points, i, travelled, entry, exit);
        assert(pieces.last() == rest.last());
    }
}

/// A stroke ends where its exit lies on the line, wherever it begins before
/// that; what is beyond the first point, on the way back, is no part of the
/// line.
pub proof fn a_stroke_ends_where_its_exit_lies(
    points: Seq<Point>,
    entry: Double,
    exit: Double,
    width: Double,
    end: LineEnd,
)
    requires
        points.len() > 0,
        has_no_empty_segment(points),
        is_less(zero(), exit),
        is_less(entry, exit),
        is_at_most(exit, length_of_segments(points, segment_count(points))),
    ensures
        stroke_along(points, entry, exit, width, end).path.len() >= 2,
        lies_along(points, exit, stroke_along(points, entry, exit, width, end).path.last()),
{
    let pieces = segments_between(points, entry, exit);
    let path = stroke_along(points, entry, exit, width, end).path;
    let k = lemma_some_segment(points, exit, segment_count(points));
    lemma_last_piece(points, 0, k, entry, exit);
    let parts = parts_between(points, 0, zero(), entry, exit);
    assert(pieces.last() == parts.last());
    assert(path.last() == pieces.last().end);
    assert forall|m: nat| #[trigger] lies_on(points, m, exit) implies path.last() == point_between(
        points[m as int],
        points[(m + 1) as int],
        share_of_segment(points, m, exit),
    ) by {
        lemma_last_piece(points, 0, m, entry, exit);
    }
}

proof fn lemma_some_segment(points: Seq<Point>, metres: Double, count: nat) -> (k: nat)
    requires
        count <= segment_count(points),
        is_less(zero(), metres),
        is_at_most(metres, length_of_segments(points, count)),
    ensures
        lies_on(points, k, metres),
    decreases count,
{
    if count == 0 {
        0
    } else if count > 1 && is_at_most(metres, length_of_segments(points, (count - 1) as nat)) {
        lemma_some_segment(points, metres, (count - 1) as nat)
    } else {
        let k = (count - 1) as nat;
        if k > 0 {
            lemma_travelled(points, k);
            lemma_travelled_grows(points, k, count);
        }
        k
    }
}

/// A line that is to begin before its first point is led back straight, as far
/// as it is to begin before it: shown where its first segment runs along one of
/// the axes, where every length comes out exactly.
pub proof fn a_line_is_led_back_straight(
    points: Seq<Point>,
    entry: Double,
    exit: Double,
    x: int,
    y: int,
    z: int,
    dx: int,
    dy: int,
    z2: int,
    h: int,
    back: int,
)
    requires
        points.len() >= 2,
        stands_at(points[0], x, y, z),
        stands_at(points[1], x + dx, y + dy, z2),
        h > 0,
        dx == h && dy == 0 || dx == -h && dy == 0 || dx == 0 && dy == h || dx == 0 && dy == -h,
        counts(entry, -back),
        0 < back <= 0x10_0000,
        is_less(zero(), exit),
    ensures
        ({
            let pieces = segments_between(points, entry, exit);
            let sx = if dx > 0 {
                1int
            } else if dx < 0 {
                -1
            } else {
                0
            };
            let sy = if dy > 0 {
                1int
            } else if dy < 0 {
                -1
            } else {
                0
            };
            &&& pieces.len() > 0
            &&& counts(pieces[0].start.x, x - sx * back)
            &&& counts(pieces[0].start.y, y - sy * back)
            &&& pieces[0].start.z == points[0].z
            &&& counts(pieces[0].end.x, x)
            &&& counts(pieces[0].end.y, y)
        }),
{
    let a = points[0];
    let b = points[1];
    let sx = if dx > 0 {
        1int
    } else if dx < 0 {
        -1
    } else {
        0
    };
    let sy = if dy > 0 {
        1int
    } else if dy < 0 {
        -1
    } else {
        0
    };
    assert(h * h == dx * dx + dy * dy) by (nonlinear_arith)
        requires
            dx == h && dy == 0 || dx == -h && dy == 0 || dx == 0 && dy == h || dx == 0 && dy == -h,
    ;
    assert((x + dx) - x == dx && (y + dy) - y == dy);
    distances_follow_pythagoras(a, b, x, y, z, x + dx, y + dy, z2, h);
    let length = distance_between(a, b);
    lemma_zero();
    lemma_order(zero(), length, 0, h);
    lemma_order(entry, zero(), -back, 0);
    lemma_minus(b.x, a.x, x + dx, x);
    lemma_minus(b.y, a.y, y + dy, y);
    lemma_side(minus(b.x, a.x), length, dx, h, sx);
    lemma_side(minus(b.y, a.y), length, dy, h, sy);
    let tx = over(minus(b.x, a.x), length);
    let ty = over(minus(b.y, a.y), length);
    assert(sx * (-back) == -(sx * back) && sy * (-back) == -(sy * back)) by (nonlinear_arith);
    assert(-back <= sx * back <= back && -back <= sy * back <= back) by (nonlinear_arith)
        requires
            -1 <= sx <= 1,
            -1 <= sy <= 1,
            back > 0,
    ;
    lemma_times(tx, entry, sx, -back);
    lemma_times(ty, entry, sy, -back);
    lemma_plus(a.x, times(tx, entry), x, -(sx * back));
    lemma_plus(a.y, times(ty, entry), y, -(sy * back));
    assert(sx * 0 == 0 && sy * 0 == 0) by (nonlinear_arith);
    lemma_times(tx, zero(), sx, 0);
    lemma_times(ty, zero(), sy, 0);
    lemma_plus(a.x, times(tx, zero()), x, 0);
    lemma_plus(a.y, times(ty, zero()), y, 0);
    let lead = lead_in(points, entry, exit);
    assert(smaller(exit, zero()) == zero());
    assert(lead.len() == 1);
    assert(segments_between(points, entry, exit)[0] == lead[0]);
}

proof fn lemma_side(d: Double, length: Double, k: int, h: int, s: int)
    requires
        counts(d, k),
        counts(length, h),
        h > 0,
        k == s * h,
        -1 <= s <= 1,
    ensures
        counts(over(d, length), s),
{
    few_bits_fit(s, 1074);
    let u = unit();
    lemma_pow2_pos(1074);
    assert((s * u) * (h * u) == (k * u) * u && h * u != 0) by (nonlinear_arith)
        requires
            k == s * h,
            h > 0,
            u > 0,
    ;
    a_quotient_that_fits_is_exact(d, length, s * u);
}

/// Whether gate `i` is the last on its lane, and one chain alone runs
/// into that lane.
pub open spec fn takes_in_a_chain(
    gates: Seq<CoreGateView>,
    ancestors: Seq<Seq<char>>,
    graph: GraphView,
    i: int,
) -> bool {
    &&& 0 <= i < gates.len()
    &&& forall|j: int| i < j < gates.len() ==> (#[trigger] gates[j]).lane.id@ != gates[i].lane.id@
    &&& feeders(ancestors, graph, gates[i].lane.id@) == 1
}

proof fn lemma_gate_on(gates: Seq<CoreGateView>, id: Seq<char>)
    ensures
        match gate_on(gates, id) {
            Some(i) => i < gates.len() && gates[i as int].lane.id@ == id && forall|j: int|
                i < j < gates.len() ==> (#[trigger] gates[j]).lane.id@ != id,
            None => forall|j: int| 0 <= j < gates.len() ==> (#[trigger] gates[j]).lane.id@ != id,
        },
    decreases gates.len(),
{
    if gates.len() > 0 && gates.last().lane.id@ != id {
        let rest = gates.drop_last();
        lemma_gate_on(rest, id);
        assert forall|j: int| 0 <= j < rest.len() implies #[trigger] gates[j] == rest[j] by {}
    }
}

/// A gate is drawn with the chain that runs into its lane, instead of by
/// itself, exactly where it is the last on that lane and one chain alone does.
pub proof fn a_gate_takes_in_the_only_chain_into_it(
    gates: Seq<CoreGateView>,
    ancestors: Seq<Seq<char>>,
    graph: GraphView,
    i: int,
)
    requires
        0 <= i < gates.len(),
    ensures
        is_absorbed(gates, ancestors, graph, i) <==> takes_in_a_chain(gates, ancestors, graph, i),
{
    let id = gates[i].lane.id@;
    lemma_gate_on(gates, id);
    match gate_on(gates, id) {
        Some(m) => {
            if m < i {
                assert(gates[i].lane.id@ != id);
            }
        },
        None => {
            assert(gates[i].lane.id@ != id);
        },
    }
}

/// A chain is drawn over its whole length, moved back to make up the padding,
/// and squared off at its end; one that a gate takes in is drawn on along the
/// gate's lane to its exit, as wide as that lane. A chain of fewer than two
/// points is not drawn.
pub proof fn a_chain_is_drawn_over_its_whole_length(
    chain: ChainView,
    gates: Seq<CoreGateView>,
    ancestors: Seq<Seq<char>>,
    graph: GraphView,
    pad: Double,
    i: int,
)
    ensures
        ({
            let length = length_of_segments(chain.points, segment_count(chain.points));
            let stroke = chain_stroke(chain, gates, ancestors, graph, pad);
            &&& stroke is None <==> chain.points.len() < 2
            &&& chain.points.len() >= 2 && takes_in_a_chain(gates, ancestors, graph, i)
                && chain.successor == Some(gates[i].lane.id@) ==> stroke == Some(
                stroke_along(
                    chain.points + gates[i].lane.shape@,
                    entry_with_padding(zero(), plus(length, gates[i].exit), pad),
                    plus(length, gates[i].exit),
                    gates[i].lane.width,
                    LineEnd::Butt,
                ),
            )
            &&& chain.points.len() >= 2 && (forall|j: int|
                0 <= j < gates.len() && chain.successor == Some((#[trigger] gates[j]).lane.id@)
                    ==> !takes_in_a_chain(gates, ancestors, graph, j)) ==> stroke == Some(
                stroke_along(
                    chain.points,
                    entry_with_padding(zero(), length, pad),
                    length,
                    chain.lanes[0].width,
                    LineEnd::Square,
                ),
            )
        }),
{
    if let Some(id) = chain.successor {
        lemma_gate_on(gates, id);
        if let Some(m) = gate_on(gates, id) {
            a_gate_takes_in_the_only_chain_into_it(gates, ancestors, graph, m as int);
            assert(gates[m as int].lane.id@ == id);
            if takes_in_a_chain(gates, ancestors, graph, i) && id == gates[i].lane.id@ {
                if m < i {
                    assert(gates[i].lane.id@ != id);
                } else if i < m {
                    assert(gates[m as int].lane.id@ != id);
                }
                assert(m == i);
            }
        } else if takes_in_a_chain(gates, ancestors, graph, i) {
            assert(gates[i].lane.id@ != id);
        }
    }
}

/// The gates are drawn in order, each straight across at its exit and as wide
/// as its lane, but for those that take a chain in.
pub proof fn gates_are_drawn_in_order(
    gates: Seq<CoreGateView>,
    ancestors: Seq<Seq<char>>,
    graph: GraphView,
    n: nat,
)
    requires
        n < gates.len(),
    ensures
        core_strokes(gates, ancestors, graph, 0).len() == 0,
        takes_in_a_chain(gates, ancestors, graph, n as int) ==> core_strokes(
            gates,
            ancestors,
            graph,
            n + 1,
        ) == core_strokes(gates, ancestors, graph, n),
        !takes_in_a_chain(gates, ancestors, graph, n as int) ==> core_strokes(
            gates,
            ancestors,
            graph,
            n + 1,
        ) == core_strokes(gates, ancestors, graph, n).push(
            stroke_along(
                gates[n as int].lane.shape@,
                gates[n as int].entry,
                gates[n as int].exit,
                gates[n as int].lane.width,
                LineEnd::Butt,
            ),
        ),
{
    a_gate_takes_in_the_only_chain_into_it(gates, ancestors, graph, n as int);
}

/// The chains are drawn in the order of the lanes that they begin with: the
/// lanes into which not just one other lane leads on.
pub proof fn chains_are_drawn_in_order(
    gates: Seq<CoreGateView>,
    ancestors: Seq<Seq<char>>,
    graph: GraphView,
    lanes: Seq<Lane>,
    pad: Double,
    n: nat,
)
    requires
        n < ancestors.len(),
    ensures
        ({
            let start = ancestors[n as int];
            let before = chain_strokes(gates, ancestors, graph, lanes, pad, n);
            let drawn = chain_strokes(gates, ancestors, graph, lanes, pad, n + 1);
            let chain = chain_from(start, Set::empty(), ancestors, graph, lanes);
            &&& feeders(ancestors, graph, start) == 1 ==> drawn == before
            &&& feeders(ancestors, graph, start) != 1 ==> match chain_stroke(
                chain,
                gates,
                ancestors,
                graph,
                pad,
            ) {
                Some(stroke) => drawn == before.push(stroke),
                None => drawn == before,
            }
        }),
        chain_strokes(gates, ancestors, graph, lanes, pad, 0).len() == 0,
{
}

/// A line that is led back beyond its start can be parted there: what is drawn
/// up to a place before the start ends where what is drawn from there begins,
/// and both go the same way.
pub proof fn a_line_led_back_can_be_parted(
    points: Seq<Point>,
    entry: Double,
    between: Double,
    exit: Double,
)
    requires
        points.len() >= 2,
        is_less(zero(), distance_between(points[0], points[1])),
        is_less(entry, between),
        is_less(between, zero()),
        is_less(between, exit),
    ensures
        ({
            let first = segments_between(points, entry, between);
            let second = segments_between(points, between, exit);
            &&& first.len() > 0
            &&& second.len() > 0
            &&& first[0].end == second[0].start
            &&& first[0].tangent == second[0].tangent
        }),
{
    let first = lead_in(points, entry, between);
    let second = lead_in(points, between, exit);
    assert(first.len() == 1 && second.len() == 1);
    assert(segments_between(points, entry, between)[0] == first[0]);
    assert(segments_between(points, between, exit)[0] == second[0]);
}

} // verus!
