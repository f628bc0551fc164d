//! What becomes of rings that are cut where they meet themselves, and of
//! places that are put on a grid.

use crate::double::{is_finite, is_less, is_negative, magnitude, magnitude_bits, value, Double};
use crate::drawing::finished_drawing;
use crate::exact_laws::{few_bits_fit, is_exactly, lemma_kept, unit};
use crate::grid::{is_whole, nearest_whole, on_grid};
use crate::plane::{distance, margin, snapped, Coord};
use crate::polygon_laws::only_slivers_are_dropped;
use crate::polygons::{is_worth_keeping, parts_worth_keeping};
use crate::product::lemma_zero_magnitude;
use crate::ring::{after, least_is_the_first, near_touch, opened, touched_edge, touches};
use crate::rounding::{lemma_pow2_grows, nearest_magnitude, EXPONENT_UNIT};
use crate::splitting::{
    edge_crossing, first_crossing, halves, solid, split_at_crossing, split_at_touch, split_once, welded,
    PolygonView,
};
use vstd::arithmetic::div_mod::{lemma_fundamental_div_mod, lemma_fundamental_div_mod_converse};
use vstd::arithmetic::power2::{lemma2_to64, lemma2_to64_rest, lemma_pow2_adds, lemma_pow2_pos, pow2};
use vstd::prelude::*;

verus! {

/// A number that has a part behind the point is no larger than fifty-three bits
/// can count.
proof fn lemma_not_whole_is_small(d: Double)
    requires
        is_finite(d),
        !is_whole(d),
    ensures
        magnitude(d) < 0x10_0000_0000_0000 * pow2(1074),
{
    lemma2_to64();
    lemma2_to64_rest();
    let w = EXPONENT_UNIT as int;
    let e = magnitude_bits(d) / w;
    let f = magnitude_bits(d) % w;
    let u = pow2(1074);
    lemma_pow2_pos(1074);
    if e == 0 {
        assert(magnitude(d) == f);
        assert(0x10_0000_0000_0000 * u >= 0x10_0000_0000_0000) by (nonlinear_arith)
            requires
                u >= 1,
        ;
    } else {
        let p = pow2((e - 1) as nat);
        if e - 1 >= 1074 {
            let s = (e - 1 - 1074) as nat;
            lemma_pow2_adds(1074, s);
            let q = (w + f) * pow2(s);
            assert(magnitude(d) == q * u + 0) by (nonlinear_arith)
                requires
                    magnitude(d) == (w + f) * p,
                    p == u * pow2(s),
                    q == (w + f) * pow2(s),
            ;
            lemma_fundamental_div_mod_converse(magnitude(d) as int, u as int, q, 0);
        } else {
            lemma_pow2_grows((e - 1) as nat, 1073);
            lemma_pow2_adds(1, 1073);
            lemma_pow2_pos((e - 1) as nat);
            assert((w + f) * p < 0x10_0000_0000_0000 * u) by (nonlinear_arith)
                requires
                    w + f < 0x20_0000_0000_0000,
                    2 * p <= u,
                    p > 0,
            ;
        }
    }
}

/// Whether `w` is the whole number nearest to the value `v`; of two equally
/// near, the one further from nothing.
pub open spec fn is_nearest_whole(v: int, w: int) -> bool {
    let off = 2 * (v - w * unit());
    &&& -unit() <= off <= unit()
    &&& off == unit() ==> v < 0
    &&& off == -unit() ==> v > 0
}

/// A finite number is rounded to the nearest whole number; of two equally near,
/// to the one further from nothing.
pub proof fn numbers_are_rounded_to_the_nearest_whole(d: Double) -> (w: int)
    requires
        is_finite(d),
    ensures
        is_exactly(nearest_whole(d), w * unit()),
        is_nearest_whole(value(d), w),
{
    let u = pow2(1074);
    lemma_pow2_pos(1074);
    lemma_zero_magnitude(d);
    let m = magnitude(d);
    if is_whole(d) {
        let q = m / u;
        lemma_fundamental_div_mod(m as int, u as int);
        assert(m == q * u) by (nonlinear_arith)
            requires
                m == u * q + 0,
        ;
        let w = if is_negative(d) {
            -(q as int)
        } else {
            q as int
        };
        assert(value(d) == w * u) by (nonlinear_arith)
            requires
                m == q * u,
                value(d) == (if is_negative(d) {
                    -(m as int)
                } else {
                    m as int
                }),
                w == (if is_negative(d) {
                    -(q as int)
                } else {
                    q as int
                }),
        ;
        w
    } else {
        lemma_not_whole_is_small(d);
        let n = (2 * m + u) / (2 * u);
        let r = (2 * m + u) % (2 * u);
        assert(2 * m + u == n * (2 * u) + r && 0 <= r < 2 * u) by (nonlinear_arith)
            requires
                n == (2 * m + u) / (2 * u),
                r == (2 * m + u) % (2 * u),
                u > 0,
        ;
        assert(n <= 0x10_0000_0000_0000) by (nonlinear_arith)
            requires
                2 * m + u == n * (2 * u) + r,
                r >= 0,
                m < 0x10_0000_0000_0000 * u,
                u > 0,
        ;
        let w = if is_negative(d) {
            -(n as int)
        } else {
            n as int
        };
        few_bits_fit(w, 1074);
        let v = w * u;
        assert((if v < 0 {
            -v
        } else {
            v
        }) == n * u && (v != 0 ==> is_negative(d) == (v < 0))) by (nonlinear_arith)
            requires
                v == w * u,
                w == (if is_negative(d) {
                    -(n as int)
                } else {
                    n as int
                }),
                u > 0,
        ;
        lemma_kept(is_negative(d), nearest_magnitude(n * u, 1), v);
        assert(-(u as int) <= 2 * (m - n * u) < u) by (nonlinear_arith)
            requires
                2 * m + u == n * (2 * u) + r,
                0 <= r < 2 * u,
        ;
        assert(w * u == (if is_negative(d) {
            -(n * u)
        } else {
            n * u as int
        })) by (nonlinear_arith)
            requires
                w == (if is_negative(d) {
                    -(n as int)
                } else {
                    n as int
                }),
        ;
        assert(m > 0) by {
            if m == 0 {
                lemma_fundamental_div_mod_converse(0, u as int, 0, 0);
            }
        }
        w
    }
}

/// Where the two pieces of a ring meet that is split where a vertex touches an
/// edge: at the end of the edge that is near enough, the first of the two
/// before the second, and otherwise at the place itself.
pub open spec fn weld_place(coords: Seq<Coord>, i: int, place: Coord) -> Coord {
    let end = (i + 1) % (coords.len() as int);
    if is_less(distance(place, coords[i]), margin()) {
        coords[i]
    } else if is_less(distance(place, coords[end]), margin()) {
        coords[end]
    } else {
        place
    }
}

/// A ring that is split where a vertex touches an edge falls into two that meet
/// at the edge, and keeps every other vertex in one of them.
pub proof fn a_split_at_a_touch_keeps_the_other_vertices(ring: Seq<Coord>, m: int)
    requires
        opened(ring).len() >= 4,
        near_touch(opened(ring)) is Some,
        0 <= m < opened(ring).len(),
    ensures
        ({
            let coords = opened(ring);
            let (k, i, place) = near_touch(coords)->0;
            &&& split_at_touch(ring) matches Some(pieces) && pieces.0.len() > 0 && pieces.0[0]
                == weld_place(coords, i as int, place) && pieces.0.last() == pieces.0[0]
                && pieces.1.len() > 0 && pieces.1[0] == pieces.0[0] && pieces.1.last()
                == pieces.0[0] && (m != k ==> pieces.0.contains(coords[m]) || pieces.1.contains(
                coords[m],
            )) && pieces.0.len() + pieces.1.len() <= coords.len() + 3
        }),
{
    let coords = opened(ring);
    let n = coords.len() as int;
    let (k, i, place) = near_touch(coords)->0;
    least_is_the_first(coords.len(), |v: int| touched_edge(coords, v) is Some);
    least_is_the_first(coords.len(), |e: int| touches(coords, k as int, e));
    assert(touches(coords, k as int, i as int));
    let end = after(i as int, n);
    assert(end == (i as int + 1) % n) by {
        if i + 1 == n {
            lemma_fundamental_div_mod_converse(i as int + 1, n, 1, 0);
        } else {
            lemma_fundamental_div_mod_converse(i as int + 1, n, 0, i as int + 1);
        }
    }
    assert(k != i && k != end);
    let (joined, a, b) = welded(coords, k as int, i as int, place);
    let (inner, outer) = halves(joined, a, b);
    let low = if a < b {
        a
    } else {
        b
    };
    let high = if a < b {
        b
    } else {
        a
    };
    assert(joined[a] == joined[b] && joined[a] == weld_place(coords, i as int, place));
    assert(0 <= low < high < joined.len());
    assert(inner[0] == joined[low] && inner.last() == joined[high]);
    assert(outer[0] == joined[high]);
    assert(outer.last() == joined[low]) by {
        assert(outer[outer.len() - 1] == joined.take(low + 1)[low]);
    }
    if m != k {
        let at: int = if joined.len() == coords.len() || m < end {
            m
        } else {
            m + 1
        };
        assert(joined[at] == coords[m]);
        if low <= at <= high {
            assert(inner[at - low] == joined[at]);
        } else if at > high {
            assert(outer[at - high] == joined.skip(high)[at - high]);
        } else {
            assert(outer[joined.len() - high + at] == joined.take(low + 1)[at]);
        }
    }
}

/// A ring is cut at its first crossing, snapped to a vertex that is near
/// enough: the vertices between the two edges make up one piece, and those
/// beyond them the other, each from the crossing and back to it. Only a ring
/// without crossings is looked at for touches.
pub proof fn a_ring_is_cut_at_its_first_crossing(ring: Seq<Coord>, m: int)
    requires
        ring.len() >= 5,
    ensures
        ({
            let coords = ring.drop_last();
            match first_crossing(coords) {
                Some((i, j)) => {
                    let place = snapped(edge_crossing(coords, i as int, j as int)->0, coords);
                    &&& split_at_crossing(ring) is Some
                    &&& split_once(ring) == split_at_crossing(ring)
                    &&& i < j < coords.len() ==> {
                        let (inner, outer) = split_at_crossing(ring)->0;
                        &&& inner.len() == j - i + 2
                        &&& outer.len() == coords.len() - (j - i) + 2
                        &&& inner[0] == place && inner.last() == place
                        &&& outer[0] == place && outer.last() == place
                        &&& i < m <= j ==> inner[m - i] == coords[m]
                        &&& j < m < coords.len() ==> outer[m - j] == coords[m]
                        &&& 0 <= m <= i ==> outer[coords.len() - j + m] == coords[m]
                    }
                },
                None => split_at_crossing(ring) is None && split_once(ring) == split_at_touch(ring),
            }
        }),
{
}

/// The drawing of a zone keeps, of the parts drawn, the outer rings of those
/// that are large enough, in order and without their holes, put on the grid.
pub proof fn a_finished_drawing_has_no_holes(
    parts: Seq<PolygonView>,
    areas: Seq<Double>,
    k: int,
)
    requires
        parts.len() == areas.len(),
    ensures
        0 <= k < finished_drawing(parts, areas).len() ==> finished_drawing(
            parts,
            areas,
        )[k].interiors.len() == 0 && exists|i: int|
            0 <= i < parts.len() && is_worth_keeping(areas[i]) && is_ring_on_grid(
                (#[trigger] parts[i]).exterior,
                finished_drawing(parts, areas)[k].exterior,
            ),
        0 <= k < parts.len() && is_worth_keeping(areas[k]) ==> exists|i: int|
            0 <= i < finished_drawing(parts, areas).len() && is_ring_on_grid(
                parts[k].exterior,
                (#[trigger] finished_drawing(parts, areas)[i]).exterior,
            ),
{
    let rings = parts.map_values(|part: PolygonView| solid(part.exterior));
    let kept = parts_worth_keeping(rings, areas, parts.len());
    let finished = finished_drawing(parts, areas);
    if 0 <= k < finished.len() {
        assert(kept.contains(kept[k]));
        only_slivers_are_dropped(rings, areas, parts.len(), kept[k]);
        let i = choose|i: int|
            0 <= i < parts.len() && #[trigger] rings[i] == kept[k] && is_worth_keeping(areas[i]);
        assert(is_ring_on_grid(parts[i].exterior, finished[k].exterior));
    }
    if 0 <= k < parts.len() && is_worth_keeping(areas[k]) {
        only_slivers_are_dropped(rings, areas, parts.len(), rings[k]);
        assert(rings[k] == rings[k]);
        let i = choose|i: int| 0 <= i < kept.len() && kept[i] == rings[k];
        assert(is_ring_on_grid(parts[k].exterior, finished[i].exterior));
    }
}

/// Whether a ring is another one put on the grid, vertex by vertex.
pub open spec fn is_ring_on_grid(ring: Seq<Coord>, on: Seq<Coord>) -> bool {
    on.len() == ring.len() && forall|i: int|
        0 <= i < ring.len() ==> (#[trigger] on[i]).x == on_grid(ring[i].x) && on[i].y == on_grid(
            ring[i].y,
        )
}

} // verus!
