//! The grid that the vertices of a drawn zone lie on.

use crate::double::{is_finite, is_negative, magnitude, signed, Double, SIGN_BIT};
use crate::plane::Coord;
use crate::product::{lemma_nearest_zero, over, times};
use crate::rounding::{lemma_pow2_grows, nearest_magnitude, power_of_two, INFINITY_BITS};
use crate::splitting::{polygon_views, ring_views, Polygon, PolygonView};
use vstd::arithmetic::div_mod::lemma_fundamental_div_mod;
use vstd::arithmetic::div_mod::lemma_fundamental_div_mod_converse;
use vstd::arithmetic::power2::{lemma2_to64, lemma2_to64_rest, lemma_pow2_adds, lemma_pow2_pos, pow2};
use vstd::prelude::*;

verus! {

/// The step of the grid, by bit pattern: a tenth of a millimetre.
pub const SNAP_GRID_METERS: u64 = 0x3f1a_36e2_eb1c_432d;

/// Whether `d` is a whole number.
pub open spec fn is_whole(d: Double) -> bool {
    is_finite(d) && magnitude(d) % pow2(1074) == 0
}

/// The whole number nearest to `d`; of two equally near, the one further from
/// zero. What is not finite stays as it is.
pub open spec fn nearest_whole(d: Double) -> Double {
    if !is_finite(d) || is_whole(d) {
        d
    } else {
        let n = (2 * magnitude(d) + pow2(1074)) / (2 * pow2(1074));
        signed(is_negative(d), nearest_magnitude(n * pow2(1074), 1))
    }
}

proof fn lemma_common_factor(a: nat, b: nat, k: nat)
    requires
        b > 0,
        k > 0,
    ensures
        b * k > 0,
        (a * k) / (b * k) == a / b,
        (a * k) % (b * k) == (a % b) * k,
{
    let q = (a / b) as int;
    let r = (a % b) as int;
    lemma_fundamental_div_mod(a as int, b as int);
    assert(b * k > 0) by (nonlinear_arith)
        requires
            b > 0,
            k > 0,
    ;
    assert(a * k == (b * k) * q + r * k) by (nonlinear_arith)
        requires
            a == b * q + r,
    ;
    assert(0 <= r * k && r * k < b * k) by (nonlinear_arith)
        requires
            0 <= r < b,
            k > 0,
    ;
    assert(a * k == q * (b * k) + r * k) by (nonlinear_arith)
        requires
            a * k == (b * k) * q + r * k,
    ;
    lemma_fundamental_div_mod_converse((a * k) as int, (b * k) as int, q, r * k);
}

/// What rounding does to `m * 2^e`, counted in units of `2^-1074`, where the
/// whole numbers are the multiples of `2^s` in units of `2^e`.
proof fn lemma_scaled(m: nat, e: nat, s: nat)
    requires
        e + s == 1074,
    ensures
        pow2(s) > 0,
        pow2(1074) > 0,
        (m * pow2(e)) % pow2(1074) == 0 <==> m % pow2(s) == 0,
        (2 * (m * pow2(e)) + pow2(1074)) / (2 * pow2(1074)) == (2 * m + pow2(s)) / (2 * pow2(s)),
{
    lemma_pow2_pos(e);
    lemma_pow2_pos(s);
    lemma_pow2_pos(1074);
    lemma_pow2_adds(s, e);
    let k = pow2(e);
    let w = pow2(s);
    lemma_common_factor(m, w, k);
    let r = m % w;
    assert(r * k == 0 <==> r == 0) by (nonlinear_arith)
        requires
            k > 0,
    ;
    lemma_common_factor(2 * m + w, 2 * w, k);
    assert(2 * (m * k) + w * k == (2 * m + w) * k) by (nonlinear_arith);
    assert(2 * (w * k) == (2 * w) * k) by (nonlinear_arith);
}

impl Double {
    /// The whole number nearest to this; of two equally near, the one further
    /// from zero.
    pub fn rounded(self) -> (d: Double)
        ensures
            d == nearest_whole(self),
    {
        if self.unsigned() >= INFINITY_BITS {
            return self;
        }
        let (m, e) = self.parts();
        if e >= 1074 {
            proof {
                lemma_pow2_adds(1074, (e - 1074) as nat);
                lemma_pow2_pos(1074);
                let more = pow2((e - 1074) as nat);
                assert(m * (pow2(1074) * more) == (m * more) * pow2(1074)) by (nonlinear_arith);
                vstd::arithmetic::div_mod::lemma_mod_multiples_basic(
                    (m * more) as int,
                    pow2(1074) as int,
                );
            }
            return self;
        }
        let s: u32 = 1074 - e;
        proof {
            lemma_scaled(m as nat, e as nat, s as nat);
            lemma2_to64_rest();
            lemma2_to64();
        }
        if m == 0 {
            proof {
                assert(0nat % pow2(s as nat) == 0) by {
                    vstd::arithmetic::div_mod::lemma_small_mod(0, pow2(s as nat));
                }
            }
            return self;
        }
        if s >= 55 {
            proof {
                lemma_pow2_grows(55, s as nat);
                vstd::arithmetic::div_mod::lemma_small_mod(m as nat, pow2(s as nat));
                vstd::arithmetic::div_mod::lemma_basic_div(
                    2 * m + pow2(s as nat),
                    (2 * pow2(s as nat)) as int,
                );
                assert(0 * pow2(1074) == 0);
                lemma_nearest_zero(1);
            }
            return Double::with_sign(self.bits >= SIGN_BIT, 0);
        }
        let step: u128 = power_of_two(s);
        proof {
            lemma_pow2_grows(s as nat, 54);
        }
        if m as u128 % step == 0 {
            return self;
        }
        let n: u128 = (2 * (m as u128) + step) / (2 * step);
        proof {
            assert(n <= 2 * m + step) by (nonlinear_arith)
                requires
                    n == (2 * m + step) / (2 * step),
                    step > 0,
                    m >= 0,
            ;
        }
        let whole: Double = Double::from_count(n as u64);
        Double::with_sign(self.bits >= SIGN_BIT, whole.unsigned())
    }
}

/// The line of the grid nearest to `v`.
pub open spec fn on_grid(v: Double) -> Double {
    let step = Double { bits: SNAP_GRID_METERS };
    times(nearest_whole(over(v, step)), step)
}

/// The point of the grid nearest to `c`.
pub open spec fn grid_point(c: Coord) -> Coord {
    Coord { x: on_grid(c.x), y: on_grid(c.y) }
}

/// A ring on the grid.
pub open spec fn ring_on_grid(ring: Seq<Coord>) -> Seq<Coord> {
    ring.map_values(|c: Coord| grid_point(c))
}

/// A part on the grid.
pub open spec fn part_on_grid(part: PolygonView) -> PolygonView {
    PolygonView {
        exterior: ring_on_grid(part.exterior),
        interiors: part.interiors.map_values(|ring: Seq<Coord>| ring_on_grid(ring)),
    }
}

fn snap(v: Double) -> (line: Double)
    ensures
        line == on_grid(v),
{
    let step: Double = Double { bits: SNAP_GRID_METERS };
    v.divide(step).rounded().multiply(step)
}

fn snap_ring(ring: &Vec<Coord>) -> (snapped: Vec<Coord>)
    ensures
        snapped@ == ring_on_grid(ring@),
{
    let mut snapped: Vec<Coord> = Vec::new();
    let mut i: usize = 0;
    while i < ring.len()
        invariant
            i <= ring@.len(),
            snapped@.len() == i,
            forall|k: int| 0 <= k < i ==> #[trigger] snapped@[k] == grid_point(ring@[k]),
        decreases ring@.len() - i,
    {
        let c: Coord = ring[i];
        snapped.push(Coord { x: snap(c.x), y: snap(c.y) });
        i = i + 1;
    }
    assert(snapped@ =~= ring_on_grid(ring@));
    snapped
}

/// Moves every vertex to the nearest point of the grid.
pub fn snap_coords(parts: &Vec<Polygon>) -> (snapped: Vec<Polygon>)
    ensures
        polygon_views(snapped@) == polygon_views(parts@).map_values(
            |part: PolygonView| part_on_grid(part),
        ),
{
    let mut snapped: Vec<Polygon> = Vec::new();
    let mut i: usize = 0;
    while i < parts.len()
        invariant
            i <= parts@.len(),
            snapped@.len() == i,
            forall|k: int| 0 <= k < i ==> (#[trigger] snapped@[k])@ == part_on_grid(parts@[k]@),
        decreases parts@.len() - i,
    {
        let part: &Polygon = &parts[i];
        let mut interiors: Vec<Vec<Coord>> = Vec::new();
        let mut h: usize = 0;
        while h < part.interiors.len()
            invariant
                h <= part.interiors@.len(),
                interiors@.len() == h,
                forall|k: int|
                    0 <= k < h ==> (#[trigger] interiors@[k])@ == ring_on_grid(
                        part.interiors@[k]@,
                    ),
            decreases part.interiors@.len() - h,
        {
            interiors.push(snap_ring(&part.interiors[h]));
            h = h + 1;
        }
        assert(ring_views(interiors@) =~= part@.interiors.map_values(
            |ring: Seq<Coord>| ring_on_grid(ring),
        ));
        snapped.push(Polygon { exterior: snap_ring(&part.exterior), interiors });
        i = i + 1;
    }
    assert(polygon_views(snapped@) =~= polygon_views(parts@).map_values(
        |part: PolygonView| part_on_grid(part),
    ));
    snapped
}

} // verus!
