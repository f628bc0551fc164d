//! The length of a vector.

use crate::double::{is_infinite, is_nan, magnitude, signed, Double, NAN_BITS};
use crate::product::lemma_nearest_zero;
use crate::rounding::{
    bit_length, lemma_pow2_grows, nearest_magnitude, power_of_two, round_scaled, EXPONENT_UNIT,
    INFINITY_BITS,
};
use vstd::arithmetic::power2::{
    lemma2_to64, lemma2_to64_rest, lemma_pow2_adds, lemma_pow2_pos, lemma_pow2_unfold, pow2,
};
use vstd::prelude::*;

verus! {

/// The largest integer whose square does not exceed `m`.
pub open spec fn floor_root(m: nat) -> nat
    decreases m,
{
    if m == 0 {
        0
    } else {
        let q = floor_root((m - 1) as nat);
        if (q + 1) * (q + 1) <= m {
            q + 1
        } else {
            q
        }
    }
}

/// The magnitude bits of the double nearest to the square root of `n`, which
/// counts in squares of the least positive double. The root is taken to sixty
/// bits below that double; whatever is cut off counts as half a bit more,
/// which no rounding tells from what it is.
pub open spec fn nearest_root(n: nat) -> nat {
    let root = floor_root(n * pow2(120));
    let rest: nat = if root * root == n * pow2(120) {
        0
    } else {
        1
    };
    nearest_magnitude(2 * root + rest, pow2(61))
}

/// The length of the vector `(x, y)`, rounded to nearest.
#[verifier::opaque]
pub open spec fn hypotenuse(x: Double, y: Double) -> Double {
    if is_infinite(x) || is_infinite(y) {
        Double { bits: INFINITY_BITS }
    } else if is_nan(x) || is_nan(y) {
        Double { bits: NAN_BITS }
    } else {
        signed(
            false,
            nearest_root(magnitude(x) * magnitude(x) + magnitude(y) * magnitude(y)),
        )
    }
}

pub(crate) proof fn lemma_floor_root(m: nat)
    ensures
        floor_root(m) * floor_root(m) <= m,
        m < (floor_root(m) + 1) * (floor_root(m) + 1),
    decreases m,
{
    if m == 0 {
        assert(floor_root(0) == 0);
        assert(0nat * 0nat == 0nat) by (nonlinear_arith);
        assert(1nat * 1nat == 1nat) by (nonlinear_arith);
    } else {
        lemma_floor_root((m - 1) as nat);
        let q = floor_root((m - 1) as nat);
        if (q + 1) * (q + 1) <= m {
            assert((q + 2) * (q + 2) == (q + 1) * (q + 1) + 2 * (q + 1) + 1) by (nonlinear_arith);
        }
    }
}

proof fn lemma_square_order(a: nat, b: nat)
    requires
        a * a < b * b,
    ensures
        a < b,
{
    if a >= b {
        assert(a * a >= b * b) by (nonlinear_arith)
            requires
                a >= b,
        ;
    }
}

/// A root cut off higher up rounds as the root itself does.
proof fn lemma_root_between(n: nat, root: nat, i: nat, a: nat, exact: bool)
    requires
        a <= 60,
        (root * pow2(i)) * (root * pow2(i)) <= n * (pow2(a) * pow2(a)),
        n * (pow2(a) * pow2(a)) < ((root + 1) * pow2(i)) * ((root + 1) * pow2(i)),
        exact <==> n * (pow2(a) * pow2(a)) == (root * pow2(i)) * (root * pow2(i)),
    ensures
        ({
            let deep = floor_root(n * pow2(120));
            let rest: nat = if deep * deep == n * pow2(120) {
                0
            } else {
                1
            };
            let value = 2 * deep + rest;
            &&& root * (pow2(61) * pow2(i)) <= value * pow2(a)
            &&& value * pow2(a) < (root + 1) * (pow2(61) * pow2(i))
            &&& exact <==> value * pow2(a) == root * (pow2(61) * pow2(i))
        }),
{
    let k = pow2((60 - a) as nat);
    let p = pow2(a);
    let u = pow2(i);
    let deep = floor_root(n * pow2(120));
    let rest: nat = if deep * deep == n * pow2(120) {
        0
    } else {
        1
    };
    let value = 2 * deep + rest;
    lemma_floor_root(n * pow2(120));
    lemma_pow2_pos(a);
    lemma_pow2_pos(i);
    lemma_pow2_pos((60 - a) as nat);
    lemma_pow2_adds(a, (60 - a) as nat);
    lemma_pow2_adds(60, 60);
    lemma_pow2_unfold(61);
    let low = (root * u) * k;
    let high = ((root + 1) * u) * k;
    // n * 2^120 == n * p^2 * k^2
    assert(n * pow2(120) == (n * (p * p)) * (k * k)) by (nonlinear_arith)
        requires
            pow2(120) == pow2(60) * pow2(60),
            pow2(60) == p * k,
    ;
    let np = n * (p * p);
    let ru = root * u;
    let su = (root + 1) * u;
    assert(low * low <= n * pow2(120)) by (nonlinear_arith)
        requires
            low == ru * k,
            ru * ru <= np,
            n * pow2(120) == np * (k * k),
            k > 0,
    ;
    assert(n * pow2(120) < high * high) by (nonlinear_arith)
        requires
            high == su * k,
            np < su * su,
            n * pow2(120) == np * (k * k),
            k > 0,
    ;
    // so the deep root lies between
    assert((deep + 1) * (deep + 1) > low * low);
    lemma_square_order(low, deep + 1);
    assert(deep * deep < high * high);
    lemma_square_order(deep, high);
    assert(low <= deep < high);
    if exact {
        assert(low * low == n * pow2(120)) by (nonlinear_arith)
            requires
                low == ru * k,
                ru * ru == np,
                n * pow2(120) == np * (k * k),
        ;
        if deep > low {
            assert(deep * deep > low * low) by (nonlinear_arith)
                requires
                    deep > low,
            ;
        }
        assert(deep == low && rest == 0);
    } else {
        assert(low * low != n * pow2(120)) by (nonlinear_arith)
            requires
                low == ru * k,
                ru * ru < np,
                n * pow2(120) == np * (k * k),
                k > 0,
        ;
        assert(deep > low || rest == 1);
    }
    // 2 * low * p == root * 2^61 * u, since k * p == 2^60
    assert(2 * low * p == root * (pow2(61) * u)) by (nonlinear_arith)
        requires
            low == (root * u) * k,
            pow2(60) == p * k,
            pow2(61) == 2 * pow2(60),
    ;
    assert(2 * high * p == (root + 1) * (pow2(61) * u)) by (nonlinear_arith)
        requires
            high == ((root + 1) * u) * k,
            pow2(60) == p * k,
            pow2(61) == 2 * pow2(60),
    ;
    assert(value * p >= 2 * low * p) by (nonlinear_arith)
        requires
            value >= 2 * low,
    ;
    assert(value * p < 2 * high * p) by (nonlinear_arith)
        requires
            value < 2 * high,
            p > 0,
    ;
    if !exact {
        assert(value * p > 2 * low * p) by (nonlinear_arith)
            requires
                value > 2 * low,
                p > 0,
        ;
    }
}

/// How far the root of `a^2 + square` lies beyond `a`, rounded down.
fn beyond(a: u128, square: u128) -> (step: u128)
    requires
        0x1000_0000_0000_0000 <= a < 0x20_0000_0000_0000_0000_0000_0000,
        square < 0x400_0000_0000_0000_0000_0000_0000_0000,
        square <= a * a,
        a >= 0x2000_0000_0000_0000 ==> square < 0x400_0000_0000_0000_0000_0000_0000,
    ensures
        step * (2 * a + step) <= square < (step + 1) * (2 * a + (step + 1)),
        step <= a,
{
    let twice: u128 = 2 * a;
    let limit: u128 = square / twice;
    proof {
        assert(limit * twice <= square && square < (limit + 1) * twice) by (nonlinear_arith)
            requires
                limit == square / twice,
                twice > 0,
        ;
        assert(2 * limit <= a) by (nonlinear_arith)
            requires
                limit * twice <= a * a,
                twice == 2 * a,
                a > 0,
        ;
        lemma_products_fit(a as nat, square as nat, limit as nat);
    }
    let mut low: u128 = 0;
    let mut high: u128 = limit + 1;
    assert(low * (2 * a + low) == 0) by (nonlinear_arith)
        requires
            low == 0,
    ;
    assert(high * (2 * a + high) > square) by (nonlinear_arith)
        requires
            square < high * (2 * a),
            high >= 0,
    ;
    while high - low > 1
        invariant
            low < high <= limit + 1,
            limit <= a / 2 + 1,
            0x1000_0000_0000_0000 <= a < 0x20_0000_0000_0000_0000_0000_0000,
            (limit + 1) * (2 * a + (limit + 1)) < 0x4000_0000_0000_0000_0000_0000_0000_0000,
            low * (2 * a + low) <= square < high * (2 * a + high),
        decreases high - low,
    {
        let middle: u128 = low + (high - low) / 2;
        assert(middle * (2 * a + middle) <= (limit + 1) * (2 * a + (limit + 1))) by (nonlinear_arith)
            requires
                middle <= limit + 1,
                a > 0,
                middle >= 0,
        ;
        if middle * (2 * a + middle) <= square {
            low = middle;
        } else {
            high = middle;
        }
    }
    low
}

proof fn lemma_products_fit(a: nat, square: nat, limit: nat)
    requires
        0x1000_0000_0000_0000 <= a < 0x20_0000_0000_0000_0000_0000_0000,
        square < 0x400_0000_0000_0000_0000_0000_0000_0000,
        limit <= a / 2 + 1,
        limit * (2 * a) <= square,
        a >= 0x2000_0000_0000_0000 ==> square < 0x400_0000_0000_0000_0000_0000_0000,
    ensures
        (limit + 1) * (2 * a + (limit + 1)) < 0x4000_0000_0000_0000_0000_0000_0000_0000,
{
    let l = limit + 1;
    assert(l * (2 * a + l) == limit * (2 * a) + 2 * a + l * l) by (nonlinear_arith)
        requires
            l == limit + 1,
    ;
    if a >= 0x2000_0000_0000_0000 {
        assert(limit < 0x2_0000_0000_0000) by (nonlinear_arith)
            requires
                limit * (2 * a) < 0x400_0000_0000_0000_0000_0000_0000,
                a >= 0x2000_0000_0000_0000,
        ;
        assert(l * l <= 0x2_0000_0000_0000 * 0x2_0000_0000_0000) by (nonlinear_arith)
            requires
                l <= 0x2_0000_0000_0000,
        ;
    } else {
        assert(l * l <= 0x2000_0000_0000_0000 * 0x2000_0000_0000_0000) by (nonlinear_arith)
            requires
                l <= 0x2000_0000_0000_0000,
        ;
    }
}

/// The magnitude bits of the root of `(m1 * 2^e1)^2 + (m2 * 2^e2)^2`, of which
/// the first is the larger.
fn root_of_parts(m1: u64, e1: u32, m2: u64, e2: u32, Ghost(n): Ghost<nat>) -> (bits: u64)
    requires
        0 < m1 < 2 * EXPONENT_UNIT,
        m2 < 2 * EXPONENT_UNIT,
        e2 <= e1 <= 2045,
        e1 == e2 ==> m1 >= m2,
        e1 > 0 ==> m1 >= EXPONENT_UNIT,
        n == (m1 * pow2(e1 as nat)) * (m1 * pow2(e1 as nat)) + (m2 * pow2(e2 as nat)) * (m2
            * pow2(e2 as nat)),
    ensures
        bits == nearest_root(n),
{
    let apart: u32 = e1 - e2;
    let length: u32 = bit_length(m1 as u128);
    let ghost p1 = pow2(e1 as nat);
    let ghost p2 = pow2(e2 as nat);
    proof {
        lemma2_to64();
        lemma2_to64_rest();
        lemma_pow2_pos(e1 as nat);
        lemma_pow2_pos(e2 as nat);
        if length > 53 {
            lemma_pow2_grows(53, (length - 1) as nat);
        }
        if e1 > 0 && length < 53 {
            lemma_pow2_grows(length as nat, 52);
        }
    }
    let base: u32 = 61 - length;
    let a: u32 = if apart > 40 || apart <= base {
        base
    } else {
        apart
    };
    let factor: u128 = power_of_two(a);
    let ghost f = pow2(a as nat);
    proof {
        lemma_pow2_adds(length as nat, a as nat);
        lemma_pow2_adds((length - 1) as nat, a as nat);
        assert(pow2(61) == 0x2000_0000_0000_0000 && pow2(60) == 0x1000_0000_0000_0000);
        lemma_pow2_grows(60, (length - 1 + a) as nat);
        lemma_pow2_grows((length + a) as nat, 93);
        assert(pow2(93) == 0x2000_0000_0000_0000_0000_0000) by {
            lemma_pow2_adds(61, 32);
        }
        assert(pow2((length - 1) as nat) * f <= m1 * f < pow2(length as nat) * f)
            by (nonlinear_arith)
            requires
                pow2((length - 1) as nat) <= m1 < pow2(length as nat),
                f == pow2(a as nat),
                f > 0,
        ;
    }
    let large: u128 = m1 as u128 * factor;
    let root: u128;
    let exact: bool;
    if apart > 40 {
        root = large;
        exact = m2 == 0;
        proof {
            lemma_far_apart(n, m1 as nat, e1 as nat, m2 as nat, e2 as nat, large as nat);
        }
    } else {
        let rest: u128 = power_of_two(a - apart);
        let ghost k = pow2((a - apart) as nat);
        proof {
            lemma_pow2_adds((a - apart) as nat, apart as nat);
            lemma_pow2_adds(e2 as nat, apart as nat);
            if a == apart {
                assert(m2 * k == m2) by (nonlinear_arith)
                    requires
                        k == 1,
                ;
            } else {
                assert(f == k * pow2(apart as nat));
                lemma_second_is_smaller(m1 as nat, m2 as nat, k, apart as nat, f);
            }
        }
        let small: u128 = m2 as u128 * rest;
        proof {
            assert(small <= large);
            assert(small * small <= large * large) by (nonlinear_arith)
                requires
                    small <= large,
                    small >= 0,
            ;
            if a == base {
                lemma_pow2_grows((length + a) as nat, 61);
                assert(small * small < 0x400_0000_0000_0000_0000_0000_0000_0000)
                    by (nonlinear_arith)
                    requires
                        small < 0x2000_0000_0000_0000,
                        small >= 0,
                ;
            } else {
                assert(small * small < 0x400_0000_0000_0000_0000_0000_0000) by (nonlinear_arith)
                    requires
                        small < 0x20_0000_0000_0000,
                        small >= 0,
                ;
            }
        }
        let square: u128 = small * small;
        let step: u128 = beyond(large, square);
        proof {
            assert(step * (2 * large + step) <= square);
        }
        root = large + step;
        exact = step * (2 * large + step) == square;
        proof {
            lemma_close_by(
                n,
                m1 as nat,
                e1 as nat,
                m2 as nat,
                e2 as nat,
                a as nat,
                large as nat,
                small as nat,
                step as nat,
            );
        }
    }
    proof {
        lemma_root_between(n, root as nat, e1 as nat, a as nat, exact);
    }
    let ghost deep = floor_root(n * pow2(120));
    let ghost rest: nat = if deep * deep == n * pow2(120) {
        0
    } else {
        1
    };
    round_scaled(
        root,
        !exact,
        e1 as i32 - a as i32,
        Ghost(2 * deep + rest),
        Ghost(pow2(61)),
        Ghost(e1 as nat),
        Ghost(a as nat),
    )
}

proof fn lemma_second_is_smaller(m1: nat, m2: nat, k: nat, apart: nat, f: nat)
    requires
        f == k * pow2(apart),
        apart == 0 ==> m1 >= m2,
        apart > 0 ==> m1 >= EXPONENT_UNIT,
        m2 < 2 * EXPONENT_UNIT,
    ensures
        m2 * k <= m1 * f,
{
    let p = pow2(apart);
    lemma2_to64();
    lemma_pow2_pos(apart);
    if apart > 0 {
        lemma_pow2_grows(1, apart);
        assert(m1 * p >= m2) by (nonlinear_arith)
            requires
                m1 >= EXPONENT_UNIT,
                p >= 2,
                m2 < 2 * EXPONENT_UNIT,
        ;
    } else {
        assert(m1 * p >= m2) by (nonlinear_arith)
            requires
                m1 >= m2,
                p >= 1,
        ;
    }
    assert(m2 * k <= m1 * f) by (nonlinear_arith)
        requires
            m1 * p >= m2,
            f == k * p,
    ;
}

/// The second part is too small to reach the next step of the first.
proof fn lemma_far_apart(n: nat, m1: nat, e1: nat, m2: nat, e2: nat, large: nat)
    requires
        e1 > e2 + 40,
        EXPONENT_UNIT <= m1,
        m2 < 2 * EXPONENT_UNIT,
        large == m1 * pow2(8),
        n == (m1 * pow2(e1)) * (m1 * pow2(e1)) + (m2 * pow2(e2)) * (m2 * pow2(e2)),
    ensures
        (large * pow2(e1)) * (large * pow2(e1)) <= n * (pow2(8) * pow2(8)),
        n * (pow2(8) * pow2(8)) < ((large + 1) * pow2(e1)) * ((large + 1) * pow2(e1)),
        m2 == 0 <==> n * (pow2(8) * pow2(8)) == (large * pow2(e1)) * (large * pow2(e1)),
{
    lemma2_to64();
    lemma2_to64_rest();
    lemma_pow2_pos(e1);
    lemma_pow2_pos(e2);
    let u = pow2(e1);
    let v = pow2(e2);
    lemma_pow2_adds(e2, 41);
    lemma_pow2_grows(e2 + 41, e1);
    let second = m2 * v * 256;
    assert(n * (256 * 256) == (large * u) * (large * u) + second * second) by (nonlinear_arith)
        requires
            n == (m1 * u) * (m1 * u) + (m2 * v) * (m2 * v),
            large == m1 * 256,
            second == m2 * v * 256,
    ;
    // second < 2^53 * v * 2^8 <= 2^20 * u
    assert(second < 0x10_0000 * u) by (nonlinear_arith)
        requires
            second == m2 * v * 256,
            m2 < 0x20_0000_0000_0000,
            u >= v * 0x200_0000_0000,
            v > 0,
    ;
    let gap = ((large + 1) * u) * ((large + 1) * u) - (large * u) * (large * u);
    assert(gap == (2 * large + 1) * (u * u)) by (nonlinear_arith)
        requires
            gap == ((large + 1) * u) * ((large + 1) * u) - (large * u) * (large * u),
    ;
    assert(second * second < 0x100_0000_0000 * (u * u)) by (nonlinear_arith)
        requires
            0 <= second < 0x10_0000 * u,
            u > 0,
    ;
    assert((2 * large + 1) * (u * u) >= 0x100_0000_0000 * (u * u)) by (nonlinear_arith)
        requires
            large >= 0x100_0000_0000,
            u > 0,
    ;
    assert(m2 == 0 <==> second * second == 0) by (nonlinear_arith)
        requires
            second == m2 * v * 256,
            v > 0,
            m2 >= 0,
    ;
    assert(second * second >= 0) by (nonlinear_arith);
}

/// The root found in whole steps.
proof fn lemma_close_by(
    n: nat,
    m1: nat,
    e1: nat,
    m2: nat,
    e2: nat,
    a: nat,
    large: nat,
    small: nat,
    step: nat,
)
    requires
        e2 <= e1,
        e1 - e2 <= a,
        large == m1 * pow2(a),
        small == m2 * pow2((a - (e1 - e2)) as nat),
        n == (m1 * pow2(e1)) * (m1 * pow2(e1)) + (m2 * pow2(e2)) * (m2 * pow2(e2)),
        step * (2 * large + step) <= small * small,
        small * small < (step + 1) * (2 * large + (step + 1)),
    ensures
        ({
            let root = large + step;
            &&& (root * pow2(e1)) * (root * pow2(e1)) <= n * (pow2(a) * pow2(a))
            &&& n * (pow2(a) * pow2(a)) < ((root + 1) * pow2(e1)) * ((root + 1) * pow2(e1))
            &&& step * (2 * large + step) == small * small <==> n * (pow2(a) * pow2(a)) == (root
                * pow2(e1)) * (root * pow2(e1))
        }),
{
    let apart = (e1 - e2) as nat;
    let u = pow2(e1);
    let v = pow2(e2);
    let p = pow2(a);
    let k = pow2((a - apart) as nat);
    let w = pow2(apart);
    lemma_pow2_pos(e1);
    lemma_pow2_adds(e2, apart);
    lemma_pow2_adds((a - apart) as nat, apart);
    // both parts in steps of 2^(e1 - a)
    assert((m1 * u) * p == large * u) by (nonlinear_arith)
        requires
            large == m1 * p,
    ;
    assert((m2 * v) * p == small * u) by (nonlinear_arith)
        requires
            small == m2 * k,
            p == k * w,
            u == v * w,
    ;
    let x = m1 * u;
    let y = m2 * v;
    let total = large * large + small * small;
    assert(n * (p * p) == (large * u) * (large * u) + (small * u) * (small * u)) by (nonlinear_arith)
        requires
            n == x * x + y * y,
            x * p == large * u,
            y * p == small * u,
    ;
    assert((large * u) * (large * u) + (small * u) * (small * u) == total * (u * u))
        by (nonlinear_arith)
        requires
            total == large * large + small * small,
    ;
    let root = large + step;
    assert(root * root == large * large + step * (2 * large + step)) by (nonlinear_arith)
        requires
            root == large + step,
    ;
    assert((root + 1) * (root + 1) == large * large + (step + 1) * (2 * large + (step + 1)))
        by (nonlinear_arith)
        requires
            root == large + step,
    ;
    let uu = u * u;
    assert(uu > 0) by (nonlinear_arith)
        requires
            uu == u * u,
            u > 0,
    ;
    assert((root * u) * (root * u) == (root * root) * uu) by (nonlinear_arith)
        requires
            uu == u * u,
    ;
    assert(((root + 1) * u) * ((root + 1) * u) == ((root + 1) * (root + 1)) * uu)
        by (nonlinear_arith)
        requires
            uu == u * u,
    ;
    let rr = root * root;
    let ss = (root + 1) * (root + 1);
    assert(rr * uu <= total * uu) by (nonlinear_arith)
        requires
            rr <= total,
            uu > 0,
    ;
    assert(total * uu < ss * uu) by (nonlinear_arith)
        requires
            total < ss,
            uu > 0,
    ;
    assert(rr == total <==> rr * uu == total * uu) by (nonlinear_arith)
        requires
            uu > 0,
    ;
}

impl Double {
    /// The length of the vector `(self, other)`.
    pub fn hypot(self, other: Double) -> (d: Double)
        ensures
            d == hypotenuse(self, other),
    {
        reveal(hypotenuse);
        if self.unsigned() == INFINITY_BITS || other.unsigned() == INFINITY_BITS {
            return Double { bits: INFINITY_BITS };
        }
        if self.is_not_a_number() || other.is_not_a_number() {
            return Double { bits: NAN_BITS };
        }
        let (m1, e1) = self.parts();
        let (m2, e2) = other.parts();
        let ghost n = magnitude(self) * magnitude(self) + magnitude(other) * magnitude(other);
        if m1 == 0 && m2 == 0 {
            proof {
                assert(n == 0) by (nonlinear_arith)
                    requires
                        n == (m1 * pow2(e1 as nat)) * (m1 * pow2(e1 as nat)) + (m2 * pow2(
                            e2 as nat,
                        )) * (m2 * pow2(e2 as nat)),
                        m1 == 0,
                        m2 == 0,
                ;
                assert(n * pow2(120) == 0) by (nonlinear_arith)
                    requires
                        n == 0,
                ;
                lemma_pow2_pos(61);
                lemma_nearest_zero(pow2(61));
                assert(0nat * 0nat == 0nat) by (nonlinear_arith);
            }
            return Double { bits: 0 };
        }
        let first: bool = e1 > e2 || (e1 == e2 && m1 >= m2);
        let bits: u64 = if first {
            root_of_parts(m1, e1, m2, e2, Ghost(n))
        } else {
            root_of_parts(m2, e2, m1, e1, Ghost(n))
        };
        Double { bits }
    }
}

} // verus!
