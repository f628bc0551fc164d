//! The rounding of an exact quotient to the nearest double.

use vstd::arithmetic::div_mod::lemma_fundamental_div_mod_converse;
use vstd::arithmetic::power2::{
    lemma2_to64, lemma2_to64_rest, lemma_pow2_adds, lemma_pow2_pos, lemma_pow2_strictly_increases,
    lemma_pow2_unfold, pow2,
};
use vstd::prelude::*;

verus! {

/// The bit pattern of positive infinity.
pub const INFINITY_BITS: u64 = 0x7ff0_0000_0000_0000;

/// The weight of the lowest bit of the exponent field.
pub const EXPONENT_UNIT: u64 = 0x10_0000_0000_0000;

/// By how many bits `n / d` exceeds the fifty-three that a double can hold:
/// the least `k` with `n / d < 2^(53 + k)`.
pub open spec fn excess_bits(n: nat, d: nat) -> nat
    decreases n - d,
{
    if d == 0 || n < d * 0x20_0000_0000_0000 {
        0
    } else {
        1 + excess_bits(n, 2 * d)
    }
}

/// The integer nearest to `n / d`; of two equally near, the even one.
pub open spec fn nearest_integer(n: nat, d: nat) -> nat {
    let q = n / d;
    let r = n % d;
    if 2 * r > d || (2 * r == d && q % 2 == 1) {
        q + 1
    } else {
        q
    }
}

/// The magnitude bits of the double nearest to `n / d`, where both count in
/// units of the least positive double: the exponent field says how many bits
/// are cut off, and the remaining fifty-three are rounded to nearest, ties to
/// even. What is too large rounds to infinity.
pub open spec fn nearest_magnitude(n: nat, d: nat) -> nat {
    let k = excess_bits(n, d);
    let bits = k * (EXPONENT_UNIT as nat) + nearest_integer(n, d * pow2(k));
    if bits < INFINITY_BITS {
        bits
    } else {
        INFINITY_BITS as nat
    }
}

/// Powers of two grow with the exponent.
pub proof fn lemma_pow2_grows(a: nat, b: nat)
    requires
        a <= b,
    ensures
        pow2(a) <= pow2(b),
{
    if a < b {
        lemma_pow2_strictly_increases(a, b);
    }
}

proof fn lemma_pow2_53()
    ensures
        pow2(52) == 0x10_0000_0000_0000,
        pow2(53) == 0x20_0000_0000_0000,
{
    lemma2_to64_rest();
}

/// `n / d` has `k` bits in excess where it takes fifty-three and `k`.
pub proof fn lemma_excess_bits(n: nat, d: nat, k: nat)
    requires
        d > 0,
        n < d * pow2(53 + k),
        k == 0 || n >= d * pow2((52 + k) as nat),
    ensures
        excess_bits(n, d) == k,
    decreases k,
{
    lemma_pow2_53();
    if k > 0 {
        lemma_pow2_grows(53, (52 + k) as nat);
        assert(d * pow2((52 + k) as nat) >= d * 0x20_0000_0000_0000) by (nonlinear_arith)
            requires
                pow2((52 + k) as nat) >= 0x20_0000_0000_0000,
        ;
        lemma_pow2_unfold((53 + k) as nat);
        lemma_pow2_unfold((52 + k) as nat);
        let half = pow2((52 + k) as nat);
        let quarter = pow2((51 + k) as nat);
        assert(d * (2 * half) == (2 * d) * half) by (nonlinear_arith);
        assert(d * (2 * quarter) == (2 * d) * quarter) by (nonlinear_arith);
        lemma_excess_bits(n, 2 * d, (k - 1) as nat);
    }
}

/// `n` lies below `d * 2^(53 + k)` where `n * 2^j < (m + 1) * d * 2^i`.
proof fn lemma_upper(n: nat, d: nat, m: nat, i: nat, j: nat, k: nat, bits: nat)
    requires
        n * pow2(j) < (m + 1) * (d * pow2(i)),
        m + 1 <= pow2(bits),
        53 + k + j >= bits + i,
    ensures
        n < d * pow2(53 + k),
{
    if n >= d * pow2(53 + k) {
        let w = pow2(53 + k);
        let u = d * pow2(i);
        lemma_pow2_adds(53 + k, j);
        lemma_pow2_adds(bits, i);
        lemma_pow2_grows(bits + i, 53 + k + j);
        assert(n * pow2(j) >= (d * w) * pow2(j)) by (nonlinear_arith)
            requires
                n >= d * w,
        ;
        assert((d * w) * pow2(j) == d * (w * pow2(j))) by (nonlinear_arith);
        assert(d * pow2(53 + k + j) >= d * pow2(bits + i)) by (nonlinear_arith)
            requires
                pow2(53 + k + j) >= pow2(bits + i),
        ;
        assert(d * (pow2(bits) * pow2(i)) == pow2(bits) * (d * pow2(i))) by (nonlinear_arith);
        assert(pow2(bits) * u >= (m + 1) * u) by (nonlinear_arith)
            requires
                pow2(bits) >= m + 1,
        ;
    }
}

/// `n` reaches `d * 2^(52 + k)` where `n * 2^j >= m * d * 2^i`.
proof fn lemma_lower(n: nat, d: nat, m: nat, i: nat, j: nat, k: nat, bits: nat)
    requires
        n * pow2(j) >= m * (d * pow2(i)),
        bits > 0,
        m >= pow2((bits - 1) as nat),
        52 + k + j == bits - 1 + i,
    ensures
        n >= d * pow2(52 + k),
{
    let w = pow2(52 + k);
    let b = pow2((bits - 1) as nat);
    let u = d * pow2(i);
    lemma_pow2_adds(52 + k, j);
    lemma_pow2_adds((bits - 1) as nat, i);
    lemma_pow2_pos(j);
    assert(m * u >= b * u) by (nonlinear_arith)
        requires
            m >= b,
    ;
    assert(b * (d * pow2(i)) == d * (b * pow2(i))) by (nonlinear_arith);
    assert(d * (w * pow2(j)) == (d * w) * pow2(j)) by (nonlinear_arith);
    assert(n >= d * w) by (nonlinear_arith)
        requires
            n * pow2(j) >= (d * w) * pow2(j),
            pow2(j) > 0,
    ;
}

/// What rounding `m / 2^s` decides decides the rounding of `n / d`, where `n`
/// lies `t` beyond `m` units of `u`, and `s` units make up `d`.
proof fn lemma_quotient(n: int, d: int, j: int, u: int, m: int, s: int, q: int, r: int, t: int)
    requires
        j > 0,
        u > 0,
        d > 0,
        n * j == m * u + t,
        0 <= t < u,
        d * j == s * u,
        m == q * s + r,
        0 <= r < s,
        n >= 0,
        q >= 0,
    ensures
        n / d == q,
        (n % d) * j == r * u + t,
{
    let rem = n - q * d;
    assert(rem * j == r * u + t) by (nonlinear_arith)
        requires
            rem == n - q * d,
            n * j == m * u + t,
            d * j == s * u,
            m == q * s + r,
    ;
    assert(r * u + t < s * u) by (nonlinear_arith)
        requires
            0 <= t < u,
            r < s,
            r + 1 <= s,
    ;
    assert(rem >= 0) by (nonlinear_arith)
        requires
            rem * j == r * u + t,
            r >= 0,
            u > 0,
            t >= 0,
            j > 0,
    ;
    assert(rem < d) by (nonlinear_arith)
        requires
            rem * j < d * j,
            j > 0,
    ;
    assert(n == q * d + rem);
    lemma_fundamental_div_mod_converse(n, d, q, rem);
}

/// The rounding of `n / d` by that of `m / s`, `s` being even.
proof fn lemma_rounds(
    n: nat,
    d: nat,
    j: nat,
    u: nat,
    m: nat,
    s: nat,
    half: nat,
    q: nat,
    r: nat,
    sticky: bool,
)
    requires
        j > 0,
        u > 0,
        d > 0,
        m * u <= n * j < (m + 1) * u,
        sticky <==> n * j != m * u,
        d * j == s * u,
        m == q * s + r,
        r < s,
        s == 2 * half,
    ensures
        nearest_integer(n, d) == if r > half || (r == half && (sticky || q % 2 == 1)) {
            q + 1
        } else {
            q
        },
{
    let t = n * j - m * u;
    assert((m + 1) * u == m * u + u) by (nonlinear_arith);
    lemma_quotient(
        n as int,
        d as int,
        j as int,
        u as int,
        m as int,
        s as int,
        q as int,
        r as int,
        t,
    );
    let rem = n % d;
    assert(rem * j == r * u + t);
    assert((2 * half) * u == 2 * (half * u)) by (nonlinear_arith);
    if r > half {
        assert(r * u >= half * u + u) by (nonlinear_arith)
            requires
                r >= half + 1,
        ;
        assert(2 * rem > d) by (nonlinear_arith)
            requires
                2 * (rem * j) > d * j,
                j > 0,
        ;
    } else if r == half {
        if sticky {
            assert(2 * rem > d) by (nonlinear_arith)
                requires
                    2 * (rem * j) > d * j,
                    j > 0,
            ;
        } else {
            assert(2 * rem == d) by (nonlinear_arith)
                requires
                    2 * (rem * j) == d * j,
                    j > 0,
            ;
        }
    } else {
        assert(r * u + u <= half * u) by (nonlinear_arith)
            requires
                r + 1 <= half,
        ;
        assert(2 * rem < d) by (nonlinear_arith)
            requires
                2 * (rem * j) < d * j,
                j > 0,
        ;
    }
}

/// `2^s`.
pub(crate) fn power_of_two(s: u32) -> (p: u128)
    requires
        s < 127,
    ensures
        p == pow2(s as nat),
        p > 0,
{
    let mut p: u128 = 1;
    proof {
        lemma2_to64();
    }
    for i in 0..s
        invariant
            s < 127,
            p == pow2(i as nat),
            0 < p,
    {
        proof {
            lemma_pow2_unfold((i + 1) as nat);
            lemma_pow2_grows(i as nat, 126);
            assert(pow2(126) == 0x4000_0000_0000_0000_0000_0000_0000_0000) by {
                lemma_pow2_adds(63, 63);
                lemma2_to64_rest();
            }
        }
        p = 2 * p;
    }
    p
}

/// How many bits `m` takes.
pub(crate) fn bit_length(m: u128) -> (bits: u32)
    requires
        0 < m < 0x100_0000_0000_0000_0000_0000_0000_0000,
    ensures
        0 < bits <= 120,
        pow2((bits - 1) as nat) <= m < pow2(bits as nat),
{
    let mut bits: u32 = 1;
    let mut p: u128 = 2;
    proof {
        lemma2_to64();
    }
    while p <= m
        invariant
            0 < m < 0x100_0000_0000_0000_0000_0000_0000_0000,
            0 < bits <= 120,
            p == pow2(bits as nat),
            pow2((bits - 1) as nat) <= m,
        decreases 120 - bits,
    {
        proof {
            assert(pow2(120) == 0x100_0000_0000_0000_0000_0000_0000_0000) by {
                lemma_pow2_adds(60, 60);
                lemma2_to64_rest();
            }
            lemma_pow2_unfold((bits + 1) as nat);
        }
        bits = bits + 1;
        p = 2 * p;
    }
    bits
}

/// A rounded value has at most one bit more than the fifty-three.
proof fn lemma_fits(n: nat, d: nat, k: nat, rounded: nat)
    requires
        d > 0,
        n < d * pow2(53 + k),
        rounded == nearest_integer(n, d * pow2(k)),
    ensures
        rounded <= 0x20_0000_0000_0000,
{
    let whole = d * pow2(k);
    lemma_pow2_53();
    lemma_pow2_adds(53, k);
    lemma_pow2_pos(k);
    assert(whole > 0) by (nonlinear_arith)
        requires
            whole == d * pow2(k),
            d > 0,
            pow2(k) > 0,
    ;
    assert(d * (pow2(53) * pow2(k)) == 0x20_0000_0000_0000 * whole) by (nonlinear_arith)
        requires
            pow2(53) == 0x20_0000_0000_0000,
            whole == d * pow2(k),
    ;
    assert(n / whole < 0x20_0000_0000_0000) by (nonlinear_arith)
        requires
            n < 0x20_0000_0000_0000 * whole,
            whole > 0,
    ;
}

/// A value with bits in excess rounds to no less than fifty-three bits.
proof fn lemma_fills(n: nat, d: nat, k: nat, rounded: nat)
    requires
        d > 0,
        n >= d * pow2(52 + k),
        rounded == nearest_integer(n, d * pow2(k)),
    ensures
        rounded >= EXPONENT_UNIT,
{
    let whole = d * pow2(k);
    lemma_pow2_53();
    lemma_pow2_adds(52, k);
    lemma_pow2_pos(k);
    assert(whole > 0) by (nonlinear_arith)
        requires
            whole == d * pow2(k),
            d > 0,
            pow2(k) > 0,
    ;
    assert(d * (pow2(52) * pow2(k)) == 0x10_0000_0000_0000 * whole) by (nonlinear_arith)
        requires
            pow2(52) == 0x10_0000_0000_0000,
            whole == d * pow2(k),
    ;
    assert(n / whole >= 0x10_0000_0000_0000) by (nonlinear_arith)
        requires
            n >= 0x10_0000_0000_0000 * whole,
            whole > 0,
    ;
}

/// The magnitude bits of the double nearest to `(m + x) * 2^e`, where `x` is
/// zero or, if `sticky`, some proper fraction.
pub(crate) fn round_scaled(
    m: u128,
    sticky: bool,
    e: i32,
    Ghost(n): Ghost<nat>,
    Ghost(d): Ghost<nat>,
    Ghost(i): Ghost<nat>,
    Ghost(j): Ghost<nat>,
) -> (bits: u64)
    requires
        0 < m < 0x100_0000_0000_0000_0000_0000_0000_0000,
        -5000 <= e <= 5000,
        e == i - j,
        d > 0,
        m * (d * pow2(i)) <= n * pow2(j) < (m + 1) * (d * pow2(i)),
        sticky <==> n * pow2(j) != m * (d * pow2(i)),
        sticky ==> m >= 0x20_0000_0000_0000,
    ensures
        bits == nearest_magnitude(n, d),
{
    let length: u32 = bit_length(m);
    let over: i32 = length as i32 + e - 53;
    let k: i32 = if over > 0 {
        over
    } else {
        0
    };
    let s: i32 = k - e;
    let ghost scale = k as nat;
    let ghost whole = d * pow2(scale);
    let ghost u = d * pow2(i);
    let ghost jj = pow2(j);
    proof {
        lemma_pow2_53();
        lemma_pow2_pos(i);
        lemma_pow2_pos(j);
        lemma_pow2_pos(scale);
        assert(u > 0) by (nonlinear_arith)
            requires
                u == d * pow2(i),
                d > 0,
                pow2(i) > 0,
        ;
        assert(whole > 0) by (nonlinear_arith)
            requires
                whole == d * pow2(scale),
                d > 0,
                pow2(scale) > 0,
        ;
        lemma_upper(n, d, m as nat, i, j, scale, length as nat);
        if k > 0 {
            lemma_lower(n, d, m as nat, i, j, scale, length as nat);
        }
        lemma_excess_bits(n, d, scale);
        // sticky values have bits to spare below the rounding point
        if sticky && s <= 0 {
            lemma_pow2_grows(length as nat, 53);
        }
    }
    let rounded: u128;
    if s <= 0 {
        // the value is a whole number of steps
        let shift: u32 = (-s) as u32;
        proof {
            assert(shift <= 53);
            lemma_pow2_adds(scale + j, shift as nat);
            lemma_pow2_adds(scale, j);
            lemma_pow2_adds(length as nat, shift as nat);
            if over > 0 {
                lemma_pow2_grows((length + shift) as nat, 53);
            } else {
                lemma_pow2_grows((length + shift) as nat, 53);
            }
            let p = pow2(shift as nat);
            lemma_pow2_pos(shift as nat);
            assert(m * p < pow2(length as nat) * p) by (nonlinear_arith)
                requires
                    m < pow2(length as nat),
                    p > 0,
            ;
            // whole * 2^j * 2^shift == u
            assert(whole * jj * p == u) by (nonlinear_arith)
                requires
                    whole == d * pow2(scale),
                    u == d * pow2(i),
                    pow2(scale + j) == pow2(scale) * jj,
                    pow2(i) == pow2(scale + j) * p,
            ;
            assert(n == (m * p) * whole) by (nonlinear_arith)
                requires
                    n * jj == m * u,
                    whole * jj * p == u,
                    jj > 0,
            ;
            lemma_fundamental_div_mod_converse(n as int, whole as int, m * p, 0);
        }
        rounded = m * power_of_two(shift);
    } else if s >= 127 {
        proof {
            lemma_pow2_adds(scale, j);
            lemma_pow2_adds(i, s as nat);
            lemma_pow2_grows(127, s as nat);
            assert(pow2(127) == 0x8000_0000_0000_0000_0000_0000_0000_0000) by {
                lemma_pow2_adds(63, 64);
                lemma2_to64();
                lemma2_to64_rest();
            }
            let p = pow2(s as nat);
            assert(whole * jj == p * u) by (nonlinear_arith)
                requires
                    whole == d * pow2(scale),
                    u == d * pow2(i),
                    pow2(scale + j) == pow2(scale) * jj,
                    pow2(scale + j) == pow2(i) * p,
            ;
            assert(2 * n < whole) by (nonlinear_arith)
                requires
                    n * jj < (m + 1) * u,
                    whole * jj == p * u,
                    2 * (m + 1) <= p,
                    jj > 0,
                    u > 0,
            ;
            lemma_fundamental_div_mod_converse(n as int, whole as int, 0, n as int);
        }
        rounded = 0;
    } else {
        let p: u128 = power_of_two(s as u32);
        let half: u128 = power_of_two((s - 1) as u32);
        let q: u128 = m / p;
        let r: u128 = m % p;
        proof {
            lemma_pow2_unfold(s as nat);
            lemma_pow2_adds(scale, j);
            lemma_pow2_adds(i, s as nat);
            assert(whole * jj == p * u) by (nonlinear_arith)
                requires
                    whole == d * pow2(scale),
                    u == d * pow2(i),
                    pow2(scale + j) == pow2(scale) * jj,
                    pow2(scale + j) == pow2(i) * p,
            ;
            assert(m == q * p + r) by (nonlinear_arith)
                requires
                    q == m / p,
                    r == m % p,
                    p > 0,
            ;
            lemma_rounds(
                n,
                whole,
                jj,
                u,
                m as nat,
                p as nat,
                half as nat,
                q as nat,
                r as nat,
                sticky,
            );
        }
        if r > half || (r == half && (sticky || q % 2 == 1)) {
            rounded = q + 1;
        } else {
            rounded = q;
        }
    }
    assert(rounded == nearest_integer(n, whole));
    if k >= 2046 {
        proof {
            lemma_fills(n, d, scale, rounded as nat);
            assert(scale * (EXPONENT_UNIT as nat) >= 2046 * (EXPONENT_UNIT as nat));
        }
        return INFINITY_BITS;
    }
    proof {
        lemma_fits(n, d, scale, rounded as nat);
    }
    let bits: u64 = k as u64 * EXPONENT_UNIT + rounded as u64;
    if bits < INFINITY_BITS {
        bits
    } else {
        INFINITY_BITS
    }
}

} // verus!
