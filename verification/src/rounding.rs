//! Rounding to double precision keeps the order of numbers.

use crate::binary64;
use crate::binary64::{Binary, LEAST, LIMIT};
use vstd::prelude::*;

verus! {

proof fn lemma_up_adds(s: int, t: int)
    requires
        0 <= s,
        0 <= t,
    ensures
        binary64::up(s + t) == binary64::up(s) * binary64::up(t),
{
    vstd::arithmetic::power2::lemma2_to64();
    vstd::arithmetic::power2::lemma_pow2_adds(s as nat, t as nat);
}

/// A quotient can be scaled to a whole part of 53 bits.
pub proof fn lemma_scale_exists(n: nat, d: nat) -> (s: int)
    requires
        n > 0,
        d > 0,
    ensures
        binary64::is_scale(n, d, s),
{
    assert(binary64::up(0) == 1);
    assert(d * binary64::up(0) == d) by (nonlinear_arith)
        requires
            binary64::up(0) == 1,
    ;
    assert(n * binary64::up(0) == n) by (nonlinear_arith)
        requires
            binary64::up(0) == 1,
    ;
    if n < d * LEAST {
        lemma_scale_up(n, d, 0)
    } else {
        lemma_scale_down(n, d, 0)
    }
}

proof fn lemma_scale_up(n: nat, d: nat, s: int) -> (r: int)
    requires
        n > 0,
        d > 0,
        s >= 0,
        n * binary64::up(s) < d * LIMIT,
    ensures
        binary64::is_scale(n, d, r),
    decreases d * LIMIT - n * binary64::up(s),
{
    binary64::lemma_up(s);
    let (u, x) = (binary64::up(s) as int, n as int);
    assert(d * binary64::up(-s) == d) by (nonlinear_arith)
        requires
            binary64::up(-s) == 1,
    ;
    if n * binary64::up(s) >= d * LEAST {
        s
    } else {
        assert(d * LIMIT == 2 * (d * LEAST)) by (nonlinear_arith);
        assert(x * (2 * u) == 2 * (x * u)) by (nonlinear_arith);
        assert(x * u >= 1) by (nonlinear_arith)
            requires
                x >= 1,
                u >= 1,
        ;
        lemma_scale_up(n, d, s + 1)
    }
}

proof fn lemma_scale_down(n: nat, d: nat, s: int) -> (r: int)
    requires
        n > 0,
        d > 0,
        s >= 0,
        n >= d * binary64::up(s) * LEAST,
    ensures
        binary64::is_scale(n, d, r),
    decreases n - d * binary64::up(s) * LEAST,
{
    binary64::lemma_up(s);
    let (u, y) = (binary64::up(s) as int, d as int);
    assert(n * binary64::up(-s) == n) by (nonlinear_arith)
        requires
            binary64::up(-s) == 1,
    ;
    if n < d * binary64::up(s) * LIMIT {
        -s
    } else {
        assert(y * (2 * u) * LEAST == y * u * LIMIT) by (nonlinear_arith);
        assert(y * u * LIMIT == 2 * (y * u * LEAST)) by (nonlinear_arith);
        assert(y * u * LEAST >= 1) by (nonlinear_arith)
            requires
                y >= 1,
                u >= 1,
        ;
        lemma_scale_down(n, d, s + 1)
    }
}

impl Binary {
    /// The number is at least the whole number `n`.
    pub open spec fn at_least(self, n: nat) -> bool {
        self.significand * binary64::up(self.exponent) >= n * binary64::up(-self.exponent)
    }
}

proof fn lemma_nearest_at_most(a: nat, b: nat, t: nat)
    requires
        b > 0,
        a <= b * t,
    ensures
        binary64::nearest(a, b) <= t,
{
    let (q, r) = (a / b, a % b);
    assert(a == b * q + r && 0 <= r < b) by (nonlinear_arith)
        requires
            q == a / b,
            r == a % b,
            b > 0,
    ;
    assert(q < t || (q == t && r == 0)) by (nonlinear_arith)
        requires
            a == b * q + r,
            a <= b * t,
            b > 0,
            r >= 0,
    ;
}

proof fn lemma_nearest_at_least(a: nat, b: nat, t: nat)
    requires
        b > 0,
        a >= b * t,
    ensures
        binary64::nearest(a, b) >= t,
{
    let q = a / b;
    assert(q >= t) by (nonlinear_arith)
        requires
            q == a / b,
            a >= b * t,
            b > 0,
    ;
}

impl Binary {
    /// The number is not above the other one.
    pub open spec fn not_above(self, other: Binary) -> bool {
        self.significand * binary64::up(self.exponent - other.exponent) <= other.significand * binary64::up(
            other.exponent - self.exponent,
        )
    }
}

/// Powers of two whose exponents sum up to zero balance each other.
pub proof fn lemma_balance(x: int, y: int)
    ensures
        binary64::up(x) * binary64::up(y) * binary64::up(-x - y) == binary64::up(-x) * binary64::up(-y) * binary64::up(x + y),
{
    let (a, b, c) = (binary64::up(x) as int, binary64::up(y) as int, binary64::up(-x - y) as int);
    let (d, e, f) = (binary64::up(-x) as int, binary64::up(-y) as int, binary64::up(x + y) as int);
    if x >= 0 && y >= 0 {
        lemma_up_adds(x, y);
        assert(a * b * c == d * e * f) by (nonlinear_arith)
            requires
                f == a * b,
                c == 1,
                d == 1,
                e == 1,
        ;
    } else if x < 0 && y < 0 {
        lemma_up_adds(-x, -y);
        assert(a * b * c == d * e * f) by (nonlinear_arith)
            requires
                c == d * e,
                a == 1,
                b == 1,
                f == 1,
        ;
    } else if x >= 0 && x + y >= 0 {
        lemma_up_adds(-y, x + y);
        assert(a * b * c == d * e * f) by (nonlinear_arith)
            requires
                a == e * f,
                b == 1,
                c == 1,
                d == 1,
        ;
    } else if x >= 0 {
        lemma_up_adds(x, -x - y);
        assert(a * b * c == d * e * f) by (nonlinear_arith)
            requires
                e == a * c,
                b == 1,
                d == 1,
                f == 1,
        ;
    } else if x + y >= 0 {
        lemma_up_adds(-x, x + y);
        assert(a * b * c == d * e * f) by (nonlinear_arith)
            requires
                b == d * f,
                a == 1,
                c == 1,
                e == 1,
        ;
    } else {
        lemma_up_adds(y, -x - y);
        assert(a * b * c == d * e * f) by (nonlinear_arith)
            requires
                d == b * c,
                a == 1,
                e == 1,
                f == 1,
        ;
    }
}

proof fn lemma_balance_four(x: int, y: int, z: int)
    ensures
        binary64::up(x) * binary64::up(y) * binary64::up(z) * binary64::up(-x - y - z) == binary64::up(-x) * binary64::up(-y) * binary64::up(-z) * binary64::up(x + y + z),
{
    lemma_balance(x, y);
    lemma_balance(x + y, z);
    let (a, b, c, d) = (binary64::up(x) as int, binary64::up(y) as int, binary64::up(z) as int, binary64::up(-x - y - z) as int);
    let (e, f, g, h) = (binary64::up(-x) as int, binary64::up(-y) as int, binary64::up(-z) as int, binary64::up(x + y + z) as int);
    let (p, q) = (binary64::up(x + y) as int, binary64::up(-x - y) as int);
    binary64::lemma_up(x + y);
    binary64::lemma_up(-x - y);
    assert(p * q >= 1) by (nonlinear_arith)
        requires
            p >= 1,
            q >= 1,
    ;
    assert(-(x + y) - z == -x - y - z);
    assert(-(x + y) == -x - y);
    let (ab, cd, ef, gh) = (a * b, c * d, e * f, g * h);
    assert(p * cd == p * c * d && q * gh == q * g * h) by (nonlinear_arith)
        requires
            cd == c * d,
            gh == g * h,
    ;
    assert((ab * cd) * (p * q) == (ab * q) * (p * cd)) by (nonlinear_arith);
    assert((ef * gh) * (p * q) == (ef * p) * (q * gh)) by (nonlinear_arith);
    assert(ab * cd == ef * gh) by (nonlinear_arith)
        requires
            (ab * cd) * (p * q) == (ef * gh) * (p * q),
            p * q >= 1,
    ;
    assert(a * b * c * d == ab * cd) by (nonlinear_arith)
        requires
            ab == a * b,
            cd == c * d,
    ;
    assert(e * f * g * h == ef * gh) by (nonlinear_arith)
        requires
            ef == e * f,
            gh == g * h,
    ;
}

proof fn lemma_nearest_monotone(a1: nat, b1: nat, a2: nat, b2: nat)
    requires
        b1 > 0,
        b2 > 0,
        a1 * b2 <= a2 * b1,
    ensures
        binary64::nearest(a1, b1) <= binary64::nearest(a2, b2),
{
    let (q1, r1) = ((a1 / b1) as int, (a1 % b1) as int);
    let (q2, r2) = ((a2 / b2) as int, (a2 % b2) as int);
    let (a1, b1, a2, b2) = (a1 as int, b1 as int, a2 as int, b2 as int);
    vstd::arithmetic::div_mod::lemma_fundamental_div_mod(a1, b1);
    vstd::arithmetic::div_mod::lemma_fundamental_div_mod(a2, b2);
    vstd::arithmetic::div_mod::lemma_mod_pos_bound(a1, b1);
    vstd::arithmetic::div_mod::lemma_mod_pos_bound(a2, b2);
    assert(q1 <= q2) by (nonlinear_arith)
        requires
            a1 == b1 * q1 + r1,
            a2 == b2 * q2 + r2,
            0 <= r1 < b1,
            0 <= r2 < b2,
            a1 * b2 <= a2 * b1,
    {
        if q1 > q2 {
            assert(a1 * b2 >= b1 * b2 * q1);
            assert(a2 * b1 < b1 * b2 * (q2 + 1));
            assert(b1 * b2 * q1 >= b1 * b2 * (q2 + 1));
        }
    }
    if q1 == q2 {
        assert(r1 * b2 <= r2 * b1) by (nonlinear_arith)
            requires
                a1 == b1 * q1 + r1,
                a2 == b2 * q2 + r2,
                a1 * b2 <= a2 * b1,
                q1 == q2,
        ;
        if 2 * r1 >= b1 {
            assert(2 * r2 >= b2) by (nonlinear_arith)
                requires
                    2 * r1 >= b1,
                    r1 * b2 <= r2 * b1,
                    b1 > 0,
                    b2 > 0,
            {
                if 2 * r2 < b2 {
                    assert(2 * r1 * b2 >= b1 * b2);
                    assert(2 * r2 * b1 < b2 * b1);
                }
            }
        }
        if 2 * r1 > b1 {
            assert(2 * r2 > b2) by (nonlinear_arith)
                requires
                    2 * r1 > b1,
                    r1 * b2 <= r2 * b1,
                    b1 > 0,
                    b2 > 0,
            {
                if 2 * r2 <= b2 {
                    assert(2 * r1 * b2 > b1 * b2);
                    assert(2 * r2 * b1 <= b2 * b1);
                }
            }
        }
    }
}

/// Rounding keeps the order: what is not above stays so.
pub proof fn lemma_rounded_monotone(n1: nat, d1: nat, e1: int, n2: nat, d2: nat, e2: int)
    requires
        d1 > 0,
        d2 > 0,
        n1 * d2 * binary64::up(e1 - e2) <= n2 * d1 * binary64::up(e2 - e1),
    ensures
        binary64::rounded(n1, d1, e1).not_above(binary64::rounded(n2, d2, e2)),
{
    binary64::lemma_up(e1 - e2);
    if n1 == 0 {
        let (x, y) = (binary64::rounded(n1, d1, e1), binary64::rounded(n2, d2, e2));
        assert(x.not_above(y)) by (nonlinear_arith)
            requires
                x.significand == 0,
        ;
    } else {
        assert(n2 > 0) by {
            if n2 == 0 {
                assert(n1 * d2 * binary64::up(e1 - e2) > 0) by (nonlinear_arith)
                    requires
                        n1 > 0,
                        d2 > 0,
                        binary64::up(e1 - e2) >= 1,
                ;
                assert(n2 * d1 * binary64::up(e2 - e1) == 0) by (nonlinear_arith)
                    requires
                        n2 == 0,
                ;
            }
        }
        let s1 = lemma_scale_exists(n1, d1);
        let s2 = lemma_scale_exists(n2, d2);
        binary64::lemma_rounded(n1, d1, e1, s1);
        binary64::lemma_rounded(n2, d2, e2, s2);
        lemma_scaled_order(n1, d1, e1, s1, n2, d2, e2, s2);
        let (a1, b1) = (n1 * binary64::up(s1), d1 * binary64::up(-s1));
        let (a2, b2) = (n2 * binary64::up(s2), d2 * binary64::up(-s2));
        binary64::lemma_up(-s1);
        binary64::lemma_up(-s2);
        assert(b1 > 0) by (nonlinear_arith)
            requires
                b1 == d1 * binary64::up(-s1),
                d1 > 0,
                binary64::up(-s1) >= 1,
        ;
        assert(b2 > 0) by (nonlinear_arith)
            requires
                b2 == d2 * binary64::up(-s2),
                d2 > 0,
                binary64::up(-s2) >= 1,
        ;
        lemma_significand_order(a1, b1, e1 - s1, a2, b2, e2 - s2);
    }
}

/// The scaled quotients are in the order of the numbers that are rounded.
proof fn lemma_scaled_order(
    n1: nat,
    d1: nat,
    e1: int,
    s1: int,
    n2: nat,
    d2: nat,
    e2: int,
    s2: int,
)
    requires
        n1 * d2 * binary64::up(e1 - e2) <= n2 * d1 * binary64::up(e2 - e1),
    ensures
        ({
            let (k1, k2) = (e1 - s1, e2 - s2);
            (n1 * binary64::up(s1)) * (d2 * binary64::up(-s2)) * binary64::up(k1 - k2) <= (n2 * binary64::up(s2)) * (d1 * binary64::up(-s1)) * binary64::up(
                k2 - k1,
            )
        }),
{
    let (k1, k2) = (e1 - s1, e2 - s2);
    lemma_balance_four(s1, -s2, k1 - k2);
    assert(-s1 - (-s2) - (k1 - k2) == e2 - e1);
    assert(s1 + (-s2) + (k1 - k2) == e1 - e2);
    assert(-(-s2) == s2);
    assert(-(k1 - k2) == k2 - k1);
    let (l, r) = (n1 * d2, n2 * d1);
    let (u, v) = (binary64::up(e1 - e2) as int, binary64::up(e2 - e1) as int);
    binary64::lemma_up(e2 - e1);
    let (p, q, t) = (binary64::up(s1) as int, binary64::up(-s2) as int, binary64::up(k1 - k2) as int);
    let (x, y, z) = (binary64::up(-s1) as int, binary64::up(s2) as int, binary64::up(k2 - k1) as int);
    let (ca, cb) = (p * q * t, x * y * z);
    assert(ca * v == cb * u);
    assert(cb >= 0) by (nonlinear_arith)
        requires
            cb == x * y * z,
            x >= 0,
            y >= 0,
            z >= 0,
    ;
    assert(l * ca <= r * cb) by (nonlinear_arith)
        requires
            ca * v == cb * u,
            l * u <= r * v,
            v >= 1,
            cb >= 0,
    {
        assert((l * ca) * v == (l * u) * cb);
        assert((l * u) * cb <= (r * v) * cb);
        assert((r * v) * cb == (r * cb) * v);
    }
    assert((n1 * p) * (d2 * q) * t == l * ca) by (nonlinear_arith)
        requires
            l == n1 * d2,
            ca == p * q * t,
    ;
    assert((n2 * y) * (d1 * x) * z == r * cb) by (nonlinear_arith)
        requires
            r == n2 * d1,
            cb == x * y * z,
    ;
}

/// The number `m * 2^k`, with the significand halved where it has one bit too many.
spec fn normalized(m: nat, k: int) -> Binary {
    if m == LIMIT {
        Binary { significand: LEAST as nat, exponent: k + 1 }
    } else {
        Binary { significand: m, exponent: k }
    }
}

proof fn lemma_significand_order(a1: nat, b1: nat, k1: int, a2: nat, b2: nat, k2: int)
    requires
        b1 > 0,
        b2 > 0,
        b1 * LEAST <= a1 < b1 * LIMIT,
        b2 * LEAST <= a2 < b2 * LIMIT,
        a1 * b2 * binary64::up(k1 - k2) <= a2 * b1 * binary64::up(k2 - k1),
    ensures
        normalized(binary64::nearest(a1, b1), k1).not_above(normalized(binary64::nearest(a2, b2), k2)),
{
    let (m1, m2) = (binary64::nearest(a1, b1), binary64::nearest(a2, b2));
    binary64::lemma_nearest_bounds(a1, b1, LEAST as nat, LIMIT as nat);
    binary64::lemma_nearest_bounds(a2, b2, LEAST as nat, LIMIT as nat);
    let (x, y) = (normalized(m1, k1), normalized(m2, k2));
    assert(binary64::up(0) == 1);
    binary64::lemma_up(0);
    if k1 > k2 {
        binary64::lemma_up_grows(0, k1 - k2);
        let u = binary64::up(k1 - k2);
        assert(a1 * b2 * u >= a1 * b2 * 2) by (nonlinear_arith)
            requires
                u >= 2,
                a1 * b2 >= 0,
        ;
        assert(a1 * b2 * 2 >= b1 * b2 * LIMIT) by (nonlinear_arith)
            requires
                b1 * LEAST <= a1,
                b2 > 0,
        ;
        assert(a2 * b1 * 1 < b1 * b2 * LIMIT) by (nonlinear_arith)
            requires
                a2 < b2 * LIMIT,
                b1 > 0,
        ;
    } else if k1 == k2 {
        assert(a1 * b2 <= a2 * b1) by (nonlinear_arith)
            requires
                a1 * b2 * binary64::up(k1 - k2) <= a2 * b1 * binary64::up(k2 - k1),
                binary64::up(k1 - k2) == 1,
                binary64::up(k2 - k1) == 1,
        ;
        lemma_nearest_monotone(a1, b1, a2, b2);
        lemma_compare(x, y);
    } else {
        lemma_compare(x, y);
    }
}

/// Of two numbers, the one with the greater exponent is greater.
proof fn lemma_compare(x: Binary, y: Binary)
    requires
        LEAST <= x.significand < LIMIT,
        LEAST <= y.significand < LIMIT,
        x.exponent < y.exponent || x.exponent == y.exponent && x.significand <= y.significand,
    ensures
        x.not_above(y),
{
    let u = binary64::up(y.exponent - x.exponent);
    let (p, q) = (x.significand, y.significand);
    assert(p * binary64::up(x.exponent - y.exponent) == p) by (nonlinear_arith)
        requires
            binary64::up(x.exponent - y.exponent) == 1,
    ;
    if x.exponent < y.exponent {
        binary64::lemma_up_grows(0, y.exponent - x.exponent);
        assert(q * u >= q * 2) by (nonlinear_arith)
            requires
                u >= 2,
        ;
    } else {
        assert(q * u == q) by (nonlinear_arith)
            requires
                u == 1,
        ;
    }
}

/// Products with the same number keep the order.
pub proof fn lemma_times_monotone(x: Binary, y: Binary, z: Binary)
    requires
        x.not_above(y),
    ensures
        x.times(z).not_above(y.times(z)),
{
    let (a, b, m) = (x.significand, y.significand, z.significand);
    let (u, v) = (binary64::up(x.exponent - y.exponent), binary64::up(y.exponent - x.exponent));
    assert((a * m) * 1 * u <= (b * m) * 1 * v) by (nonlinear_arith)
        requires
            a * u <= b * v,
    ;
    assert((x.exponent + z.exponent) - (y.exponent + z.exponent) == x.exponent - y.exponent);
    assert((y.exponent + z.exponent) - (x.exponent + z.exponent) == y.exponent - x.exponent);
    lemma_rounded_monotone(a * m, 1, x.exponent + z.exponent, b * m, 1, y.exponent + z.exponent);
}

/// Quotients by the same number keep the order.
pub proof fn lemma_over_monotone(x: Binary, y: Binary, d: nat)
    requires
        x.not_above(y),
        d > 0,
    ensures
        x.over(d).not_above(y.over(d)),
{
    let (a, b) = (x.significand, y.significand);
    let (u, v) = (binary64::up(x.exponent - y.exponent), binary64::up(y.exponent - x.exponent));
    assert(a * d * u <= b * d * v) by (nonlinear_arith)
        requires
            a * u <= b * v,
    ;
    lemma_rounded_monotone(a, d, x.exponent, b, d, y.exponent);
}

/// What is not above a number is at most what that number is at most, and the other way round.
pub proof fn lemma_bounds_carry_over(x: Binary, y: Binary, n: nat)
    requires
        x.not_above(y),
    ensures
        y.at_most(n) ==> x.at_most(n),
        x.at_least(n) ==> y.at_least(n),
{
    let (e, f) = (x.exponent, y.exponent);
    lemma_balance(e - f, f);
    assert(-(e - f) == f - e && -(e - f) - f == -e && (e - f) + f == e);
    let (a, b) = (x.significand as int, y.significand as int);
    let (u, v) = (binary64::up(e - f) as int, binary64::up(f - e) as int);
    let (p, q) = (binary64::up(f) as int, binary64::up(-f) as int);
    let (g, h) = (binary64::up(e) as int, binary64::up(-e) as int);
    binary64::lemma_up(e);
    binary64::lemma_up(-e);
    binary64::lemma_up(f);
    binary64::lemma_up(-f);
    binary64::lemma_up(e - f);
    binary64::lemma_up(f - e);
    let n = n as int;
    assert(u * p * h == v * q * g);
    if y.at_most(n as nat) {
        assert(a * g <= n * h) by (nonlinear_arith)
            requires
                a * u <= b * v,
                b * p <= n * q,
                u * p * h == v * q * g,
                v >= 1,
                q >= 1,
                p >= 1,
                h >= 1,
        {
            assert((a * g) * (v * q) == (a * u) * (p * h));
            assert((a * u) * (p * h) <= (b * v) * (p * h));
            assert((b * v) * (p * h) == (b * p) * (v * h));
            assert((b * p) * (v * h) <= (n * q) * (v * h));
            assert((n * q) * (v * h) == (n * h) * (v * q));
            assert(v * q >= 1);
        }
    }
    if x.at_least(n as nat) {
        assert(b * p >= n * q) by (nonlinear_arith)
            requires
                a * u <= b * v,
                a * g >= n * h,
                u * p * h == v * q * g,
                u >= 1,
                v >= 1,
                p >= 1,
                q >= 1,
                g >= 1,
                h >= 1,
        {
            assert((b * p) * (v * h) == (b * v) * (p * h));
            assert((b * v) * (p * h) >= (a * u) * (p * h));
            assert((a * u) * (p * h) == (a * g) * (v * q));
            assert((a * g) * (v * q) >= (n * h) * (v * q));
            assert((n * h) * (v * q) == (n * q) * (v * h));
            assert(v * h >= 1);
        }
    }
}

/// What is rounded has a significand of 53 bits.
pub proof fn lemma_rounded_normal(n: nat, d: nat, e: int)
    requires
        d > 0,
    ensures
        binary64::rounded(n, d, e).normal(),
        n > 0 ==> binary64::rounded(n, d, e).significand > 0,
{
    if n > 0 {
        let s = lemma_scale_exists(n, d);
        binary64::lemma_rounded(n, d, e, s);
        binary64::lemma_up(-s);
        assert(d * binary64::up(-s) > 0) by (nonlinear_arith)
            requires
                d > 0,
                binary64::up(-s) >= 1,
        ;
        binary64::lemma_nearest_bounds(n * binary64::up(s), d * binary64::up(-s), LEAST as nat, LIMIT as nat);
    }
}

/// A whole number of 53 bits is at most, and at least, itself.
pub proof fn lemma_whole_bounds(n: nat)
    requires
        n < LIMIT,
    ensures
        Binary::ratio(n, 1).at_most(n),
        Binary::ratio(n, 1).at_least(n),
{
    let x = Binary::ratio(n, 1);
    if n > 0 {
        let k = binary64::lemma_whole(n);
        assert(x.at_most(n) && x.at_least(n)) by (nonlinear_arith)
            requires
                x == (Binary { significand: n * binary64::up(k), exponent: -k }),
                k >= 0,
        ;
    }
}

/// What is at most, or at least, a whole number of 53 bits is still so when it is rounded.
pub proof fn lemma_rounded_bounds(n: nat, d: nat, e: int, whole: nat)
    requires
        d > 0,
        whole < LIMIT,
    ensures
        n * binary64::up(e) <= whole * d * binary64::up(-e) ==> binary64::rounded(n, d, e).at_most(whole),
        n * binary64::up(e) >= whole * d * binary64::up(-e) ==> binary64::rounded(n, d, e).at_least(whole),
{
    let (x, w) = (binary64::rounded(n, d, e), Binary::ratio(whole, 1));
    lemma_whole_bounds(whole);
    assert(n * 1 * binary64::up(e - 0) == n * binary64::up(e));
    assert(e - 0 == e && 0 - e == -e);
    if n * binary64::up(e) <= whole * d * binary64::up(-e) {
        lemma_rounded_monotone(n, d, e, whole, 1, 0);
        lemma_bounds_carry_over(x, w, whole);
    }
    if n * binary64::up(e) >= whole * d * binary64::up(-e) {
        lemma_rounded_monotone(whole, 1, 0, n, d, e);
        lemma_bounds_carry_over(w, x, whole);
    }
}

/// What is at most, or at least, a whole number is not above, or not below, it.
pub proof fn lemma_bounds_are_order(x: Binary, n: nat)
    requires
        0 < n < LIMIT,
    ensures
        x.at_most(n) ==> x.not_above(Binary::ratio(n, 1)),
        x.at_least(n) ==> Binary::ratio(n, 1).not_above(x),
{
    let k = binary64::lemma_whole(n);
    let e = x.exponent;
    lemma_balance(e, k);
    let (m, w) = (x.significand as int, n as int);
    let (g, h) = (binary64::up(e) as int, binary64::up(-e) as int);
    let (u, v) = (binary64::up(e + k) as int, binary64::up(-e - k) as int);
    let (p, q) = (binary64::up(k) as int, binary64::up(-k) as int);
    binary64::lemma_up(-e);
    binary64::lemma_up(k);
    assert(g * p * v == h * u) by (nonlinear_arith)
        requires
            g * p * v == h * q * u,
            q == 1,
    ;
    assert((m * u) * h == (m * g) * (p * v)) by (nonlinear_arith)
        requires
            g * p * v == h * u,
    ;
    assert((w * h) * (p * v) == ((w * p) * v) * h) by (nonlinear_arith);
    assert(p * v >= 0) by (nonlinear_arith)
        requires
            p >= 0,
            v >= 0,
    ;
    assert(e - (-k) == e + k && -k - e == -e - k);
    if x.at_most(n) {
        assert(m * u <= (w * p) * v) by (nonlinear_arith)
            requires
                m * g <= w * h,
                (m * u) * h == (m * g) * (p * v),
                (w * h) * (p * v) == ((w * p) * v) * h,
                p * v >= 0,
                h >= 1,
        ;
    }
    if x.at_least(n) {
        assert(m * u >= (w * p) * v) by (nonlinear_arith)
            requires
                m * g >= w * h,
                (m * u) * h == (m * g) * (p * v),
                (w * h) * (p * v) == ((w * p) * v) * h,
                p * v >= 0,
                h >= 1,
        ;
    }
}

/// The product with a whole number `w` is at most, or at least, `w` where the number is at most,
/// or at least, 1.
pub proof fn lemma_times_whole(x: Binary, w: nat)
    requires
        0 < w < LIMIT,
    ensures
        x.at_most(1) ==> x.times(Binary::ratio(w, 1)).at_most(w),
        x.at_least(1) ==> x.times(Binary::ratio(w, 1)).at_least(w),
{
    let (one, whole) = (Binary::ratio(1, 1), Binary::ratio(w, 1));
    let j = binary64::lemma_whole(1);
    let k = binary64::lemma_whole(w);
    lemma_up_adds(j, k);
    let n = one.significand * whole.significand;
    assert(n * binary64::up(-j - k) == w * 1 * binary64::up(j + k)) by (nonlinear_arith)
        requires
            n == (1 * binary64::up(j)) * (w * binary64::up(k)),
            binary64::up(-j - k) == 1,
            binary64::up(j + k) == binary64::up(j) * binary64::up(k),
    ;
    assert(-(-j - k) == j + k);
    lemma_rounded_bounds(n, 1, -j - k, w);
    lemma_bounds_are_order(x, 1);
    if x.at_most(1) {
        lemma_times_monotone(x, one, whole);
        lemma_bounds_carry_over(x.times(whole), one.times(whole), w);
    }
    if x.at_least(1) {
        lemma_times_monotone(one, x, whole);
        lemma_bounds_carry_over(one.times(whole), x.times(whole), w);
    }
}

/// To multiply by 1 changes nothing.
proof fn lemma_times_one(x: Binary)
    requires
        x.normal(),
    ensures
        Binary::ratio(1, 1).times(x) == x,
{
    let j = binary64::lemma_whole(1);
    let (p, m) = (binary64::up(j), x.significand);
    let n = Binary::ratio(1, 1).significand * m;
    assert(n == p * m) by (nonlinear_arith)
        requires
            n == (1 * p) * m,
    ;
    if m == 0 {
        assert(n == 0) by (nonlinear_arith)
            requires
                n == p * m,
                m == 0,
        ;
    } else {
        binary64::lemma_up(j);
        assert(0 < n && 1 * p * LEAST <= n * 1 < 1 * p * LIMIT) by (nonlinear_arith)
            requires
                n == p * m,
                p >= 1,
                0 < LEAST <= m < LIMIT,
        ;
        assert(binary64::up(-j) == 1);
        assert(binary64::is_scale(n, 1, -j));
        binary64::lemma_rounded(n, 1, x.exponent - j, -j);
        assert(n / p == m && n % p == 0) by (nonlinear_arith)
            requires
                n == p * m,
                p >= 1,
        ;
        assert(n * 1 == n && 1 * p == p);
        assert(binary64::nearest(n, p) == m);
    }
}

/// A factor of at most, or at least, 1 makes no number greater, or smaller.
pub proof fn lemma_times_part(x: Binary, z: Binary)
    requires
        z.normal(),
    ensures
        x.at_most(1) ==> x.times(z).not_above(z),
        x.at_least(1) ==> z.not_above(x.times(z)),
{
    let one = Binary::ratio(1, 1);
    lemma_times_one(z);
    lemma_bounds_are_order(x, 1);
    if x.at_most(1) {
        lemma_times_monotone(x, one, z);
    }
    if x.at_least(1) {
        lemma_times_monotone(one, x, z);
    }
}

/// The quotient by `d` is at most, or at least, 1 where the number is at most, or at least, `d`.
pub proof fn lemma_over_whole(x: Binary, d: nat)
    requires
        d > 0,
    ensures
        x.at_most(d) ==> x.over(d).at_most(1),
        x.at_least(d) ==> x.over(d).at_least(1),
{
    assert(1 * d == d);
    lemma_rounded_bounds(x.significand, d, x.exponent, 1);
}

/// The whole number next to a number lies between the same whole numbers.
pub proof fn lemma_whole_part(x: Binary, bound: nat)
    ensures
        x.at_most(bound) ==> x.floor() <= bound && x.nearest_whole() <= bound,
        x.at_least(bound) ==> x.floor() >= bound && x.nearest_whole() >= bound,
{
    let (a, b) = (x.significand * binary64::up(x.exponent), binary64::up(-x.exponent));
    binary64::lemma_up(-x.exponent);
    assert(bound * b == b * bound) by (nonlinear_arith);
    if x.at_most(bound) {
        lemma_nearest_at_most(a, b, bound);
        assert(a / b <= bound) by (nonlinear_arith)
            requires
                a <= b * bound,
                b > 0,
        ;
    }
    if x.at_least(bound) {
        lemma_nearest_at_least(a, b, bound);
        assert(a / b >= bound) by (nonlinear_arith)
            requires
                a >= b * bound,
                b > 0,
        ;
    }
}

/// The whole part, and the nearest whole number, keep the order.
pub proof fn lemma_whole_part_monotone(x: Binary, y: Binary)
    requires
        x.not_above(y),
    ensures
        x.floor() <= y.floor(),
        x.nearest_whole() <= y.nearest_whole(),
{
    let (e, f) = (x.exponent, y.exponent);
    let (a1, b1) = (x.significand * binary64::up(e), binary64::up(-e));
    let (a2, b2) = (y.significand * binary64::up(f), binary64::up(-f));
    binary64::lemma_up(-e);
    binary64::lemma_up(-f);
    assert(x.at_least(x.floor())) by {
        vstd::arithmetic::div_mod::lemma_fundamental_div_mod(a1 as int, b1 as int);
        vstd::arithmetic::div_mod::lemma_mod_pos_bound(a1 as int, b1 as int);
        assert(b1 * (a1 / b1) == (a1 / b1) * b1) by (nonlinear_arith);
    }
    lemma_bounds_carry_over(x, y, x.floor());
    lemma_whole_part(y, x.floor());
    lemma_balance(e - f, f);
    assert(-(e - f) == f - e && -(e - f) - f == -e && (e - f) + f == e);
    let (a, b) = (x.significand as int, y.significand as int);
    let (u, v) = (binary64::up(e - f) as int, binary64::up(f - e) as int);
    let (p, q) = (binary64::up(f) as int, binary64::up(-f) as int);
    let (g, h) = (binary64::up(e) as int, binary64::up(-e) as int);
    binary64::lemma_up(f - e);
    assert((a * g) * q <= (b * p) * h) by (nonlinear_arith)
        requires
            a * u <= b * v,
            u * p * h == v * q * g,
            v >= 1,
            p * h >= 0,
    {
        assert(((a * g) * q) * v == (a * u) * (p * h));
        assert((a * u) * (p * h) <= (b * v) * (p * h));
        assert((b * v) * (p * h) == ((b * p) * h) * v);
    }
    lemma_nearest_monotone(a1, b1, a2, b2);
}

/// The greatest quotient below 1 of numbers of 32 bits is at most this number.
pub open spec fn almost_one() -> Binary {
    Binary { significand: 0x1f_ffff_ffe0_0000, exponent: -53 }
}

/// A quotient below 1 of numbers of 32 bits is not above the greatest such number.
pub proof fn lemma_ratio_below_one(n: nat, d: nat)
    requires
        n < d <= 0xffff_ffff,
    ensures
        Binary::ratio(n, d).not_above(almost_one()),
{
    vstd::arithmetic::power2::lemma2_to64();
    let top: nat = 0xffff_ffff;
    assert(binary64::up(32) == 0x1_0000_0000);
    assert(binary64::up(21) == 0x20_0000);
    assert(binary64::up(-21) == 1 && binary64::up(-32) == 1);
    assert(binary64::is_scale(top, 1, 21));
    binary64::lemma_rounded(top, 1, -32, 21);
    assert(binary64::rounded(top, 1, -32) == almost_one());
    assert(n * 1 * binary64::up(32) <= top * d * binary64::up(-32)) by (nonlinear_arith)
        requires
            n < d <= 0xffff_ffff,
            top == 0xffff_ffff,
            binary64::up(32) == 0x1_0000_0000,
            binary64::up(-32) == 1,
    ;
    lemma_rounded_monotone(n, d, 0, top, 1, -32);
}

/// What is almost 1, in percent: below 100, and almost 1 again when it is divided by 100.
pub proof fn lemma_almost_hundred()
    ensures
        ({
            let y = almost_one().times(Binary::ratio(100, 1));
            &&& y.at_most(100)
            &&& y.over(100) == almost_one()
        }),
{
    vstd::arithmetic::power2::lemma2_to64();
    vstd::arithmetic::power2::lemma2_to64_rest();
    assert(binary64::up(46) == 0x4000_0000_0000);
    assert(binary64::up(53) == 0x20_0000_0000_0000);
    assert(binary64::up(7) == 128);
    assert(binary64::up(-46) == 1 && binary64::up(-53) == 1 && binary64::up(-7) == 1);
    assert(binary64::is_scale(100, 1, 46));
    binary64::lemma_rounded(100, 1, 0, 46);
    let hundred = Binary::ratio(100, 1);
    assert(hundred == (Binary { significand: 100 * 0x4000_0000_0000, exponent: -46 }));
    let n = almost_one().significand * hundred.significand;
    assert(n == 0x1f_ffff_ffe0_0000 * (100 * 0x4000_0000_0000)) by (nonlinear_arith)
        requires
            n == almost_one().significand * hundred.significand,
            almost_one().significand == 0x1f_ffff_ffe0_0000,
            hundred.significand == 100 * 0x4000_0000_0000,
    ;
    let m = (100 * 0xffff_ffff * 0x4000) as nat;
    assert(n == m * 0x20_0000_0000_0000);
    assert(binary64::is_scale(n, 1, -53));
    binary64::lemma_rounded(n, 1, -99, -53);
    assert(n * 1 == n && 1 * 0x20_0000_0000_0000 == 0x20_0000_0000_0000);
    let y = almost_one().times(hundred);
    assert(y == (Binary { significand: m, exponent: -46 }));
    assert(binary64::is_scale(m, 100, 7));
    binary64::lemma_rounded(m, 100, -46, 7);
}

/// The last number before a whole number, in double precision, is below it, also where the whole
/// number itself is rounded.
proof fn lemma_before_whole(w: nat)
    requires
        w > 0,
    ensures
        ({
            let x = Binary::ratio(w, 1);
            &&& LEAST <= x.significand < LIMIT
            &&& (x.significand - 1) * binary64::up(x.exponent) < w * binary64::up(-x.exponent)
        }),
{
    let s = lemma_scale_exists(w, 1);
    binary64::lemma_rounded(w, 1, 0, s);
    lemma_rounded_normal(w, 1, 0);
    let (a, b) = ((w * binary64::up(s)) as int, binary64::up(-s) as int);
    let m = binary64::nearest(a as nat, b as nat) as int;
    binary64::lemma_up(s);
    binary64::lemma_up(-s);
    binary64::lemma_up(s - 1);
    vstd::arithmetic::div_mod::lemma_fundamental_div_mod(a, b);
    vstd::arithmetic::div_mod::lemma_mod_pos_bound(a, b);
    let q = a / b;
    assert(1 * binary64::up(-s) == b);
    assert((m - 1) * b < a) by (nonlinear_arith)
        requires
            b >= 1,
            a == b * q + a % b,
            a % b >= 0,
            m == q || m == q + 1 && a % b > 0,
    ;
    if m == LIMIT {
        assert((LEAST - 1) * binary64::up(1 - s) < w * binary64::up(s - 1)) by {
            let (c, d) = (binary64::up(1 - s) as int, binary64::up(s - 1) as int);
            let v = w as int;
            if s <= 0 {
                assert((LEAST - 1) * c < v * d) by (nonlinear_arith)
                    requires
                        (LIMIT - 1) * b < a,
                        a == v * 1,
                        c == 2 * b,
                        d == 1,
                        b >= 1,
                        LIMIT == 2 * LEAST,
                ;
            } else {
                assert((LEAST - 1) * c < v * d) by (nonlinear_arith)
                    requires
                        (LIMIT - 1) * b < a,
                        a == v * (2 * d),
                        c == 1,
                        b == 1,
                        LIMIT == 2 * LEAST,
                ;
            }
        }
    }
}

/// A part that is not above almost 1 of a whole number is below it.
pub proof fn lemma_part_is_below(f: Binary, w: nat)
    requires
        w > 0,
        f.not_above(almost_one()),
    ensures
        f.times(Binary::ratio(w, 1)).floor() < w,
{
    let x = Binary::ratio(w, 1);
    lemma_before_whole(w);
    let (m, k) = (x.significand, x.exponent);
    let before = Binary { significand: (m - 1) as nat, exponent: k };
    lemma_times_monotone(f, almost_one(), x);
    lemma_whole_part_monotone(f.times(x), almost_one().times(x));

    vstd::arithmetic::power2::lemma2_to64_rest();
    vstd::arithmetic::power2::lemma2_to64();
    assert(binary64::up(53) == 0x20_0000_0000_0000);
    assert(binary64::up(-53) == 1);
    let n = almost_one().significand * m;
    assert(n * 1 * binary64::up(-53) <= (m - 1) as nat * 1 * binary64::up(53)) by (nonlinear_arith)
        requires
            n == 0x1f_ffff_ffe0_0000 * m,
            m >= 0x1_0000_0000,
            binary64::up(53) == 0x20_0000_0000_0000,
            binary64::up(-53) == 1,
    ;
    assert((-53 + k) - k == -53 && k - (-53 + k) == 53);
    lemma_rounded_monotone(n, 1, -53 + k, (m - 1) as nat, 1, k);
    let r = binary64::rounded((m - 1) as nat, 1, k);
    lemma_whole_part_monotone(almost_one().times(x), r);

    let s = binary64::lemma_whole((m - 1) as nat);
    assert(r == (Binary { significand: ((m - 1) as nat) * binary64::up(s), exponent: k - s }));
    assert(r.exponent - before.exponent == -s && before.exponent - r.exponent == s);
    assert(binary64::up(-s) == 1);
    assert(r.significand * binary64::up(-s) == r.significand) by (nonlinear_arith)
        requires
            binary64::up(-s) == 1,
    ;
    assert(r.significand * binary64::up(r.exponent - before.exponent) <= before.significand
        * binary64::up(before.exponent - r.exponent));
    assert(r.not_above(before));
    lemma_whole_part_monotone(r, before);
    let (a, b) = (((m - 1) * binary64::up(k)) as int, binary64::up(-k) as int);
    binary64::lemma_up(-k);
    assert(a / b < w) by (nonlinear_arith)
        requires
            a < w * b,
            b >= 1,
    ;
}

} // verus!
