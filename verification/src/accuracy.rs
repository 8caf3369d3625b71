//! How near a progress bar comes to the true share of the tests that have run.

use crate::binary64;
use crate::binary64::{Binary, LEAST, LIMIT};
use crate::progress;
use crate::rounding;
use vstd::prelude::*;

verus! {

/// The number is at most `p / q`.
spec fn below(x: Binary, p: nat, q: nat) -> bool {
    x.significand * binary64::up(x.exponent) * q <= p * binary64::up(-x.exponent)
}

/// The number is at least `p / q`.
spec fn above(x: Binary, p: nat, q: nat) -> bool {
    x.significand * binary64::up(x.exponent) * q >= p * binary64::up(-x.exponent)
}

/// Rounding to 53 bits changes a significand by at most one part of this number.
spec fn parts() -> nat {
    0x20_0000_0000_0000
}

/// What a bound grows by when a number below it is rounded.
spec fn more() -> nat {
    0x20_0000_0000_0001
}

/// What a bound shrinks by when a number above it is rounded.
spec fn less() -> nat {
    0x1f_ffff_ffff_ffff
}

proof fn lemma_nearest_is_near(a: nat, b: nat)
    requires
        b > 0,
    ensures
        2 * binary64::nearest(a, b) * b <= 2 * a + b,
        2 * binary64::nearest(a, b) * b + b >= 2 * a,
{
    let (q, r) = (a / b, a % b);
    let m = binary64::nearest(a, b);
    vstd::arithmetic::div_mod::lemma_fundamental_div_mod(a as int, b as int);
    vstd::arithmetic::div_mod::lemma_mod_pos_bound(a as int, b as int);
    assert(2 * m * b <= 2 * a + b && 2 * m * b + b >= 2 * a) by (nonlinear_arith)
        requires
            a == b * q + r,
            0 <= r < b,
            m == q && 2 * r <= b || m == q + 1 && 2 * r >= b,
    ;
}

/// The number before its significand is brought into range, which changes nothing of its value.
proof fn lemma_same_value(k: int, p: nat, q: nat)
    ensures
        below(Binary { significand: LIMIT as nat, exponent: k }, p, q) ==> below(
            Binary { significand: LEAST as nat, exponent: k + 1 },
            p,
            q,
        ),
        above(Binary { significand: LIMIT as nat, exponent: k }, p, q) ==> above(
            Binary { significand: LEAST as nat, exponent: k + 1 },
            p,
            q,
        ),
{
    let (u, v) = (binary64::up(k) as int, binary64::up(-k) as int);
    let (u1, v1) = (binary64::up(k + 1) as int, binary64::up(-k - 1) as int);
    let (pp, qq) = (p as int, q as int);
    binary64::lemma_up(k);
    binary64::lemma_up(-k - 1);
    assert(-(k + 1) == -k - 1);
    if k >= 0 {
        assert(LEAST * u1 * qq == LIMIT * u * qq) by (nonlinear_arith)
            requires
                u1 == 2 * u,
                LIMIT == 2 * LEAST,
        ;
        assert(v == 1 && v1 == 1);
    } else {
        assert(u == 1 && u1 == 1);
        assert(LIMIT * u * qq == 2 * (LEAST * u1 * qq)) by (nonlinear_arith)
            requires
                u == 1,
                u1 == 1,
                LIMIT == 2 * LEAST,
        ;
        assert(pp * v == 2 * (pp * v1)) by (nonlinear_arith)
            requires
                v == 2 * v1,
        ;
    }
}

/// A number that is rounded stays within its bounds, up to one part.
proof fn lemma_rounded_near(n: nat, d: nat, e: int, p: nat, q: nat)
    requires
        d > 0,
    ensures
        n * binary64::up(e) * q <= p * d * binary64::up(-e) ==> below(
            binary64::rounded(n, d, e),
            p * more(),
            q * parts(),
        ),
        n * binary64::up(e) * q >= p * d * binary64::up(-e) ==> above(
            binary64::rounded(n, d, e),
            p * less(),
            q * parts(),
        ),
{
    let x = binary64::rounded(n, d, e);
    if n == 0 {
        assert(x.significand * binary64::up(x.exponent) * (q * parts()) == 0) by (nonlinear_arith)
            requires
                x.significand == 0,
        ;
        binary64::lemma_up(-e);
        if n * binary64::up(e) * q >= p * d * binary64::up(-e) {
            assert(p == 0) by (nonlinear_arith)
                requires
                    n * binary64::up(e) * q >= p * d * binary64::up(-e),
                    n == 0,
                    d > 0,
                    p >= 0,
                    binary64::up(-e) >= 1,
            ;
            assert(p * less() * binary64::up(-x.exponent) == 0) by (nonlinear_arith)
                requires
                    p == 0,
            ;
        }
    } else {
        let s = rounding::lemma_scale_exists(n, d);
        binary64::lemma_rounded(n, d, e, s);
        let (a, b) = (n * binary64::up(s), d * binary64::up(-s));
        binary64::lemma_up(-s);
        assert(b > 0) by (nonlinear_arith)
            requires
                b == d * binary64::up(-s),
                d > 0,
                binary64::up(-s) >= 1,
        ;
        let m = binary64::nearest(a, b);
        lemma_nearest_is_near(a, b);
        let k = e - s;
        let y = Binary { significand: m, exponent: k };
        let (mm, bb, aa) = (m as int, b as int, a as int);
        assert(mm * bb * parts() <= aa * more()) by (nonlinear_arith)
            requires
                2 * mm * bb <= 2 * aa + bb,
                bb * LEAST <= aa,
                LEAST == 0x10_0000_0000_0000,
                parts() == 0x20_0000_0000_0000,
                more() == 0x20_0000_0000_0001,
        ;
        assert(mm * bb * parts() >= aa * less()) by (nonlinear_arith)
            requires
                2 * mm * bb + bb >= 2 * aa,
                bb * LEAST <= aa,
                LEAST == 0x10_0000_0000_0000,
                parts() == 0x20_0000_0000_0000,
                less() == 0x1f_ffff_ffff_ffff,
        ;
        lemma_scaled(n, d, e, s, m, p, q);
        lemma_same_value(k, p * more(), q * parts());
        lemma_same_value(k, p * less(), q * parts());
        if m == LIMIT {
            assert(y == (Binary { significand: LIMIT as nat, exponent: k }));
            assert(x == (Binary { significand: LEAST as nat, exponent: k + 1 }));
        } else {
            assert(x == y);
        }
    }
}

/// Bounds of the scaled quotient are bounds of the number.
proof fn lemma_scaled(n: nat, d: nat, e: int, s: int, m: nat, p: nat, q: nat)
    requires
        d > 0,
        m * (d * binary64::up(-s)) * parts() <= (n * binary64::up(s)) * more(),
        m * (d * binary64::up(-s)) * parts() >= (n * binary64::up(s)) * less(),
    ensures
        n * binary64::up(e) * q <= p * d * binary64::up(-e) ==> below(
            Binary { significand: m, exponent: e - s },
            p * more(),
            q * parts(),
        ),
        n * binary64::up(e) * q >= p * d * binary64::up(-e) ==> above(
            Binary { significand: m, exponent: e - s },
            p * less(),
            q * parts(),
        ),
{
    let k = e - s;
    rounding::lemma_balance(e, -s);
    assert(-e - (-s) == -k && e + (-s) == k && -(-s) == s);
    let (u, v) = (binary64::up(k) as int, binary64::up(-k) as int);
    let (ee, ff) = (binary64::up(e) as int, binary64::up(-e) as int);
    let (ss, tt) = (binary64::up(s) as int, binary64::up(-s) as int);
    assert(ee * tt * v == ff * ss * u);
    binary64::lemma_up(e);
    binary64::lemma_up(-s);
    binary64::lemma_up(s);
    binary64::lemma_up(k);
    let (nn, dd, mm, pp, qq) = (n as int, d as int, m as int, p as int, q as int);
    let (h, i, j) = (parts() as int, more() as int, less() as int);
    let w = dd * tt * ee;
    assert(w > 0) by (nonlinear_arith)
        requires
            w == dd * tt * ee,
            dd > 0,
            tt >= 1,
            ee >= 1,
    ;
    let left = mm * u * (qq * h);
    let c = u * qq * ee;
    assert(c >= 0) by (nonlinear_arith)
        requires
            c == u * qq * ee,
            u >= 0,
            qq >= 0,
            ee >= 0,
    ;
    assert(left * w == (mm * (dd * tt) * h) * c) by (nonlinear_arith)
        requires
            left == mm * u * (qq * h),
            w == dd * tt * ee,
            c == u * qq * ee,
    ;
    let z = ss * u;
    assert(z >= 0) by (nonlinear_arith)
        requires
            z == ss * u,
            ss >= 0,
            u >= 0,
    ;
    if nn * ee * qq <= pp * dd * ff {
        let right = (pp * i) * v;
        assert((mm * (dd * tt) * h) * c <= ((nn * ss) * i) * c) by (nonlinear_arith)
            requires
                mm * (dd * tt) * h <= (nn * ss) * i,
                c >= 0,
        ;
        assert(((nn * ss) * i) * c == (nn * ee * qq) * (z * i)) by (nonlinear_arith)
            requires
                c == u * qq * ee,
                z == ss * u,
        ;
        assert((nn * ee * qq) * (z * i) <= (pp * dd * ff) * (z * i)) by (nonlinear_arith)
            requires
                nn * ee * qq <= pp * dd * ff,
                z >= 0,
                i >= 0,
        ;
        assert((pp * dd * ff) * (z * i) == (pp * dd * i) * (ff * ss * u)) by (nonlinear_arith)
            requires
                z == ss * u,
        ;
        assert((pp * dd * i) * (ee * tt * v) == right * w) by (nonlinear_arith)
            requires
                right == (pp * i) * v,
                w == dd * tt * ee,
        ;
        assert(left <= right) by (nonlinear_arith)
            requires
                left * w <= right * w,
                w > 0,
        ;
    }
    if nn * ee * qq >= pp * dd * ff {
        let right = (pp * j) * v;
        assert((mm * (dd * tt) * h) * c >= ((nn * ss) * j) * c) by (nonlinear_arith)
            requires
                mm * (dd * tt) * h >= (nn * ss) * j,
                c >= 0,
        ;
        assert(((nn * ss) * j) * c == (nn * ee * qq) * (z * j)) by (nonlinear_arith)
            requires
                c == u * qq * ee,
                z == ss * u,
        ;
        assert((nn * ee * qq) * (z * j) >= (pp * dd * ff) * (z * j)) by (nonlinear_arith)
            requires
                nn * ee * qq >= pp * dd * ff,
                z >= 0,
                j >= 0,
        ;
        assert((pp * dd * ff) * (z * j) == (pp * dd * j) * (ff * ss * u)) by (nonlinear_arith)
            requires
                z == ss * u,
        ;
        assert((pp * dd * j) * (ee * tt * v) == right * w) by (nonlinear_arith)
            requires
                right == (pp * j) * v,
                w == dd * tt * ee,
        ;
        assert(left >= right) by (nonlinear_arith)
            requires
                left * w >= right * w,
                w > 0,
        ;
    }
}

/// Bounds of a product with a whole number.
proof fn lemma_times_near(x: Binary, w: nat, p: nat, q: nat)
    requires
        w < LIMIT,
    ensures
        below(x, p, q) ==> below(x.times(Binary::ratio(w, 1)), p * w * more(), q * parts()),
        above(x, p, q) ==> above(x.times(Binary::ratio(w, 1)), p * w * less(), q * parts()),
{
    let y = Binary::ratio(w, 1);
    rounding::lemma_whole_bounds(w);
    let e = x.exponent + y.exponent;
    rounding::lemma_balance(x.exponent, y.exponent);
    let n = x.significand * y.significand;
    let (a, b) = (binary64::up(x.exponent) as int, binary64::up(-x.exponent) as int);
    let (c, d) = (binary64::up(y.exponent) as int, binary64::up(-y.exponent) as int);
    let (u, v) = (binary64::up(e) as int, binary64::up(-e) as int);
    binary64::lemma_up(x.exponent);
    binary64::lemma_up(y.exponent);
    binary64::lemma_up(e);
    binary64::lemma_up(-e);
    assert(-x.exponent - y.exponent == -e);
    assert(a * c * v == b * d * u);
    let (xs, ys, pp, qq, ww) = (
        x.significand as int,
        y.significand as int,
        p as int,
        q as int,
        w as int,
    );
    assert(ys * c == ww * d);
    let r = a * c;
    assert(r > 0) by (nonlinear_arith)
        requires
            r == a * c,
            a >= 1,
            c >= 1,
    ;
    let z = (ww * d) * u;
    assert(z >= 0) by (nonlinear_arith)
        requires
            z == (ww * d) * u,
            ww >= 0,
            d >= 0,
            u >= 0,
    ;
    let left = (xs * ys) * u * qq;
    let right = (pp * ww) * v;
    assert(left * r == (xs * a * qq) * ((ys * c) * u)) by (nonlinear_arith)
        requires
            left == (xs * ys) * u * qq,
            r == a * c,
    ;
    assert(right * r == (pp * ww) * (a * c * v)) by (nonlinear_arith)
        requires
            right == (pp * ww) * v,
            r == a * c,
    ;
    assert((pp * ww) * (b * d * u) == (pp * b) * z) by (nonlinear_arith)
        requires
            z == (ww * d) * u,
    ;
    assert(n * binary64::up(e) * q == left);
    assert((p * w) * 1 * binary64::up(-e) == right);
    if below(x, p, q) {
        assert((xs * a * qq) * z <= (pp * b) * z) by (nonlinear_arith)
            requires
                xs * a * qq <= pp * b,
                z >= 0,
        ;
        assert(left <= right) by (nonlinear_arith)
            requires
                left * r <= right * r,
                r > 0,
        ;
    }
    if above(x, p, q) {
        assert((xs * a * qq) * z >= (pp * b) * z) by (nonlinear_arith)
            requires
                xs * a * qq >= pp * b,
                z >= 0,
        ;
        assert(left >= right) by (nonlinear_arith)
            requires
                left * r >= right * r,
                r > 0,
        ;
    }
    lemma_rounded_near(n, 1, e, p * w, q);
}

/// Bounds of a quotient by a whole number.
proof fn lemma_over_near(x: Binary, d: nat, p: nat, q: nat)
    requires
        d > 0,
    ensures
        below(x, p, q) ==> below(x.over(d), p * more(), q * d * parts()),
        above(x, p, q) ==> above(x.over(d), p * less(), q * d * parts()),
{
    let (m, e) = (x.significand, x.exponent);
    let (u, v) = (binary64::up(e) as int, binary64::up(-e) as int);
    let (mm, dd, pp, qq) = (m as int, d as int, p as int, q as int);
    assert(mm * u * (qq * dd) == (mm * u * qq) * dd) by (nonlinear_arith);
    assert(pp * dd * v == (pp * v) * dd) by (nonlinear_arith);
    if below(x, p, q) {
        assert((mm * u * qq) * dd <= (pp * v) * dd) by (nonlinear_arith)
            requires
                mm * u * qq <= pp * v,
                dd > 0,
        ;
    }
    if above(x, p, q) {
        assert((mm * u * qq) * dd >= (pp * v) * dd) by (nonlinear_arith)
            requires
                mm * u * qq >= pp * v,
                dd > 0,
        ;
    }
    lemma_rounded_near(m, d, e, p, q * d);
}

proof fn lemma_floor_near(x: Binary, p: nat, q: nat)
    requires
        q > 0,
    ensures
        below(x, p, q) ==> x.floor() * q <= p,
        above(x, p, q) ==> (x.floor() + 1) * q > p,
{
    let (a, b) = (
        (x.significand * binary64::up(x.exponent)) as int,
        binary64::up(-x.exponent) as int,
    );
    let n = a / b;
    binary64::lemma_up(-x.exponent);
    vstd::arithmetic::div_mod::lemma_fundamental_div_mod(a, b);
    vstd::arithmetic::div_mod::lemma_mod_pos_bound(a, b);
    let (pp, qq) = (p as int, q as int);
    if below(x, p, q) {
        assert(n * qq <= pp) by (nonlinear_arith)
            requires
                a * qq <= pp * b,
                a >= b * n,
                b >= 1,
                qq > 0,
        {
            assert((n * qq) * b <= a * qq);
        }
    }
    if above(x, p, q) {
        assert((n + 1) * qq > pp) by (nonlinear_arith)
            requires
                a * qq >= pp * b,
                a < b * n + b,
                b >= 1,
                qq > 0,
        {
            assert(((n + 1) * qq) * b > a * qq);
        }
    }
}

proof fn lemma_nearest_whole_near(x: Binary, p: nat, q: nat)
    requires
        q > 0,
    ensures
        below(x, p, q) ==> 2 * x.nearest_whole() * q <= 2 * p + q,
        above(x, p, q) ==> 2 * x.nearest_whole() * q + q >= 2 * p,
{
    let (a, b) = (x.significand * binary64::up(x.exponent), binary64::up(-x.exponent));
    binary64::lemma_up(-x.exponent);
    lemma_nearest_is_near(a, b);
    let (n, aa, bb, pp, qq) = (
        x.nearest_whole() as int,
        a as int,
        b as int,
        p as int,
        q as int,
    );
    if below(x, p, q) {
        assert(2 * n * qq <= 2 * pp + qq) by (nonlinear_arith)
            requires
                aa * qq <= pp * bb,
                2 * n * bb <= 2 * aa + bb,
                bb >= 1,
                qq > 0,
        {
            assert((2 * n * qq) * bb <= (2 * pp + qq) * bb);
        }
    }
    if above(x, p, q) {
        assert(2 * n * qq + qq >= 2 * pp) by (nonlinear_arith)
            requires
                aa * qq >= pp * bb,
                2 * n * bb + bb >= 2 * aa,
                bb >= 1,
                qq > 0,
        {
            assert((2 * n * qq + qq) * bb >= (2 * pp) * bb);
        }
    }
}

proof fn lemma_percentage_near(current: u32, total: u32)
    requires
        0 < total,
        current <= total,
    ensures
        below(
            progress::percentage(current, total),
            current as nat * more() * 100 * more(),
            total as nat * parts() * parts(),
        ),
        above(
            progress::percentage(current, total),
            current as nat * less() * 100 * less(),
            total as nat * parts() * parts(),
        ),
{
    let (c, t) = (current as nat, total as nat);
    let q = Binary::ratio(c, t);
    assert(binary64::up(0) == 1);
    assert(c * 1 * t == c * t * 1) by (nonlinear_arith);
    lemma_rounded_near(c, t, 0, c, t);
    lemma_times_near(q, 100, c * more(), t * parts());
    lemma_times_near(q, 100, c * less(), t * parts());
    let hundred = Binary::ratio(100, 1);
    let x = q.times(hundred);
    if !x.at_most(100) {
        rounding::lemma_whole_bounds(100);
        let (pu, pl, d) = (c * more() * 100 * more(), c * less() * 100 * less(), t * parts() * parts());
        let (u, v) = (binary64::up(x.exponent) as int, binary64::up(-x.exponent) as int);
        let xs = x.significand as int;
        let (ppu, ppl, dd) = (pu as int, pl as int, d as int);
        binary64::lemma_up(-x.exponent);
        assert(dd > 0) by (nonlinear_arith)
            requires
                dd == t * parts() * parts(),
                t > 0,
                parts() > 0,
        ;
        assert(100 * dd <= ppu) by (nonlinear_arith)
            requires
                xs * u > 100 * v,
                xs * u * dd <= ppu * v,
                v >= 1,
                dd > 0,
        {
            assert((100 * v) * dd <= xs * u * dd);
            assert((100 * dd) * v <= ppu * v);
        }
        assert(ppl <= 100 * dd) by (nonlinear_arith)
            requires
                ppl == c * less() * 100 * less(),
                dd == t * parts() * parts(),
                0 <= c <= t,
                less() == 0x1f_ffff_ffff_ffff,
                parts() == 0x20_0000_0000_0000,
        ;
        let (g, h) = (
            binary64::up(hundred.exponent) as int,
            binary64::up(-hundred.exponent) as int,
        );
        let hs = hundred.significand as int;
        binary64::lemma_up(-hundred.exponent);
        assert(hs * g * dd <= ppu * h && hs * g * dd >= ppl * h) by (nonlinear_arith)
            requires
                hs * g == 100 * h,
                100 * dd <= ppu,
                ppl <= 100 * dd,
                h >= 1,
        {
            assert((100 * h) * dd == (100 * dd) * h);
        }
    }
}

/// The bar never shows more than the true share of the tests that have run, and less than one cell
/// less: between them and the share of one cell more lies the truth.
pub proof fn law_bar_shows_the_true_share(current: u32, total: u32, width: usize)
    requires
        0 < total,
        current <= total,
        width <= 0x4_0000,
    ensures
        progress::filled_cells(current, total, width) * total <= width * current,
        width * current <= (progress::filled_cells(current, total, width) + 1) * total,
{
    let (c, t, w) = (current as nat, total as nat, width as nat);
    let p = progress::percentage(current, total);
    let (pu, pl, d) = (c * more() * 100 * more(), c * less() * 100 * less(), t * parts() * parts());
    lemma_percentage_near(current, total);
    lemma_over_near(p, 100, pu, d);
    lemma_over_near(p, 100, pl, d);
    let f = p.over(100);
    lemma_times_near(f, w, pu * more(), d * 100 * parts());
    lemma_times_near(f, w, pl * less(), d * 100 * parts());
    let g = f.times(Binary::ratio(w, 1));
    let bottom = d * 100 * parts() * parts();
    assert(bottom > 0) by (nonlinear_arith)
        requires
            bottom == t * parts() * parts() * 100 * parts() * parts(),
            t > 0,
            parts() > 0,
    ;
    lemma_floor_near(g, pu * more() * w * more(), bottom);
    lemma_floor_near(g, pl * less() * w * less(), bottom);
    let n = g.floor() as int;
    let (z, y) = ((c * w) as int, n * t);
    assert(z <= 0xffff_ffff * 0x4_0000) by (nonlinear_arith)
        requires
            z == c * w,
            c <= 0xffff_ffff,
            w <= 0x4_0000,
    ;
    assert(z >= 0) by (nonlinear_arith)
        requires
            z == c * w,
            c >= 0,
            w >= 0,
    ;
    assert(y * 0x10_0000_0000_0000_0000_0000_0000_0000_0000_0000_0000_0000_0000_0000 <= z * 0x10_0000_0000_0002_0000_0000_0000_1800_0000_0000_0080_0000_0000_0001) by (nonlinear_arith)
        requires
            n * bottom <= pu * more() * w * more(),
            bottom == t * parts() * parts() * 100 * parts() * parts(),
            pu == c * more() * 100 * more(),
            y == n * t,
            z == c * w,
            parts() == 0x20_0000_0000_0000,
            more() == 0x20_0000_0000_0001,
    {
        assert(n * bottom == y * (100 * 0x10_0000_0000_0000_0000_0000_0000_0000_0000_0000_0000_0000_0000_0000));
        assert(pu * more() * w * more() == z * (100 * 0x10_0000_0000_0002_0000_0000_0000_1800_0000_0000_0080_0000_0000_0001));
    }
    assert(y <= z);
    assert((n + 1) * t == y + t) by (nonlinear_arith)
        requires
            y == n * t,
    ;
    assert((y + t) * 0x10_0000_0000_0000_0000_0000_0000_0000_0000_0000_0000_0000_0000_0000 > z * 0xf_ffff_ffff_fffe_0000_0000_0000_17ff_ffff_ffff_ff80_0000_0000_0001) by (nonlinear_arith)
        requires
            (n + 1) * bottom > pl * less() * w * less(),
            bottom == t * parts() * parts() * 100 * parts() * parts(),
            pl == c * less() * 100 * less(),
            (n + 1) * t == y + t,
            z == c * w,
            parts() == 0x20_0000_0000_0000,
            less() == 0x1f_ffff_ffff_ffff,
    {
        assert((n + 1) * bottom == (y + t) * (100 * 0x10_0000_0000_0000_0000_0000_0000_0000_0000_0000_0000_0000_0000_0000));
        assert(pl * less() * w * less() == z * (100 * 0xf_ffff_ffff_fffe_0000_0000_0000_17ff_ffff_ffff_ff80_0000_0000_0001));
    }
    assert(z <= y + t);
    assert(w * c == z) by (nonlinear_arith)
        requires
            z == c * w,
    ;
    progress::law_double_width_is_exact(width);
    progress::lemma_filled(current, total, width);
    assert(n <= usize::MAX) by (nonlinear_arith)
        requires
            n * t <= c * w,
            c <= t,
            t > 0,
            w <= usize::MAX,
            n >= 0,
    ;
}

/// The percentage is the whole number nearest to the true one: it is off by one half at most.
pub proof fn law_percentage_is_the_nearest(current: u32, total: u32)
    requires
        0 < total,
        current <= total,
    ensures
        ({
            let n = progress::percentage(current, total).nearest_whole();
            &&& 2 * n * total <= 200 * current + total
            &&& 200 * current <= 2 * n * total + total
        }),
{
    let (c, t) = (current as nat, total as nat);
    let p = progress::percentage(current, total);
    lemma_percentage_near(current, total);
    let (pu, pl, d) = (c * more() * 100 * more(), c * less() * 100 * less(), t * parts() * parts());
    assert(d > 0) by (nonlinear_arith)
        requires
            d == t * parts() * parts(),
            t > 0,
            parts() > 0,
    ;
    lemma_nearest_whole_near(p, pu, d);
    lemma_nearest_whole_near(p, pl, d);
    let n = p.nearest_whole() as int;
    let y = n * t;
    assert(2 * y * 0x400_0000_0000_0000_0000_0000_0000 <= 200 * c * 0x400_0000_0000_0040_0000_0000_0001 + t * 0x400_0000_0000_0000_0000_0000_0000) by (nonlinear_arith)
        requires
            2 * n * d <= 2 * pu + d,
            d == t * parts() * parts(),
            pu == c * more() * 100 * more(),
            y == n * t,
            parts() == 0x20_0000_0000_0000,
            more() == 0x20_0000_0000_0001,
    {
        assert(2 * n * d == 2 * y * 0x400_0000_0000_0000_0000_0000_0000);
    }
    assert(2 * y * 0x400_0000_0000_0000_0000_0000_0000 + t * 0x400_0000_0000_0000_0000_0000_0000 >= 200 * c * 0x3ff_ffff_ffff_ffc0_0000_0000_0001) by (nonlinear_arith)
        requires
            2 * n * d + d >= 2 * pl,
            d == t * parts() * parts(),
            pl == c * less() * 100 * less(),
            y == n * t,
            parts() == 0x20_0000_0000_0000,
            less() == 0x1f_ffff_ffff_ffff,
    {
        assert(2 * n * d == 2 * y * 0x400_0000_0000_0000_0000_0000_0000);
    }
    assert(2 * n * t == 2 * y) by (nonlinear_arith)
        requires
            y == n * t,
    ;
}

} // verus!
