//! Rounding to the 53 significant bits of a double-precision number, in whole numbers.

use vstd::prelude::*;

verus! {

/// The least significand, two to the power of 52.
pub const LEAST: u64 = 0x10_0000_0000_0000;

/// Twice the least significand.
pub const LIMIT: u64 = 0x20_0000_0000_0000;

/// The number `significand * 2^exponent`.
pub struct Binary {
    pub significand: nat,
    pub exponent: int,
}

/// Two to the power of `s`, and 1 where `s` is negative.
pub open spec fn up(s: int) -> nat {
    if s > 0 {
        vstd::arithmetic::power2::pow2(s as nat)
    } else {
        1
    }
}

/// `a / b` rounded to a whole number, ties to the even one.
pub open spec fn nearest(a: nat, b: nat) -> nat {
    let q = a / b;
    let r = a % b;
    if 2 * r < b || (2 * r == b && q % 2 == 0) {
        q
    } else {
        q + 1
    }
}

/// `n / d * 2^s` has a whole part of 53 bits.
pub open spec fn is_scale(n: nat, d: nat, s: int) -> bool {
    d * up(-s) * LEAST <= n * up(s) < d * up(-s) * LIMIT
}

/// The double-precision number nearest to `n / d * 2^e`, ties to the even significand.
pub open spec fn rounded(n: nat, d: nat, e: int) -> Binary {
    if n == 0 {
        Binary { significand: 0, exponent: 0 }
    } else {
        let s = choose|s: int| is_scale(n, d, s);
        let m = nearest(n * up(s), d * up(-s));
        if m == LIMIT {
            Binary { significand: LEAST as nat, exponent: e - s + 1 }
        } else {
            Binary { significand: m, exponent: e - s }
        }
    }
}

impl Binary {
    /// Zero, or a significand of 53 bits.
    pub open spec fn normal(self) -> bool {
        self.significand == 0 && self.exponent == 0 || LEAST <= self.significand < LIMIT
    }

    /// The quotient of two whole numbers.
    pub open spec fn ratio(n: nat, d: nat) -> Binary {
        rounded(n, d, 0)
    }

    /// The product of two numbers.
    pub open spec fn times(self, other: Binary) -> Binary {
        rounded(self.significand * other.significand, 1, self.exponent + other.exponent)
    }

    /// The number divided by the whole number `d`.
    pub open spec fn over(self, d: nat) -> Binary {
        rounded(self.significand, d, self.exponent)
    }

    /// The number is at most the whole number `n`.
    pub open spec fn at_most(self, n: nat) -> bool {
        self.significand * up(self.exponent) <= n * up(-self.exponent)
    }

    /// The number without its fraction.
    pub open spec fn floor(self) -> nat {
        (self.significand * up(self.exponent)) / up(-self.exponent)
    }

    /// The nearest whole number, ties to the even one.
    pub open spec fn nearest_whole(self) -> nat {
        nearest(self.significand * up(self.exponent), up(-self.exponent))
    }
}

/// A power of two is at least 1, and the next one is twice as much.
pub proof fn lemma_up(s: int)
    ensures
        up(s) >= 1,
        s >= 0 ==> up(s + 1) == 2 * up(s),
{
    vstd::arithmetic::power2::lemma_pow2_pos(if s > 0 { s as nat } else { 0 });
    if s > 0 {
        vstd::arithmetic::power2::lemma_pow2_unfold((s + 1) as nat);
    } else if s == 0 {
        vstd::arithmetic::power2::lemma2_to64();
    }
}

/// A greater power of two is at least twice as much.
pub proof fn lemma_up_grows(s: int, t: int)
    requires
        0 <= s < t,
    ensures
        up(t) >= 2 * up(s),
    decreases t - s,
{
    lemma_up(s);
    lemma_up(t);
    lemma_up(t - 1);
    if s < t - 1 {
        lemma_up_grows(s, t - 1);
    }
}

/// At most one power of two scales a quotient to a whole part of 53 bits.
proof fn lemma_scale_unique(n: nat, d: nat, s: int, t: int)
    requires
        d > 0,
        is_scale(n, d, s),
        is_scale(n, d, t),
    ensures
        s == t,
{
    if s < t {
        lemma_scale_order(n, d, s, t);
    } else if t < s {
        lemma_scale_order(n, d, t, s);
    }
}

proof fn lemma_scale_order(n: nat, d: nat, s: int, t: int)
    requires
        d > 0,
        s < t,
        is_scale(n, d, s),
    ensures
        !is_scale(n, d, t),
{
    let (us, ds, ut, dt) = (up(s) as int, up(-s) as int, up(t) as int, up(-t) as int);
    lemma_up(s);
    lemma_up(-s);
    lemma_up(t);
    lemma_up(-t);
    assert(ut * ds >= 2 * (us * dt)) by {
        if 0 <= s {
            lemma_up_grows(s, t);
            assert(ut * ds >= 2 * (us * dt)) by (nonlinear_arith)
                requires
                    ut >= 2 * us,
                    ds == 1,
                    dt == 1,
            ;
        } else if t <= 0 {
            lemma_up_grows(-t, -s);
            assert(ut * ds >= 2 * (us * dt)) by (nonlinear_arith)
                requires
                    ds >= 2 * dt,
                    us == 1,
                    ut == 1,
            ;
        } else {
            lemma_up_grows(0, t);
            assert(ut * ds >= 2 * (us * dt)) by (nonlinear_arith)
                requires
                    ut >= 2,
                    ds >= 1,
                    us == 1,
                    dt == 1,
            ;
        }
    }
    let (n, d, a, b) = (n as int, d as int, ut * ds, us * dt);
    let p = LEAST as int;
    if n * ut < d * dt * (2 * p) {
        assert(n * us * ut >= d * ds * p * ut) by (nonlinear_arith)
            requires
                n * us >= d * ds * p,
                ut >= 1,
        ;
        assert(n * ut * us < d * dt * (2 * p) * us) by (nonlinear_arith)
            requires
                n * ut < d * dt * (2 * p),
                us >= 1,
        ;
        assert(n * us * ut == n * ut * us) by (nonlinear_arith);
        assert(d * ds * p * ut == (d * p) * (ut * ds)) by (nonlinear_arith);
        assert(d * dt * (2 * p) * us == (d * p) * (2 * (us * dt))) by (nonlinear_arith);
        assert((d * p) * a >= (d * p) * (2 * b)) by (nonlinear_arith)
            requires
                a >= 2 * b,
                d * p >= 0,
        ;
    }
}

/// The scale by which a quotient is rounded may be any that fits, as only one does.
pub proof fn lemma_rounded(n: nat, d: nat, e: int, s: int)
    requires
        n > 0,
        d > 0,
        is_scale(n, d, s),
    ensures
        rounded(n, d, e) == ({
            let m = nearest(n * up(s), d * up(-s));
            if m == LIMIT {
                Binary { significand: LEAST as nat, exponent: e - s + 1 }
            } else {
                Binary { significand: m, exponent: e - s }
            }
        }),
{
    let c = choose|c: int| is_scale(n, d, c);
    lemma_scale_unique(n, d, s, c);
}

/// A whole number of at most 53 bits is a double-precision number.
pub proof fn lemma_whole(n: nat) -> (s: int)
    requires
        0 < n < LIMIT,
    ensures
        0 <= s,
        Binary::ratio(n, 1) == (Binary { significand: n * up(s), exponent: -s }),
        LEAST <= n * up(s) < LIMIT,
    decreases LIMIT - n,
{
    if n >= LEAST {
        assert(n * up(0) == n);
        assert(is_scale(n, 1, 0));
        lemma_rounded(n, 1, 0, 0);
        0
    } else {
        let t = lemma_whole(2 * n);
        let s = t + 1;
        lemma_up(t);
        assert(n * (2 * up(t)) == (2 * n) * up(t)) by (nonlinear_arith);
        assert(is_scale(n, 1, s));
        lemma_rounded(n, 1, 0, s);
        s
    }
}

/// A number that is at most a whole number of at most 52 bits has no positive exponent.
pub proof fn lemma_small_exponent(x: Binary, n: nat)
    requires
        x.normal(),
        x.at_most(n),
        n < LEAST,
    ensures
        x.exponent <= 0,
{
    let (m, e) = (x.significand, x.exponent);
    if e > 0 {
        lemma_up(e);
        assert(m * up(e) >= m) by (nonlinear_arith)
            requires
                up(e) >= 1,
        ;
    }
}

/// The nearest whole number lies between the same whole numbers as the quotient.
pub proof fn lemma_nearest_bounds(a: nat, b: nat, lo: nat, hi: nat)
    requires
        b > 0,
        b * lo <= a < b * hi,
    ensures
        lo <= nearest(a, b) <= hi,
{
    let q = a / b;
    assert(lo <= q && q < hi) by (nonlinear_arith)
        requires
            b > 0,
            b * lo <= a < b * hi,
            q == a / b,
    ;
}

proof fn lemma_up_64(s: int)
    ensures
        up(64) == 0x1_0000_0000_0000_0000,
        up(128) == 0x1_0000_0000_0000_0000 * 0x1_0000_0000_0000_0000,
        s >= 64 ==> up(s) >= up(64),
        s >= 128 ==> up(s) >= up(128),
        s <= 64 ==> up(s) <= up(64),
{
    vstd::arithmetic::power2::lemma2_to64();
    vstd::arithmetic::power2::lemma2_to64_rest();
    vstd::arithmetic::power2::lemma_pow2_adds(64, 64);
    if s > 64 {
        lemma_up_grows(64, s);
    }
    if s > 128 {
        lemma_up_grows(128, s);
    }
    if 0 <= s < 64 {
        lemma_up_grows(s, 64);
    }
}

/// A double-precision number that is not negative.
#[derive(Clone, Copy)]
pub struct Float {
    significand: u64,
    exponent: i32,
}

impl View for Float {
    type V = Binary;

    closed spec fn view(&self) -> Binary {
        Binary { significand: self.significand as nat, exponent: self.exponent as int }
    }
}

/// How far `e` is from zero.
pub open spec fn distance(e: int) -> int {
    if e >= 0 {
        e
    } else {
        -e
    }
}

impl Binary {
    /// Zero, or a significand of 53 bits, and an exponent that is at most `range` from zero.
    pub open spec fn wf(self, range: int) -> bool {
        &&& self.normal()
        &&& -range <= self.exponent <= range
    }
}

fn power(k: u32) -> (r: u128)
    requires
        k < 64,
    ensures
        r == up(k as int),
        1 <= r < 0x1_0000_0000_0000_0000,
{
    let mut r: u128 = 1;
    let mut i: u32 = 0;
    while i < k
        invariant
            i <= k < 64,
            r == up(i as int),
            1 <= r < 0x1_0000_0000_0000_0000,
        decreases k - i,
    {
        proof {
            lemma_up(i as int);
            lemma_up_64(i + 1);
            lemma_up_grows(i + 1, 64);
        }
        r = r * 2;
        i = i + 1;
    }
    r
}

fn nearest_of(a: u128, b: u128) -> (r: u128)
    requires
        0 < b < 0x8000_0000_0000_0000_0000_0000_0000_0000,
        a < 0x8000_0000_0000_0000_0000_0000_0000_0000,
    ensures
        r == nearest(a as nat, b as nat),
{
    let q: u128 = a / b;
    let rest: u128 = a % b;
    assert(q <= a) by (nonlinear_arith)
        requires
            q == a / b,
            b > 0,
    ;
    if 2 * rest < b || (2 * rest == b && q % 2 == 0) {
        q
    } else {
        q + 1
    }
}

/// `1 << 120`, which bounds what is rounded.
const WIDEST: u128 = 0x100_0000_0000_0000_0000_0000_0000_0000;

impl Float {
    fn round(n: u128, d: u128, e: i32) -> (r: Float)
        requires
            n < WIDEST,
            0 < d <= 0x1_0000_0000,
            -1000 <= e <= 1000,
        ensures
            r@ == rounded(n as nat, d as nat, e as int),
            r@.wf(130 + distance(e as int)),
    {
        if n == 0 {
            return Float { significand: 0, exponent: 0 };
        }
        let mut a: u128 = n;
        let mut b: u128 = d;
        let mut s: i32 = 0;
        assert(up(0) == 1);
        if n < d * LEAST as u128 {
            assert(n * up(0) == n) by (nonlinear_arith)
                requires
                    up(0) == 1,
            ;
            while a < d * LEAST as u128
                invariant
                    0 < n < WIDEST,
                    0 < d <= 0x1_0000_0000,
                    0 <= s < 128,
                    a == n * up(s as int),
                    a < d * LIMIT,
                decreases 128 - s,
            {
                proof {
                    lemma_up(s as int);
                    lemma_up_64(s + 1);
                    let (n, us) = (n as int, up(s as int) as int);
                    assert(2 * (n * us) == n * (2 * us)) by (nonlinear_arith);
                    assert(d * LIMIT == 2 * (d * LEAST)) by (nonlinear_arith);
                    assert(n * (2 * us) >= 2 * us) by (nonlinear_arith)
                        requires
                            n >= 1,
                            us >= 1,
                    ;
                }
                a = 2 * a;
                s = s + 1;
            }
            assert(d * up(-s) == d) by (nonlinear_arith)
                requires
                    up(-s) == 1,
            ;
        } else {
            assert(d * up(0) == d) by (nonlinear_arith)
                requires
                    up(0) == 1,
            ;
            assert(d * LIMIT == 2 * (d * LEAST)) by (nonlinear_arith);
            while n >= b * LIMIT as u128
                invariant
                    0 < n < WIDEST,
                    0 < d <= 0x1_0000_0000,
                    -128 < s <= 0,
                    b == d * up(-s),
                    b <= 0x10_0000_0000_0000_0000,
                    0 < b * LEAST <= n,
                    b * LIMIT <= 2 * n,
                decreases 128 + s,
            {
                proof {
                    lemma_up(-s);
                    lemma_up_64(1 - s);
                    assert(b * LIMIT == (2 * b) * LEAST) by (nonlinear_arith);
                    assert((2 * b) * LIMIT == 2 * ((2 * b) * LEAST)) by (nonlinear_arith);
                    assert(2 * b <= 0x10_0000_0000_0000_0000) by (nonlinear_arith)
                        requires
                            (2 * b) * LEAST <= n,
                            n < WIDEST,
                    ;
                    let (d, us) = (d as int, up(-s) as int);
                    assert(2 * (d * us) == d * (2 * us)) by (nonlinear_arith);
                    assert(d * (2 * us) >= 2 * us) by (nonlinear_arith)
                        requires
                            d >= 1,
                            us >= 1,
                    ;
                }
                b = 2 * b;
                s = s - 1;
            }
            assert(n * up(s as int) == n) by (nonlinear_arith)
                requires
                    up(s as int) == 1,
            ;
        }
        assert(is_scale(n as nat, d as nat, s as int));
        proof {
            lemma_rounded(n as nat, d as nat, e as int, s as int);
            lemma_nearest_bounds(a as nat, b as nat, LEAST as nat, LIMIT as nat);
        }
        let m: u128 = nearest_of(a, b);
        if m == LIMIT as u128 {
            Float { significand: LEAST, exponent: e - s + 1 }
        } else {
            Float { significand: m as u64, exponent: e - s }
        }
    }

    /// The quotient of two whole numbers.
    pub fn ratio(n: u64, d: u32) -> (r: Float)
        requires
            d > 0,
        ensures
            r@ == Binary::ratio(n as nat, d as nat),
            r@.wf(130),
    {
        Float::round(n as u128, d as u128, 0)
    }

    /// The product of two numbers.
    pub fn times(self, other: Float) -> (r: Float)
        requires
            self@.wf(600),
            other@.wf(400),
        ensures
            r@ == self@.times(other@),
            r@.wf(130 + distance(self@.exponent + other@.exponent)),
    {
        assert(self.significand * other.significand < WIDEST) by (nonlinear_arith)
            requires
                self.significand < LIMIT,
                other.significand < LIMIT,
        ;
        let n: u128 = self.significand as u128 * other.significand as u128;
        Float::round(n, 1, self.exponent + other.exponent)
    }

    /// The number divided by the whole number `d`.
    pub fn over(self, d: u32) -> (r: Float)
        requires
            self@.wf(400),
            d > 0,
        ensures
            r@ == self@.over(d as nat),
            r@.wf(130 + distance(self@.exponent)),
    {
        Float::round(self.significand as u128, d as u128, self.exponent)
    }

    /// Whether the number is at most the whole number `n`.
    pub fn at_most(self, n: u32) -> (r: bool)
        requires
            self@.wf(1000),
            n > 0,
        ensures
            r == self@.at_most(n as nat),
    {
        let ghost (m, e) = (self.significand as int, self.exponent as int);
        proof {
            lemma_up(e);
            lemma_up_64(-e);
        }
        if self.significand == 0 {
            assert(m * up(e) <= n * up(-e)) by (nonlinear_arith)
                requires
                    m == 0,
            ;
            true
        } else if self.exponent >= 0 {
            assert(m * up(e) > n * up(-e)) by (nonlinear_arith)
                requires
                    m > n,
                    up(e) >= 1,
                    up(-e) == 1,
            ;
            false
        } else if self.exponent <= -64 {
            assert(m * up(e) <= n * up(-e)) by (nonlinear_arith)
                requires
                    m < LIMIT,
                    n >= 1,
                    up(e) == 1,
                    up(-e) >= LIMIT,
            ;
            true
        } else {
            let p: u128 = power((-self.exponent) as u32);
            assert(n * p < 0x1_0000_0000 * 0x1_0000_0000_0000_0000) by (nonlinear_arith)
                requires
                    n < 0x1_0000_0000,
                    1 <= p < 0x1_0000_0000_0000_0000,
            ;
            self.significand as u128 <= n as u128 * p
        }
    }

    /// The number without its fraction, and the greatest machine word where it is greater.
    pub fn floor(self) -> (r: usize)
        requires
            self@.wf(1000),
        ensures
            r == (if self@.floor() <= usize::MAX {
                self@.floor()
            } else {
                usize::MAX as nat
            }),
    {
        let ghost (m, e) = (self.significand as int, self.exponent as int);
        proof {
            lemma_up(e);
            lemma_up(-e);
            lemma_up_64(e);
            lemma_up_64(-e);
        }
        if self.significand == 0 {
            assert(m * up(e) == 0) by (nonlinear_arith)
                requires
                    m == 0,
            ;
            assert(0int / (up(-e) as int) == 0) by (nonlinear_arith)
                requires
                    up(-e) >= 1,
            ;
            0
        } else if self.exponent >= 64 {
            assert(m * up(e) >= up(64)) by (nonlinear_arith)
                requires
                    m >= 1,
                    up(e) >= up(64),
            ;
            assert(self@.floor() == m * up(e)) by (nonlinear_arith)
                requires
                    self@.floor() == (m * up(e)) / (up(-e) as int),
                    up(-e) == 1,
            ;
            usize::MAX
        } else if self.exponent >= 0 {
            let p: u128 = power(self.exponent as u32);
            assert(0 <= m * p < LIMIT * 0x1_0000_0000_0000_0000) by (nonlinear_arith)
                requires
                    0 <= m < LIMIT,
                    1 <= p < 0x1_0000_0000_0000_0000,
            ;
            assert(self@.floor() == m * up(e)) by (nonlinear_arith)
                requires
                    self@.floor() == (m * up(e)) / (up(-e) as int),
                    up(-e) == 1,
            ;
            let v: u128 = self.significand as u128 * p;
            if v <= usize::MAX as u128 {
                v as usize
            } else {
                usize::MAX
            }
        } else {
            assert(m * up(e) == m) by (nonlinear_arith)
                requires
                    up(e) == 1,
            ;
            let v: u128 = if self.exponent <= -64 {
                assert(m / (up(-e) as int) == 0) by (nonlinear_arith)
                    requires
                        0 <= m < up(-e),
                ;
                0
            } else {
                self.significand as u128 / power((-self.exponent) as u32)
            };
            if v <= usize::MAX as u128 {
                v as usize
            } else {
                usize::MAX
            }
        }
    }

    /// The nearest whole number, ties to the even one.
    pub fn nearest_whole(self) -> (r: u64)
        requires
            self@.wf(1000),
            self@.exponent <= 0,
        ensures
            r == self@.nearest_whole(),
    {
        let ghost (m, e) = (self.significand as int, self.exponent as int);
        proof {
            lemma_up_64(-e);
        }
        assert(m * up(e) == m) by (nonlinear_arith)
            requires
                up(e) == 1,
        ;
        if self.exponent <= -64 {
            assert(m / (up(-e) as int) == 0 && m % (up(-e) as int) == m) by (nonlinear_arith)
                requires
                    0 <= m < up(-e),
            ;
            0
        } else {
            let p: u128 = power((-self.exponent) as u32);
            proof {
                assert(m / p as int <= m) by (nonlinear_arith)
                    requires
                        m >= 0,
                        p >= 1,
                ;
            }
            nearest_of(self.significand as u128, p) as u64
        }
    }
}

} // verus!
