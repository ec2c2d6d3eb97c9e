//! Numbers kept to fifty-three binary digits: how the measures of a report are divided, added and
//! compared.
//!
//! A number between zero and two is written here as a whole number of the smallest steps that a
//! quotient of two counts can need, of which there are two to the 116th in one.
use vstd::prelude::*;

verus! {

/// Two to the power of `k`.
pub open spec fn two(k: nat) -> nat
    decreases k,
{
    if k == 0 {
        1
    } else {
        2 * two((k - 1) as nat)
    }
}

/// The quotient of two numbers, rounded to the nearest, a half to the even.
pub open spec fn rounded(a: nat, d: nat) -> nat
    recommends
        d > 0,
{
    let q = a / d;
    let rem = a % d;
    if 2 * rem < d || (2 * rem == d && q % 2 == 0) {
        q
    } else {
        q + 1
    }
}

/// How many binary digits the quotient of two numbers has beyond fifty-three before the point.
pub open spec fn excess(a: nat, b: nat) -> nat
    recommends
        b > 0,
    decreases a - b,
{
    if b == 0 || a < 0x20_0000_0000_0000 * b {
        0
    } else {
        1 + excess(a, 2 * b)
    }
}

/// The whole number of at most fifty-three significant binary digits that is nearest to the quotient
/// of two numbers, of two that are as near the even one.
pub open spec fn near(a: nat, b: nat) -> nat
    recommends
        b > 0,
{
    let t = two(excess(a, b));
    rounded(a, b * t) * t
}

/// The quotient of two counts to fifty-three binary digits, in steps: each count is kept to as many,
/// and so is what comes of dividing them.
pub open spec fn quotient(n: nat, d: nat) -> nat
    recommends
        d > 0,
{
    near(near(n, 1) * two(116), near(d, 1))
}

/// The sum of two numbers to fifty-three binary digits.
pub open spec fn sum(x: nat, y: nat) -> nat {
    near(x + y, 1)
}

// ----------------------------------------------------------------------------------------------
// Powers of two
// ----------------------------------------------------------------------------------------------

proof fn lemma_two_adds(a: nat, b: nat)
    ensures
        two(a + b) == two(a) * two(b),
    decreases a,
{
    if a > 0 {
        let (u, v) = (two((a - 1) as nat), two(b));
        lemma_two_adds((a - 1) as nat, b);
        assert(2 * (u * v) == (2 * u) * v) by (nonlinear_arith);
    } else {
        assert(1 * two(b) == two(b));
    }
}

proof fn lemma_two_positive(k: nat)
    ensures
        two(k) > 0,
    decreases k,
{
    if k > 0 {
        lemma_two_positive((k - 1) as nat);
    }
}

proof fn lemma_two_grows(a: nat, b: nat)
    requires
        a <= b,
    ensures
        two(a) <= two(b),
    decreases b,
{
    if a < b {
        lemma_two_grows(a, (b - 1) as nat);
        lemma_two_positive((b - 1) as nat);
    }
}

proof fn lemma_two_product(a: nat, b: nat, x: nat, y: nat)
    requires
        two(a) == x,
        two(b) == y,
    ensures
        two(a + b) == x * y,
{
    lemma_two_adds(a, b);
}

proof fn lemma_two_values()
    ensures
        two(11) == 0x800,
        two(12) == 0x1000,
        two(52) == 0x10_0000_0000_0000,
        two(53) == 0x20_0000_0000_0000,
        two(64) == 0x1_0000_0000_0000_0000,
        two(116) == 0x10_0000_0000_0000_0000_0000_0000_0000,
        two(118) == 0x40_0000_0000_0000_0000_0000_0000_0000,
        two(126) == 0x4000_0000_0000_0000_0000_0000_0000_0000,
{
    reveal_with_fuel(two, 13);
    lemma_two_product(12, 12, 0x1000, 0x1000);
    lemma_two_product(24, 24, 0x100_0000, 0x100_0000);
    lemma_two_product(48, 4, 0x1_0000_0000_0000, 0x10);
    lemma_two_product(52, 12, 0x10_0000_0000_0000, 0x1000);
    lemma_two_product(64, 52, 0x1_0000_0000_0000_0000, 0x10_0000_0000_0000);
    lemma_two_product(116, 2, 0x10_0000_0000_0000_0000_0000_0000_0000, 4);
    lemma_two_product(116, 10, 0x10_0000_0000_0000_0000_0000_0000_0000, 0x400);
}

fn power(k: u32) -> (r: u128)
    requires
        k <= 126,
    ensures
        r == two(k as nat),
{
    let mut r: u128 = 1;
    let mut i: u32 = 0;
    while i < k
        invariant
            i <= k <= 126,
            r == two(i as nat),
        decreases k - i,
    {
        proof {
            lemma_two_values();
            lemma_two_grows((i + 1) as nat, 126);
        }
        r = r * 2;
        i = i + 1;
    }
    r
}

// ----------------------------------------------------------------------------------------------
// Rounding
// ----------------------------------------------------------------------------------------------

proof fn lemma_rounded_scaled(a: nat, d: nat, s: nat)
    requires
        d > 0,
        s > 0,
    ensures
        d * s > 0,
        rounded(a * s, d * s) == rounded(a, d),
{
    vstd::arithmetic::div_mod::lemma_fundamental_div_mod(a as int, d as int);
    let q = a / d;
    let rem = a % d;
    assert(d * s > 0 && rem * s < d * s && a * s == q * (d * s) + rem * s) by (nonlinear_arith)
        requires
            d > 0,
            s > 0,
            rem < d,
            a == d * q + rem,
    ;
    vstd::arithmetic::div_mod::lemma_fundamental_div_mod_converse(
        (a * s) as int,
        (d * s) as int,
        q as int,
        (rem * s) as int,
    );
    assert((2 * rem < d) == (2 * (rem * s) < d * s)) by (nonlinear_arith)
        requires
            s > 0,
    ;
    assert((2 * rem == d) == (2 * (rem * s) == d * s)) by (nonlinear_arith)
        requires
            s > 0,
    ;
}

proof fn lemma_rounded_grows(a: nat, b: nat, d: nat)
    requires
        d > 0,
        a <= b,
    ensures
        rounded(a, d) <= rounded(b, d),
{
    let (q, r) = (a / d, a % d);
    let (p, m) = (b / d, b % d);
    vstd::arithmetic::div_mod::lemma_fundamental_div_mod(a as int, d as int);
    vstd::arithmetic::div_mod::lemma_fundamental_div_mod(b as int, d as int);
    assert(q < p || (q == p && r <= m)) by (nonlinear_arith)
        requires
            a <= b,
            d > 0,
            a == d * q + r,
            b == d * p + m,
            r < d,
            m < d,
    ;
}

proof fn lemma_rounded_zero(d: nat)
    requires
        d > 0,
    ensures
        rounded(0, d) == 0,
{
    vstd::arithmetic::div_mod::lemma_fundamental_div_mod_converse(0, d as int, 0, 0);
}

proof fn lemma_near_zero(b: nat)
    requires
        b > 0,
    ensures
        near(0, b) == 0,
{
    assert(two(0) == 1);
    assert(b * 1 == b);
    lemma_excess(0, b, 0);
    lemma_rounded_zero(b);
}

proof fn lemma_rounded_bounds(a: nat, d: nat, low: nat, high: nat)
    requires
        d > 0,
        low * d <= a <= high * d,
    ensures
        low <= rounded(a, d) <= high,
{
    vstd::arithmetic::div_mod::lemma_fundamental_div_mod_converse((low * d) as int, d as int, low as int, 0);
    vstd::arithmetic::div_mod::lemma_fundamental_div_mod_converse((high * d) as int, d as int, high as int, 0);
    lemma_rounded_grows(low * d, a, d);
    lemma_rounded_grows(a, high * d, d);
}

fn divide(a: u128, d: u128) -> (r: u128)
    requires
        0 < d <= 0x4000_0000_0000_0000_0000_0000_0000_0000,
    ensures
        r == rounded(a as nat, d as nat),
{
    let q: u128 = a / d;
    let rem: u128 = a % d;
    if 2 * rem < d || (2 * rem == d && q % 2 == 0) {
        q
    } else {
        proof {
            vstd::arithmetic::div_mod::lemma_fundamental_div_mod(a as int, d as int);
            assert(q < a) by (nonlinear_arith)
                requires
                    a == d * q + rem,
                    0 < d,
                    rem > 0,
            ;
        }
        q + 1
    }
}

// ----------------------------------------------------------------------------------------------
// Fifty-three digits
// ----------------------------------------------------------------------------------------------

proof fn lemma_excess(a: nat, b: nat, t: nat)
    requires
        b > 0,
        a < 0x20_0000_0000_0000 * (b * two(t)),
        t == 0 || a >= 0x20_0000_0000_0000 * (b * two((t - 1) as nat)),
    ensures
        excess(a, b) == t,
    decreases t,
{
    if t > 0 {
        let w = two((t - 1) as nat);
        lemma_two_positive((t - 1) as nat);
        assert(b * w >= b && b * (2 * w) == (2 * b) * w) by (nonlinear_arith)
            requires
                w > 0,
        ;
        if t > 1 {
            let v = two((t - 2) as nat);
            assert(b * (2 * v) == (2 * b) * v) by (nonlinear_arith);
        }
        lemma_excess(a, 2 * b, (t - 1) as nat);
    } else {
        assert(b * 1 == b);
    }
}

proof fn lemma_excess_bounds(a: nat, b: nat)
    requires
        b > 0,
    ensures
        a < 0x20_0000_0000_0000 * (b * two(excess(a, b))),
        excess(a, b) > 0 ==> a >= 0x20_0000_0000_0000 * (b * two((excess(a, b) - 1) as nat)),
    decreases a - b,
{
    assert(b * 1 == b);
    if a >= 0x20_0000_0000_0000 * b {
        lemma_excess_bounds(a, 2 * b);
        let t = excess(a, 2 * b);
        let w = two(t);
        assert(excess(a, b) == t + 1);
        assert(two(t + 1) == 2 * w);
        assert(b * (2 * w) == (2 * b) * w) by (nonlinear_arith);
        if t > 0 {
            let v = two((t - 1) as nat);
            assert(w == 2 * v);
            assert(b * (2 * v) == (2 * b) * v) by (nonlinear_arith);
        }
    }
}

proof fn lemma_near_bounds(a: nat)
    ensures
        near(a, 1) <= 0x20_0000_0000_0000 * two(excess(a, 1)),
        excess(a, 1) > 0 ==> near(a, 1) >= 0x10_0000_0000_0000 * two(excess(a, 1)),
        excess(a, 1) == 0 ==> near(a, 1) == a,
{
    let e = excess(a, 1);
    let t = two(e);
    lemma_excess_bounds(a, 1);
    lemma_two_positive(e);
    assert(1 * t == t);
    if e > 0 {
        let h = two((e - 1) as nat);
        assert(t == 2 * h);
        lemma_rounded_bounds(a, t, 0x10_0000_0000_0000, 0x20_0000_0000_0000);
        let r = rounded(a, t);
        assert(0x10_0000_0000_0000 * t <= r * t <= 0x20_0000_0000_0000 * t) by (nonlinear_arith)
            requires
                0x10_0000_0000_0000 <= r <= 0x20_0000_0000_0000,
        ;
    } else {
        assert(t == 1);
        vstd::arithmetic::div_mod::lemma_fundamental_div_mod_converse(a as int, 1, a as int, 0);
        assert(rounded(a, 1) == a);
        assert(a * 1 == a);
    }
}

#[verifier::spinoff_prover]
proof fn lemma_near_grows(a: nat, b: nat)
    requires
        a <= b,
    ensures
        near(a, 1) <= near(b, 1),
{
    let (e, f) = (excess(a, 1), excess(b, 1));
    lemma_excess_bounds(a, 1);
    lemma_excess_bounds(b, 1);
    lemma_near_bounds(a);
    lemma_near_bounds(b);
    if e > f {
        lemma_two_grows(f, (e - 1) as nat);
    } else if e < f {
        lemma_two_grows(e, (f - 1) as nat);
    } else {
        let t = two(e);
        lemma_two_positive(e);
        lemma_rounded_grows(a, b, 1 * t);
        let (r, q) = (rounded(a, 1 * t), rounded(b, 1 * t));
        assert(r * t <= q * t) by (nonlinear_arith)
            requires
                r <= q,
        ;
    }
}

proof fn lemma_count_near(n: nat)
    requires
        n < 0x1_0000_0000_0000_0000,
    ensures
        near(n, 1) <= 0x1_0000_0000_0000_0000,
        n > 0 ==> near(n, 1) > 0,
{
    lemma_near_bounds(n);
    lemma_excess_bounds(n, 1);
    lemma_two_values();
    let e = excess(n, 1);
    lemma_two_positive(e);
    if e > 11 {
        lemma_two_grows(11, (e - 1) as nat);
    } else {
        lemma_two_grows(e, 11);
    }
}

/// The number of fifty-three binary digits that is nearest.
#[verifier::spinoff_prover]
pub fn nearest(x: u128) -> (r: u128)
    requires
        x <= 0x40_0000_0000_0000_0000_0000_0000_0000,
    ensures
        r == near(x as nat, 1),
{
    let mut p: u128 = 1;
    let ghost mut t: nat = 0;
    while x >= 0x20_0000_0000_0000 * p
        invariant
            x <= 0x40_0000_0000_0000_0000_0000_0000_0000,
            p == two(t),
            p <= 0x1_0000_0000_0000_0000_0000,
            t == 0 || x >= 0x20_0000_0000_0000 * two((t - 1) as nat),
        decreases x - p,
    {
        p = p * 2;
        proof {
            t = t + 1;
            lemma_two_positive((t - 1) as nat);
        }
    }
    proof {
        lemma_excess(x as nat, 1, t);
        lemma_two_positive(t);
        lemma_near_bounds(x as nat);
        assert(1 * two(t) == p);
    }
    divide(x, p) * p
}

/// A quotient to fifty-three binary digits: so many of the steps of which there are two to the power
/// of `places` in one.
#[derive(Clone, Copy, Debug, PartialEq, Eq, Structural)]
pub struct Quotient {
    pub digits: u128,
    pub places: u32,
}

impl Quotient {
    /// Whether there are no more digits than fifty-three allow, at places that two counts can need.
    pub open spec fn fits(self) -> bool {
        52 <= self.places <= 116 && self.digits <= 0x20_0000_0000_0000
    }

    /// The number in the smallest steps.
    pub open spec fn steps(self) -> nat {
        self.digits as nat * two((116 - self.places) as nat)
    }

    /// The number in the smallest steps.
    pub fn in_steps(&self) -> (r: u128)
        requires
            self.fits(),
        ensures
            r == self.steps(),
            r <= 0x20_0000_0000_0000_0000_0000_0000_0000,
    {
        let p = power(116 - self.places);
        proof {
            lemma_two_grows((116 - self.places) as nat, 64);
            lemma_two_values();
            let d = self.digits;
            assert(0 <= d * p <= 0x20_0000_0000_0000 * 0x1_0000_0000_0000_0000) by (nonlinear_arith)
                requires
                    d <= 0x20_0000_0000_0000,
                    p <= 0x1_0000_0000_0000_0000,
            ;
        }
        self.digits * p
    }

    /// The number in units of which there are so many in one, rounded to the nearest, a half to the
    /// even.
    pub fn in_units(&self, units: u32) -> (r: u128)
        requires
            self.fits(),
        ensures
            r == rounded(self.steps() * units as nat, two(116)),
    {
        let p = power(self.places);
        let ghost s = two((116 - self.places) as nat);
        proof {
            lemma_two_values();
            lemma_two_grows(self.places as nat, 126);
            lemma_two_positive(self.places as nat);
            lemma_two_positive((116 - self.places) as nat);
            lemma_two_adds(self.places as nat, (116 - self.places) as nat);
            let d = self.digits;
            assert(0 <= d * units <= 0x20_0000_0000_0000 * 0xffff_ffff) by (nonlinear_arith)
                requires
                    d <= 0x20_0000_0000_0000,
                    units <= 0xffff_ffff,
            ;
            assert((d * units) * s == d * s * units) by (nonlinear_arith);
            lemma_rounded_scaled((d * units) as nat, p as nat, s);
        }
        divide(self.digits * units as u128, p)
    }
}

/// Divides two counts, of which the first is no more than the second.
#[verifier::spinoff_prover]
pub fn divide_counts(n: usize, d: usize) -> (r: Quotient)
    requires
        n <= d,
        0 < d,
    ensures
        r.fits(),
        r.steps() == quotient(n as nat, d as nat),
{
    let a = nearest(n as u128);
    let b = nearest(d as u128);
    proof {
        lemma_count_near(n as nat);
        lemma_count_near(d as nat);
        lemma_near_grows(n as nat, d as nat);
        lemma_two_values();
    }
    if a == 0 {
        proof {
            lemma_near_zero(b as nat);
            assert(0 * two(116) == 0 && 0 * two(64) == 0);
        }
        return Quotient { digits: 0, places: 52 };
    }
    let low: u128 = 0x10_0000_0000_0000 * b;
    let mut x: u128 = 0x10_0000_0000_0000 * a;
    let mut k: u32 = 52;
    while x < low
        invariant
            0 < a <= b <= 0x1_0000_0000_0000_0000,
            low == 0x10_0000_0000_0000 * b,
            52 <= k <= 116,
            x == a * two(k as nat),
            x < 2 * low,
        decreases 116 - k,
    {
        proof {
            lemma_two_values();
            if k == 116 {
                assert(a * two(116) >= two(116)) by (nonlinear_arith)
                    requires
                        a > 0,
                ;
            }
            assert(a * (2 * two(k as nat)) == 2 * (a * two(k as nat))) by (nonlinear_arith);
        }
        x = x * 2;
        k = k + 1;
    }
    proof {
        lemma_quotient(a as nat, b as nat, x as nat, k as nat);
        lemma_rounded_bounds(x as nat, b as nat, 0, 0x20_0000_0000_0000);
    }
    Quotient { digits: divide(x, b), places: k }
}

#[verifier::spinoff_prover]
proof fn lemma_quotient(a: nat, b: nat, x: nat, k: nat)
    requires
        b > 0,
        52 <= k <= 116,
        x == a * two(k),
        0x10_0000_0000_0000 * b <= x < 0x20_0000_0000_0000 * b,
    ensures
        near(a * two(116), b) == rounded(x, b) * two((116 - k) as nat),
{
    let t = (116 - k) as nat;
    let w = two(t);
    lemma_two_adds(k, t);
    lemma_two_positive(t);
    assert(a * (two(k) * w) == (a * two(k)) * w) by (nonlinear_arith);
    assert(x * w < 0x20_0000_0000_0000 * (b * w)) by (nonlinear_arith)
        requires
            x < 0x20_0000_0000_0000 * b,
            w > 0,
    ;
    if t > 0 {
        let v = two((t - 1) as nat);
        assert(x * (2 * v) >= 0x20_0000_0000_0000 * (b * v)) by (nonlinear_arith)
            requires
                x >= 0x10_0000_0000_0000 * b,
        ;
    }
    lemma_excess(a * two(116), b, t);
    lemma_rounded_scaled(x, b, w);
}

// ----------------------------------------------------------------------------------------------
// How far rounding goes
// ----------------------------------------------------------------------------------------------

proof fn lemma_rounded_error(a: nat, d: nat)
    requires
        d > 0,
    ensures
        2 * (rounded(a, d) * d) <= 2 * a + d,
        2 * a <= 2 * (rounded(a, d) * d) + d,
{
    let q = a / d;
    let rem = a % d;
    vstd::arithmetic::div_mod::lemma_fundamental_div_mod(a as int, d as int);
    assert(d * q == q * d && (q + 1) * d == q * d + d) by (nonlinear_arith);
}

#[verifier::spinoff_prover]
proof fn lemma_near_error(a: nat, b: nat)
    requires
        b > 0,
        a >= 0x10_0000_0000_0000 * b,
    ensures
        0x20_0000_0000_0000 * (near(a, b) * b) <= 0x20_0000_0000_0001 * a,
        0x20_0000_0000_0000 * (near(a, b) * b) >= 0x1f_ffff_ffff_ffff * a,
{
    let e = excess(a, b);
    let t = two(e);
    let q = rounded(a, b * t);
    lemma_excess_bounds(a, b);
    lemma_two_positive(e);
    assert(b * t > 0 && (q * t) * b == q * (b * t)) by (nonlinear_arith)
        requires
            b > 0,
            t > 0,
    ;
    lemma_rounded_error(a, b * t);
    if e > 0 {
        let h = two((e - 1) as nat);
        assert(b * (2 * h) == 2 * (b * h)) by (nonlinear_arith);
    } else {
        assert(b * 1 == b);
    }
}

proof fn lemma_count_error(n: nat)
    ensures
        0x20_0000_0000_0000 * near(n, 1) <= 0x20_0000_0000_0001 * n,
        0x20_0000_0000_0000 * near(n, 1) >= 0x1f_ffff_ffff_ffff * n,
{
    lemma_near_bounds(n);
    lemma_excess_bounds(n, 1);
    if excess(n, 1) > 0 {
        lemma_two_positive((excess(n, 1) - 1) as nat);
        lemma_near_error(n, 1);
        assert(near(n, 1) * 1 == near(n, 1));
    }
}

/// A quotient of two counts is within four parts in two to the 53rd of what it stands for.
#[verifier::spinoff_prover]
pub proof fn lemma_quotient_error(n: nat, d: nat)
    requires
        n <= d,
        0 < d < 0x1_0000_0000_0000_0000,
    ensures
        0x20_0000_0000_0000 * (quotient(n, d) * d) <= 0x20_0000_0000_0000 * (two(116) * n) + 4 * (two(116) * d),
        0x20_0000_0000_0000 * (two(116) * n) <= 0x20_0000_0000_0000 * (quotient(n, d) * d) + 4 * (two(116) * d),
{
    let (a, b) = (near(n, 1), near(d, 1));
    let v = two(116);
    let p = quotient(n, d);
    lemma_two_values();
    lemma_count_near(n);
    lemma_count_near(d);
    lemma_count_error(n);
    lemma_count_error(d);
    assert(v * n <= v * d) by (nonlinear_arith)
        requires
            n <= d,
    ;
    if n == 0 {
        lemma_near_zero(1);
        lemma_near_zero(b);
        assert(0 * v == 0);
        assert(p == 0);
        assert(0 * d == 0 && v * 0 == 0);
    } else {
        assert(a * v >= v) by (nonlinear_arith)
            requires
                a > 0,
        ;
        lemma_near_error(a * v, b);
        let (k, lo, hi) = (0x20_0000_0000_0000int, 0x1f_ffff_ffff_ffffint, 0x20_0000_0000_0001int);
        assert(lo * (p * d) <= k * (p * b) && k * (p * b) <= hi * (p * d)) by (nonlinear_arith)
            requires
                lo * d <= k * b,
                k * b <= hi * d,
                p >= 0,
        ;
        assert(k * (a * v) <= hi * (v * n) && lo * (v * n) <= k * (a * v)) by (nonlinear_arith)
            requires
                k * a <= hi * n,
                lo * n <= k * a,
                v >= 0,
        ;
    }
}

/// Where one ratio of a part to a whole is no greater than another, its value is not greater than
/// that of the other with a billionth added.
#[verifier::spinoff_prover]
pub proof fn law_order_survives_rounding(n: nat, d: nat, m: nat, c: nat)
    requires
        n <= d,
        0 < d < 0x1_0000_0000_0000_0000,
        m <= c,
        0 < c < 0x1_0000_0000_0000_0000,
        n * c <= m * d,
    ensures
        quotient(n, d) <= sum(quotient(m, c), quotient(1, 1_000_000_000)),
{
    let v = two(116);
    let (p, h, s) = (quotient(n, d), quotient(m, c), quotient(1, 1_000_000_000));
    let k = 0x20_0000_0000_0000int;
    lemma_two_values();
    lemma_quotient_error(n, d);
    lemma_quotient_error(m, c);
    lemma_quotient_error(1, 1_000_000_000);
    lemma_count_error(h + s);
    let w = d * c;
    assert(w > 0 && k * (p * w) <= k * (h * w) + 8 * (v * w)) by (nonlinear_arith)
        requires
            w == d * c,
            d > 0,
            c > 0,
            v > 0,
            n * c <= m * d,
            k == 0x20_0000_0000_0000,
            k * (p * d) <= k * (v * n) + 4 * (v * d),
            k * (v * m) <= k * (h * c) + 4 * (v * c),
    {
        let (x, y) = (p * d, h * c);
        assert(k * (x * c) <= k * (v * (n * c)) + 4 * (v * (d * c)));
        assert(k * (v * (m * d)) <= k * (y * d) + 4 * (v * (c * d)));
        assert(v * (n * c) <= v * (m * d));
        assert(x * c == p * w);
        assert(y * d == h * w);
    }
    assert(k * p <= k * h + 8 * v) by (nonlinear_arith)
        requires
            w > 0,
            k * (p * w) <= k * (h * w) + 8 * (v * w),
    ;
    assert(v * m <= v * c) by (nonlinear_arith)
        requires
            m <= c,
    ;
    assert(k * h <= (k + 4) * v) by (nonlinear_arith)
        requires
            c > 0,
            k * (h * c) <= k * (v * m) + 4 * (v * c),
            v * m <= v * c,
            k == 0x20_0000_0000_0000,
    ;
}
/// Where one ratio of a part to a whole is greater than another by two billionths or more, its value is
/// greater than that of the other with a billionth added.
#[verifier::spinoff_prover]
pub proof fn law_gap_survives_rounding(n: nat, d: nat, m: nat, c: nat)
    requires
        n <= d,
        0 < d < 0x1_0000_0000_0000_0000,
        m <= c,
        0 < c < 0x1_0000_0000_0000_0000,
        1_000_000_000 * (n * c) >= 1_000_000_000 * (m * d) + 2 * (d * c),
    ensures
        quotient(n, d) > sum(quotient(m, c), quotient(1, 1_000_000_000)),
{
    let v = two(116);
    let (p, h, s) = (quotient(n, d), quotient(m, c), quotient(1, 1_000_000_000));
    let k = 0x20_0000_0000_0000int;
    let g = 1_000_000_000int;
    lemma_two_values();
    lemma_quotient_error(n, d);
    lemma_quotient_error(m, c);
    lemma_quotient_error(1, 1_000_000_000);
    lemma_count_error(h + s);
    let w = d * c;
    assert(w > 0 && g * (k * (h * w)) + 2 * (k * (v * w)) <= g * (k * (p * w)) + 8 * g * (v * w)) by (nonlinear_arith)
        requires
            w == d * c,
            d > 0,
            c > 0,
            v > 0,
            g == 1_000_000_000,
            g * (n * c) >= g * (m * d) + 2 * (d * c),
            k == 0x20_0000_0000_0000,
            k * (v * n) <= k * (p * d) + 4 * (v * d),
            k * (h * c) <= k * (v * m) + 4 * (v * c),
    {
        let (x, y) = (p * d, h * c);
        assert(k * (v * (n * c)) <= k * (x * c) + 4 * (v * (d * c)));
        assert(k * (y * d) <= k * (v * (m * d)) + 4 * (v * (c * d)));
        assert((k * v) * (g * (n * c)) >= (k * v) * (g * (m * d) + 2 * (d * c)));
        assert((k * v) * (g * (n * c)) == g * (k * (v * (n * c))));
        assert((k * v) * (g * (m * d) + 2 * (d * c)) == g * (k * (v * (m * d))) + 2 * (k * (v * (d * c))));
        assert(x * c == p * w);
        assert(y * d == h * w);
    }
    assert(g * (k * h) + 2 * (k * v) <= g * (k * p) + 8 * g * v) by (nonlinear_arith)
        requires
            w > 0,
            g * (k * (h * w)) + 2 * (k * (v * w)) <= g * (k * (p * w)) + 8 * g * (v * w),
    {
        assert((g * (k * h) + 2 * (k * v)) * w <= (g * (k * p) + 8 * g * v) * w);
    }
    assert(v * m <= v * c) by (nonlinear_arith)
        requires
            m <= c,
    ;
    assert(k * h <= (k + 4) * v) by (nonlinear_arith)
        requires
            c > 0,
            k * (h * c) <= k * (v * m) + 4 * (v * c),
            v * m <= v * c,
            k == 0x20_0000_0000_0000,
    ;
    assert(v * 1 == v);
}

} // verus!
