//! Double-precision arithmetic on whole numbers.
//!
//! The values are those of the IEEE 754 format binary64 that are zero or positive and normal.
//! Each is a whole number of units, where a unit is the smallest positive value of the format;
//! each operation gives the value nearest to the exact result, the even one of two.
use vstd::arithmetic::power2::*;
use vstd::prelude::*;

verus! {

/// `mantissa * 2^exponent`.
#[derive(Debug, Clone, Copy, PartialEq, Eq, Structural)]
pub struct Binary64 {
    pub mantissa: u64,
    pub exponent: i32,
}

/// 2^52, the least mantissa of a normal value.
pub const LEAST_MANTISSA: u64 = 0x10_0000_0000_0000;

/// How many units make `1`: 2^1074.
pub open spec fn one() -> nat {
    pow2(1074)
}

/// How many units make `2^e`.
pub open spec fn ulp(e: int) -> nat
    recommends
        e >= -1074,
{
    pow2((1074 + e) as nat)
}

/// `m` is the whole number nearest to `n / d`, the even one of two.
pub open spec fn is_nearest(n: nat, d: nat, m: nat) -> bool {
    &&& 2 * n - d <= 2 * (m * d) <= 2 * n + d
    &&& (2 * (m * d) == 2 * n - d || 2 * (m * d) == 2 * n + d) ==> m % 2 == 0
}

/// The whole number nearest to `n / d`, the even one of two.
pub open spec fn nearest(n: nat, d: nat) -> nat {
    choose|m: nat| is_nearest(n, d, m)
}

/// `a / b` units are at least `2^52 * 2^e` and less than `2^53 * 2^e`.
pub open spec fn in_binade(a: nat, b: nat, e: int) -> bool {
    LEAST_MANTISSA * (b * ulp(e)) <= a < 2 * LEAST_MANTISSA * (b * ulp(e))
}

/// `m * 2^e`, with a mantissa below 2^53.
pub open spec fn canonical(m: nat, e: int) -> Binary64 {
    if m == 2 * LEAST_MANTISSA {
        Binary64 { mantissa: LEAST_MANTISSA, exponent: (e + 1) as i32 }
    } else {
        Binary64 { mantissa: m as u64, exponent: e as i32 }
    }
}

/// Rounding `a / b` units to 53 binary digits from the one that is worth `2^52 * 2^e` on gives
/// `m * 2^e`.
pub open spec fn rounds_at(a: nat, b: nat, e: int, m: nat) -> bool {
    -1074 <= e <= 970 && in_binade(a, b, e) && is_nearest(a, b * ulp(e), m)
}

/// `r` is the value nearest to `a / b` units, the even one of two.
pub open spec fn rounds_to(a: nat, b: nat, r: Binary64) -> bool {
    if a == 0 {
        r == zero()
    } else {
        exists|e: int, m: nat| #[trigger] rounds_at(a, b, e, m) && r == canonical(m, e)
    }
}

/// The value nearest to `a / b` units, the even one of two.
pub open spec fn rounded(a: nat, b: nat) -> Binary64 {
    choose|r: Binary64| rounds_to(a, b, r)
}

pub open spec fn zero() -> Binary64 {
    Binary64 { mantissa: 0, exponent: 0 }
}

/// The value nearest to the whole number `n`.
pub open spec fn of_int(n: nat) -> Binary64 {
    rounded(n * one(), 1)
}

/// The value nearest to `n / d`, two whole numbers below 2^53.
pub open spec fn quotient(n: nat, d: nat) -> Binary64 {
    of_int(n).over(of_int(d))
}

impl Binary64 {
    /// How many units make the value.
    pub open spec fn units(self) -> nat {
        self.mantissa as nat * ulp(self.exponent as int)
    }

    /// The value is written in the one way in which the format writes it, with an exponent from
    /// `-limit` to `limit`.
    pub open spec fn is_within(self, limit: int) -> bool {
        ||| self == zero()
        ||| LEAST_MANTISSA <= self.mantissa < 2 * LEAST_MANTISSA && -limit <= self.exponent
            <= limit
    }

    /// The value is written in the one way in which the format writes it, and is neither larger
    /// nor smaller than what is computed here.
    pub open spec fn is_canonical(self) -> bool {
        self.is_within(700)
    }

    /// `self / other`, rounded.
    pub open spec fn over(self, other: Binary64) -> Binary64 {
        rounded(self.units() * one(), other.units())
    }

    /// `self * other`, rounded.
    pub open spec fn times(self, other: Binary64) -> Binary64 {
        rounded(self.units() * other.units(), one())
    }

    /// `self + other`, rounded.
    pub open spec fn plus(self, other: Binary64) -> Binary64 {
        rounded(self.units() + other.units(), 1)
    }

    /// The whole part of the value.
    pub open spec fn whole(self) -> nat {
        self.units() / one()
    }
}

pub proof fn lemma_ulp_shift(e: int, s: nat)
    requires
        -1074 <= e,
    ensures
        ulp(e + s) == ulp(e) * pow2(s),
        ulp(e) > 0,
        pow2(s) > 0,
{
    lemma_pow2_adds((1074 + e) as nat, s);
    lemma_pow2_pos((1074 + e) as nat);
    lemma_pow2_pos(s);
}

/// Only one whole number is nearest.
proof fn lemma_nearest_unique(n: nat, d: nat, m1: nat, m2: nat)
    requires
        d > 0,
        is_nearest(n, d, m1),
        is_nearest(n, d, m2),
    ensures
        m1 == m2,
{
    if m1 < m2 {
        assert(m2 * d >= m1 * d + d) by (nonlinear_arith)
            requires
                m2 >= m1 + 1,
        ;
        assert(m2 == m1 + 1) by (nonlinear_arith)
            requires
                m2 * d == m1 * d + d,
                d > 0,
        ;
    } else if m2 < m1 {
        assert(m1 * d >= m2 * d + d) by (nonlinear_arith)
            requires
                m1 >= m2 + 1,
        ;
        assert(m1 == m2 + 1) by (nonlinear_arith)
            requires
                m1 * d == m2 * d + d,
                d > 0,
        ;
    }
}

/// A whole number that is nearest is the nearest one.
pub proof fn lemma_nearest(n: nat, d: nat, m: nat)
    requires
        d > 0,
        is_nearest(n, d, m),
    ensures
        m == nearest(n, d),
{
    lemma_nearest_unique(n, d, m, nearest(n, d));
}

/// What is at most `k` is not rounded beyond `k`.
pub proof fn lemma_nearest_bound(n: nat, d: nat, k: nat)
    requires
        d > 0,
        n <= k * d,
    ensures
        nearest(n, d) <= k,
{
    let m = lemma_nearest_exists(n, d);
    lemma_nearest(n, d, m);
    if m > k {
        assert(m * d >= k * d + d) by (nonlinear_arith)
            requires
                m >= k + 1,
        ;
    }
}

/// No value lies in two binades.
proof fn lemma_binade_unique(a: nat, b: nat, e1: int, e2: int)
    requires
        -1074 <= e1 <= e2,
        b > 0,
        in_binade(a, b, e1),
        in_binade(a, b, e2),
    ensures
        e1 == e2,
{
    if e1 < e2 {
        let s = (e2 - e1) as nat;
        lemma_ulp_shift(e1, s);
        lemma_pow2_unfold(s);
        lemma_pow2_pos((s - 1) as nat);
        let (x, y, p) = (b * ulp(e1), b * ulp(e2), pow2(s));
        assert(y == x * p) by (nonlinear_arith)
            requires
                x == b * ulp(e1),
                y == b * ulp(e2),
                ulp(e2) == ulp(e1) * p,
        ;
        assert(y >= 2 * x) by (nonlinear_arith)
            requires
                y == x * p,
                p >= 2,
        ;
        assert(LEAST_MANTISSA * y >= 2 * LEAST_MANTISSA * x) by (nonlinear_arith)
            requires
                y >= 2 * x,
        ;
    }
}

/// There is but one nearest value.
proof fn lemma_rounds_to_unique(a: nat, b: nat, r1: Binary64, r2: Binary64)
    requires
        b > 0,
        rounds_to(a, b, r1),
        rounds_to(a, b, r2),
    ensures
        r1 == r2,
{
    if a != 0 {
        let (e1, m1) = choose|e: int, m: nat| #[trigger]
            rounds_at(a, b, e, m) && r1 == canonical(m, e);
        let (e2, m2) = choose|e: int, m: nat| #[trigger]
            rounds_at(a, b, e, m) && r2 == canonical(m, e);
        if e1 <= e2 {
            lemma_binade_unique(a, b, e1, e2);
        } else {
            lemma_binade_unique(a, b, e2, e1);
        }
        lemma_ulp_shift(e1, 0);
        assert(b * ulp(e1) > 0) by (nonlinear_arith)
            requires
                b > 0,
                ulp(e1) > 0,
        ;
        lemma_nearest_unique(a, b * ulp(e1), m1, m2);
    }
}

/// A value that is nearest is the nearest value.
proof fn lemma_rounded(a: nat, b: nat, r: Binary64)
    requires
        b > 0,
        rounds_to(a, b, r),
    ensures
        r == rounded(a, b),
{
    lemma_rounds_to_unique(a, b, r, rounded(a, b));
}

/// Rounding keeps a value within its binade, or takes it to the start of the next.
pub proof fn lemma_nearest_in_binade(a: nat, d: nat, m: nat)
    requires
        d > 0,
        LEAST_MANTISSA * d <= a < 2 * LEAST_MANTISSA * d,
        is_nearest(a, d, m),
    ensures
        LEAST_MANTISSA <= m <= 2 * LEAST_MANTISSA,
{
    let l = LEAST_MANTISSA as int;
    if m < l {
        assert(m * d <= (l - 1) * d) by (nonlinear_arith)
            requires
                m <= l - 1,
        ;
        assert((l - 1) * d == l * d - d) by (nonlinear_arith);
    }
    if m > 2 * l {
        assert(m * d >= (2 * l + 1) * d) by (nonlinear_arith)
            requires
                m >= 2 * l + 1,
        ;
        assert((2 * l + 1) * d == 2 * l * d + d) by (nonlinear_arith);
    }
}

/// 2^s.
fn power_of_two(s: u32) -> (r: u128)
    requires
        s <= 127,
    ensures
        r == pow2(s as nat),
{
    let mut r: u128 = 1;
    let mut i: u32 = 0;
    proof {
        lemma2_to64();
    }
    while i < s
        invariant
            i <= s <= 127,
            r == pow2(i as nat),
        decreases s - i,
    {
        proof {
            lemma_pow2_unfold((i + 1) as nat);
            lemma_pow2_at_most_127(i as nat + 1);
        }
        r = 2 * r;
        i += 1;
    }
    r
}

proof fn lemma_pow2_at_most_127(s: nat)
    requires
        s <= 127,
    ensures
        pow2(s) <= 0x8000_0000_0000_0000_0000_0000_0000_0000,
{
    lemma2_to64();
    lemma2_to64_rest();
    lemma_pow2_adds(64, 63);
    assert(pow2(127) == 0x8000_0000_0000_0000_0000_0000_0000_0000);
    if s < 127 {
        lemma_pow2_strictly_increases(s, 127);
    }
}

/// The whole number nearest to `(v + f) / 2^s`, the even one of two, where `f` is zero, or, with
/// `more`, some fraction: `rest / d`.
fn nearest_shift(v: u128, s: u32, more: bool, Ghost(d): Ghost<nat>, Ghost(rest): Ghost<nat>) -> (r:
    u128)
    requires
        1 <= s <= 126,
        rest < d,
        more == (rest > 0),
    ensures
        is_nearest(v as nat * d + rest, d * pow2(s as nat), r as nat),
{
    let unit = power_of_two(s);
    proof {
        lemma_pow2_pos(s as nat);
    }
    let high: u128 = v / unit;
    let low: u128 = v % unit;
    let half: u128 = unit / 2;
    proof {
        lemma_pow2_unfold(s as nat);
        lemma_pow2_pos((s - 1) as nat);
        assert(unit == 2 * half);
        assert(v == high * unit + low) by (nonlinear_arith)
            requires
                high == v / unit,
                low == v % unit,
                unit > 0,
        ;
        let w = low * d + rest;
        let n = v * d + rest;
        let e = d * unit;
        assert(n == high * e + w) by (nonlinear_arith)
            requires
                n == v * d + rest,
                v == high * unit + low,
                e == d * unit,
                w == low * d + rest,
        ;
        assert((high + 1) * e == high * e + e) by (nonlinear_arith);
        assert(e == 2 * (half * d)) by (nonlinear_arith)
            requires
                e == d * unit,
                unit == 2 * half,
        ;
        assert(low * d + d <= e) by (nonlinear_arith)
            requires
                low + 1 <= unit,
                e == d * unit,
        ;
        if low < half {
            assert(low * d + d <= half * d) by (nonlinear_arith)
                requires
                    low + 1 <= half,
            ;
        } else if low > half {
            assert(low * d >= half * d + d) by (nonlinear_arith)
                requires
                    low >= half + 1,
            ;
        }
    }
    let ghost n = v as nat * d + rest;
    let ghost e = d * pow2(s as nat);
    assert(high < u128::MAX) by (nonlinear_arith)
        requires
            high == v / unit,
            unit >= 2,
            v <= u128::MAX,
    ;
    if low > half || (low == half && (more || high % 2 == 1)) {
        assert(is_nearest(n, e, (high + 1) as nat));
        high + 1
    } else {
        assert(is_nearest(n, e, high as nat));
        high
    }
}

/// The value nearest to `a / b` units, where that is `(q + f) * 2^e` with a fraction `f` that
/// is zero, or, with `more`, some fraction: `rest / (b * ulp(e))`.
fn round_parts(
    q: u128,
    more: bool,
    e: i32,
    Ghost(a): Ghost<nat>,
    Ghost(b): Ghost<nat>,
    Ghost(rest): Ghost<nat>,
) -> (r: Binary64)
    requires
        q > 0,
        q < 0x8000_0000_0000_0000_0000_0000_0000_0000,
        b > 0,
        -900 <= e <= 890,
        rest < b * ulp(e as int),
        a == q * (b * ulp(e as int)) + rest,
        more == (rest > 0),
        more ==> q >= 2 * LEAST_MANTISSA,
    ensures
        r == rounded(a, b),
        LEAST_MANTISSA <= r.mantissa < 2 * LEAST_MANTISSA,
        e - 52 <= r.exponent <= e + 76,
{
    let ghost d = b * ulp(e as int);
    let least: u128 = 0x10_0000_0000_0000;
    if q < 2 * least {
        let mut m: u128 = q;
        let mut t: i32 = 0;
        proof {
            lemma2_to64();
            lemma_ulp_shift(e as int, 0);
            assert(q * pow2(0) == q) by (nonlinear_arith)
                requires
                    pow2(0) == 1,
            ;
        }
        while m < least
            invariant
                least == 0x10_0000_0000_0000,
                0 < m < 2 * least,
                0 <= t <= 52,
                q > 0,
                m == q * pow2(t as nat),
            decreases 52 - t,
        {
            proof {
                lemma_pow2_unfold((t + 1) as nat);
                assert(2 * m == q * pow2((t + 1) as nat)) by (nonlinear_arith)
                    requires
                        m == q * pow2(t as nat),
                        pow2((t + 1) as nat) == 2 * pow2(t as nat),
                ;
                if t == 52 {
                    lemma2_to64_rest();
                    assert(m >= least) by (nonlinear_arith)
                        requires
                            m == q * pow2(52),
                            pow2(52) == least,
                            q >= 1,
                    ;
                }
            }
            m = 2 * m;
            t += 1;
        }
        let r = Binary64 { mantissa: m as u64, exponent: e - t };
        proof {
            let f = e - t;
            lemma_ulp_shift(f as int, t as nat);
            let x = b * ulp(f as int);
            assert(d == x * pow2(t as nat)) by (nonlinear_arith)
                requires
                    d == b * ulp(e as int),
                    x == b * ulp(f as int),
                    ulp(e as int) == ulp(f as int) * pow2(t as nat),
            ;
            assert(a == m * x) by (nonlinear_arith)
                requires
                    a == q * d,
                    d == x * pow2(t as nat),
                    m == q * pow2(t as nat),
            ;
            assert(x > 0) by (nonlinear_arith)
                requires
                    x == b * ulp(f as int),
                    b > 0,
                    ulp(f as int) > 0,
            ;
            assert(LEAST_MANTISSA * x <= m * x < 2 * LEAST_MANTISSA * x) by (nonlinear_arith)
                requires
                    LEAST_MANTISSA <= m < 2 * LEAST_MANTISSA,
                    x > 0,
            ;
            assert(rounds_at(a, b, f as int, m as nat));
            lemma_rounded(a, b, r);
        }
        r
    } else {
        let mut s: u32 = 1;
        let mut unit: u128 = 2;
        proof {
            lemma2_to64();
        }
        while q / unit >= 2 * least
            invariant
                least == 0x10_0000_0000_0000,
                1 <= s <= 75,
                unit == pow2(s as nat),
                unit > 0,
                least * unit <= q,
                q < 0x8000_0000_0000_0000_0000_0000_0000_0000,
            decreases 76 - s,
        {
            proof {
                lemma_pow2_unfold((s + 1) as nat);
                assert(2 * least * unit <= q) by (nonlinear_arith)
                    requires
                        q / unit >= 2 * least,
                        unit > 0,
                ;
                if s == 75 {
                    lemma_pow2_adds(75, 53);
                    lemma2_to64();
                    lemma_pow2_adds(64, 64);
                    lemma2_to64_rest();
                    assert(false);
                }
                lemma_pow2_at_most_127((s + 1) as nat);
            }
            unit = 2 * unit;
            s += 1;
        }
        let m = nearest_shift(q, s, more, Ghost(d), Ghost(rest));
        proof {
            let f = e + s;
            lemma_ulp_shift(e as int, s as nat);
            let x = b * ulp(f as int);
            assert(x == d * unit) by (nonlinear_arith)
                requires
                    d == b * ulp(e as int),
                    x == b * ulp(f as int),
                    ulp(f as int) == ulp(e as int) * unit,
            ;
            assert(d > 0) by (nonlinear_arith)
                requires
                    d == b * ulp(e as int),
                    b > 0,
                    ulp(e as int) > 0,
            ;
            assert(x > 0) by (nonlinear_arith)
                requires
                    x == d * unit,
                    d > 0,
                    unit > 0,
            ;
            assert(q < 2 * least * unit) by (nonlinear_arith)
                requires
                    q / unit < 2 * least,
                    unit > 0,
            ;
            assert(LEAST_MANTISSA * x <= a) by (nonlinear_arith)
                requires
                    LEAST_MANTISSA * unit <= q,
                    x == d * unit,
                    a >= q * d,
                    d > 0,
            ;
            assert(a < 2 * LEAST_MANTISSA * x) by (nonlinear_arith)
                requires
                    q + 1 <= 2 * LEAST_MANTISSA * unit,
                    x == d * unit,
                    a < q * d + d,
                    d > 0,
            ;
            assert(rounds_at(a, b, f as int, m as nat));
            lemma_nearest_in_binade(a, x, m as nat);
        }
        let r = if m == 2 * least {
            Binary64 { mantissa: LEAST_MANTISSA, exponent: e + s as i32 + 1 }
        } else {
            Binary64 { mantissa: m as u64, exponent: e + s as i32 }
        };
        proof {
            lemma_rounded(a, b, r);
        }
        r
    }
}

proof fn lemma_zero_rounds(b: nat)
    requires
        b > 0,
    ensures
        rounded(0, b) == zero(),
{
    assert(rounds_to(0, b, zero()));
    lemma_rounded(0, b, zero());
}

impl Binary64 {
    /// Nothing.
    pub fn nothing() -> (r: Binary64)
        ensures
            r == zero(),
    {
        Binary64 { mantissa: 0, exponent: 0 }
    }

    /// The value nearest to `n`.
    pub fn from_usize(n: usize) -> (r: Binary64)
        ensures
            r == of_int(n as nat),
            r.is_within(80),
            n > 0 ==> r != zero(),
    {
        if n == 0 {
            proof {
                assert(0 * one() == 0) by (nonlinear_arith);
                lemma_zero_rounds(1);
            }
            return Self::nothing();
        }
        proof {
            lemma_ulp_shift(0, 0);
            assert(n as nat * (1 * ulp(0)) == n as nat * one());
        }
        round_parts(n as u128, false, 0, Ghost(n as nat * one()), Ghost(1), Ghost(0))
    }

    /// `self / other`.
    pub fn divide(self, other: Binary64) -> (r: Binary64)
        requires
            self.is_within(100),
            other.is_within(100),
            other != zero(),
        ensures
            r == self.over(other),
            r.is_within(400),
    {
        let ghost a = self.units() * one();
        let ghost b = other.units();
        let ghost e1 = self.exponent as int;
        let ghost e2 = other.exponent as int;
        proof {
            lemma_ulp_shift(e2, 0);
            assert(b > 0) by (nonlinear_arith)
                requires
                    b == other.mantissa as nat * ulp(e2),
                    other.mantissa > 0,
                    ulp(e2) > 0,
            ;
        }
        if self.mantissa == 0 {
            proof {
                assert(a == 0) by (nonlinear_arith)
                    requires
                        a == self.units() * one(),
                        self.units() == 0 * ulp(e1),
                ;
                lemma_zero_rounds(b);
            }
            return Self::nothing();
        }
        let top: u128 = self.mantissa as u128 * 0x1_0000_0000_0000_0000;
        let below: u128 = other.mantissa as u128;
        let q: u128 = top / below;
        let left: u128 = top % below;
        let e: i32 = self.exponent - other.exponent - 64;
        let ghost g = pow2((2084 + e1) as nat);
        let ghost rest = left as nat * g;
        proof {
            lemma2_to64();
            lemma_pow2_pos((2084 + e1) as nat);
            lemma_pow2_adds((1074 + e1) as nat, 1074);
            lemma_pow2_adds((2084 + e1) as nat, 64);
            lemma_pow2_adds((1074 + e2) as nat, (1074 + e) as nat);
            assert(top == q * below + left) by (nonlinear_arith)
                requires
                    q == top / below,
                    left == top % below,
                    below > 0,
            ;
            assert(a == top as nat * g) by (nonlinear_arith)
                requires
                    a == (self.mantissa as nat * ulp(e1)) * one(),
                    ulp(e1) * one() == g * 0x1_0000_0000_0000_0000,
                    top == self.mantissa * 0x1_0000_0000_0000_0000,
            ;
            let d = b * ulp(e as int);
            assert(d == below as nat * g) by (nonlinear_arith)
                requires
                    d == (below as nat * ulp(e2)) * ulp(e as int),
                    ulp(e2) * ulp(e as int) == g,
            ;
            assert(a == q * d + rest) by (nonlinear_arith)
                requires
                    a == top as nat * g,
                    d == below as nat * g,
                    rest == left as nat * g,
                    top == q * below + left,
            ;
            assert(rest < d) by (nonlinear_arith)
                requires
                    rest == left as nat * g,
                    d == below as nat * g,
                    left < below,
                    g > 0,
            ;
            assert((rest > 0) == (left > 0)) by (nonlinear_arith)
                requires
                    rest == left as nat * g,
                    g > 0,
            ;
            assert(q >= 0x8000_0000_0000_0000) by (nonlinear_arith)
                requires
                    q == top / below,
                    top >= LEAST_MANTISSA * 0x1_0000_0000_0000_0000,
                    0 < below < 2 * LEAST_MANTISSA,
            ;
            assert(q <= top) by (nonlinear_arith)
                requires
                    q == top / below,
                    below > 0,
            ;
        }
        round_parts(q, left > 0, e, Ghost(a), Ghost(b), Ghost(rest))
    }

    /// `self * other`.
    pub fn multiply(self, other: Binary64) -> (r: Binary64)
        requires
            self.is_within(400),
            other.is_within(100),
        ensures
            r == self.times(other),
            r.is_within(600),
    {
        let ghost a = self.units() * other.units();
        let ghost e1 = self.exponent as int;
        let ghost e2 = other.exponent as int;
        proof {
            lemma_pow2_pos(1074);
        }
        if self.mantissa == 0 || other.mantissa == 0 {
            proof {
                assert(a == 0) by (nonlinear_arith)
                    requires
                        a == (self.mantissa as nat * ulp(e1)) * (other.mantissa as nat * ulp(e2)),
                        self.mantissa == 0 || other.mantissa == 0,
                ;
                lemma_zero_rounds(one());
            }
            return Self::nothing();
        }
        assert(0 < self.mantissa * other.mantissa < 0x400_0000_0000_0000_0000_0000_0000)
            by (nonlinear_arith)
            requires
                0 < self.mantissa < 0x20_0000_0000_0000,
                0 < other.mantissa < 0x20_0000_0000_0000,
        ;
        let q: u128 = self.mantissa as u128 * other.mantissa as u128;
        let e: i32 = self.exponent + other.exponent;
        proof {
            lemma_pow2_adds((1074 + e1) as nat, (1074 + e2) as nat);
            lemma_pow2_adds(1074, (1074 + e) as nat);
            lemma_ulp_shift(e as int, 0);
            let d = one() * ulp(e as int);
            assert(a == q * d) by (nonlinear_arith)
                requires
                    a == (self.mantissa as nat * ulp(e1)) * (other.mantissa as nat * ulp(e2)),
                    ulp(e1) * ulp(e2) == d,
                    q == self.mantissa * other.mantissa,
            ;
            assert(d > 0) by (nonlinear_arith)
                requires
                    d == one() * ulp(e as int),
                    one() > 0,
                    ulp(e as int) > 0,
            ;
        }
        round_parts(q, false, e, Ghost(a), Ghost(one()), Ghost(0))
    }

    /// `self + other`, where `self` is not zero and its exponent is not the smaller one.
    fn add_smaller(self, other: Binary64) -> (r: Binary64)
        requires
            self.is_within(600),
            other.is_within(600),
            self != zero(),
            other != zero(),
            other.exponent <= self.exponent,
        ensures
            r == self.plus(other),
            r.is_canonical(),
    {
        let ghost a = self.units() + other.units();
        let ghost e1 = self.exponent as int;
        let ghost e2 = other.exponent as int;
        let apart: i32 = self.exponent - other.exponent;
        if apart <= 73 {
            let scale = power_of_two(apart as u32);
            proof {
                lemma_ulp_shift(e2, apart as nat);
                lemma2_to64();
                lemma2_to64_rest();
                lemma_pow2_adds(64, 9);
                if apart < 73 {
                    lemma_pow2_strictly_increases(apart as nat, 73);
                }
                assert(0 < self.mantissa * scale <= 0x20_0000_0000_0000 * scale)
                    by (nonlinear_arith)
                    requires
                        0 < self.mantissa < 0x20_0000_0000_0000,
                        scale > 0,
                ;
                assert(self.mantissa * scale <= (0x20_0000_0000_0000 - 1) * scale)
                    by (nonlinear_arith)
                    requires
                        self.mantissa <= 0x20_0000_0000_0000 - 1,
                        scale > 0,
                ;
            }
            let q: u128 = self.mantissa as u128 * scale + other.mantissa as u128;
            proof {
                assert(a == q * (1 * ulp(e2))) by (nonlinear_arith)
                    requires
                        a == self.mantissa as nat * ulp(e1) + other.mantissa as nat * ulp(e2),
                        ulp(e1) == ulp(e2) * scale as nat,
                        q == self.mantissa * scale + other.mantissa,
                ;
            }
            round_parts(q, false, other.exponent, Ghost(a), Ghost(1), Ghost(0))
        } else {
            let k: i32 = apart - 73;
            let scale: u128 = 0x200_0000_0000_0000_0000;
            let mut high: u128 = 0;
            let mut low: u128 = other.mantissa as u128;
            if k <= 63 {
                let cut = power_of_two(k as u32);
                proof {
                    lemma_pow2_pos(k as nat);
                }
                high = other.mantissa as u128 / cut;
                low = other.mantissa as u128 % cut;
                assert(other.mantissa == high * cut + low) by (nonlinear_arith)
                    requires
                        high == other.mantissa as u128 / cut,
                        low == other.mantissa as u128 % cut,
                        cut > 0,
                ;
                assert(high <= other.mantissa) by (nonlinear_arith)
                    requires
                        high == other.mantissa as u128 / cut,
                        cut > 0,
                ;
            } else {
                proof {
                    lemma2_to64();
                    if k > 64 {
                        lemma_pow2_strictly_increases(64, k as nat);
                    }
                    assert(0 * pow2(k as nat) == 0) by (nonlinear_arith);
                }
            }
            let ghost cut = pow2(k as nat);
            assert(other.mantissa == high * cut + low && low < cut);
            let e: i32 = self.exponent - 73;
            let ghost rest = low as nat * ulp(e2);
            let q: u128 = self.mantissa as u128 * scale + high;
            proof {
                lemma2_to64();
                lemma2_to64_rest();
                lemma_pow2_adds(64, 9);
                lemma_ulp_shift(e as int, 73);
                lemma_ulp_shift(e2, k as nat);
                let d = 1 * ulp(e as int);
                assert(a == q * d + rest) by (nonlinear_arith)
                    requires
                        a == self.mantissa as nat * ulp(e1) + other.mantissa as nat * ulp(e2),
                        ulp(e1) == ulp(e as int) * scale as nat,
                        d == ulp(e as int),
                        d == ulp(e2) * cut,
                        other.mantissa == high * cut + low,
                        rest == low as nat * ulp(e2),
                        q == self.mantissa * scale + high,
                ;
                assert(rest < d) by (nonlinear_arith)
                    requires
                        rest == low as nat * ulp(e2),
                        d == ulp(e2) * cut,
                        low < cut,
                        ulp(e2) > 0,
                ;
                assert((rest > 0) == (low > 0)) by (nonlinear_arith)
                    requires
                        rest == low as nat * ulp(e2),
                        ulp(e2) > 0,
                ;
            }
            round_parts(q, low > 0, e, Ghost(a), Ghost(1), Ghost(rest))
        }
    }

    /// The value itself is the value nearest to it.
    fn again(self) -> (r: Binary64)
        requires
            self.is_within(600),
        ensures
            r == rounded(self.units(), 1),
            r.is_canonical(),
    {
        if self.mantissa == 0 {
            proof {
                assert(self.units() == 0) by (nonlinear_arith)
                    requires
                        self.units() == 0 * ulp(self.exponent as int),
                ;
                lemma_zero_rounds(1);
            }
            return Self::nothing();
        }
        proof {
            lemma_ulp_shift(self.exponent as int, 0);
            assert(self.mantissa as nat * (1 * ulp(self.exponent as int)) == self.units());
        }
        round_parts(
            self.mantissa as u128,
            false,
            self.exponent,
            Ghost(self.units()),
            Ghost(1),
            Ghost(0),
        )
    }

    /// `self + other`.
    pub fn plus_value(self, other: Binary64) -> (r: Binary64)
        requires
            self.is_within(600),
            other.is_within(600),
        ensures
            r == self.plus(other),
            r.is_canonical(),
    {
        if self.mantissa == 0 {
            proof {
                assert(self.units() == 0) by (nonlinear_arith)
                    requires
                        self.units() == 0 * ulp(self.exponent as int),
                ;
            }
            return other.again();
        }
        if other.mantissa == 0 {
            proof {
                assert(other.units() == 0) by (nonlinear_arith)
                    requires
                        other.units() == 0 * ulp(other.exponent as int),
                ;
            }
            return self.again();
        }
        if other.exponent <= self.exponent {
            self.add_smaller(other)
        } else {
            other.add_smaller(self)
        }
    }

    /// Whether the value is less than `other`.
    pub fn is_less(self, other: Binary64) -> (r: bool)
        requires
            self.is_canonical(),
            other.is_canonical(),
        ensures
            r == (self.units() < other.units()),
    {
        proof {
            lemma_order(self, other);
            lemma_order(other, self);
        }
        if self.mantissa == 0 || other.mantissa == 0 {
            self.mantissa < other.mantissa
        } else if self.exponent == other.exponent {
            self.mantissa < other.mantissa
        } else {
            self.exponent < other.exponent
        }
    }
}

impl Binary64 {
    /// `n / d`.
    pub fn ratio(n: usize, d: usize) -> (r: Binary64)
        requires
            d > 0,
        ensures
            r == quotient(n as nat, d as nat),
            r.is_within(400),
    {
        Self::from_usize(n).divide(Self::from_usize(d))
    }

    /// The whole part of the value; the largest `usize` where that is larger still.
    pub fn truncate(self) -> (r: usize)
        requires
            self.is_canonical(),
        ensures
            r == if self.whole() > usize::MAX {
                usize::MAX as nat
            } else {
                self.whole()
            },
    {
        let ghost e = self.exponent as int;
        let ghost m = self.mantissa as nat;
        if self.mantissa == 0 {
            proof {
                lemma_pow2_pos(1074);
                assert(self.units() == 0) by (nonlinear_arith)
                    requires
                        self.units() == 0 * ulp(e),
                ;
                assert(0nat / one() == 0) by (nonlinear_arith)
                    requires
                        one() > 0,
                ;
            }
            return 0;
        }
        if self.exponent >= 0 {
            proof {
                lemma_ulp_shift(0, e as nat);
                let p = pow2(e as nat);
                assert(self.units() == (m * p) * one()) by (nonlinear_arith)
                    requires
                        self.units() == m * ulp(e),
                        ulp(e) == one() * p,
                ;
                vstd::arithmetic::div_mod::lemma_div_by_multiple((m * p) as int, one() as int);
                assert(self.whole() == m * p);
            }
            if self.exponent >= 12 {
                proof {
                    lemma2_to64();
                    if e > 12 {
                        lemma_pow2_strictly_increases(12, e as nat);
                    }
                    assert(m * pow2(e as nat) >= 0x1_0000_0000_0000_0000) by (nonlinear_arith)
                        requires
                            m >= 0x10_0000_0000_0000,
                            pow2(e as nat) >= 0x1000,
                    ;
                }
                return usize::MAX;
            }
            let scale = power_of_two(self.exponent as u32);
            proof {
                lemma2_to64();
                lemma_pow2_strictly_increases(e as nat, 12);
                assert(m * scale < 0x2_0000_0000_0000_0000) by (nonlinear_arith)
                    requires
                        m < 0x20_0000_0000_0000,
                        scale < 0x1000,
                ;
            }
            let v: u128 = self.mantissa as u128 * scale;
            if v > usize::MAX as u128 {
                usize::MAX
            } else {
                v as usize
            }
        } else {
            let k: i32 = -self.exponent;
            proof {
                lemma_ulp_shift(e, k as nat);
                let (u, p) = (ulp(e), pow2(k as nat));
                vstd::arithmetic::div_mod::lemma_div_multiples_vanish_quotient(
                    u as int,
                    m as int,
                    p as int,
                );
                assert(u * m == self.units()) by (nonlinear_arith)
                    requires
                        self.units() == m * u,
                ;
                assert(self.whole() == m / p);
            }
            if k > 52 {
                proof {
                    lemma2_to64_rest();
                    if k > 53 {
                        lemma_pow2_strictly_increases(53, k as nat);
                    }
                    assert(m / pow2(k as nat) == 0) by (nonlinear_arith)
                        requires
                            m < 0x20_0000_0000_0000 <= pow2(k as nat),
                    ;
                }
                return 0;
            }
            let cut = power_of_two(k as u32);
            let v: u128 = self.mantissa as u128 / cut;
            proof {
                assert(v <= m) by (nonlinear_arith)
                    requires
                        v == m / cut as nat,
                        cut > 0,
                ;
            }
            if v > usize::MAX as u128 {
                usize::MAX
            } else {
                v as usize
            }
        }
    }

    /// The whole number nearest to `self * k`, the even one of two.
    pub fn nearest_multiple(self, k: u64) -> (r: u64)
        requires
            self.is_canonical(),
            self.units() <= LEAST_MANTISSA * one(),
            k <= 1000,
        ensures
            r == nearest(self.units() * k as nat, one()),
    {
        proof {
            lemma_small_exponent(self);
            lemma_pow2_pos(1074);
        }
        let ghost e = self.exponent as int;
        let ghost m = self.mantissa as nat;
        assert(m * k <= 0x20_0000_0000_0000 * 1000) by (nonlinear_arith)
            requires
                m <= 0x20_0000_0000_0000,
                k <= 1000,
        ;
        let v: u128 = self.mantissa as u128 * k as u128;
        let s: i32 = -self.exponent;
        let ghost u = ulp(e);
        let ghost p = pow2(s as nat);
        proof {
            lemma_ulp_shift(e, s as nat);
            assert(self.units() * k as nat == v as nat * u) by (nonlinear_arith)
                requires
                    self.units() == m * u,
                    v == m * k,
            ;
        }
        if s == 0 {
            proof {
                assert(is_nearest(v as nat * one(), one(), v as nat));
                lemma_nearest(v as nat * one(), one(), v as nat);
            }
            return v as u64;
        }
        if s > 126 {
            proof {
                lemma2_to64();
                lemma_pow2_strictly_increases(64, s as nat);
                assert(2 * (v as nat * u) < u * p) by (nonlinear_arith)
                    requires
                        2 * v < p,
                        u > 0,
                ;
                assert(0 * one() == 0) by (nonlinear_arith);
                lemma_nearest(v as nat * u, one(), 0);
            }
            return 0;
        }
        let r = nearest_shift(v, s as u32, false, Ghost(u), Ghost(0));
        proof {
            assert(r <= v + 1) by (nonlinear_arith)
                requires
                    2 * (r * (u * p)) <= 2 * (v * u) + u * p,
                    u > 0,
                    p >= 1,
            ;
            lemma_nearest(v as nat * u, one(), r as nat);
        }
        r as u64
    }

    /// The 64 bits that the format encodes the value in.
    pub fn to_bits(self) -> (r: u64)
        requires
            self.is_canonical(),
        ensures
            r == if self == zero() {
                0
            } else {
                (self.exponent + 1074) * LEAST_MANTISSA + self.mantissa
            },
    {
        if self.mantissa == 0 {
            0
        } else {
            (self.exponent + 1074) as u64 * LEAST_MANTISSA + self.mantissa
        }
    }
}

/// How many units `m * 2^e` makes.
pub proof fn lemma_canonical_units(m: nat, e: int)
    requires
        -1074 <= e <= 970,
        m <= 2 * LEAST_MANTISSA,
    ensures
        canonical(m, e).units() == m * ulp(e),
{
    if m == 2 * LEAST_MANTISSA {
        lemma_ulp_shift(e, 1);
        lemma2_to64();
        let u = ulp(e);
        assert(LEAST_MANTISSA as nat * (u * 2) == 2 * LEAST_MANTISSA as nat * u) by (nonlinear_arith);
    }
}

/// Rounding keeps order: of two quotients, the larger one is not rounded to the smaller value.
pub proof fn lemma_rounding_keeps_order(
    a1: nat,
    b1: nat,
    r1: Binary64,
    a2: nat,
    b2: nat,
    r2: Binary64,
)
    requires
        b1 > 0,
        b2 > 0,
        rounds_to(a1, b1, r1),
        rounds_to(a2, b2, r2),
        a1 * b2 <= a2 * b1,
    ensures
        r1.units() <= r2.units(),
{
    if a1 == 0 {
        assert(r1.units() == 0) by (nonlinear_arith)
            requires
                r1.units() == 0 * ulp(0),
        ;
    } else {
        assert(a2 > 0) by (nonlinear_arith)
            requires
                a1 > 0,
                b2 > 0,
                a1 * b2 <= a2 * b1,
        ;
        let (e1, m1) = choose|e: int, m: nat| #[trigger]
            rounds_at(a1, b1, e, m) && r1 == canonical(m, e);
        let (e2, m2) = choose|e: int, m: nat| #[trigger]
            rounds_at(a2, b2, e, m) && r2 == canonical(m, e);
        let (u1, u2) = (ulp(e1), ulp(e2));
        lemma_ulp_shift(e1, 0);
        lemma_ulp_shift(e2, 0);
        let (d1, d2) = (b1 * u1, b2 * u2);
        assert(d1 > 0) by (nonlinear_arith)
            requires
                b1 > 0,
                u1 > 0,
                d1 == b1 * u1,
        ;
        assert(d2 > 0) by (nonlinear_arith)
            requires
                b2 > 0,
                u2 > 0,
                d2 == b2 * u2,
        ;
        lemma_nearest_in_binade(a1, d1, m1);
        lemma_nearest_in_binade(a2, d2, m2);
        lemma_canonical_units(m1, e1);
        lemma_canonical_units(m2, e2);
        if e1 > e2 {
            let s = (e1 - e2) as nat;
            lemma_twice_ulp(e2, s);
            assert(a1 * b2 > a2 * b1) by (nonlinear_arith)
                requires
                    a1 >= LEAST_MANTISSA * (b1 * u1),
                    a2 < 2 * LEAST_MANTISSA * (b2 * u2),
                    u1 >= 2 * u2,
                    b1 > 0,
                    b2 > 0,
            {
                assert(a1 * b2 >= LEAST_MANTISSA * (b1 * u1) * b2);
                assert(a2 * b1 < 2 * LEAST_MANTISSA * (b2 * u2) * b1);
                assert(b1 * u1 >= b1 * (2 * u2));
                assert(LEAST_MANTISSA * (b1 * u1) * b2 >= LEAST_MANTISSA * (b1 * (2 * u2)) * b2);
                assert(LEAST_MANTISSA * (b1 * (2 * u2)) * b2 == 2 * LEAST_MANTISSA * (b2 * u2)
                    * b1);
            }
        } else if e1 < e2 {
            let s = (e2 - e1) as nat;
            lemma_twice_ulp(e1, s);
            assert(m1 * u1 <= m2 * u2) by (nonlinear_arith)
                requires
                    m1 <= 2 * LEAST_MANTISSA,
                    m2 >= LEAST_MANTISSA,
                    u2 >= 2 * u1,
            {
                assert(m1 * u1 <= 2 * LEAST_MANTISSA * u1);
                assert(LEAST_MANTISSA * u2 >= LEAST_MANTISSA * (2 * u1));
                assert(m2 * u2 >= LEAST_MANTISSA * u2);
            }
        } else {
            lemma_nearest_keeps_order(a1, b1, m1, a2, b2, m2, u1);
            assert(m1 * u1 <= m2 * u1) by (nonlinear_arith)
                requires
                    m1 <= m2,
            ;
        }
    }
}

pub proof fn lemma_twice_ulp(e: int, s: nat)
    requires
        -1074 <= e,
        s > 0,
    ensures
        ulp(e + s) >= 2 * ulp(e),
{
    lemma_ulp_shift(e, s);
    lemma_pow2_unfold(s);
    lemma_pow2_pos((s - 1) as nat);
    let (u, v, p) = (ulp(e), ulp(e + s), pow2(s));
    assert(v >= 2 * u) by (nonlinear_arith)
        requires
            v == u * p,
            p >= 2,
    ;
}

proof fn lemma_nearest_keeps_order(
    a1: nat,
    b1: nat,
    m1: nat,
    a2: nat,
    b2: nat,
    m2: nat,
    u: nat,
)
    requires
        b1 > 0,
        b2 > 0,
        u > 0,
        is_nearest(a1, b1 * u, m1),
        is_nearest(a2, b2 * u, m2),
        a1 * b2 <= a2 * b1,
    ensures
        m1 <= m2,
{
    if m1 > m2 {
        let w = (b1 * b2) * u;
        let (x1, x2) = (m1 * (b1 * u), m2 * (b2 * u));
        assert(2 * (m1 * w) <= 2 * (a1 * b2) + w && (2 * (m1 * w) == 2 * (a1 * b2) + w ==> 2 * x1
            == 2 * a1 + b1 * u)) by (nonlinear_arith)
            requires
                2 * x1 <= 2 * a1 + b1 * u,
                x1 == m1 * (b1 * u),
                w == (b1 * b2) * u,
                b2 > 0,
        {
            assert((2 * x1) * b2 <= (2 * a1 + b1 * u) * b2);
            assert((2 * x1) * b2 == 2 * (m1 * w));
            assert((2 * a1 + b1 * u) * b2 == 2 * (a1 * b2) + w);
        }
        assert(2 * (m2 * w) >= 2 * (a2 * b1) - w && (2 * (m2 * w) == 2 * (a2 * b1) - w ==> 2 * x2
            == 2 * a2 - b2 * u)) by (nonlinear_arith)
            requires
                2 * x2 >= 2 * a2 - b2 * u,
                x2 == m2 * (b2 * u),
                w == (b1 * b2) * u,
                b1 > 0,
        {
            assert((2 * x2) * b1 >= (2 * a2 - b2 * u) * b1);
            assert((2 * x2) * b1 == 2 * (m2 * w));
            assert((2 * a2 - b2 * u) * b1 == 2 * (a2 * b1) - w);
        }
        assert(w > 0) by (nonlinear_arith)
            requires
                w == (b1 * b2) * u,
                b1 > 0,
                b2 > 0,
                u > 0,
        ;
        assert(m1 * w >= m2 * w + w) by (nonlinear_arith)
            requires
                m1 >= m2 + 1,
        ;
        assert(m1 == m2 + 1) by (nonlinear_arith)
            requires
                m1 * w == m2 * w + w,
                w > 0,
        ;
    }
}

/// A whole number below 2^53 is a value of the format.
pub proof fn lemma_of_int_is_exact(n: nat, r: Binary64)
    requires
        n < 2 * LEAST_MANTISSA,
        rounds_to(n * one(), 1, r),
    ensures
        r.units() == n * one(),
{
    lemma_pow2_pos(1074);
    if n == 0 {
        assert(0 * one() == 0) by (nonlinear_arith);
        assert(0 * ulp(0) == 0) by (nonlinear_arith);
    } else {
        assert(n * one() > 0) by (nonlinear_arith)
            requires
                n > 0,
                one() > 0,
        ;
        let (e, m) = choose|e: int, m: nat| #[trigger]
            rounds_at(n * one(), 1, e, m) && r == canonical(m, e);
        lemma_ulp_shift(e, 0);
        let u = ulp(e);
        lemma_nearest_in_binade(n * one(), 1 * u, m);
        lemma_canonical_units(m, e);
        if e > 0 {
            lemma_twice_ulp(0, e as nat);
            assert(n * one() < LEAST_MANTISSA * u) by (nonlinear_arith)
                requires
                    n < 2 * LEAST_MANTISSA,
                    u >= 2 * one(),
                    one() > 0,
            ;
        } else {
            let p = pow2((-e) as nat);
            lemma_ulp_shift(e, (-e) as nat);
            assert(n * one() == (n * p) * u) by (nonlinear_arith)
                requires
                    one() == u * p,
            ;
            assert(is_nearest(n * one(), 1 * u, n * p));
            lemma_nearest_unique(n * one(), 1 * u, m, n * p);
        }
    }
}


/// `a / b` units are nothing, or neither too small nor too large for a normal value.
pub open spec fn fits(a: nat, b: nat) -> bool {
    a == 0 || LEAST_MANTISSA * b <= a < LEAST_MANTISSA * (b * ulp(970))
}

proof fn lemma_binade_exists(a: nat, b: nat, e: int) -> (r: int)
    requires
        -1074 <= e <= 970,
        LEAST_MANTISSA * (b * ulp(e)) <= a < LEAST_MANTISSA * (b * ulp(970)),
    ensures
        -1074 <= r <= 970,
        in_binade(a, b, r),
    decreases 970 - e,
{
    if a < 2 * LEAST_MANTISSA * (b * ulp(e)) {
        e
    } else {
        lemma_ulp_shift(e, 1);
        lemma2_to64();
        let (u, v) = (ulp(e), ulp(e + 1));
        assert(LEAST_MANTISSA * (b * v) == 2 * LEAST_MANTISSA * (b * u)) by (nonlinear_arith)
            requires
                v == u * 2,
        ;
        lemma_binade_exists(a, b, e + 1)
    }
}

pub proof fn lemma_nearest_exists(a: nat, d: nat) -> (m: nat)
    requires
        d > 0,
    ensures
        is_nearest(a, d, m),
{
    let q = a / d;
    let rest = a % d;
    vstd::arithmetic::div_mod::lemma_fundamental_div_mod(a as int, d as int);
    assert(d * q == q * d) by (nonlinear_arith);
    assert((q + 1) * d == q * d + d) by (nonlinear_arith);
    if 2 * rest < d || (2 * rest == d && q % 2 == 0) {
        q
    } else {
        q + 1
    }
}

/// What neither is too small nor too large has a nearest value, which is nothing only where it
/// is nothing itself.
pub proof fn lemma_rounds(a: nat, b: nat)
    requires
        b > 0,
        fits(a, b),
    ensures
        rounds_to(a, b, rounded(a, b)),
        a == 0 ==> rounded(a, b).units() == 0,
        a > 0 ==> rounded(a, b).units() >= LEAST_MANTISSA,
{
    if a == 0 {
        assert(rounds_to(a, b, zero()));
        assert(0 * ulp(0) == 0) by (nonlinear_arith);
    } else {
        lemma_ulp_shift(-1074, 0);
        lemma2_to64();
        assert(b * ulp(-1074) == b) by (nonlinear_arith)
            requires
                ulp(-1074) == 1,
        ;
        let e = lemma_binade_exists(a, b, -1074);
        lemma_ulp_shift(e, 0);
        let u = ulp(e);
        assert(b * u > 0) by (nonlinear_arith)
            requires
                b > 0,
                u > 0,
        ;
        let m = lemma_nearest_exists(a, b * u);
        assert(rounds_at(a, b, e, m));
        assert(rounds_to(a, b, canonical(m, e)));
        lemma_rounded(a, b, canonical(m, e));
        lemma_nearest_in_binade(a, b * u, m);
        lemma_canonical_units(m, e);
        assert(m * u >= LEAST_MANTISSA) by (nonlinear_arith)
            requires
                m >= LEAST_MANTISSA,
                u >= 1,
        ;
    }
}

/// A value is nothing, or not too small for a normal one.
pub proof fn lemma_size(x: Binary64)
    requires
        x.is_canonical(),
    ensures
        x.units() == 0 || x.units() >= LEAST_MANTISSA,
{
    lemma_ulp_shift(x.exponent as int, 0);
    let (m, u) = (x.mantissa as nat, ulp(x.exponent as int));
    assert(m == 0 ==> m * u == 0) by (nonlinear_arith);
    assert(m >= LEAST_MANTISSA ==> m * u >= LEAST_MANTISSA) by (nonlinear_arith)
        requires
            u >= 1,
    ;
}

proof fn lemma_small_exponent(x: Binary64)
    requires
        x.is_canonical(),
        x.units() <= LEAST_MANTISSA * one(),
    ensures
        x.exponent <= 0,
{
    if x.exponent > 0 {
        lemma_twice_ulp(0, x.exponent as nat);
        lemma_pow2_pos(1074);
        let (m, u, w) = (x.mantissa as nat, ulp(x.exponent as int), one());
        assert(m * u > LEAST_MANTISSA * w) by (nonlinear_arith)
            requires
                m >= LEAST_MANTISSA,
                u >= 2 * w,
                w > 0,
        ;
    }
}

/// How large `1`, and how much larger the largest unit.
pub proof fn lemma_one()
    ensures
        one() >= LEAST_MANTISSA * 0x1_0000_0000_0000_0000,
        ulp(970) >= one() * 0x1_0000_0000_0000_0000,
        ulp(970) >= one() * 0x1_0000_0000_0000_0000_0000_0000_0000_0000,
{
    lemma2_to64();
    lemma2_to64_rest();
    lemma_pow2_adds(52, 64);
    lemma_pow2_strictly_increases(116, 1074);
    lemma_pow2_adds(1074, 970);
    lemma_pow2_adds(64, 64);
    lemma_pow2_strictly_increases(128, 970);
    let (x, y) = (one(), pow2(970));
    assert(x * y >= x * 0x1_0000_0000_0000_0000_0000_0000_0000_0000) by (nonlinear_arith)
        requires
            y >= 0x1_0000_0000_0000_0000_0000_0000_0000_0000,
    ;
}

/// Whole numbers of up to 64 binary digits: they have a nearest value, and those below 2^53 are
/// values themselves.
pub proof fn lemma_of_int(n: nat)
    requires
        n <= u64::MAX,
    ensures
        rounds_to(n * one(), 1, of_int(n)),
        of_int(n).units() <= 0x1_0000_0000_0000_0000 * one(),
        n > 0 ==> of_int(n).units() >= one(),
        n < 2 * LEAST_MANTISSA ==> of_int(n).units() == n * one(),
{
    lemma_one();
    let k: nat = 0x1_0000_0000_0000_0000;
    let w = one();
    let z = ulp(970);
    assert(n * w <= k * w) by (nonlinear_arith)
        requires
            n <= k,
    ;
    assert(n > 0 ==> n * w >= w) by (nonlinear_arith);
    assert(n == 0 ==> n * w == 0) by (nonlinear_arith);
    assert(LEAST_MANTISSA * (1 * z) > k * w) by (nonlinear_arith)
        requires
            z >= w * k,
            w > 0,
            k > 0,
    ;
    lemma_rounds(n * w, 1);
    if n < 2 * LEAST_MANTISSA {
        lemma_of_int_is_exact(n, of_int(n));
    }
    // 2^64 is a value of the format: its nearest value is no larger than itself.
    let e: int = 12;
    lemma_ulp_shift(0, 12);
    lemma2_to64();
    let u = ulp(e);
    let m = LEAST_MANTISSA as nat;
    assert(k * w == m * (1 * u)) by (nonlinear_arith)
        requires
            u == w * 4096,
            m == 0x10_0000_0000_0000,
            k == 0x1_0000_0000_0000_0000,
    ;
    assert(2 * m * (1 * u) > m * (1 * u)) by (nonlinear_arith)
        requires
            m > 0,
            u > 0,
    ;
    assert(rounds_at(k * w, 1, e, m));
    lemma_canonical_units(m, e);
    assert(rounds_to(k * w, 1, canonical(m, e)));
    lemma_rounding_keeps_order(n * w, 1, of_int(n), k * w, 1, canonical(m, e));
    if n > 0 {
        assert(rounds_to(1 * w, 1, of_int(1))) by {
            assert(1 * w == w);
            lemma_rounds(w, 1);
        }
        lemma_of_int_is_exact(1, of_int(1));
        lemma_rounding_keeps_order(1 * w, 1, of_int(1), n * w, 1, of_int(n));
    }
}

/// The quotient of two whole numbers: it has a nearest value; with a larger dividend it is not
/// smaller; it is at most `1` where the dividend does not exceed the divisor, and `1` where they
/// are equal.
pub proof fn lemma_quotient(n1: nat, n2: nat, d: nat)
    requires
        n1 <= n2 <= u64::MAX,
        0 < d <= u64::MAX,
    ensures
        quotient(n1, d).units() <= quotient(n2, d).units(),
        n1 <= d ==> quotient(n1, d).units() <= one(),
        quotient(d, d).units() == one(),
        quotient(n1, d).units() == 0 <==> n1 == 0,
        n1 > 0 ==> quotient(n1, d).units() >= LEAST_MANTISSA,
        quotient(n1, d).units() <= 0x1_0000_0000_0000_0000 * one(),
{
    lemma_of_int(d);
    lemma_of_int(n1);
    lemma_of_int(n2);
    let w = one();
    let b = of_int(d).units();
    lemma_quotient_rounds(n1, d);
    lemma_quotient_rounds(n2, d);
    lemma_quotient_rounds(d, d);
    lemma_larger_of_int(n1, n2);
    let (x1, x2) = (of_int(n1).units(), of_int(n2).units());
    assert((x1 * w) * b <= (x2 * w) * b) by (nonlinear_arith)
        requires
            x1 <= x2,
    ;
    lemma_rounding_keeps_order(x1 * w, b, quotient(n1, d), x2 * w, b, quotient(n2, d));
    // A value over itself is exactly one.
    lemma_of_int(1);
    assert(1 * w == w);
    assert((b * w) * 1 == w * b) by (nonlinear_arith);
    assert(w * b <= (b * w) * 1 && (b * w) * 1 <= w * b);
    lemma_rounding_keeps_order(b * w, b, quotient(d, d), w, 1, of_int(1));
    lemma_rounding_keeps_order(w, 1, of_int(1), b * w, b, quotient(d, d));
    if n1 <= d {
        lemma_larger_of_int(n1, d);
        assert((x1 * w) * b <= (b * w) * b) by (nonlinear_arith)
            requires
                x1 <= b,
        ;
        lemma_rounding_keeps_order(x1 * w, b, quotient(n1, d), b * w, b, quotient(d, d));
    }
    assert(x1 * w > 0 <==> x1 > 0) by (nonlinear_arith)
        requires
            w > 0,
    ;
    assert(0 * w == 0) by (nonlinear_arith);
    if n1 > 0 {
        // A quotient does not exceed its dividend.
        lemma_value_rounds_to_itself(n1);
        assert((x1 * w) * 1 <= x1 * b) by (nonlinear_arith)
            requires
                w <= b,
        ;
        lemma_rounding_keeps_order(x1 * w, b, quotient(n1, d), x1, 1, of_int(n1));
    }
}

/// A value that is not too large, times a whole number: it has a nearest value, which with a
/// larger value is not smaller.
pub proof fn lemma_times_keeps_order(x: Binary64, y: Binary64, k: nat)
    requires
        x.units() <= y.units() <= 0x1_0000_0000_0000_0000 * one(),
        x.units() == 0 || x.units() >= LEAST_MANTISSA,
        y.units() == 0 || y.units() >= LEAST_MANTISSA,
        0 < k <= u64::MAX,
    ensures
        x.times(of_int(k)).units() <= y.times(of_int(k)).units(),
        rounds_to(x.units() * of_int(k).units(), one(), x.times(of_int(k))),
        rounds_to(y.units() * of_int(k).units(), one(), y.times(of_int(k))),
        x.times(of_int(k)).units() == 0 || x.times(of_int(k)).units() >= LEAST_MANTISSA,
        y.times(of_int(k)).units() == 0 || y.times(of_int(k)).units() >= LEAST_MANTISSA,
        x.times(of_int(k)).units() == 0 <==> x.units() == 0,
        fits(y.units() * of_int(k).units(), one()),
{
    lemma_one();
    lemma_of_int(k);
    let w = one();
    let z = ulp(970);
    let t = of_int(k).units();
    let (u, v) = (x.units(), y.units());
    let (a, b) = (u * t, v * t);
    assert(u == 0 ==> u * t == 0) by (nonlinear_arith);
    assert(v == 0 ==> v * t == 0) by (nonlinear_arith);
    assert(v * t < LEAST_MANTISSA * (w * z)) by (nonlinear_arith)
        requires
            v <= 0x1_0000_0000_0000_0000 * w,
            t <= 0x1_0000_0000_0000_0000 * w,
            z >= w * 0x1_0000_0000_0000_0000_0000_0000_0000_0000,
            w > 0,
    {
        assert(v * t <= (0x1_0000_0000_0000_0000 * w) * (0x1_0000_0000_0000_0000 * w));
        assert((0x1_0000_0000_0000_0000 * w) * (0x1_0000_0000_0000_0000 * w) == w * (w
            * 0x1_0000_0000_0000_0000_0000_0000_0000_0000));
        assert(w * (w * 0x1_0000_0000_0000_0000_0000_0000_0000_0000) <= w * z);
        assert(w * z > 0);
    }
    assert(u * t <= v * t) by (nonlinear_arith)
        requires
            u <= v,
    ;
    assert(u >= LEAST_MANTISSA ==> u * t >= LEAST_MANTISSA * w && u * t > 0) by (nonlinear_arith)
        requires
            t >= w,
            w > 0,
    ;
    assert(v >= LEAST_MANTISSA ==> v * t >= LEAST_MANTISSA * w) by (nonlinear_arith)
        requires
            t >= w,
    ;
    lemma_rounds(a, w);
    lemma_rounds(b, w);
    assert(a * w <= b * w) by (nonlinear_arith)
        requires
            a <= b,
    ;
    lemma_rounding_keeps_order(a, w, x.times(of_int(k)), b, w, y.times(of_int(k)));
}

/// A value from 0 to 1, times a whole number: it has a nearest value, at most that number, which
/// with a larger value is not smaller.
pub proof fn lemma_times(x: Binary64, y: Binary64, k: nat)
    requires
        x.units() <= y.units() <= one(),
        x.units() == 0 || x.units() >= LEAST_MANTISSA,
        y.units() == 0 || y.units() >= LEAST_MANTISSA,
        0 < k <= u64::MAX,
    ensures
        x.times(of_int(k)).units() <= y.times(of_int(k)).units() <= of_int(k).units(),
        k < 2 * LEAST_MANTISSA ==> of_int(k).units() == k * one(),
        x.times(of_int(k)).units() == 0 || x.times(of_int(k)).units() >= LEAST_MANTISSA,
        y.times(of_int(k)).units() == 0 || y.times(of_int(k)).units() >= LEAST_MANTISSA,
        x.times(of_int(k)).units() == 0 <==> x.units() == 0,
{
    lemma_one();
    lemma_of_int(k);
    let w = one();
    let t = of_int(k).units();
    let b = y.units() * t;
    lemma_times_keeps_order(x, y, k);
    // The number itself is a value: what does not exceed it is not rounded beyond it.
    lemma_value_rounds_to_itself(k);
    let v = y.units();
    assert(b * 1 <= t * w) by (nonlinear_arith)
        requires
            b == v * t,
            v <= w,
    ;
    lemma_rounding_keeps_order(b, w, y.times(of_int(k)), t, 1, of_int(k));
}

/// Rounding takes away at most the 2^53rd part.
proof fn lemma_rounding_error(a: nat, b: nat, r: Binary64)
    requires
        b > 0,
        rounds_to(a, b, r),
    ensures
        2 * LEAST_MANTISSA * (b * r.units()) >= (2 * LEAST_MANTISSA - 1) * a,
{
    if a == 0 {
        assert((2 * LEAST_MANTISSA - 1) * 0 == 0) by (nonlinear_arith);
    } else {
        let (e, m) = choose|e: int, m: nat| #[trigger]
            rounds_at(a, b, e, m) && r == canonical(m, e);
        let u = ulp(e);
        lemma_ulp_shift(e, 0);
        let d = b * u;
        assert(d > 0) by (nonlinear_arith)
            requires
                d == b * u,
                b > 0,
                u > 0,
        ;
        lemma_nearest_in_binade(a, d, m);
        lemma_canonical_units(m, e);
        let v = m * u;
        assert(b * v == m * d) by (nonlinear_arith)
            requires
                v == m * u,
                d == b * u,
        ;
        assert(2 * LEAST_MANTISSA * (m * d) >= (2 * LEAST_MANTISSA - 1) * a) by (nonlinear_arith)
            requires
                2 * (m * d) >= 2 * a - d,
                a >= LEAST_MANTISSA * d,
        ;
    }
}

/// A whole number, times a hundredth more than one, is at least that number.
pub proof fn lemma_hundredth_more(n: nat)
    requires
        0 < n <= u64::MAX,
    ensures
        quotient(101, 100).times(of_int(n)).units() >= n * one(),
{
    lemma_one();
    lemma_of_int(n);
    lemma_of_int(100);
    lemma_of_int(101);
    lemma_quotient(101, 101, 100);
    lemma_quotient_rounds(101, 100);
    let w = one();
    let x = quotient(101, 100);
    lemma_times_keeps_order(x, x, n);
    let (q, v, t) = (x.units(), of_int(n).units(), x.times(of_int(n)).units());
    let k: nat = 0x20_0000_0000_0000;
    let l: nat = 0x1f_ffff_ffff_ffff;
    lemma_rounding_error(n * w, 1, of_int(n));
    lemma_rounding_error((101 * w) * w, 100 * w, x);
    lemma_rounding_error(q * v, w, x.times(of_int(n)));
    assert(k * v >= l * (n * w));
    assert(100 * k * q >= 101 * l * w) by (nonlinear_arith)
        requires
            k * ((100 * w) * q) >= l * ((101 * w) * w),
            w > 0,
    ;
    assert(k * (w * t) >= l * (q * v));
    assert(t >= n * w) by (nonlinear_arith)
        requires
            k * v >= l * (n * w),
            100 * k * q >= 101 * l * w,
            k * (w * t) >= l * (q * v),
            k == 0x20_0000_0000_0000,
            l == 0x1f_ffff_ffff_ffff,
            w > 0,
            n > 0,
    {
        let (x1, y1) = (100 * k * q, k * v);
        let (x2, y2) = (101 * l * w, l * (n * w));
        assert(x1 * y1 >= x2 * y2);
        assert(100 * k * k * (k * (w * t)) >= 100 * k * k * (l * (q * v)));
        assert(100 * k * k * (l * (q * v)) == l * (x1 * y1));
        assert(l * (x1 * y1) >= l * (x2 * y2));
        assert(l * (x2 * y2) == (101 * l * l * l) * (w * (n * w)));
        assert(100 * k * k * (k * (w * t)) == (100 * k * k * k) * (w * t));
        assert(101 * l * l * l >= 100 * k * k * k);
        assert(w * (n * w) > 0);
        assert((101 * l * l * l) * (w * (n * w)) >= (100 * k * k * k) * (w * (n * w)));
        assert((100 * k * k * k) * (w * t) >= (100 * k * k * k) * (w * (n * w)));
        assert(w * t >= w * (n * w));
    }
}

/// One times a whole number is that number.
pub proof fn lemma_times_one(x: Binary64, k: nat)
    requires
        x.units() == one(),
        0 < k <= u64::MAX,
    ensures
        x.times(of_int(k)).units() == of_int(k).units(),
{
    lemma_one();
    lemma_times(x, x, k);
    lemma_value_rounds_to_itself(k);
    let w = one();
    let t = of_int(k).units();
    let a = w * t;
    assert(t * w <= a * 1) by (nonlinear_arith)
        requires
            a == w * t,
    ;
    lemma_of_int(k);
    let z = ulp(970);
    assert(LEAST_MANTISSA * w <= a && a < LEAST_MANTISSA * (w * z)) by (nonlinear_arith)
        requires
            a == w * t,
            t >= w,
            w >= LEAST_MANTISSA * 0x1_0000_0000_0000_0000,
            t <= 0x1_0000_0000_0000_0000 * w,
            z >= w * 0x1_0000_0000_0000_0000,
    {
        assert(t <= z);
        assert(w * t <= w * z);
        assert(w * z > 0);
        assert(w * t >= LEAST_MANTISSA * w);
    }
    lemma_rounds(a, w);
    lemma_rounding_keeps_order(t, 1, of_int(k), a, w, x.times(of_int(k)));
}

/// The value nearest to a whole number is the value nearest to itself.
proof fn lemma_value_rounds_to_itself(k: nat)
    requires
        0 < k <= u64::MAX,
    ensures
        rounds_to(of_int(k).units(), 1, of_int(k)),
{
    lemma_of_int(k);
    lemma_one();
    let w = one();
    assert(k * w > 0) by (nonlinear_arith)
        requires
            k > 0,
            w > 0,
    ;
    let (e, m) = choose|e: int, m: nat| #[trigger]
        rounds_at(k * w, 1, e, m) && of_int(k) == canonical(m, e);
    let u = ulp(e);
    lemma_ulp_shift(e, 0);
    lemma_nearest_in_binade(k * w, 1 * u, m);
    lemma_canonical_units(m, e);
    if m < 2 * LEAST_MANTISSA {
        lemma_exact(m * u, 1, m, e);
    } else {
        lemma_ulp_shift(e, 1);
        lemma2_to64();
        lemma_canonical_units(LEAST_MANTISSA as nat, e + 1);
        assert(m * u == LEAST_MANTISSA as nat * (u * 2)) by (nonlinear_arith)
            requires
                m == 2 * LEAST_MANTISSA,
        ;
        if e + 1 > 970 {
            lemma_twice_ulp(12, (e + 1 - 12) as nat);
            lemma_ulp_shift(0, 12);
            assert(m * u > 0x1_0000_0000_0000_0000 * w) by (nonlinear_arith)
                requires
                    m * u == LEAST_MANTISSA as nat * (u * 2),
                    u * 2 >= 2 * (w * 4096),
                    w > 0,
            ;
        }
        lemma_exact(m * u, 1, LEAST_MANTISSA as nat, e + 1);
    }
}

/// A value of the format is nearest to itself.
proof fn lemma_exact(a: nat, b: nat, m: nat, e: int)
    requires
        b > 0,
        LEAST_MANTISSA <= m < 2 * LEAST_MANTISSA,
        -1074 <= e <= 970,
        a == m * (b * ulp(e)),
    ensures
        rounds_to(a, b, (Binary64 { mantissa: m as u64, exponent: e as i32 })),
        rounded(a, b) == (Binary64 { mantissa: m as u64, exponent: e as i32 }),
        a > 0,
{
    let r = Binary64 { mantissa: m as u64, exponent: e as i32 };
    lemma_ulp_shift(e, 0);
    let d = b * ulp(e);
    assert(d > 0) by (nonlinear_arith)
        requires
            d == b * ulp(e),
            b > 0,
            ulp(e) > 0,
    ;
    assert(LEAST_MANTISSA * d <= m * d && m * d < 2 * LEAST_MANTISSA * d && m * d > 0)
        by (nonlinear_arith)
        requires
            LEAST_MANTISSA <= m,
            m < 2 * LEAST_MANTISSA,
            d > 0,
    ;
    assert(is_nearest(a, d, m));
    assert(rounds_at(a, b, e, m));
    assert(canonical(m, e) == r);
    lemma_rounded(a, b, r);
}

/// How many units make `2^-53`.
proof fn lemma_small_unit()
    ensures
        one() == 0x20_0000_0000_0000 * ulp(-53),
        ulp(-53) > 0,
{
    lemma_ulp_shift(-53, 53);
    lemma2_to64();
    lemma2_to64_rest();
    assert(pow2(53) == 0x20_0000_0000_0000);
    let u = ulp(-53);
    assert(u * 0x20_0000_0000_0000 == 0x20_0000_0000_0000 * u);
}

/// The quotient of two whole numbers below 2^53, compared with `m * 2^-53`.
proof fn lemma_quotient_against(n: nat, d: nat, m: nat)
    requires
        n < 2 * LEAST_MANTISSA,
        0 < d < 2 * LEAST_MANTISSA,
        LEAST_MANTISSA <= m < 2 * LEAST_MANTISSA,
    ensures
        n * 0x20_0000_0000_0000 <= m * d ==> quotient(n, d).units() <= m * ulp(-53),
        n * 0x20_0000_0000_0000 >= m * d ==> quotient(n, d).units() >= m * ulp(-53),
{
    lemma_small_unit();
    lemma_of_int(n);
    lemma_of_int(d);
    lemma_quotient_rounds(n, d);
    let w = one();
    let u = ulp(-53);
    let k: nat = 0x20_0000_0000_0000;
    let r = Binary64 { mantissa: m as u64, exponent: -53i32 };
    lemma_exact(m * (1 * u), 1, m, -53);
    let (a, b) = ((n * w) * w, d * w);
    let c = m * u;
    assert(c == m * (1 * u));
    assert(a * 1 == (n * k) * u * w && c * b == (m * d) * u * w) by (nonlinear_arith)
        requires
            a == (n * w) * w,
            b == d * w,
            c == m * u,
            w == k * u,
    ;
    if n * k <= m * d {
        assert((n * k) * u * w <= (m * d) * u * w) by (nonlinear_arith)
            requires
                n * k <= m * d,
        ;
        lemma_rounding_keeps_order(a, b, quotient(n, d), c, 1, r);
    }
    if n * k >= m * d {
        assert((n * k) * u * w >= (m * d) * u * w) by (nonlinear_arith)
            requires
                n * k >= m * d,
        ;
        lemma_rounding_keeps_order(c, 1, r, a, b, quotient(n, d));
    }
}

/// A half: a quotient exceeds it exactly where the dividend exceeds half of the divisor.
pub proof fn lemma_exceeds_half(n: nat, d: nat)
    requires
        n < 2 * LEAST_MANTISSA,
        0 < d <= LEAST_MANTISSA,
    ensures
        quotient(n, d).units() > quotient(1, 2).units() <==> 2 * n > d,
{
    lemma_small_unit();
    let m = LEAST_MANTISSA as nat;
    let u = ulp(-53);
    lemma_quotient_against(1, 2, m);
    if 2 * n > d {
        assert(n * 0x20_0000_0000_0000 >= (m + 1) * d) by (nonlinear_arith)
            requires
                2 * n >= d + 1,
                d <= m,
                m == 0x10_0000_0000_0000,
        ;
        lemma_quotient_against(n, d, m + 1);
        assert((m + 1) * u > m * u) by (nonlinear_arith)
            requires
                u > 0,
        ;
    } else {
        assert(n * 0x20_0000_0000_0000 <= m * d) by (nonlinear_arith)
            requires
                2 * n <= d,
                m == 0x10_0000_0000_0000,
        ;
        lemma_quotient_against(n, d, m);
    }
}

/// Nine tenths: a quotient reaches them exactly where the dividend reaches nine tenths of the
/// divisor.
pub proof fn lemma_reaches_nine_tenths(n: nat, d: nat)
    requires
        n < 2 * LEAST_MANTISSA,
        0 < 4 * d <= LEAST_MANTISSA,
    ensures
        quotient(n, d).units() >= quotient(9, 10).units() <==> 10 * n >= 9 * d,
{
    // 9/10 lies between 8106479329266892 and 8106479329266893 times 2^-53, nearer to the latter.
    let m: nat = 8106479329266893;
    lemma_small_unit();
    let u = ulp(-53);
    lemma_nine_tenths();
    if 10 * n >= 9 * d {
        lemma_of_int(n);
        lemma_of_int(d);
        lemma_of_int(9);
        lemma_of_int(10);
        lemma_quotient_rounds(n, d);
        lemma_quotient_rounds(9, 10);
        let w = one();
        let (a1, b1) = ((9 * w) * w, 10 * w);
        let (a2, b2) = ((n * w) * w, d * w);
        assert(a1 * b2 <= a2 * b1) by (nonlinear_arith)
            requires
                a1 == (9 * w) * w,
                b1 == 10 * w,
                a2 == (n * w) * w,
                b2 == d * w,
                10 * n >= 9 * d,
        {
            assert(a1 * b2 == (9 * d) * (w * w * w));
            assert(a2 * b1 == (10 * n) * (w * w * w));
        }
        lemma_rounding_keeps_order(a1, b1, quotient(9, 10), a2, b2, quotient(n, d));
    } else {
        let below: nat = 8106479329266892;
        assert(n * 0x20_0000_0000_0000 <= below * d) by (nonlinear_arith)
            requires
                10 * n <= 9 * d - 1,
                4 * d <= 0x10_0000_0000_0000,
                below == 8106479329266892,
        ;
        lemma_quotient_against(n, d, below);
        assert(below * u < m * u) by (nonlinear_arith)
            requires
                below < m,
                u > 0,
        ;
    }
}

proof fn lemma_nine_tenths()
    ensures
        quotient(9, 10).units() == 8106479329266893 * ulp(-53),
{
    lemma_small_unit();
    lemma_of_int(9);
    lemma_of_int(10);
    let w = one();
    let u = ulp(-53);
    let m: nat = 8106479329266893;
    let (a, b) = ((9 * w) * w, 10 * w);
    let d = b * u;
    let x = w * u;
    assert(d == 10 * x) by (nonlinear_arith)
        requires
            d == (10 * w) * u,
            x == w * u,
    ;
    assert(a == 81064793292668928 * x) by (nonlinear_arith)
        requires
            a == (9 * w) * w,
            w == 0x20_0000_0000_0000 * u,
            x == w * u,
    ;
    assert(x > 0) by (nonlinear_arith)
        requires
            x == w * u,
            w == 0x20_0000_0000_0000 * u,
            u > 0,
    ;
    assert(m * d == 81064793292668930 * x) by (nonlinear_arith)
        requires
            d == 10 * x,
            m == 8106479329266893,
    ;
    assert(LEAST_MANTISSA * d <= a < 2 * LEAST_MANTISSA * d) by (nonlinear_arith)
        requires
            d == 10 * x,
            a == 81064793292668928 * x,
            x > 0,
    ;
    assert(is_nearest(a, d, m));
    assert(rounds_at(a, b, -53, m));
    assert(rounds_to(a, b, canonical(m, -53)));
    assert(b > 0);
    lemma_rounded(a, b, canonical(m, -53));
}

/// Three quarters: a quotient reaches them exactly where the dividend reaches three quarters of
/// the divisor.
pub proof fn lemma_reaches_three_quarters(n: nat, d: nat)
    requires
        n < 2 * LEAST_MANTISSA,
        0 < 4 * d <= LEAST_MANTISSA,
    ensures
        quotient(n, d).units() >= quotient(3, 4).units() <==> 4 * n >= 3 * d,
{
    let m: nat = 0x18_0000_0000_0000;
    lemma_small_unit();
    let u = ulp(-53);
    lemma_quotient_against(3, 4, m);
    if 4 * n >= 3 * d {
        assert(n * 0x20_0000_0000_0000 >= m * d) by (nonlinear_arith)
            requires
                4 * n >= 3 * d,
                m == 0x18_0000_0000_0000,
        ;
        lemma_quotient_against(n, d, m);
    } else {
        let below = (m - 1) as nat;
        assert(n * 0x20_0000_0000_0000 <= below * d) by (nonlinear_arith)
            requires
                4 * n <= 3 * d - 1,
                4 * d <= 0x10_0000_0000_0000,
                below == 0x18_0000_0000_0000 - 1,
        ;
        lemma_quotient_against(n, d, below);
        assert(below * u < m * u) by (nonlinear_arith)
            requires
                below < m,
                u > 0,
        ;
    }
}

/// The sum of two values that are no larger than `k` together, a small whole number: it has a
/// nearest value, at most `k`, which with larger values is not smaller.
pub proof fn lemma_plus(x1: Binary64, y1: Binary64, x2: Binary64, y2: Binary64, k: nat)
    requires
        x1.units() <= x2.units(),
        y1.units() <= y2.units(),
        x2.units() + y2.units() <= k * one(),
        x1.units() == 0 || x1.units() >= LEAST_MANTISSA,
        y1.units() == 0 || y1.units() >= LEAST_MANTISSA,
        x2.units() == 0 || x2.units() >= LEAST_MANTISSA,
        y2.units() == 0 || y2.units() >= LEAST_MANTISSA,
        k <= 1000,
    ensures
        x1.plus(y1).units() <= x2.plus(y2).units() <= k * one(),
{
    lemma_one();
    lemma_of_int(k);
    let w = one();
    let z = ulp(970);
    assert(k * w < LEAST_MANTISSA * (1 * z)) by (nonlinear_arith)
        requires
            k <= 1000,
            z >= w * 0x1_0000_0000_0000_0000,
            w > 0,
    ;
    let (a, b) = (x1.units() + y1.units(), x2.units() + y2.units());
    lemma_rounds(a, 1);
    lemma_rounds(b, 1);
    lemma_rounding_keeps_order(a, 1, x1.plus(y1), b, 1, x2.plus(y2));
    lemma_rounding_keeps_order(b, 1, x2.plus(y2), k * w, 1, of_int(k));
}

proof fn lemma_larger_of_int(n1: nat, n2: nat)
    requires
        n1 <= n2 <= u64::MAX,
    ensures
        of_int(n1).units() <= of_int(n2).units(),
        one() > 0,
{
    lemma_one();
    lemma_of_int(n1);
    lemma_of_int(n2);
    let w = one();
    assert((n1 * w) * 1 <= (n2 * w) * 1) by (nonlinear_arith)
        requires
            n1 <= n2,
    ;
    lemma_rounding_keeps_order(n1 * w, 1, of_int(n1), n2 * w, 1, of_int(n2));
}

pub proof fn lemma_quotient_rounds(n: nat, d: nat)
    requires
        n <= u64::MAX,
        0 < d <= u64::MAX,
    ensures
        rounds_to(of_int(n).units() * one(), of_int(d).units(), quotient(n, d)),
        of_int(d).units() > 0,
        n > 0 ==> quotient(n, d).units() >= LEAST_MANTISSA,
        n == 0 ==> quotient(n, d).units() == 0,
{
    lemma_one();
    lemma_of_int(n);
    lemma_of_int(d);
    let k: nat = 0x1_0000_0000_0000_0000;
    let w = one();
    let (a, b) = (of_int(n).units(), of_int(d).units());
    let z = ulp(970);
    if n == 0 {
        assert(0 * w == 0) by (nonlinear_arith);
        assert(a == 0);
        assert(a * w == 0) by (nonlinear_arith)
            requires
                a == 0,
        ;
    } else {
        assert(LEAST_MANTISSA * b <= a * w) by (nonlinear_arith)
            requires
                b <= k * w,
                a >= w,
                w >= LEAST_MANTISSA * k,
        {
            assert(LEAST_MANTISSA * b <= LEAST_MANTISSA * (k * w));
            assert(LEAST_MANTISSA * (k * w) == (LEAST_MANTISSA * k) * w);
            assert((LEAST_MANTISSA * k) * w <= w * w);
            assert(w * w <= a * w);
        }
        assert(a * w < LEAST_MANTISSA * (b * z)) by (nonlinear_arith)
            requires
                a <= k * w,
                b >= w,
                z >= w * k,
                w > 0,
                k > 0,
        {
            assert(a * w <= (k * w) * w);
            assert(b * z >= w * (w * k));
            assert((k * w) * w == w * (w * k));
            assert(w * (w * k) > 0);
        }
        assert(a * w > 0) by (nonlinear_arith)
            requires
                a > 0,
                w > 0,
        ;
    }
    lemma_rounds(a * w, b);
}


/// Values are ordered by their exponents, and then by their mantissas.
proof fn lemma_order(a: Binary64, b: Binary64)
    requires
        a.is_canonical(),
        b.is_canonical(),
    ensures
        a.mantissa == 0 ==> a.units() == 0,
        a.mantissa != 0 ==> a.units() > 0,
        b.mantissa != 0 && a.exponent < b.exponent ==> a.units() < b.units(),
        a.exponent == b.exponent ==> (a.mantissa < b.mantissa <==> a.units() < b.units()),
{
    let (e1, e2) = (a.exponent as int, b.exponent as int);
    let (m1, m2) = (a.mantissa as nat, b.mantissa as nat);
    let (u1, u2) = (ulp(e1), ulp(e2));
    lemma_ulp_shift(e1, 0);
    lemma_ulp_shift(e2, 0);
    assert(m1 * u1 > 0 <==> m1 > 0) by (nonlinear_arith)
        requires
            u1 > 0,
    ;
    if e1 == e2 {
        assert(m1 < m2 <==> m1 * u1 < m2 * u1) by (nonlinear_arith)
            requires
                u1 > 0,
        ;
    }
    if m2 != 0 && e1 < e2 {
        let s = (e2 - e1) as nat;
        lemma_ulp_shift(e1, s);
        lemma_pow2_unfold(s);
        lemma_pow2_pos((s - 1) as nat);
        let p = pow2(s);
        assert(u2 >= 2 * u1) by (nonlinear_arith)
            requires
                u2 == u1 * p,
                p >= 2,
        ;
        assert(m1 * u1 < m2 * u2) by (nonlinear_arith)
            requires
                m1 < 2 * LEAST_MANTISSA,
                m2 >= LEAST_MANTISSA,
                u2 >= 2 * u1,
                u1 > 0,
        ;
    }
}

} // verus!
