//! How numbers are rounded.
use crate::binary64::{
    canonical, lemma_canonical_units, lemma_nearest, lemma_nearest_exists, lemma_nearest_in_binade,
    lemma_of_int, lemma_one, lemma_rounds, lemma_twice_ulp, lemma_ulp_shift, nearest, of_int, one,
    quotient, rounded, rounds_at, ulp, zero, Binary64,
};
use vstd::arithmetic::power2::{lemma_pow2_pos, pow2};
use vstd::prelude::*;

verus! {

/// How far two numbers lie apart.
pub open spec fn apart(x: nat, y: nat) -> nat {
    if x < y {
        (y - x) as nat
    } else {
        (x - y) as nat
    }
}

/// A value with at most 53 binary digits, none of them worth less than a unit.
pub open spec fn has_format(v: Binary64) -> bool {
    v.mantissa < 0x20_0000_0000_0000 && -1074 <= v.exponent <= 970
}

/// A value is its mantissa times a power of two; 1 is 2^1074 units.
pub proof fn law_units(v: Binary64)
    ensures
        v.units() == v.mantissa * pow2((1074 + v.exponent) as nat),
        one() == pow2(1074),
        zero().units() == 0,
{
    let p = ulp(0);
    assert(0 * p == 0) by (nonlinear_arith);
}

/// Of two multiples of `d`, the nearest to `a` is the one that lies at most half of `d` away.
proof fn lemma_multiples(a: nat, d: nat, m: nat, k: nat)
    requires
        d > 0,
        2 * a - d <= 2 * (m * d) <= 2 * a + d,
    ensures
        apart(a, m * d) <= apart(a, k * d),
        k != m && apart(a, m * d) == apart(a, k * d) ==> 2 * (m * d)
            == 2 * a - d || 2 * (m * d) == 2 * a + d,
{
    if k > m {
        assert(k * d >= m * d + d) by (nonlinear_arith)
            requires
                k >= m + 1,
                d > 0,
        ;
    } else if k < m {
        assert(k * d + d <= m * d) by (nonlinear_arith)
            requires
                k + 1 <= m,
                d > 0,
        ;
    }
}

/// Rounding a fraction of units gives the value nearest to it. Where two are equally near, it gives
/// one with an even mantissa.
pub proof fn law_rounding(a: nat, b: nat, v: Binary64)
    requires
        b > 0,
        a == 0 || 0x10_0000_0000_0000 * b <= a < 0x10_0000_0000_0000 * (b * pow2(2044)),
        has_format(v),
    ensures
        ({
            let r = rounded(a, b);
            let error = apart(a, b * r.units());
            let other = apart(a, b * v.units());
            &&& has_format(r) || r.exponent == 971
            &&& r.mantissa >= 0x10_0000_0000_0000 || r == zero()
            &&& error <= other
            &&& error == other && v.units() != r.units() ==> r.mantissa % 2 == 0
            &&& 0x20_0000_0000_0000 * error <= a
        }),
{
    lemma_rounds(a, b);
    let r = rounded(a, b);
    if a == 0 {
        let p = ulp(0);
        assert(0 * p == 0) by (nonlinear_arith);
        assert(b * 0 == 0) by (nonlinear_arith);
        let w = v.units();
        assert(b * w > 0 <==> w > 0) by (nonlinear_arith)
            requires
                b > 0,
                w >= 0,
        ;
    } else {
        let (e, m) = choose|e: int, m: nat| #[trigger]
            rounds_at(a, b, e, m) && r == canonical(m, e);
        let least: nat = 0x10_0000_0000_0000;
        let u = ulp(e);
        lemma_ulp_shift(e, 0);
        let d = b * u;
        assert(d > 0) by (nonlinear_arith)
            requires
                d == b * u,
                b > 0,
                u > 0,
        ;
        lemma_nearest_in_binade(a, d, m);
        lemma_canonical_units(m, e);
        let n = m * u;
        assert(b * n == m * d) by (nonlinear_arith)
            requires
                n == m * u,
                d == b * u,
        ;
        let far = v.mantissa as nat;
        let f = v.exponent as int;
        if f >= e {
            let p = pow2((f - e) as nat);
            lemma_ulp_shift(e, (f - e) as nat);
            let k = far * p;
            let w = v.units();
            assert(w == k * u) by (nonlinear_arith)
                requires
                    w == far * (u * p),
                    k == far * p,
            ;
            assert(b * w == k * d) by (nonlinear_arith)
                requires
                    w == k * u,
                    d == b * u,
            ;
            lemma_multiples(a, d, m, k);
        } else {
            lemma_twice_ulp(f, (e - f) as nat);
            lemma_ulp_shift(f, 0);
            let small = ulp(f);
            let w = v.units();
            assert(w < least * u) by (nonlinear_arith)
                requires
                    w == far * small,
                    far < 2 * least,
                    u >= 2 * small,
                    small > 0,
            ;
            assert(b * w < least * d) by (nonlinear_arith)
                requires
                    w < least * u,
                    d == b * u,
                    b > 0,
            ;
            lemma_multiples(a, d, m, least);
        }
        let error = apart(a, m * d);
        assert(2 * error <= d);
        assert(2 * least * error <= a) by (nonlinear_arith)
            requires
                2 * error <= d,
                least * d <= a,
                least == 0x10_0000_0000_0000,
        ;
    }
}

/// The whole number nearest to a fraction is nearest to it. Where two are equally near, it is the
/// even one.
pub proof fn law_nearest(n: nat, d: nat, k: nat)
    requires
        d > 0,
    ensures
        apart(n, (nearest(n, d) * d)) <= apart(n, k * d),
        k != nearest(n, d) && apart(n, (nearest(n, d) * d)) == apart(
            n,
            (k * d),
        ) ==> nearest(n, d) % 2 == 0,
{
    let m = lemma_nearest_exists(n, d);
    lemma_nearest(n, d, m);
    lemma_multiples(n, d, m, k);
}

/// The whole part of a value is the largest whole number that does not exceed it.
pub proof fn law_whole(v: Binary64)
    ensures
        v.whole() * one() <= v.units() < (v.whole() + 1) * one(),
{
    lemma_pow2_pos(1074);
    let (n, w) = (v.units(), one());
    assert((n / w) * w <= n < (n / w + 1) * w) by (nonlinear_arith)
        requires
            w > 0,
    ;
}

/// No value is nearer to a whole number than the one it is turned into; below 2^53 that is the
/// number itself.
pub proof fn law_whole_number(n: nat, v: Binary64)
    requires
        n <= u64::MAX,
        has_format(v),
    ensures
        apart(n * one(), of_int(n).units()) <= apart(
            (n * one()),
            v.units(),
        ),
        n < 0x20_0000_0000_0000 ==> of_int(n).units() == n * one(),
{
    lemma_of_int(n);
    lemma_one();
    let w = one();
    let z = pow2(2044);
    assert(z == ulp(970));
    assert(n * w == 0 || 0x10_0000_0000_0000 * 1 <= n * w < 0x10_0000_0000_0000 * (1 * z))
        by (nonlinear_arith)
        requires
            w >= 0x10_0000_0000_0000,
            z >= w * 0x1_0000_0000_0000_0000,
            n <= u64::MAX,
    ;
    law_rounding(n * w, 1, v);
}

/// No value is nearer to the exact sum, product or quotient of two values than the one that is
/// given for it.
pub proof fn law_operations(x: Binary64, y: Binary64, v: Binary64)
    requires
        has_format(v),
    ensures
        x.units() + y.units() == 0 || 0x10_0000_0000_0000 <= x.units() + y.units()
            < 0x10_0000_0000_0000 * pow2(2044) ==> apart(
            (x.units() + y.units()),
            x.plus(y).units(),
        ) <= apart(x.units() + y.units(), v.units()),
        x.units() * y.units() == 0 || 0x10_0000_0000_0000 * one() <= x.units() * y.units()
            < 0x10_0000_0000_0000 * (one() * pow2(2044)) ==> apart(
            (x.units() * y.units()),
            (one() * x.times(y).units()),
        ) <= apart(x.units() * y.units(), (one() * v.units())),
        y.units() > 0 && (x.units() * one() == 0 || 0x10_0000_0000_0000 * y.units() <= x.units()
            * one() < 0x10_0000_0000_0000 * (y.units() * pow2(2044))) ==> apart(
            (x.units() * one()),
            (y.units() * x.over(y).units()),
        ) <= apart(x.units() * one(), (y.units() * v.units())),
{
    lemma_pow2_pos(1074);
    let (a, b, w, z) = (x.units(), y.units(), one(), pow2(2044));
    if a + b == 0 || 0x10_0000_0000_0000 <= a + b < 0x10_0000_0000_0000 * z {
        law_rounding(a + b, 1, v);
    }
    if a * b == 0 || 0x10_0000_0000_0000 * w <= a * b < 0x10_0000_0000_0000 * (w * z) {
        law_rounding(a * b, w, v);
    }
    if b > 0 && (a * w == 0 || 0x10_0000_0000_0000 * b <= a * w < 0x10_0000_0000_0000 * (b * z)) {
        law_rounding(a * w, b, v);
    }
}

/// The quotient of two whole numbers is that of the values nearest to them.
pub proof fn law_quotient_of_values(n: nat, d: nat)
    ensures
        quotient(n, d) == of_int(n).over(of_int(d)),
{
}

/// No value is nearer to the fraction of two whole numbers than their quotient.
pub proof fn law_quotient(n: nat, d: nat, v: Binary64)
    requires
        n < 0x20_0000_0000_0000,
        0 < d < 0x20_0000_0000_0000,
        has_format(v),
    ensures
        apart(n * one(), d * quotient(n, d).units()) <= apart(
            (n * one()),
            (d * v.units()),
        ),
        0x20_0000_0000_0000 * apart(n * one(), d * quotient(n, d).units()) <= n
            * one(),
{
    lemma_one();
    lemma_of_int(n);
    lemma_of_int(d);
    let (w, z) = (one(), pow2(2044));
    assert(z == ulp(970));
    let (a, b) = ((n * w) * w, d * w);
    let least: nat = 0x10_0000_0000_0000;
    let k: nat = 0x1_0000_0000_0000_0000;
    assert(b > 0) by (nonlinear_arith)
        requires
            b == d * w,
            d > 0,
            w >= least * k,
            least == 0x10_0000_0000_0000,
            k == 0x1_0000_0000_0000_0000,
    ;
    if n == 0 {
        assert((0 * w) * w == 0) by (nonlinear_arith);
    } else {
        assert(least * b <= a) by (nonlinear_arith)
            requires
                b == d * w,
                a == (n * w) * w,
                0 < d < 2 * least,
                n > 0,
                w >= least * k,
                least == 0x10_0000_0000_0000,
                k == 0x1_0000_0000_0000_0000,
        {
            assert(least * d <= w);
            assert((least * d) * w <= w * w);
            assert(w * w <= (n * w) * w);
            assert(least * (d * w) == (least * d) * w);
        }
        assert(a < least * (b * z)) by (nonlinear_arith)
            requires
                b == d * w,
                a == (n * w) * w,
                d > 0,
                n < 2 * least,
                w > 0,
                z >= w * k,
                least == 0x10_0000_0000_0000,
                k == 0x1_0000_0000_0000_0000,
        {
            assert(b >= w);
            assert(b * z >= w * z);
            assert(w * z >= w * (w * k));
            assert(w * w > 0);
            assert(w * (w * k) == k * (w * w));
            assert((n * w) * w == n * (w * w));
            assert(n * (w * w) < k * (w * w));
        }
    }
    law_rounding(a, b, v);
    let q = quotient(n, d).units();
    lemma_scaled(n * w, d * q, w);
    lemma_scaled(n * w, d * v.units(), w);
    let x = v.units();
    assert(b * q == (d * q) * w && b * x == (d * x) * w) by (nonlinear_arith)
        requires
            b == d * w,
    ;
    let near = apart(n * w, d * q);
    let other = apart(n * w, d * x);
    assert(near <= other) by (nonlinear_arith)
        requires
            near * w <= other * w,
            w > 0,
    ;
    assert(2 * least * near <= n * w) by (nonlinear_arith)
        requires
            2 * least * (near * w) <= (n * w) * w,
            w > 0,
    {
        assert(2 * least * (near * w) == (2 * least * near) * w);
    }
}

proof fn lemma_scaled(x: nat, y: nat, w: nat)
    ensures
        apart(x * w, y * w) == apart(x, y) * w,
{
    assert(x <= y ==> x * w <= y * w) by (nonlinear_arith);
    assert(y <= x ==> y * w <= x * w) by (nonlinear_arith);
    assert((x - y) * w == x * w - y * w) by (nonlinear_arith);
    assert((y - x) * w == y * w - x * w) by (nonlinear_arith);
}

} // verus!
