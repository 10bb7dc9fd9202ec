//! Rounding of a non-negative fraction to the nearest IEEE 754 binary64 value
//! (round to nearest, ties to even), stated over exact integers.
//!
//! A fraction is a pair `(a, b)` standing for `a / b`.  The rounded value is again
//! such a pair, whose denominator is a power of two.
use crate::numeric::{
    ilog2, lemma_ilog2, lemma_pow2_increases, lemma_round_ge, lemma_round_le,
    lemma_round_of_equal_fractions, round_half_even,
};
use vstd::arithmetic::div_mod::*;
use vstd::arithmetic::power2::*;
use vstd::prelude::*;

verus! {

/// `2^e <= a / b`, for an exponent `e` of either sign.
pub open spec fn pow2_le(e: int, a: nat, b: nat) -> bool {
    if e >= 0 {
        pow2(e as nat) * b <= a
    } else {
        b <= a * pow2((-e) as nat)
    }
}

/// The fraction `a / b` multiplied by `2^e`, for an exponent `e` of either sign.
pub open spec fn scaled(a: nat, b: nat, e: int) -> (nat, nat) {
    if e >= 0 {
        (a * pow2(e as nat), b)
    } else {
        (a, b * pow2((-e) as nat))
    }
}

/// The exponent of the highest power of two that is at most `a / b` (for positive `a`, `b`).
pub open spec fn floor_log2(a: nat, b: nat) -> int {
    let d = ilog2(a) - ilog2(b);
    if pow2_le(d, a, b) {
        d
    } else {
        d - 1
    }
}

/// The exponent of the last significand bit of a binary64 value whose leading bit has
/// exponent `e`: 52 places below it, or the fixed exponent of the subnormal range.
pub open spec fn ulp_exponent(e: int) -> int {
    if e < -1022 {
        -1074
    } else {
        e - 52
    }
}

/// The binary64 value nearest to `a / b`, a tie going to the even significand, as a
/// fraction; `None` when the rounded magnitude reaches `2^1024` (an infinity).
pub open spec fn binary64(a: nat, b: nat) -> Option<(nat, nat)> {
    if a == 0 || b == 0 {
        Some((0, 1))
    } else {
        let q = ulp_exponent(floor_log2(a, b));
        let s = scaled(a, b, -q);
        let m = round_half_even(s.0, s.1);
        let r = scaled(m, 1, q);
        if pow2(1024) * r.1 <= r.0 {
            None
        } else {
            Some(r)
        }
    }
}

/// Comparing `a / b` with `2^e` after multiplying both sides by `2^k`.
pub proof fn lemma_pow2_le_shift(e: int, a: nat, b: nat, k: nat)
    requires
        e + k >= 0,
    ensures
        pow2_le(e, a, b) <==> pow2((e + k) as nat) * b <= a * pow2(k),
{
    if e >= 0 {
        lemma_pow2_adds(e as nat, k);
        lemma_pow2_pos(k);
        let p = pow2(e as nat);
        let pk = pow2(k);
        assert((e + k) as nat == e as nat + k);
        assert(p * pk * b <= a * pk <==> p * b <= a) by (nonlinear_arith)
            requires
                pk > 0,
        ;
        assert(pow2((e + k) as nat) * b == p * pk * b);
    } else {
        let m = (-e) as nat;
        lemma_pow2_adds((e + k) as nat, m);
        assert((e + k) as nat + m == k);
        let p = pow2((e + k) as nat);
        let pm = pow2(m);
        lemma_pow2_pos((e + k) as nat);
        assert(p * b <= a * (p * pm) <==> b <= a * pm) by (nonlinear_arith)
            requires
                p > 0,
        ;
    }
}

/// A lower power of two is still at most the fraction.
pub proof fn lemma_pow2_le_mono(e1: int, e2: int, a: nat, b: nat)
    requires
        e1 <= e2,
        pow2_le(e2, a, b),
    ensures
        pow2_le(e1, a, b),
{
    let k: nat = (if e1 < 0 { -e1 } else { 0 }) as nat;
    lemma_pow2_le_shift(e1, a, b, k);
    lemma_pow2_le_shift(e2, a, b, k);
    lemma_pow2_increases((e1 + k) as nat, (e2 + k) as nat);
    let p1 = pow2((e1 + k) as nat);
    let p2 = pow2((e2 + k) as nat);
    assert(p1 * b <= p2 * b) by (nonlinear_arith)
        requires
            p1 <= p2,
    ;
}

/// The comparison depends on the value of the fraction only.
pub proof fn lemma_pow2_le_equal_fractions(e: int, a: nat, b: nat, c: nat, d: nat)
    requires
        b > 0,
        d > 0,
        a * d == c * b,
    ensures
        pow2_le(e, a, b) == pow2_le(e, c, d),
{
    let k: nat = (if e < 0 { -e } else { 0 }) as nat;
    lemma_pow2_le_shift(e, a, b, k);
    lemma_pow2_le_shift(e, c, d, k);
    let p = pow2((e + k) as nat);
    let pk = pow2(k);
    assert(p * b <= a * pk <==> p * d <= c * pk) by (nonlinear_arith)
        requires
            a * d == c * b,
            b > 0,
            d > 0,
    ;
}

/// `floor_log2` is the exponent of the binade of the fraction.
pub proof fn lemma_floor_log2(a: nat, b: nat)
    requires
        a > 0,
        b > 0,
    ensures
        pow2_le(floor_log2(a, b), a, b),
        !pow2_le(floor_log2(a, b) + 1, a, b),
{
    let la = ilog2(a);
    let lb = ilog2(b);
    lemma_ilog2(a);
    lemma_ilog2(b);
    let d = la - lb;
    let k: nat = lb + 2;
    // 2^(d-1) <= a / b
    lemma_pow2_le_shift(d - 1, a, b, k);
    assert((d - 1 + k) as nat == la + 1);
    lemma_pow2_adds(la, 1);
    lemma_pow2_adds(lb + 1, 1);
    lemma2_to64();
    let pa = pow2(la);
    let pb = pow2(lb);
    assert(pow2(la + 1) == pa * 2);
    assert(pow2(k) == pb * 4) by {
        lemma_pow2_adds(lb, 2);
    }
    assert(pa * 2 * b <= a * (pb * 4)) by (nonlinear_arith)
        requires
            pa <= a,
            b < pb * 2,
            pa > 0,
    ;
    assert(pow2_le(d - 1, a, b));
    // not 2^(d+1) <= a / b
    lemma_pow2_le_shift(d + 1, a, b, k);
    assert((d + 1 + k) as nat == la + 3);
    assert(pow2(la + 3) == pa * 8) by {
        lemma_pow2_adds(la, 3);
    }
    assert(pa * 8 * b > a * (pb * 4)) by (nonlinear_arith)
        requires
            a < pa * 2,
            pb <= b,
            pb > 0,
    ;
    assert(!pow2_le(d + 1, a, b));
    if pow2_le(d, a, b) {
    } else {
        assert(floor_log2(a, b) == d - 1);
    }
}

/// Any exponent of the binade of the fraction is `floor_log2`.
pub proof fn lemma_floor_log2_unique(a: nat, b: nat, e: int)
    requires
        a > 0,
        b > 0,
        pow2_le(e, a, b),
        !pow2_le(e + 1, a, b),
    ensures
        floor_log2(a, b) == e,
{
    lemma_floor_log2(a, b);
    let f = floor_log2(a, b);
    if f < e {
        lemma_pow2_le_mono(f + 1, e, a, b);
    } else if f > e {
        lemma_pow2_le_mono(e + 1, f, a, b);
    }
}

/// Scaling by powers of two multiplies the fraction.
pub proof fn lemma_scaled_value(a: nat, b: nat, e: int, k: nat)
    requires
        e + k >= 0,
    ensures
        scaled(a, b, e).0 * pow2(k) * b == a * pow2((e + k) as nat) * scaled(a, b, e).1,
{
    if e >= 0 {
        lemma_pow2_adds(e as nat, k);
        assert((e + k) as nat == e as nat + k);
        let p = pow2(e as nat);
        let pk = pow2(k);
        assert(a * p * pk * b == a * (p * pk) * b) by (nonlinear_arith);
    } else {
        let m = (-e) as nat;
        lemma_pow2_adds((e + k) as nat, m);
        assert((e + k) as nat + m == k);
        let p = pow2((e + k) as nat);
        let pm = pow2(m);
        assert(a * (p * pm) * b == a * p * (b * pm)) by (nonlinear_arith);
    }
}

/// Scaling keeps the denominator positive.
pub proof fn lemma_scaled_den_pos(a: nat, b: nat, e: int)
    requires
        b > 0,
    ensures
        scaled(a, b, e).1 > 0,
{
    if e < 0 {
        lemma_pow2_pos((-e) as nat);
        assert(b * pow2((-e) as nat) > 0) by (nonlinear_arith)
            requires
                b > 0,
                pow2((-e) as nat) > 0,
        ;
    }
}

/// Two fractions of equal value scale to fractions of equal value.
pub proof fn lemma_scaled_equal_fractions(a: nat, b: nat, c: nat, d: nat, e: int)
    requires
        a * d == c * b,
    ensures
        scaled(a, b, e).0 * scaled(c, d, e).1 == scaled(c, d, e).0 * scaled(a, b, e).1,
{
    if e >= 0 {
        let p = pow2(e as nat);
        assert(a * p * d == c * p * b) by (nonlinear_arith)
            requires
                a * d == c * b,
        ;
    } else {
        let p = pow2((-e) as nat);
        assert(a * (d * p) == c * (b * p)) by (nonlinear_arith)
            requires
                a * d == c * b,
        ;
    }
}

/// Binary64 rounding depends on the value of the fraction only.
pub proof fn lemma_binary64_equal_fractions(a: nat, b: nat, c: nat, d: nat)
    requires
        b > 0,
        d > 0,
        a * d == c * b,
    ensures
        binary64(a, b) == binary64(c, d),
{
    if a == 0 {
        assert(c * b == 0);
        assert(c == 0) by (nonlinear_arith)
            requires
                c * b == 0,
                b > 0,
        ;
    } else {
        assert(c != 0) by (nonlinear_arith)
            requires
                a * d == c * b,
                a > 0,
                d > 0,
        ;
        lemma_floor_log2(a, b);
        let e = floor_log2(a, b);
        lemma_pow2_le_equal_fractions(e, a, b, c, d);
        lemma_pow2_le_equal_fractions(e + 1, a, b, c, d);
        lemma_floor_log2_unique(c, d, e);
        let q = ulp_exponent(e);
        lemma_scaled_equal_fractions(a, b, c, d, -q);
        lemma_scaled_den_pos(a, b, -q);
        lemma_scaled_den_pos(c, d, -q);
        lemma_round_of_equal_fractions(
            scaled(a, b, -q).0,
            scaled(a, b, -q).1,
            scaled(c, d, -q).0,
            scaled(c, d, -q).1,
        );
    }
}

/// Comparing a scaled fraction with a power of two.
pub proof fn lemma_pow2_le_scaled(p: int, a: nat, b: nat, s: int)
    ensures
        pow2_le(p, scaled(a, b, s).0, scaled(a, b, s).1) == pow2_le(p - s, a, b),
{
    let k: nat = (if p < 0 { -p } else { 0 }) as nat + (if s < 0 { -s } else { s }) as nat;
    let sa = scaled(a, b, s).0;
    let sb = scaled(a, b, s).1;
    lemma_pow2_le_shift(p, sa, sb, k);
    if s >= 0 {
        let ps = pow2(s as nat);
        lemma_pow2_le_shift(p - s, a, b, (s + k) as nat);
        lemma_pow2_adds(s as nat, k);
        assert((p - s + (s + k)) as nat == (p + k) as nat);
        let pp = pow2((p + k) as nat);
        let pk = pow2(k);
        assert(a * ps * pk == a * (ps * pk)) by (nonlinear_arith);
    } else {
        let ms = (-s) as nat;
        lemma_pow2_le_shift(p - s, a, b, k);
        lemma_pow2_adds((p + k) as nat, ms);
        assert((p - s + k) as nat == (p + k) as nat + ms);
        let pp = pow2((p + k) as nat);
        let pm = pow2(ms);
        assert(pp * (b * pm) == pp * pm * b) by (nonlinear_arith);
    }
}

/// A fraction with a larger numerator is at least as large.
pub proof fn lemma_pow2_le_times(p: int, a: nat, b: nat, u: nat)
    requires
        u >= 1,
        pow2_le(p, a, b),
    ensures
        pow2_le(p, a * u, b),
{
    let k: nat = (if p < 0 { -p } else { 0 }) as nat;
    lemma_pow2_le_shift(p, a, b, k);
    lemma_pow2_le_shift(p, a * u, b, k);
    let pp = pow2((p + k) as nat);
    let pk = pow2(k);
    assert(pp * b <= a * u * pk) by (nonlinear_arith)
        requires
            pp * b <= a * pk,
            u >= 1,
    ;
}

/// Multiplying a fraction below `2^p` by at most `2^g` keeps it below `2^(p + g)`.
pub proof fn lemma_pow2_le_times_bounded(p: int, a: nat, b: nat, u: nat, g: nat)
    requires
        u <= pow2(g),
        !pow2_le(p, a, b),
    ensures
        !pow2_le(p + g, a * u, b),
{
    let k: nat = (if p < 0 { -p } else { 0 }) as nat;
    lemma_pow2_le_shift(p, a, b, k);
    lemma_pow2_le_shift(p + g, a * u, b, k);
    lemma_pow2_pos(g);
    lemma_pow2_adds((p + k) as nat, g);
    assert((p + g + k) as nat == (p + k) as nat + g);
    let pp = pow2((p + k) as nat);
    let pg = pow2(g);
    let pk = pow2(k);
    assert(a * u * pk < pp * pg * b) by (nonlinear_arith)
        requires
            a * pk < pp * b,
            u <= pg,
            pg > 0,
    ;
    lemma_pow2_pos(g);
}

/// Binary64 rounding of a fraction whose binade `e` lies in the normal range: the
/// significand is `a / b` scaled to 53 integer bits and rounded.
pub proof fn lemma_binary64_normal(a: nat, b: nat, e: int)
    requires
        a > 0,
        b > 0,
        pow2_le(e, a, b),
        !pow2_le(e + 1, a, b),
        -1022 <= e <= 1000,
    ensures
        ({
            let s = scaled(a, b, 52 - e);
            let m = round_half_even(s.0, s.1);
            &&& pow2(52) <= m <= pow2(53)
            &&& binary64(a, b) == Some(scaled(m, 1, e - 52))
        }),
{
    lemma_floor_log2_unique(a, b, e);
    let s = scaled(a, b, 52 - e);
    lemma_scaled_den_pos(a, b, 52 - e);
    lemma_pow2_le_scaled(52, a, b, 52 - e);
    lemma_pow2_le_scaled(53, a, b, 52 - e);
    assert(pow2_le(52, s.0, s.1));
    assert(!pow2_le(53, s.0, s.1));
    lemma_round_ge(s.0, s.1, pow2(52));
    lemma_round_le(s.0, s.1, pow2(53));
    let m = round_half_even(s.0, s.1);
    let r = scaled(m, 1, e - 52);
    lemma_pow2_le_scaled(1024, m, 1, e - 52);
    assert(1024 - (e - 52) >= 53);
    lemma_pow2_increases(53, (1024 - (e - 52)) as nat);
    lemma_pow2_strictly_increases(53, (1024 - (e - 52)) as nat);
    assert(!pow2_le(1024, r.0, r.1));
}

/// Rounding a fraction below `2^p` gives a value at most `2^p`, hence below `2^(p + 1)`.
pub proof fn lemma_binary64_below(a: nat, b: nat, p: int)
    requires
        b > 0,
        !pow2_le(p, a, b),
        -1073 <= p <= 1023,
    ensures
        binary64(a, b) is Some,
        !pow2_le(p + 1, binary64(a, b).unwrap().0, binary64(a, b).unwrap().1),
{
    if a == 0 {
        if p + 1 < 0 {
            lemma_pow2_pos((-(p + 1)) as nat);
        } else {
            lemma_pow2_pos((p + 1) as nat);
        }
    } else {
        lemma_floor_log2(a, b);
        let e = floor_log2(a, b);
        if e >= p {
            lemma_pow2_le_mono(p, e, a, b);
        }
        let q = ulp_exponent(e);
        assert(q <= p - 1);
        let s = scaled(a, b, -q);
        lemma_scaled_den_pos(a, b, -q);
        lemma_pow2_le_scaled(p - q, a, b, -q);
        let c = pow2((p - q) as nat);
        assert(!pow2_le(p - q, s.0, s.1));
        assert(s.0 < c * s.1);
        lemma_round_le(s.0, s.1, c);
        let m = round_half_even(s.0, s.1);
        let r = scaled(m, 1, q);
        lemma_pow2_le_scaled(p + 1, m, 1, q);
        lemma_pow2_strictly_increases((p - q) as nat, (p + 1 - q) as nat);
        assert(!pow2_le(p + 1 - q, m, 1));
        assert(!pow2_le(p + 1, r.0, r.1));
        if pow2_le(1024, r.0, r.1) {
            lemma_pow2_le_mono(p + 1, 1024, r.0, r.1);
        }
    }
}

/// Rounding a fraction of at least `2^p`, with `p` in the normal range, gives a value of
/// at least `2^p` (or an infinity).
pub proof fn lemma_binary64_above(a: nat, b: nat, p: int)
    requires
        b > 0,
        pow2_le(p, a, b),
        -1022 <= p,
    ensures
        binary64(a, b) matches Some(r) ==> pow2_le(p, r.0, r.1),
{
    if a == 0 {
        if p >= 0 {
            lemma_pow2_pos(p as nat);
            assert(pow2(p as nat) * b > 0) by (nonlinear_arith)
                requires
                    pow2(p as nat) > 0,
                    b > 0,
            ;
        } else {
            assert(a * pow2((-p) as nat) == 0);
        }
    } else {
        lemma_floor_log2(a, b);
        let e = floor_log2(a, b);
        if e < p {
            lemma_pow2_le_mono(e + 1, p, a, b);
        }
        let q = ulp_exponent(e);
        assert(q == e - 52);
        let s = scaled(a, b, -q);
        lemma_scaled_den_pos(a, b, -q);
        lemma_pow2_le_scaled(52, a, b, -q);
        assert(pow2_le(52, s.0, s.1));
        lemma_round_ge(s.0, s.1, pow2(52));
        let m = round_half_even(s.0, s.1);
        lemma_pow2_le_scaled(p, m, 1, q);
        assert(p - q <= 52);
        if p - q >= 0 {
            lemma_pow2_increases((p - q) as nat, 52);
        } else {
            lemma_pow2_pos((q - p) as nat);
            lemma_pow2_pos(52);
            assert(m >= 1);
            assert(1 <= m * pow2((q - p) as nat)) by (nonlinear_arith)
                requires
                    m >= 1,
                    pow2((q - p) as nat) > 0,
            ;
            lemma_pow2_pos(52);
        }
        assert(pow2_le(p - q, m, 1));
    }
}

/// Scaling by `2^(e + 1)` doubles the scaling by `2^e`.
pub proof fn lemma_scaled_double(a: nat, b: nat, e: int)
    ensures
        2 * scaled(a, b, e).0 * scaled(a, b, e + 1).1 == scaled(a, b, e + 1).0 * scaled(a, b, e).1,
{
    if e >= 0 {
        lemma_pow2_unfold((e + 1) as nat);
        let p = pow2(e as nat);
        assert(2 * (a * p) * b == a * (2 * p) * b) by (nonlinear_arith);
    } else if e == -1 {
        assert(pow2(1) == 2 && pow2(0) == 1) by {
            lemma2_to64();
        }
        assert(2 * a * b == a * 1 * (b * 2)) by (nonlinear_arith);
    } else {
        let k = (-e - 1) as nat;
        lemma_pow2_unfold(k + 1);
        assert((-e) as nat == k + 1);
        let p = pow2(k);
        assert(2 * a * (b * p) == a * (b * (2 * p))) by (nonlinear_arith);
    }
}

/// Scaling an integer twice is scaling it once by the sum of the exponents.
pub proof fn lemma_scaled_twice(n: nat, e1: int, e2: int)
    ensures
        ({
            let x = scaled(n, 1, e1);
            let z = scaled(x.0, x.1, e2);
            let t = scaled(n, 1, e1 + e2);
            z.0 * t.1 == t.0 * z.1
        }),
{
    let x = scaled(n, 1, e1);
    let z = scaled(x.0, x.1, e2);
    let t = scaled(n, 1, e1 + e2);
    let k1: nat = (if e1 < 0 { -e1 } else { e1 }) as nat;
    let k2: nat = (if e2 < 0 { -e2 } else { e2 }) as nat;
    let k: nat = k1 + k2;
    lemma_scaled_value(n, 1, e1, k);
    lemma_scaled_value(x.0, x.1, e2, k);
    lemma_scaled_value(n, 1, e1 + e2, 2 * k);
    lemma_scaled_den_pos(n, 1, e1);
    lemma_scaled_den_pos(x.0, x.1, e2);
    lemma_pow2_adds((e1 + k) as nat, (e2 + k) as nat);
    assert((e1 + k) as nat + (e2 + k) as nat == (e1 + e2 + 2 * k) as nat);
    lemma_pow2_adds(k, k);
    assert(k + k == 2 * k);
    let pk = pow2(k);
    let p1 = pow2((e1 + k) as nat);
    let p2 = pow2((e2 + k) as nat);
    let p12 = pow2((e1 + e2 + 2 * k) as nat);
    let pkk = pow2(2 * k);
    lemma_pow2_pos(k);
    let z0 = z.0;
    let z1 = z.1;
    let x0 = x.0;
    let x1 = x.1;
    assert(z0 * pk * x1 * pk == x0 * p2 * z1 * pk) by (nonlinear_arith)
        requires
            z0 * pk * x1 == x0 * p2 * z1,
    ;
    assert(x0 * p2 * z1 * pk == (x0 * pk) * (p2 * z1)) by (nonlinear_arith);
    assert((x0 * pk) * (p2 * z1) == (n * p1 * x1) * (p2 * z1)) by (nonlinear_arith)
        requires
            x0 * pk * 1 == n * p1 * x1,
    ;
    assert((n * p1 * x1) * (p2 * z1) == n * (p1 * p2) * x1 * z1) by (nonlinear_arith);
    assert(z0 * pk * x1 * pk == z0 * (pk * pk) * x1) by (nonlinear_arith);
    assert(z.0 * pkk * x.1 == n * p12 * x.1 * z.1);
    assert(z.0 * pkk == n * p12 * z.1) by (nonlinear_arith)
        requires
            z.0 * pkk * x.1 == n * p12 * x.1 * z.1,
            x.1 > 0,
    ;
    assert(z.0 * t.1 * pkk == t.0 * z.1 * pkk) by (nonlinear_arith)
        requires
            z.0 * pkk == n * p12 * z.1,
            t.0 * pkk * 1 == n * p12 * t.1,
    ;
    assert(pkk > 0) by {
        lemma_pow2_pos(2 * k);
    }
    assert(z.0 * t.1 == t.0 * z.1) by (nonlinear_arith)
        requires
            z.0 * t.1 * pkk == t.0 * z.1 * pkk,
            pkk > 0,
    ;
}

} // verus!
