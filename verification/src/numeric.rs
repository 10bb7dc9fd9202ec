//! Integer facts shared by rendering and parsing: powers, binary logarithms and
//! rounding of a quotient to the nearest integer.
use vstd::arithmetic::div_mod::*;
use vstd::arithmetic::mul::*;
use vstd::arithmetic::power2::*;
use vstd::prelude::*;

verus! {

/// Ten to the power `k`.
pub open spec fn pow10(k: nat) -> nat
    decreases k,
{
    if k == 0 {
        1
    } else {
        10 * pow10((k - 1) as nat)
    }
}

/// The quotient `a / b` rounded to the nearest integer, a tie going to the even neighbour.
pub open spec fn round_half_even(a: nat, b: nat) -> nat {
    if b == 0 {
        0
    } else {
        let q = a / b;
        let r = a % b;
        if 2 * r < b {
            q
        } else if 2 * r > b {
            q + 1
        } else if q % 2 == 0 {
            q
        } else {
            q + 1
        }
    }
}

/// The exponent of the highest power of two that is at most `n` (0 for 0 and 1).
pub open spec fn ilog2(n: nat) -> nat
    decreases n,
{
    if n <= 1 {
        0
    } else {
        1 + ilog2(n / 2)
    }
}

/// Powers of ten are positive.
pub proof fn lemma_pow10_pos(k: nat)
    ensures
        pow10(k) > 0,
    decreases k,
{
    if k > 0 {
        lemma_pow10_pos((k - 1) as nat);
    }
}

/// `10^(a + b) == 10^a * 10^b`.
pub proof fn lemma_pow10_adds(a: nat, b: nat)
    ensures
        pow10(a + b) == pow10(a) * pow10(b),
    decreases a,
{
    if a > 0 {
        let a1 = (a - 1) as nat;
        lemma_pow10_adds(a1, b);
        assert(pow10(a1 + b + 1) == 10 * pow10(a1 + b));
        assert(a1 + b + 1 == a + b);
        assert(pow10(a) == 10 * pow10(a1));
        let x = pow10(a1);
        let y = pow10(b);
        assert(10 * (x * y) == (10 * x) * y) by (nonlinear_arith);
    } else {
        assert(a + b == b);
        assert(pow10(a) == 1);
    }
}

/// Equal fractions have equal quotients, and their remainders scale alike.
pub proof fn lemma_div_of_equal_fractions(a: nat, b: nat, c: nat, d: nat)
    requires
        b > 0,
        d > 0,
        a * d == c * b,
    ensures
        a / b == c / d,
        (a % b) * d == (c % d) * b,
{
    let q1 = a / b;
    let r1 = a % b;
    let q2 = c / d;
    let r2 = c % d;
    lemma_fundamental_div_mod(a as int, b as int);
    lemma_fundamental_div_mod(c as int, d as int);
    assert(a == b * q1 + r1);
    assert(c == d * q2 + r2);
    assert(0 <= r1 < b);
    assert(0 <= r2 < d);
    assert((b * q1 + r1) * d == (d * q2 + r2) * b);
    assert(q1 * (b * d) + r1 * d == q2 * (b * d) + r2 * b) by (nonlinear_arith)
        requires
            (b * q1 + r1) * d == (d * q2 + r2) * b,
    ;
    assert(r1 * d < b * d) by (nonlinear_arith)
        requires
            0 <= r1 < b,
            d > 0,
    ;
    assert(r2 * b < b * d) by (nonlinear_arith)
        requires
            0 <= r2 < d,
            b > 0,
    ;
    if q1 < q2 {
        assert(q1 * (b * d) + b * d <= q2 * (b * d)) by (nonlinear_arith)
            requires
                q1 < q2,
                b * d > 0,
        ;
    } else if q1 > q2 {
        assert(q2 * (b * d) + b * d <= q1 * (b * d)) by (nonlinear_arith)
            requires
                q2 < q1,
                b * d > 0,
        ;
    }
    assert(q1 == q2);
}

/// Rounding to the nearest integer depends on the value of the fraction only.
pub proof fn lemma_round_of_equal_fractions(a: nat, b: nat, c: nat, d: nat)
    requires
        b > 0,
        d > 0,
        a * d == c * b,
    ensures
        round_half_even(a, b) == round_half_even(c, d),
{
    lemma_div_of_equal_fractions(a, b, c, d);
    let r1 = a % b;
    let r2 = c % d;
    assert(2 * r1 < b <==> 2 * r2 < d) by (nonlinear_arith)
        requires
            r1 * d == r2 * b,
            b > 0,
            d > 0,
    ;
    assert(2 * r1 > b <==> 2 * r2 > d) by (nonlinear_arith)
        requires
            r1 * d == r2 * b,
            b > 0,
            d > 0,
    ;
}

/// A rounded quotient lies between the floor of the quotient and one more than it,
/// and equals the quotient when the division is exact.
pub proof fn lemma_round_bounds(a: nat, b: nat)
    requires
        b > 0,
    ensures
        a / b <= round_half_even(a, b) <= a / b + 1,
        a % b == 0 ==> round_half_even(a, b) == a / b,
{
}

/// A quotient at most `c` rounds to at most `c`.
pub proof fn lemma_round_le(a: nat, b: nat, c: nat)
    requires
        b > 0,
        a <= c * b,
    ensures
        round_half_even(a, b) <= c,
{
    lemma_fundamental_div_mod(a as int, b as int);
    let q = a / b;
    let r = a % b;
    if q >= c {
        assert(q * b >= c * b) by (nonlinear_arith)
            requires
                q >= c,
                b > 0,
        ;
        assert(r == 0 && q == c) by (nonlinear_arith)
            requires
                a == b * q + r,
                a <= c * b,
                q * b >= c * b,
                0 <= r < b,
                q >= c,
        ;
    }
}

/// A quotient at least `c` rounds to at least `c`.
pub proof fn lemma_round_ge(a: nat, b: nat, c: nat)
    requires
        b > 0,
        c * b <= a,
    ensures
        round_half_even(a, b) >= c,
{
    lemma_fundamental_div_mod(a as int, b as int);
    let q = a / b;
    if q < c {
        assert(b * (q + 1) <= c * b) by (nonlinear_arith)
            requires
                q + 1 <= c,
                b > 0,
        ;
        let r = a % b;
        assert(a < b * (q + 1)) by (nonlinear_arith)
            requires
                a == b * q + r,
                r < b,
        ;
    }
}

/// Rounding `a / b` from the floor of the doubled quotient `t` and whether that
/// doubled quotient is exact.
pub proof fn lemma_round_from_doubled(a: nat, b: nat)
    requires
        b > 0,
    ensures
        ({
            let t = (2 * a) / b;
            let exact = (2 * a) % b == 0;
            round_half_even(a, b) == if t % 2 == 0 {
                t / 2
            } else if !exact {
                t / 2 + 1
            } else if (t / 2) % 2 == 0 {
                t / 2
            } else {
                t / 2 + 1
            }
        }),
{
    let q = a / b;
    let r = a % b;
    lemma_fundamental_div_mod(a as int, b as int);
    assert(2 * a == b * (2 * q) + 2 * r) by (nonlinear_arith)
        requires
            a == b * q + r,
    ;
    assert(2 * a == (2 * q) * b + 2 * r) by (nonlinear_arith)
        requires
            2 * a == b * (2 * q) + 2 * r,
    ;
    if 2 * r < b {
        lemma_fundamental_div_mod_converse((2 * a) as int, b as int, (2 * q) as int, (2 * r) as int);
    } else {
        assert(2 * a == (2 * q + 1) * b + (2 * r - b)) by (nonlinear_arith)
            requires
                2 * a == b * (2 * q) + 2 * r,
        ;
        lemma_fundamental_div_mod_converse((2 * a) as int, b as int, (2 * q + 1) as int, 2 * r - b);
    }
}

/// `ilog2(n)` is the exponent of the largest power of two at most `n`.
pub proof fn lemma_ilog2(n: nat)
    requires
        n >= 1,
    ensures
        pow2(ilog2(n)) <= n < pow2(ilog2(n) + 1),
    decreases n,
{
    if n <= 1 {
        lemma2_to64();
    } else {
        lemma_ilog2(n / 2);
        let e = ilog2(n / 2);
        lemma_pow2_unfold(e + 1);
        lemma_pow2_unfold(e + 2);
    }
}

/// Powers of two do not decrease with the exponent.
pub proof fn lemma_pow2_increases(a: nat, b: nat)
    requires
        a <= b,
    ensures
        pow2(a) <= pow2(b),
{
    if a < b {
        lemma_pow2_strictly_increases(a, b);
    }
}

/// `2^e` computed in a `u128`.
pub fn pow2_u128(e: u32) -> (r: u128)
    requires
        e < 128,
    ensures
        r == pow2(e as nat),
{
    let mut r: u128 = 1;
    let mut i: u32 = 0;
    proof {
        lemma2_to64();
    }
    while i < e
        invariant
            i <= e < 128,
            r == pow2(i as nat),
        decreases e - i,
    {
        proof {
            lemma_pow2_unfold((i + 1) as nat);
            lemma_pow2_strictly_increases((i + 1) as nat, 128);
            vstd::bits::lemma_u64_pow2_no_overflow(0);
            lemma2_to128();
        }
        r = r * 2;
        i = i + 1;
    }
    r
}

/// The values of `2^64` and `2^128`.
pub proof fn lemma2_to128()
    ensures
        pow2(128) == 0x1_0000_0000_0000_0000_0000_0000_0000_0000,
        pow2(64) == 0x1_0000_0000_0000_0000,
{
    lemma2_to64();
    lemma_pow2_adds(64, 64);
}

/// The binary logarithm of a positive `u128`, rounded down.
pub fn ilog2_u128(n: u128) -> (r: u32)
    requires
        n >= 1,
    ensures
        r == ilog2(n as nat),
        r < 128,
        pow2(r as nat) <= n < pow2(r as nat + 1),
{
    proof {
        lemma_ilog2(n as nat);
        lemma2_to128();
        if ilog2(n as nat) >= 128 {
            lemma_pow2_increases(128, ilog2(n as nat));
        }
    }
    let mut m: u128 = n;
    let mut r: u32 = 0;
    while m > 1
        invariant
            1 <= m <= n,
            r + ilog2(m as nat) == ilog2(n as nat),
            ilog2(n as nat) < 128,
        decreases m,
    {
        m = m / 2;
        r = r + 1;
    }
    r
}

} // verus!
