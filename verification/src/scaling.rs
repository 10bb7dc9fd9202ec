//! Multiplying a decimal number by a unit the way binary64 arithmetic does it: the
//! decimal is rounded to the nearest binary64 value, the product with the unit is
//! rounded again, and the result is truncated to an integer byte count (saturating
//! at `u64::MAX`, an infinity included).  Everything is computed exactly in integers.
use crate::binary64::{
    binary64, lemma_binary64_above, lemma_binary64_below, lemma_binary64_equal_fractions,
    lemma_binary64_normal, lemma_pow2_le_equal_fractions, lemma_pow2_le_scaled,
    lemma_pow2_le_shift, lemma_pow2_le_times, lemma_pow2_le_times_bounded, lemma_scaled_den_pos,
    lemma_scaled_double, lemma_scaled_twice, pow2_le, scaled,
};
use crate::digits::{
    all_digits, digit_char, digit_of, digit_value, digits_value, is_digit, lemma_digit_char,
    lemma_digit_roundtrip, lemma_digits_value_append, lemma_digits_value_bound,
    lemma_digits_value_push, lemma_digits_value_single, lemma_digits_value_zero,
};
use crate::render::{holds_integer, round_div};
use crate::text::push_chars;
use crate::numeric::{
    ilog2, ilog2_u128, lemma2_to128, lemma_ilog2, lemma_pow10_pos, lemma_pow2_increases,
    lemma_round_bounds, lemma_round_from_doubled, lemma_div_of_equal_fractions, pow10,
    lemma_round_of_equal_fractions,
    pow2_u128, round_half_even,
};
use vstd::arithmetic::div_mod::*;
use vstd::arithmetic::power2::*;
use vstd::prelude::*;

verus! {

/// The value of a digit character as a number.
pub fn digit_value_of(c: char) -> (d: u32)
    requires
        is_digit(c),
    ensures
        d == digit_value(c),
        d < 10,
{
    (c as u32) - 48
}

/// Doubles a fixed-width decimal fraction in place, returning the digit carried out:
/// `2 * old == carry * 10^k + new` for `k` digits.
pub fn double_digits(v: &mut Vec<char>) -> (carry: u32)
    requires
        all_digits(old(v)@),
    ensures
        all_digits(final(v)@),
        final(v)@.len() == old(v)@.len(),
        carry <= 1,
        2 * digits_value(old(v)@) == carry * pow10(old(v)@.len()) + digits_value(final(v)@),
{
    let ghost orig = v@;
    let len = v.len();
    let mut i: usize = len;
    let mut carry: u32 = 0;
    proof {
        assert(orig.subrange(len as int, len as int) =~= Seq::<char>::empty());
        assert(v@.subrange(len as int, len as int) =~= Seq::<char>::empty());
    }
    while i > 0
        invariant
            i <= len == v@.len() == orig.len(),
            all_digits(orig),
            carry <= 1,
            v@.subrange(0, i as int) == orig.subrange(0, i as int),
            all_digits(v@.subrange(i as int, len as int)),
            2 * digits_value(orig.subrange(i as int, len as int)) == carry * pow10(
                (len - i) as nat,
            ) + digits_value(v@.subrange(i as int, len as int)),
        decreases i,
    {
        let ghost old_v = v@;
        let c = v[i - 1];
        proof {
            assert(v@.subrange(0, i as int)[i - 1] == v@[i - 1]);
            assert(orig.subrange(0, i as int)[i - 1] == orig[i - 1]);
            assert(c == orig[i - 1]);
            assert(is_digit(orig[i - 1]));
        }
        let d = digit_value_of(c);
        let x = 2 * d + carry;
        let nd = digit_of((x % 10) as u64);
        v.set(i - 1, nd);
        let ghost k = (len - i) as nat;
        proof {
            lemma_digit_char((x % 10) as nat);
            let os = orig.subrange(i as int, len as int);
            let ns = old_v.subrange(i as int, len as int);
            assert(orig.subrange(i - 1, len as int) =~= seq![c] + os);
            assert(v@.subrange(i - 1, len as int) =~= seq![nd] + ns);
            lemma_digits_value_append(seq![c], os);
            lemma_digits_value_append(seq![nd], ns);
            lemma_digits_value_single(c);
            lemma_digits_value_single(nd);
            assert(pow10(k + 1) == 10 * pow10(k));
            let pk = pow10(k);
            assert(2 * (d * pk + digits_value(os)) == (x / 10) * (10 * pk) + ((x % 10) * pk
                + digits_value(ns))) by (nonlinear_arith)
                requires
                    2 * digits_value(os) == carry * pk + digits_value(ns),
                    x == 2 * d + carry,
                    x == 10 * (x / 10) + x % 10,
            ;
            assert(v@.subrange(0, i - 1) =~= orig.subrange(0, i - 1));
            assert forall|j: int| 0 <= j < v@.subrange(i - 1, len as int).len() implies #[trigger] is_digit(
                v@.subrange(i - 1, len as int)[j],
            ) by {
                if j > 0 {
                    assert(v@.subrange(i - 1, len as int)[j] == ns[j - 1]);
                    assert(is_digit(old_v.subrange(i as int, len as int)[j - 1]));
                }
            }
        }
        carry = x / 10;
        i = i - 1;
    }
    proof {
        assert(orig.subrange(0, len as int) =~= orig);
        assert(v@.subrange(0, len as int) =~= v@);
    }
    carry
}

/// Whether every digit of `v` is `0`, that is whether it spells zero.
pub fn all_zero(v: &Vec<char>) -> (r: bool)
    requires
        all_digits(v@),
    ensures
        r == (digits_value(v@) == 0),
{
    proof {
        lemma_digits_value_zero(v@);
    }
    let mut i: usize = 0;
    while i < v.len()
        invariant
            i <= v@.len(),
            all_digits(v@),
            forall|j: int| 0 <= j < i ==> v@[j] == '0',
        decreases v.len() - i,
    {
        if v[i] != '0' {
            proof {
                lemma_digits_value_zero(v@);
            }
            return false;
        }
        i = i + 1;
    }
    true
}

/// The floor of `f * 2^s`, where `f` is the decimal fraction with digits `frac`
/// (`digits_value(frac) / 10^k`), and whether that product is an integer.
pub fn frac_scaled(frac: &Vec<char>, s: u32) -> (res: (u128, bool))
    requires
        all_digits(frac@),
        s <= 127,
    ensures
        res.0 == (digits_value(frac@) * pow2(s as nat)) / pow10(frac@.len()),
        res.1 == ((digits_value(frac@) * pow2(s as nat)) % pow10(frac@.len()) == 0),
{
    let mut work: Vec<char> = Vec::new();
    push_chars(&mut work, frac);
    let ghost fnum = digits_value(frac@);
    let ghost k = frac@.len();
    let mut acc: u128 = 0;
    let mut j: u32 = 0;
    proof {
        lemma2_to128();
        assert(work@ =~= frac@);
        lemma_pow10_pos(k);
        assert(pow2(0) == 1) by {
            vstd::arithmetic::power2::lemma2_to64();
        }
    }
    while j < s
        invariant
            j <= s <= 127,
            work@.len() == k,
            all_digits(work@),
            fnum == digits_value(frac@),
            k == frac@.len(),
            pow10(k) > 0,
            acc < pow2(j as nat),
            fnum * pow2(j as nat) == acc * pow10(k) + digits_value(work@),
        decreases s - j,
    {
        let ghost before = work@;
        let carry = double_digits(&mut work);
        proof {
            lemma_pow2_unfold((j + 1) as nat);
            lemma_pow2_increases((j + 1) as nat, 127);
            lemma2_to128();
            assert(fnum * pow2((j + 1) as nat) == (2 * acc + carry) * pow10(k) + digits_value(
                work@,
            )) by (nonlinear_arith)
                requires
                    fnum * pow2(j as nat) == acc * pow10(k) + digits_value(before),
                    2 * digits_value(before) == carry * pow10(k) + digits_value(work@),
                    pow2((j + 1) as nat) == 2 * pow2(j as nat),
            ;
            lemma_pow2_strictly_increases(127, 128);
            assert(2 * acc + carry < pow2(128));
        }
        acc = 2 * acc + carry as u128;
        j = j + 1;
    }
    let exact = all_zero(&work);
    proof {
        lemma_digits_value_bound(work@);
        lemma_fundamental_div_mod_converse(
            (fnum * pow2(s as nat)) as int,
            pow10(k) as int,
            acc as int,
            digits_value(work@) as int,
        );
    }
    (acc, exact)
}

/// The conversion of a binary64 value to `u64` (`as u64`): its integer part,
/// saturated at `u64::MAX`; an infinity gives `u64::MAX`.
pub open spec fn saturating_floor(v: Option<(nat, nat)>) -> u64 {
    match v {
        None => u64::MAX,
        Some(w) => if w.1 == 0 {
            0
        } else if w.0 / w.1 > u64::MAX {
            u64::MAX
        } else {
            (w.0 / w.1) as u64
        },
    }
}

/// `n / 10^k` times the unit `u`, in binary64: the decimal rounded to the nearest
/// binary64 value, multiplied by `u` (itself a binary64 value), the product rounded,
/// then truncated to a byte count.
pub open spec fn decimal_times_unit(n: nat, k: nat, u: nat) -> u64 {
    match binary64(n, pow10(k)) {
        None => u64::MAX,
        Some(v) => {
            let y = binary64(u, 1).unwrap();
            saturating_floor(binary64(v.0 * y.0, v.1 * y.1))
        },
    }
}

/// The integer value of a digit string, saturated at `2^64`.
pub fn saturating_value(s: &Vec<char>) -> (r: u128)
    requires
        all_digits(s@),
    ensures
        r == if digits_value(s@) < pow2(64) {
            digits_value(s@)
        } else {
            pow2(64)
        },
{
    let cap: u128 = 0x1_0000_0000_0000_0000;
    let mut acc: u128 = 0;
    let mut i: usize = 0;
    proof {
        lemma2_to128();
        assert(s@.take(0) =~= Seq::<char>::empty());
    }
    while i < s.len()
        invariant
            i <= s@.len(),
            all_digits(s@),
            cap == pow2(64),
            cap == 0x1_0000_0000_0000_0000,
            acc <= cap,
            acc == if digits_value(s@.take(i as int)) < cap {
                digits_value(s@.take(i as int))
            } else {
                cap as nat
            },
        decreases s.len() - i,
    {
        assert(is_digit(s@[i as int]));
        let d = digit_value_of(s[i]);
        proof {
            assert(s@.take(i + 1) =~= s@.take(i as int).push(s@[i as int]));
            lemma_digits_value_push(s@.take(i as int), s@[i as int]);
        }
        let x = acc * 10 + d as u128;
        acc = if x < cap {
            x
        } else {
            cap
        };
        i = i + 1;
    }
    proof {
        assert(s@.take(i as int) =~= s@);
    }
    acc
}

/// The nearest integer to `t / 2 + f` with `0 <= f < 1/2`, given only whether `f` is
/// zero (`exact`): rounding of a quotient from its doubled floor.
pub open spec fn half_even_of(t: nat, exact: bool) -> nat {
    if t % 2 == 0 {
        t / 2
    } else if !exact {
        t / 2 + 1
    } else if (t / 2) % 2 == 0 {
        t / 2
    } else {
        t / 2 + 1
    }
}

/// `round_half_even(a, b)` from `t = (2 * a) / b` and whether `2 * a` is a multiple of `b`.
fn half_even_from_doubled(t: u128, exact: bool) -> (r: u128)
    requires
        t < u128::MAX,
    ensures
        r == half_even_of(t as nat, exact),
{
    let h = t / 2;
    if t % 2 == 0 {
        h
    } else if !exact {
        h + 1
    } else if h % 2 == 0 {
        h
    } else {
        h + 1
    }
}

/// The significand of the binary64 value nearest to `n / 10^k`, where
/// `n = int_val * 10^k + value(frac)` has binade `e`.
fn significand(int_val: u64, frac: &Vec<char>, e: i32) -> (m: u128)
    requires
        all_digits(frac@),
        -71 <= e <= 63,
        pow2_le(e as int, int_val as nat * pow10(frac@.len()) + digits_value(frac@), pow10(frac@.len())),
        !pow2_le(e + 1, int_val as nat * pow10(frac@.len()) + digits_value(frac@), pow10(frac@.len())),
    ensures
        ({
            let n = int_val as nat * pow10(frac@.len()) + digits_value(frac@);
            let r = scaled(n, pow10(frac@.len()), 52 - e);
            m == round_half_even(r.0, r.1)
        }),
{
    let ghost k = frac@.len();
    let ghost b = pow10(k);
    let ghost fnum = digits_value(frac@);
    let ghost n: nat = int_val as nat * b + fnum;
    proof {
        lemma_pow10_pos(k);
        lemma_digits_value_bound(frac@);
        lemma2_to128();
        vstd::arithmetic::power2::lemma2_to64();
        vstd::arithmetic::power2::lemma2_to64_rest();
    }
    let t: u128;
    let exact: bool;
    if e <= 53 {
        let s = (53 - e) as u32;
        let (fs, fexact) = frac_scaled(frac, s);
        let big = pow2_u128(s);
        proof {
            let ps = pow2(s as nat);
            lemma_pow2_pos(s as nat);
            lemma_pow2_le_shift(e + 1, n, b, s as nat);
            assert((e + 1 + s) as nat == 54);
            assert(n * ps < pow2(54) * b);
            lemma_fundamental_div_mod((fnum * ps) as int, b as int);
            let r = (fnum * ps) % b;
            assert(n * ps == b * (int_val * ps + fs) + r) by (nonlinear_arith)
                requires
                    n == int_val * b + fnum,
                    fnum * ps == b * fs + r,
            ;
            lemma_fundamental_div_mod_converse((n * ps) as int, b as int, (int_val * ps + fs) as int, r as int);
            assert(int_val * ps + fs < pow2(54)) by (nonlinear_arith)
                requires
                    n * ps == b * (int_val * ps + fs) + r,
                    n * ps < pow2(54) * b,
                    r >= 0,
                    b > 0,
            ;
            lemma_pow2_increases(54, 127);
            assert(int_val * big <= int_val * ps + fs);
        }
        t = (int_val as u128) * big + fs;
        exact = fexact;
        proof {
            assert(scaled(n, b, 53 - e) == (n * pow2(s as nat), b));
        }
    } else {
        let g = (e - 53) as u32;
        let big = pow2_u128(g);
        proof {
            lemma_pow2_pos(g as nat);
        }
        t = (int_val as u128) / big;
        let zero_frac = all_zero(frac);
        exact = (int_val as u128) % big == 0 && zero_frac;
        proof {
            let gg = pow2(g as nat);
            lemma_fundamental_div_mod(int_val as int, gg as int);
            let q = int_val as nat / gg;
            let r1 = int_val as nat % gg;
            assert(n == (b * gg) * q + (b * r1 + fnum)) by (nonlinear_arith)
                requires
                    n == int_val * b + fnum,
                    int_val == gg * q + r1,
            ;
            assert(b * r1 + fnum < b * gg) by (nonlinear_arith)
                requires
                    r1 < gg,
                    r1 >= 0,
                    fnum < b,
            ;
            assert(b * gg > 0) by (nonlinear_arith)
                requires
                    b > 0,
                    gg > 0,
            ;
            lemma_fundamental_div_mod_converse(n as int, (b * gg) as int, q as int, (b * r1 + fnum) as int);
            assert(b * r1 + fnum == 0 <==> (r1 == 0 && fnum == 0)) by (nonlinear_arith)
                requires
                    b > 0,
                    r1 >= 0,
                    fnum >= 0,
            ;
            assert(scaled(n, b, 53 - e) == (n, b * gg));
            lemma_div_is_ordered_by_denominator(int_val as int, 1, gg as int);
        }
    }
    let m = half_even_from_doubled(t, exact);
    proof {
        let rr = scaled(n, b, 52 - e);
        let ss = scaled(n, b, 53 - e);
        lemma_scaled_double(n, b, 52 - e);
        lemma_scaled_den_pos(n, b, 52 - e);
        lemma_scaled_den_pos(n, b, 53 - e);
        assert(t == ss.0 / ss.1);
        assert(exact == (ss.0 % ss.1 == 0));
        lemma_div_of_equal_fractions(2 * rr.0, rr.1, ss.0, ss.1);
        assert(((2 * rr.0) % rr.1 == 0) == (ss.0 % ss.1 == 0)) by (nonlinear_arith)
            requires
                ((2 * rr.0) % rr.1) * ss.1 == (ss.0 % ss.1) * rr.1,
                rr.1 > 0,
                ss.1 > 0,
        ;
        lemma_round_from_doubled(rr.0, rr.1);
    }
    m
}

/// The byte count of the binary64 product of `m * 2^(e - 52)` and the unit `u`:
/// the product rounded to binary64, then truncated and saturated.
fn product_floor(m: u128, e: i32, u: u64) -> (r: u64)
    requires
        pow2(52) <= m <= pow2(53),
        1 <= u <= pow2(60),
        -71 <= e <= 63,
    ensures
        ({
            let a = scaled(m as nat * u as nat, 1, e - 52);
            r == saturating_floor(binary64(a.0, a.1))
        }),
{
    proof {
        lemma2_to128();
        vstd::arithmetic::power2::lemma2_to64();
        vstd::arithmetic::power2::lemma2_to64_rest();
        lemma_pow2_adds(53, 60);
        assert(m * u <= pow2(53) * pow2(60)) by (nonlinear_arith)
            requires
                m <= pow2(53),
                u <= pow2(60),
        ;
        lemma_pow2_increases(113, 127);
        assert(m * u >= pow2(52)) by (nonlinear_arith)
            requires
                m >= pow2(52),
                u >= 1,
        ;
    }
    let p = m * (u as u128);
    let l = ilog2_u128(p);
    proof {
        if l < 52 {
            lemma_pow2_increases((l + 1) as nat, 52);
        }
        if l > 113 {
            lemma_pow2_increases(114, l as nat);
            lemma_pow2_strictly_increases(113, 114);
        }
    }
    let ghost pn = p as nat;
    let ghost ep: int = l + e - 52;
    let ghost a = scaled(pn, 1, e - 52);
    let big = pow2_u128(l - 52);
    proof {
        lemma_pow2_pos((l - 52) as nat);
        lemma_scaled_den_pos(pn, 1, e - 52);
        lemma_pow2_le_scaled(ep, pn, 1, e - 52);
        lemma_pow2_le_scaled(ep + 1, pn, 1, e - 52);
        assert(pow2_le(l as int, pn, 1));
        assert(!pow2_le(l + 1 as int, pn, 1));
        assert(a.0 > 0) by {
            if e - 52 >= 0 {
                lemma_pow2_pos((e - 52) as nat);
                assert(pn * pow2((e - 52) as nat) > 0) by (nonlinear_arith)
                    requires
                        pn > 0,
                        pow2((e - 52) as nat) > 0,
                ;
            }
        }
        lemma_binary64_normal(a.0, a.1, ep);
        let z = scaled(a.0, a.1, 52 - ep);
        lemma_scaled_twice(pn, e - 52, 52 - ep);
        assert((e - 52) + (52 - ep) == 52 - l);
        let t = scaled(pn, 1, 52 - l);
        lemma_scaled_den_pos(a.0, a.1, 52 - ep);
        lemma_scaled_den_pos(pn, 1, 52 - l);
        if l == 52 {
            assert(pow2(0) == 1);
            assert(t == (pn * pow2(0), 1nat));
        } else {
            assert(t == (pn, 1 * pow2((l - 52) as nat)));
        }
        assert(t.0 * big == pn * t.1);
        lemma_round_of_equal_fractions(z.0, z.1, t.0, t.1);
        lemma_round_of_equal_fractions(t.0, t.1, pn, big as nat);
    }
    let mm = round_div(p, big);
    let g: i32 = (l as i32) + e - 104;
    proof {
        assert(binary64(a.0, a.1) == Some(scaled(mm as nat, 1, ep - 52)));
        assert(ep - 52 == g);
        assert(pow2(52) <= mm <= pow2(53));
    }
    if g >= 0 {
        if g >= 12 {
            proof {
                lemma_pow2_increases(12, g as nat);
                lemma_pow2_adds(52, 12);
                assert(mm * pow2(g as nat) >= pow2(52) * pow2(12)) by (nonlinear_arith)
                    requires
                        mm >= pow2(52),
                        pow2(g as nat) >= pow2(12),
                ;
                assert(scaled(mm as nat, 1, g as int) == (mm as nat * pow2(g as nat), 1nat));
            }
            u64::MAX
        } else {
            let pg = pow2_u128(g as u32);
            proof {
                lemma_pow2_increases(g as nat, 11);
                lemma_pow2_adds(53, 11);
                assert(mm * pg <= pow2(53) * pow2(11)) by (nonlinear_arith)
                    requires
                        mm <= pow2(53),
                        pg <= pow2(11),
                ;
                assert(scaled(mm as nat, 1, g as int) == (mm as nat * pow2(g as nat), 1nat));
            }
            let v = mm * pg;
            if v > u64::MAX as u128 {
                u64::MAX
            } else {
                v as u64
            }
        }
    } else {
        let pg = pow2_u128((-g) as u32);
        proof {
            lemma_pow2_pos((-g) as nat);
            assert(scaled(mm as nat, 1, g as int) == (mm as nat, 1 * pow2((-g) as nat)));
            lemma_div_is_ordered_by_denominator(mm as int, 1, pg as int);
        }
        (mm / pg) as u64
    }
}

/// The product of a binary64 value with a unit, as a fraction equal in value to
/// the product of the fractions.
proof fn lemma_times_unit_fraction(v: (nat, nat), y: (nat, nat), u: nat)
    requires
        v.1 > 0,
        y.1 > 0,
        y.0 == u * y.1,
    ensures
        (v.0 * y.0) * v.1 == (v.0 * u) * (v.1 * y.1),
        v.1 * y.1 > 0,
{
    assert((v.0 * y.0) * v.1 == (v.0 * u) * (v.1 * y.1)) by (nonlinear_arith)
        requires
            y.0 == u * y.1,
    ;
    assert(v.1 * y.1 > 0) by (nonlinear_arith)
        requires
            v.1 > 0,
            y.1 > 0,
    ;
}

/// `int_digits.frac` (a decimal with an integer part and a fractional part) times
/// the unit `u`, computed as binary64 arithmetic does.
pub fn scale_decimal(int_digits: &Vec<char>, frac: &Vec<char>, u: u64) -> (r: u64)
    requires
        all_digits(int_digits@),
        all_digits(frac@),
        1 <= u <= pow2(60),
        holds_integer(binary64(u as nat, 1), u as nat),
    ensures
        r == decimal_times_unit(digits_value(int_digits@ + frac@), frac@.len(), u as nat),
{
    let ghost k = frac@.len();
    let ghost b = pow10(k);
    let ghost fnum = digits_value(frac@);
    let ghost ifull = digits_value(int_digits@);
    let ghost n = digits_value(int_digits@ + frac@);
    let ghost y = binary64(u as nat, 1).unwrap();
    proof {
        lemma_digits_value_append(int_digits@, frac@);
        assert(n == ifull * b + fnum);
        lemma_pow10_pos(k);
        lemma_digits_value_bound(frac@);
        lemma2_to128();
        vstd::arithmetic::power2::lemma2_to64();
        vstd::arithmetic::power2::lemma2_to64_rest();
    }
    let iv = saturating_value(int_digits);
    if iv >= 0x1_0000_0000_0000_0000 {
        proof {
            assert(ifull >= pow2(64));
            assert(pow2(64) * b <= n) by (nonlinear_arith)
                requires
                    ifull >= pow2(64),
                    n == ifull * b + fnum,
            ;
            assert(pow2_le(64, n, b));
            lemma_binary64_above(n, b, 64);
            if binary64(n, b) is Some {
                let v = binary64(n, b).unwrap();
                lemma_binary64_above(n, b, 64);
                assert(v.1 > 0) by {
                    reveal_v_den(n, b);
                }
                lemma_times_unit_fraction(v, y, u as nat);
                lemma_pow2_le_times(64, v.0, v.1, u as nat);
                lemma_pow2_le_equal_fractions(64, v.0 * (u as nat), v.1, v.0 * y.0, v.1 * y.1);
                lemma_binary64_above(v.0 * y.0, v.1 * y.1, 64);
                if binary64(v.0 * y.0, v.1 * y.1) is Some {
                    let w = binary64(v.0 * y.0, v.1 * y.1).unwrap();
                    reveal_v_den(v.0 * y.0, v.1 * y.1);
                    lemma_div_is_ordered((pow2(64) * w.1) as int, w.0 as int, w.1 as int);
                    lemma_div_multiples_vanish(pow2(64) as int, w.1 as int);
                    assert(pow2(64) * w.1 == w.1 * pow2(64)) by (nonlinear_arith);
                }
            }
        }
        return u64::MAX;
    }
    let ival = iv as u64;
    proof {
        assert(iv == ifull);
        assert(ival == ifull);
    }
    let e: i32;
    if ival >= 1 {
        let l = ilog2_u128(iv);
        proof {
            if l >= 64 {
                lemma_pow2_increases(64, l as nat);
            }
            assert(pow2(l as nat) * b <= n) by (nonlinear_arith)
                requires
                    pow2(l as nat) <= ifull,
                    n == ifull * b + fnum,
            ;
            assert(n < pow2((l + 1) as nat) * b) by (nonlinear_arith)
                requires
                    ifull < pow2((l + 1) as nat),
                    n == ifull * b + fnum,
                    fnum < b,
            ;
            assert(pow2_le(l as int, n, b));
            assert(!pow2_le(l + 1 as int, n, b));
            assert(n >= b) by (nonlinear_arith)
                requires
                    ifull >= 1,
                    n == ifull * b + fnum,
            ;
            assert(n > 0);
        }
        e = l as i32;
    } else {
        let (p71, _) = frac_scaled(frac, 71);
        proof {
            assert(ifull == 0);
            assert(ifull * b == 0) by (nonlinear_arith)
                requires
                    ifull == 0,
            ;
            assert(n == fnum);
            lemma_fundamental_div_mod((fnum * pow2(71)) as int, b as int);
        }
        if p71 == 0 {
            proof {
                assert(fnum * pow2(71) < b);
                assert(!pow2_le(-71, n, b));
                lemma_binary64_below(n, b, -71);
                let v = binary64(n, b).unwrap();
                reveal_v_den(n, b);
                lemma_times_unit_fraction(v, y, u as nat);
                lemma_pow2_le_times_bounded(-70, v.0, v.1, u as nat, 60);
                lemma_pow2_le_equal_fractions(-10, v.0 * (u as nat), v.1, v.0 * y.0, v.1 * y.1);
                lemma_binary64_below(v.0 * y.0, v.1 * y.1, -10);
                let w = binary64(v.0 * y.0, v.1 * y.1).unwrap();
                reveal_v_den(v.0 * y.0, v.1 * y.1);
                assert(!pow2_le(-9, w.0, w.1));
                assert(w.0 * pow2(9) < w.1);
                assert(w.0 < w.1);
                lemma_small_div_converse_local(w.0, w.1);
            }
            return 0;
        }
        let l = ilog2_u128(p71);
        proof {
            let pf = p71 as nat;
            assert(pf * b <= fnum * pow2(71)) by (nonlinear_arith)
                requires
                    fnum * pow2(71) == b * pf + (fnum * pow2(71)) % b,
                    (fnum * pow2(71)) % b >= 0,
            ;
            let rr = (fnum * pow2(71)) % b;
            assert(fnum * pow2(71) == b * pf + rr);
            assert(rr < b);
            assert((pf + 1) * b == b * pf + b) by (nonlinear_arith);
            assert(fnum * pow2(71) < (pf + 1) * b);
            lemma_pow2_pos(71);
            assert(fnum * pow2(71) < b * pow2(71)) by (nonlinear_arith)
                requires
                    fnum < b,
                    pow2(71) > 0,
            ;
            assert(pf * b < pow2(71) * b) by (nonlinear_arith)
                requires
                    pf * b <= fnum * pow2(71),
                    fnum * pow2(71) < b * pow2(71),
            ;
            assert(pf < pow2(71)) by (nonlinear_arith)
                requires
                    pf * b < pow2(71) * b,
                    b > 0,
            ;
            assert(fnum > 0) by (nonlinear_arith)
                requires
                    pf * b <= fnum * pow2(71),
                    pf >= 1,
                    b > 0,
            ;
            assert(n > 0);
            if l >= 71 {
                lemma_pow2_increases(71, l as nat);
            }
            lemma_pow2_le_shift(l - 71, n, b, 71);
            lemma_pow2_le_shift(l - 70, n, b, 71);
            assert((l - 71 + 71) as nat == l as nat);
            assert((l - 70 + 71) as nat == (l + 1) as nat);
            assert(pow2(l as nat) * b <= fnum * pow2(71)) by (nonlinear_arith)
                requires
                    pow2(l as nat) <= pf,
                    pf * b <= fnum * pow2(71),
            ;
            assert(fnum * pow2(71) < pow2((l + 1) as nat) * b) by (nonlinear_arith)
                requires
                    pf + 1 <= pow2((l + 1) as nat),
                    fnum * pow2(71) < (pf + 1) * b,
            ;
        }
        e = (l as i32) - 71;
    }
    proof {
        assert(ival as nat * b + fnum == n);
    }
    let m = significand(ival, frac, e);
    proof {
        lemma_binary64_normal(n, b, e as int);
        let v = scaled(m as nat, 1, e - 52);
        assert(binary64(n, b) == Some(v));
        lemma_scaled_den_pos(m as nat, 1, e - 52);
        reveal_v_den(u as nat, 1);
        lemma_times_unit_fraction(v, y, u as nat);
        let a = scaled(m as nat * u as nat, 1, e - 52);
        lemma_scaled_den_pos(m as nat * u as nat, 1, e - 52);
        let mn = m as nat;
        let un = u as nat;
        if e - 52 >= 0 {
            let pp = pow2((e - 52) as nat);
            assert(v.0 == mn * pp && v.1 == 1);
            assert(a.0 == mn * un * pp && a.1 == 1);
            assert((v.0 * un) * a.1 == a.0 * v.1) by (nonlinear_arith)
                requires
                    v.0 == mn * pp,
                    v.1 == 1,
                    a.0 == mn * un * pp,
                    a.1 == 1,
            ;
        } else {
            let pp = pow2((52 - e) as nat);
            assert(v.0 == mn && v.1 == 1 * pp);
            assert(a.0 == mn * un && a.1 == 1 * pp);
            assert((v.0 * un) * a.1 == a.0 * v.1) by (nonlinear_arith)
                requires
                    v.0 == mn,
                    v.1 == 1 * pp,
                    a.0 == mn * un,
                    a.1 == 1 * pp,
            ;
        }
        assert((v.0 * y.0) * a.1 == a.0 * (v.1 * y.1)) by (nonlinear_arith)
            requires
                (v.0 * y.0) * v.1 == (v.0 * u) * (v.1 * y.1),
                (v.0 * u) * a.1 == a.0 * v.1,
                v.1 > 0,
        ;
        lemma_binary64_equal_fractions(v.0 * y.0, v.1 * y.1, a.0, a.1);
    }
    product_floor(m, e, u)
}

/// A present binary64 value has a positive denominator.
proof fn reveal_v_den(a: nat, b: nat)
    requires
        b > 0,
    ensures
        binary64(a, b) matches Some(v) ==> v.1 > 0,
{
    if a > 0 {
        let q = crate::binary64::ulp_exponent(crate::binary64::floor_log2(a, b));
        lemma_scaled_den_pos(round_half_even(scaled(a, b, -q).0, scaled(a, b, -q).1), 1, q);
    }
}

/// A smaller number divided by a larger one is zero.
proof fn lemma_small_div_converse_local(a: nat, b: nat)
    requires
        a < b,
    ensures
        a / b == 0,
{
    lemma_fundamental_div_mod_converse(a as int, b as int, 0, a as int);
}

} // verus!
