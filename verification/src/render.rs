//! Rendering a byte count as text: `"215 B"`, `"1.5 KiB"`, `"2.00 GB"`.
//!
//! A count below one unit is written exactly.  Otherwise the count and the unit
//! power are each taken to the nearest binary64 value, their quotient is rounded to
//! binary64, and that binary value is written with the requested number of decimals,
//! rounded half to even on its exact decimal expansion.
use crate::binary64::{
    binary64, lemma_binary64_below, lemma_binary64_equal_fractions, lemma_binary64_normal,
    pow2_le, scaled,
};
use crate::digits::{
    all_digits, decimal, digit_char, digit_of, digit_value, digits_value, is_digit,
    lemma_digit_char, lemma_digit_roundtrip, lemma_digits_value_append,
    lemma_digits_value_bound, lemma_digits_value_push, lemma_zero_padded_of_digits,
    push_decimal, zero_padded,
};
use crate::numeric::{
    ilog2, ilog2_u128, lemma2_to128, lemma_ilog2, lemma_pow10_pos, lemma_pow2_increases,
    lemma_round_bounds, pow10, pow2_u128, round_half_even,
};
use crate::text::{push_chars, string_from_chars};
use crate::units::{Format, KB, KIB};
use vstd::arithmetic::div_mod::*;
use vstd::arithmetic::power2::*;
use vstd::prelude::*;

verus! {

/// `r` holds a finite binary64 value equal to the integer `n`.
pub open spec fn holds_integer(r: Option<(nat, nat)>, n: nat) -> bool {
    r matches Some(v) && v.1 > 0 && v.0 == n * v.1
}

/// The binary64 value nearest to the integer `n` (with `2^l <= n < 2^(l + 1)`): `n`
/// itself when it has at most 53 significant bits, else `n` rounded to a multiple of
/// `2^(l - 52)`.
pub open spec fn integer_to_binary64(n: nat, l: nat) -> nat {
    if l <= 52 {
        n
    } else {
        round_half_even(n, pow2((l - 52) as nat)) * pow2((l - 52) as nat)
    }
}

/// An integer with `2^l <= n < 2^(l + 1)` converts to the binary64 value
/// `integer_to_binary64(n, l)`, which stays within the same binade (or reaches its
/// top), and is `n` itself when the dropped low bits are zero.
pub proof fn lemma_binary64_of_integer(n: nat, l: nat)
    requires
        pow2(l) <= n < pow2(l + 1),
        l <= 1000,
    ensures
        holds_integer(binary64(n, 1), integer_to_binary64(n, l)),
        pow2(l) <= integer_to_binary64(n, l) <= pow2(l + 1),
        l > 52 && n % pow2((l - 52) as nat) == 0 ==> integer_to_binary64(n, l) == n,
{
    lemma_pow2_pos(l);
    assert(pow2_le(l as int, n, 1));
    assert(!pow2_le(l + 1 as int, n, 1));
    lemma_binary64_normal(n, 1, l as int);
    let s = scaled(n, 1, 52 - l);
    let m = round_half_even(s.0, s.1);
    let r = scaled(m, 1, l - 52);
    assert(binary64(n, 1) == Some(r));
    if l <= 52 {
        let k = (52 - l) as nat;
        lemma_pow2_pos(k);
        assert(s == (n * pow2(k), 1nat));
        lemma_round_bounds(s.0, 1);
        assert(s.0 % 1 == 0);
        assert(s.0 / 1 == s.0);
        assert(m == n * pow2(k));
        if l == 52 {
            assert(pow2(0) == 1) by {
                vstd::arithmetic::power2::lemma2_to64();
            }
            assert(r == (m * pow2(0), 1nat));
            assert(r.0 == n * r.1);
        } else {
            assert(r == (m, 1 * pow2(k)));
            assert(r.0 == n * r.1);
        }
        assert(integer_to_binary64(n, l) == n);
        assert(r.1 > 0);
        assert(holds_integer(Some(r), n));
    } else {
        let k = (l - 52) as nat;
        let g = pow2(k);
        lemma_pow2_pos(k);
        assert(s == (n, 1 * g));
        assert(r == (m * g, 1nat));
        lemma_pow2_adds(k, 52);
        lemma_pow2_adds(k, 53);
        assert(k + 52 == l);
        assert(pow2(l) == g * pow2(52));
        assert(pow2(l + 1) == g * pow2(53));
        assert(pow2(52) * g <= m * g <= pow2(53) * g) by (nonlinear_arith)
            requires
                pow2(52) <= m <= pow2(53),
        ;
        assert(integer_to_binary64(n, l) == m * g);
        assert((m * g) * 1 == m * g) by (nonlinear_arith);
        assert(r.0 == (m * g) * r.1);
        assert(holds_integer(Some(r), m * g));
        if n % g == 0 {
            lemma_round_bounds(n, g);
            lemma_fundamental_div_mod(n as int, g as int);
            assert(m == n / g);
            assert(m * g == n) by (nonlinear_arith)
                requires
                    n == g * (n / g) + n % g,
                    n % g == 0,
                    m == n / g,
            ;
        }
    }
}

/// `a / b` rounded to the nearest integer, ties to even.
pub fn round_div(a: u128, b: u128) -> (r: u128)
    requires
        b > 0,
        a / b < u128::MAX,
    ensures
        r == round_half_even(a as nat, b as nat),
{
    let q = a / b;
    let r = a % b;
    if r < b - r {
        q
    } else if r > b - r {
        q + 1
    } else if q % 2 == 0 {
        q
    } else {
        q + 1
    }
}

/// The binary64 value nearest to a positive count.
pub fn u64_to_binary64(n: u64) -> (r: u128)
    requires
        n >= 1,
    ensures
        r == integer_to_binary64(n as nat, ilog2(n as nat)),
        holds_integer(binary64(n as nat, 1), r as nat),
        pow2(ilog2(n as nat)) <= r <= pow2(ilog2(n as nat) + 1),
        r <= pow2(64),
{
    let l = ilog2_u128(n as u128);
    proof {
        lemma2_to128();
        if l >= 64 {
            lemma_pow2_increases(64, l as nat);
        }
        lemma_binary64_of_integer(n as nat, l as nat);
        lemma_pow2_increases((l + 1) as nat, 64);
    }
    if l <= 52 {
        n as u128
    } else {
        let g = pow2_u128(l - 52);
        proof {
            lemma_pow2_pos((l - 52) as nat);
        }
        let m = round_div(n as u128, g);
        proof {
            lemma_round_bounds(n as nat, g as nat);
            lemma_div_is_ordered_by_denominator(n as int, 1, g as int);
            assert(m * g <= pow2(64));
        }
        m * g
    }
}

/// `k` zero digits.
pub open spec fn zeros(k: nat) -> Seq<char> {
    Seq::new(k, |i: int| '0')
}

/// `k` nine digits.
pub open spec fn nines(k: nat) -> Seq<char> {
    Seq::new(k, |i: int| '9')
}

/// A run of zeros is a digit string of value 0.
pub proof fn lemma_zeros_value(k: nat)
    ensures
        digits_value(zeros(k)) == 0,
        all_digits(zeros(k)),
    decreases k,
{
    if k > 0 {
        lemma_zeros_value((k - 1) as nat);
        assert(zeros(k).drop_last() =~= zeros((k - 1) as nat));
    }
}

/// A run of `k` nines is one less than `10^k`.
pub proof fn lemma_nines_value(k: nat)
    ensures
        digits_value(nines(k)) + 1 == pow10(k),
    decreases k,
{
    if k > 0 {
        lemma_nines_value((k - 1) as nat);
        assert(nines(k).drop_last() =~= nines((k - 1) as nat));
    }
}

/// The digit following `c`.
fn next_digit(c: char) -> (r: char)
    requires
        is_digit(c),
        c != '9',
    ensures
        is_digit(r),
        digit_value(r) == digit_value(c) + 1,
{
    match c {
        '0' => '1',
        '1' => '2',
        '2' => '3',
        '3' => '4',
        '4' => '5',
        '5' => '6',
        '6' => '7',
        '7' => '8',
        _ => '9',
    }
}

/// Adds one to a fixed-width digit string; `true` when it wraps around to all zeros.
#[verifier::rlimit(50)]
pub fn increment_digits(v: &mut Vec<char>) -> (carry: bool)
    requires
        all_digits(old(v)@),
    ensures
        all_digits(final(v)@),
        final(v)@.len() == old(v)@.len(),
        digits_value(final(v)@) + (if carry {
            pow10(old(v)@.len())
        } else {
            0
        }) == digits_value(old(v)@) + 1,
{
    let ghost orig = v@;
    let len = v.len();
    let mut j: usize = len;
    while j > 0 && v[j - 1] == '9'
        invariant
            j <= len == v@.len() == orig.len(),
            all_digits(orig),
            v@ == orig.subrange(0, j as int) + zeros((len - j) as nat),
            orig.subrange(j as int, len as int) == nines((len - j) as nat),
        decreases j,
    {
        proof {
            assert(orig[j - 1] == v@[j - 1]);
        }
        let ghost old_j = j;
        v.set(j - 1, '0');
        j = j - 1;
        proof {
            assert(v@ =~= orig.subrange(0, j as int) + zeros((len - j) as nat));
            assert forall|i: int| 0 <= i < len - j implies #[trigger] orig.subrange(
                j as int,
                len as int,
            )[i] == '9' by {
                if i > 0 {
                    assert(orig.subrange(old_j as int, len as int)[i - 1] == nines(
                        (len - old_j) as nat,
                    )[i - 1]);
                }
            }
            assert(orig.subrange(j as int, len as int) =~= nines((len - j) as nat));
        }
    }
    let ghost k = (len - j) as nat;
    proof {
        lemma_zeros_value(k);
        lemma_nines_value(k);
        assert(orig =~= orig.subrange(0, j as int) + orig.subrange(j as int, len as int));
        lemma_digits_value_append(orig.subrange(0, j as int), nines(k));
        lemma_digits_value_append(orig.subrange(0, j as int), zeros(k));
    }
    if j == 0 {
        proof {
            assert(v@ =~= zeros(k));
            assert(orig.subrange(0, 0) =~= Seq::<char>::empty());
        }
        true
    } else {
        let c = v[j - 1];
        proof {
            assert(c == orig[j - 1]);
            assert(is_digit(orig[j - 1]));
        }
        let n = next_digit(c);
        v.set(j - 1, n);
        proof {
            let pre = orig.subrange(0, j - 1);
            assert(orig.subrange(0, j as int) =~= pre.push(c));
            assert(v@ =~= pre.push(n) + zeros(k));
            lemma_digits_value_append(pre.push(n), zeros(k));
            lemma_digits_value_push(pre, n);
            lemma_digits_value_push(pre, c);
            let a = digits_value(pre);
            let pk = pow10(k);
            assert((a * 10 + digit_value(c) + 1) * pk == (a * 10 + digit_value(c)) * pk + pk)
                by (nonlinear_arith);
            assert forall|i: int| 0 <= i < v@.len() implies #[trigger] is_digit(v@[i]) by {
                if i < j - 1 {
                    assert(v@[i] == orig[i]);
                } else if i > j - 1 {
                    assert(v@[i] == '0');
                }
            }
        }
        false
    }
}

/// Whether the digit `c` is odd.
fn digit_is_odd(c: char) -> (r: bool)
    requires
        is_digit(c),
    ensures
        r == (digit_value(c) % 2 == 1),
{
    c == '1' || c == '3' || c == '5' || c == '7' || c == '9'
}

/// The fixed-point digits of the binary fraction `m / 2^t` rounded half to even at
/// `p` decimals: the integer part and the `p` fractional digits of
/// `round_half_even(m * 10^p, 2^t)`.
pub fn fixed_digits(m: u128, t: u32, p: usize) -> (res: (u64, Vec<char>))
    requires
        t <= 64,
        m <= pow2(63),
    ensures
        ({
            let n = round_half_even(m as nat * pow10(p as nat), pow2(t as nat));
            &&& res.0 == n / pow10(p as nat)
            &&& res.1@ == zero_padded(n % pow10(p as nat), p as nat)
        }),
{
    proof {
        lemma2_to128();
        vstd::arithmetic::power2::lemma2_to64();
        vstd::arithmetic::power2::lemma2_to64_rest();
        lemma_pow2_increases(t as nat, 64);
        lemma_pow2_increases(63, 64);
    }
    let big = pow2_u128(t);
    proof {
        lemma_pow2_pos(t as nat);
    }
    let mut int_part = (m / big) as u64;
    let mut f = m % big;
    let mut frac: Vec<char> = Vec::new();
    let mut i: usize = 0;
    proof {
        lemma_fundamental_div_mod(m as int, big as int);
        lemma_div_is_ordered_by_denominator(m as int, 1, big as int);
        assert(m as int / 1 == m);
        assert(int_part == m / big);
        assert(digits_value(frac@) == 0);
        assert(pow10(0) == 1);
        assert(m * pow10(0) == (int_part * pow10(0) + 0) * big + f) by (nonlinear_arith)
            requires
                m == big * int_part + f,
                pow10(0) == 1,
        ;
    }
    while i < p
        invariant
            i <= p,
            big == pow2(t as nat),
            big > 0,
            big <= pow2(64),
            f < big,
            frac@.len() == i,
            all_digits(frac@),
            int_part <= pow2(63),
            m * pow10(i as nat) == (int_part * pow10(i as nat) + digits_value(frac@)) * big + f,
        decreases p - i,
    {
        proof {
            lemma2_to128();
        }
        let x = f * 10;
        let d = x / big;
        let f2 = x % big;
        proof {
            lemma_fundamental_div_mod(x as int, big as int);
            assert(d < 10) by (nonlinear_arith)
                requires
                    x == f * 10,
                    f < big,
                    x == big * d + f2,
                    f2 >= 0,
                    big > 0,
            ;
        }
        let c = digit_of(d as u64);
        let ghost prev = frac@;
        proof {
            lemma_digit_char(d as nat);
            lemma_digits_value_push(frac@, c);
            let a = int_part * pow10(i as nat) + digits_value(frac@);
            assert(pow10((i + 1) as nat) == 10 * pow10(i as nat));
            assert(m * pow10((i + 1) as nat) == (int_part * pow10((i + 1) as nat) + (
            digits_value(frac@) * 10 + d)) * big + f2) by (nonlinear_arith)
                requires
                    m * pow10(i as nat) == a * big + f,
                    a == int_part * pow10(i as nat) + digits_value(frac@),
                    pow10((i + 1) as nat) == 10 * pow10(i as nat),
                    f * 10 == big * d + f2,
            ;
        }
        frac.push(c);
        f = f2;
        i = i + 1;
        proof {
            assert forall|j: int| 0 <= j < frac@.len() implies #[trigger] is_digit(frac@[j]) by {
                if j < frac@.len() - 1 {
                    assert(frac@[j] == prev[j]);
                }
            }
        }
    }
    let ghost a = int_part * pow10(p as nat) + digits_value(frac@);
    proof {
        lemma_pow10_pos(p as nat);
        lemma_fundamental_div_mod_converse(
            (m * pow10(p as nat)) as int,
            big as int,
            a as int,
            f as int,
        );
    }
    let odd = if p == 0 {
        int_part % 2 == 1
    } else {
        digit_is_odd(frac[p - 1])
    };
    proof {
        if p == 0 {
            assert(frac@ =~= Seq::<char>::empty());
            assert(a == int_part);
        } else {
            assert(is_digit(frac@[p - 1]));
            assert(frac@.last() == frac@[p - 1]);
            assert(digits_value(frac@) == digits_value(frac@.drop_last()) * 10 + digit_value(
                frac@.last(),
            ));
            assert(pow10(p as nat) == 10 * pow10((p - 1) as nat));
            let ip = int_part as nat;
            let pp = pow10((p - 1) as nat);
            let v = digits_value(frac@.drop_last());
            let dl = digit_value(frac@.last());
            let h = 5 * ip * pp + 5 * v;
            assert(ip * (10 * pp) + (v * 10 + dl) == 2 * h + dl) by (nonlinear_arith)
                requires
                    h == 5 * ip * pp + 5 * v,
            ;
            lemma_mod_multiples_vanish(h as int, dl as int, 2);
        }
    }
    let round_up = f > big - f || (f == big - f && odd);
    if round_up {
        let ghost before = frac@;
        let carry = increment_digits(&mut frac);
        if carry {
            int_part = int_part + 1;
        }
        proof {
            assert(int_part * pow10(p as nat) + digits_value(frac@) == a + 1) by (nonlinear_arith)
                requires
                    digits_value(frac@) + (if carry {
                        pow10(p as nat)
                    } else {
                        0
                    }) == digits_value(before) + 1,
                    a == (int_part - (if carry {
                        1int
                    } else {
                        0
                    })) * pow10(p as nat) + digits_value(before),
            ;
        }
    }
    proof {
        let n = round_half_even(m as nat * pow10(p as nat), pow2(t as nat));
        assert(n == int_part * pow10(p as nat) + digits_value(frac@));
        lemma_digits_value_bound(frac@);
        lemma_fundamental_div_mod_converse(
            n as int,
            pow10(p as nat) as int,
            int_part as int,
            digits_value(frac@) as int,
        );
        lemma_zero_padded_of_digits(frac@);
    }
    (int_part, frac)
}

/// The unit base of a format: 1024 for IEC, 1000 for SI.
pub open spec fn base_of(format: Format) -> nat {
    match format {
        Format::IEC => 1024,
        Format::SI => 1000,
    }
}

/// `b` to the power `e`.
pub open spec fn power(b: nat, e: nat) -> nat
    decreases e,
{
    if e == 0 {
        1
    } else {
        b * power(b, (e - 1) as nat)
    }
}

/// The largest `e` with `base^e <= n` (0 when `n < base`).
pub open spec fn unit_exponent(n: nat, base: nat) -> nat
    decreases n,
{
    if base <= 1 || n < base {
        0
    } else {
        proof {
            lemma_div_decreases(n as int, base as int);
        }
        1 + unit_exponent(n / base, base)
    }
}

/// The unit letter of the `exp`-th power of the base: `K`/`k`, `M`, `G`, `T`, `P`, `E`.
pub open spec fn prefix_letter(format: Format, exp: nat) -> char {
    if exp == 1 {
        match format {
            Format::IEC => 'K',
            Format::SI => 'k',
        }
    } else if exp == 2 {
        'M'
    } else if exp == 3 {
        'G'
    } else if exp == 4 {
        'T'
    } else if exp == 5 {
        'P'
    } else {
        'E'
    }
}

/// What follows the unit letter: `iB` for IEC, `B` for SI.
pub open spec fn unit_suffix(format: Format) -> Seq<char> {
    match format {
        Format::IEC => seq!['i', 'B'],
        Format::SI => seq!['B'],
    }
}

/// The quantity shown for `bytes` in units of `scale`, as an integer count of
/// `10^-p`: both converted to binary64, their quotient rounded to binary64, that
/// value scaled by `10^p` and rounded half to even.
pub open spec fn shown_quantity(bytes: nat, scale: nat, p: nat) -> nat {
    let x = binary64(bytes, 1).unwrap();
    let y = binary64(scale, 1).unwrap();
    let q = binary64(x.0 * y.1, x.1 * y.0).unwrap();
    round_half_even(q.0 * pow10(p), q.1)
}

/// The count `n` of `10^-p` written with `p` decimals.
pub open spec fn fixed_point(n: nat, p: nat) -> Seq<char> {
    if p == 0 {
        decimal(n)
    } else {
        decimal(n / pow10(p)) + seq!['.'] + zero_padded(n % pow10(p), p)
    }
}

/// The text of `bytes` in `format` with `p` decimals.
pub open spec fn rendered(bytes: u64, format: Format, p: nat) -> Seq<char> {
    let base = base_of(format);
    if bytes < base {
        decimal(bytes as nat) + seq![' ', 'B']
    } else {
        let e = unit_exponent(bytes as nat, base);
        fixed_point(shown_quantity(bytes as nat, power(base, e), p), p) + seq![
            ' ',
            prefix_letter(format, e),
        ] + unit_suffix(format)
    }
}

/// The digits of `round_half_even(q * 10^p)` where `q` is the binary64 quotient of
/// `b / scale`.
fn quotient_digits(b: u128, scale: u64, p: usize) -> (res: (u64, Vec<char>))
    requires
        scale >= 1,
        2 * b >= scale,
        b < 2048 * scale,
        b <= pow2(64),
    ensures
        binary64(b as nat, scale as nat) is Some,
        ({
            let q = binary64(b as nat, scale as nat).unwrap();
            let n = round_half_even(q.0 * pow10(p as nat), q.1);
            &&& res.0 == n / pow10(p as nat)
            &&& res.1@ == zero_padded(n % pow10(p as nat), p as nat)
        }),
{
    proof {
        lemma2_to128();
        vstd::arithmetic::power2::lemma2_to64();
        vstd::arithmetic::power2::lemma2_to64_rest();
    }
    let t: u32;
    if b >= scale as u128 {
        proof {
            lemma_div_is_ordered(scale as int, b as int, scale as int);
            lemma_div_by_self(scale as int);
        }
        let k = ilog2_u128(b / scale as u128);
        proof {
            let bn = b as nat;
            let sn = scale as nat;
            let qd = bn / sn;
            let r = bn % sn;
            lemma_fundamental_div_mod(bn as int, sn as int);
            assert(qd == (b / scale as u128) as nat);
            if k >= 11 {
                lemma_pow2_increases(11, k as nat);
                assert(bn >= 2048 * sn) by (nonlinear_arith)
                    requires
                        bn == sn * qd + r,
                        qd >= 2048,
                        r >= 0,
                        sn >= 1,
                ;
            }
            assert(pow2(k as nat) * sn <= bn) by (nonlinear_arith)
                requires
                    pow2(k as nat) <= qd,
                    bn == sn * qd + r,
                    r >= 0,
            ;
            assert(bn < pow2((k + 1) as nat) * sn) by (nonlinear_arith)
                requires
                    qd < pow2((k + 1) as nat),
                    bn == sn * qd + r,
                    r < sn,
            ;
            assert(pow2_le(k as int, bn, sn));
            assert(!pow2_le(k + 1, bn, sn));
        }
        t = 52 - k;
    } else {
        proof {
            assert(pow2(1) == 2);
            assert(pow2(0) == 1);
            let bn = b as nat;
            let sn = scale as nat;
            assert(sn <= bn * pow2(1));
            assert(pow2_le(-1, bn, sn));
            assert(!(pow2(0) * sn <= bn));
            assert(!pow2_le(0, bn, sn));
        }
        t = 53;
    }
    let ghost e: int = 52 - t;
    let big = pow2_u128(t);
    proof {
        lemma_pow2_increases(t as nat, 53);
        assert(b * big <= pow2(64) * pow2(53)) by (nonlinear_arith)
            requires
                b <= pow2(64),
                big <= pow2(53),
        ;
        lemma_pow2_adds(64, 53);
        lemma_pow2_increases(117, 127);
        lemma_pow2_pos(117);
    }
    let m = round_div(b * big, scale as u128);
    proof {
        lemma_binary64_normal(b as nat, scale as nat, e);
        assert(scaled(b as nat, scale as nat, 52 - e) == (b as nat * pow2(t as nat), scale as nat));
        assert(binary64(b as nat, scale as nat) == Some(scaled(m as nat, 1, e - 52)));
        assert(scaled(m as nat, 1, e - 52) == (m as nat, 1 * pow2(t as nat)));
        lemma_pow2_increases(53, 63);
    }
    fixed_digits(m, t, p)
}

/// A unit power is a binary64 value exactly.
pub proof fn lemma_scale_exact(base: nat, e: nat)
    requires
        base == 1000 || base == 1024,
        1 <= e <= 6,
    ensures
        holds_integer(binary64(power(base, e), 1), power(base, e)),
{
    vstd::arithmetic::power2::lemma2_to64();
    vstd::arithmetic::power2::lemma2_to64_rest();
    reveal_with_fuel(power, 7);
    let d = power(base, e);
    if base == 1024 {
        if e == 1 {
            lemma_binary64_of_integer(d, 10);
        } else if e == 2 {
            lemma_binary64_of_integer(d, 20);
        } else if e == 3 {
            lemma_binary64_of_integer(d, 30);
        } else if e == 4 {
            lemma_binary64_of_integer(d, 40);
        } else if e == 5 {
            lemma_binary64_of_integer(d, 50);
        } else {
            lemma_binary64_of_integer(d, 60);
        }
    } else {
        if e == 1 {
            lemma_binary64_of_integer(d, 9);
        } else if e == 2 {
            lemma_binary64_of_integer(d, 19);
        } else if e == 3 {
            lemma_binary64_of_integer(d, 29);
        } else if e == 4 {
            lemma_binary64_of_integer(d, 39);
        } else if e == 5 {
            lemma_binary64_of_integer(d, 49);
        } else {
            lemma_binary64_of_integer(d, 59);
        }
    }
}

/// Formats `bytes` as a human-readable string with one decimal, e.g. `"1.5 KiB"`.
pub fn to_string(bytes: u64, format: Format) -> (r: String)
    ensures
        r@ == rendered(bytes, format, 1),
{
    to_string_with_precision(bytes, format, 1)
}

/// Formats `bytes` as a human-readable string with `precision` decimals,
/// e.g. `to_string_with_precision(1 << 40, Format::IEC, 2)` is `"1.00 TiB"`.
pub fn to_string_with_precision(bytes: u64, format: Format, precision: usize) -> (r: String)
    ensures
        r@ == rendered(bytes, format, precision as nat),
{
    let base: u64 = match format {
        Format::IEC => KIB,
        Format::SI => KB,
    };
    let mut out: Vec<char> = Vec::new();
    if bytes < base {
        push_decimal(&mut out, bytes);
        out.push(' ');
        out.push('B');
        assert(out@ =~= decimal(bytes as nat) + seq![' ', 'B']);
        return string_from_chars(&out);
    }
    // Integer logarithm: the largest `exp` with `base^exp <= bytes`.
    let mut exp: u32 = 0;
    let mut n: u64 = bytes;
    let mut scale: u64 = 1;
    proof {
        reveal_with_fuel(power, 7);
    }
    while n >= base
        invariant
            base == base_of(format),
            base >= 1000,
            scale == power(base as nat, exp as nat),
            scale >= power(1000, exp as nat),
            1 <= scale <= bytes,
            n == bytes / scale,
            exp + unit_exponent(n as nat, base as nat) == unit_exponent(bytes as nat, base as nat),
            exp <= 6,
        decreases n,
    {
        proof {
            reveal_with_fuel(power, 7);
            lemma_fundamental_div_mod(bytes as int, scale as int);
            assert(scale * base <= bytes) by (nonlinear_arith)
                requires
                    bytes == scale * n + bytes % scale,
                    n >= base,
                    bytes % scale >= 0,
            ;
            if exp == 6 {
                assert(power(1000, 6) == 1_000_000_000_000_000_000);
                lemma_div_is_ordered_by_denominator(
                    bytes as int,
                    1_000_000_000_000_000_000,
                    scale as int,
                );
                assert(n <= 18);
            }
            lemma_div_denominator(bytes as int, scale as int, base as int);
            assert(power(base as nat, (exp + 1) as nat) == base * power(base as nat, exp as nat));
            assert(power(1000, (exp + 1) as nat) == 1000 * power(1000, exp as nat));
            assert(base * scale >= 1000 * power(1000, exp as nat)) by (nonlinear_arith)
                requires
                    base >= 1000,
                    scale >= power(1000, exp as nat),
            ;
            lemma_div_decreases(n as int, base as int);
        }
        n = n / base;
        scale = scale * base;
        exp = exp + 1;
    }
    let ghost e = exp as nat;
    let b = u64_to_binary64(bytes);
    proof {
        let l = ilog2(bytes as nat);
        lemma_fundamental_div_mod(bytes as int, scale as int);
        assert(bytes < base * scale) by (nonlinear_arith)
            requires
                bytes == scale * n + bytes % scale,
                n < base,
                bytes % scale < scale,
        ;
        lemma_ilog2(bytes as nat);
        lemma_pow2_adds(l, 1);
        vstd::arithmetic::power2::lemma2_to64();
        assert(2 * b >= scale);
        assert(b < 2048 * scale);
        assert(exp >= 1);
    }
    let (int_part, frac) = quotient_digits(b, scale, precision);
    push_decimal(&mut out, int_part);
    if precision > 0 {
        out.push('.');
        push_chars(&mut out, &frac);
    }
    out.push(' ');
    out.push(prefix_of(format, exp));
    match format {
        Format::IEC => {
            out.push('i');
            out.push('B');
        },
        Format::SI => {
            out.push('B');
        },
    }
    proof {
        let p = precision as nat;
        lemma_scale_exact(base as nat, e);
        let x = binary64(bytes as nat, 1).unwrap();
        let y = binary64(scale as nat, 1).unwrap();
        assert(x.0 * y.1 * scale == b * (x.1 * y.0)) by (nonlinear_arith)
            requires
                x.0 == b * x.1,
                y.0 == scale * y.1,
        ;
        assert(x.1 * y.0 > 0) by (nonlinear_arith)
            requires
                x.1 > 0,
                y.1 > 0,
                y.0 == scale * y.1,
                scale >= 1,
        ;
        lemma_binary64_equal_fractions(x.0 * y.1, x.1 * y.0, b as nat, scale as nat);
        let nq = shown_quantity(bytes as nat, scale as nat, p);
        if p == 0 {
            assert(pow10(0) == 1);
            assert(nq / 1 == nq);
            assert(out@ =~= decimal(nq) + seq![' ', prefix_letter(format, e)] + unit_suffix(
                format,
            ));
        } else {
            assert(out@ =~= decimal(nq / pow10(p)) + seq!['.'] + zero_padded(nq % pow10(p), p)
                + seq![' ', prefix_letter(format, e)] + unit_suffix(format));
        }
    }
    string_from_chars(&out)
}

/// The unit letter of the `exp`-th power.
fn prefix_of(format: Format, exp: u32) -> (c: char)
    ensures
        c == prefix_letter(format, exp as nat),
{
    if exp == 1 {
        match format {
            Format::IEC => 'K',
            Format::SI => 'k',
        }
    } else if exp == 2 {
        'M'
    } else if exp == 3 {
        'G'
    } else if exp == 4 {
        'T'
    } else if exp == 5 {
        'P'
    } else {
        'E'
    }
}

} // verus!
