//! Decimal digit strings: their values, the canonical spelling of a number, and the
//! fixed-width spelling of a fractional part.
use crate::numeric::{lemma_pow10_adds, lemma_pow10_pos, pow10};
use vstd::arithmetic::div_mod::*;
use vstd::prelude::*;

verus! {

/// The character of the decimal digit `d` (for `d < 10`).
pub open spec fn digit_char(d: nat) -> char {
    (d + 48) as char
}

/// An ASCII decimal digit.
pub open spec fn is_digit(c: char) -> bool {
    '0' <= c && c <= '9'
}

/// The value of the decimal digit `c`.
pub open spec fn digit_value(c: char) -> nat {
    (c as int - 48) as nat
}

/// Every character of `s` is a decimal digit.
pub open spec fn all_digits(s: Seq<char>) -> bool {
    forall|i: int| 0 <= i < s.len() ==> #[trigger] is_digit(s[i])
}

/// The number that the digit string `s` spells (0 for the empty string).
pub open spec fn digits_value(s: Seq<char>) -> nat
    decreases s.len(),
{
    if s.len() == 0 {
        0
    } else {
        digits_value(s.drop_last()) * 10 + digit_value(s.last())
    }
}

/// The canonical decimal spelling of `n`: no leading zero, `"0"` for zero.
pub open spec fn decimal(n: nat) -> Seq<char>
    decreases n,
{
    if n < 10 {
        seq![digit_char(n)]
    } else {
        decimal(n / 10).push(digit_char(n % 10))
    }
}

/// The last `w` decimal digits of `n`, with leading zeros.
pub open spec fn zero_padded(n: nat, w: nat) -> Seq<char>
    decreases w,
{
    if w == 0 {
        seq![]
    } else {
        zero_padded(n / 10, (w - 1) as nat).push(digit_char(n % 10))
    }
}

/// The character of a decimal digit is a digit of that value.
pub proof fn lemma_digit_char(d: nat)
    requires
        d < 10,
    ensures
        is_digit(digit_char(d)),
        digit_value(digit_char(d)) == d,
{
}

/// A digit is the character of its value.
pub proof fn lemma_digit_roundtrip(c: char)
    requires
        is_digit(c),
    ensures
        digit_char(digit_value(c)) == c,
        digit_value(c) < 10,
{
    assert(((c as int - 48) + 48) as char == c);
}

/// A single digit spells its own value.
pub proof fn lemma_digits_value_single(c: char)
    ensures
        digits_value(seq![c]) == digit_value(c),
{
    assert(seq![c].drop_last() =~= Seq::<char>::empty());
    assert(digits_value(Seq::<char>::empty()) == 0);
    assert(seq![c].last() == c);
}

/// A digit string spells zero exactly when all its digits are `0`.
pub proof fn lemma_digits_value_zero(s: Seq<char>)
    requires
        all_digits(s),
    ensures
        digits_value(s) == 0 <==> (forall|i: int| 0 <= i < s.len() ==> s[i] == '0'),
    decreases s.len(),
{
    if s.len() > 0 {
        let s1 = s.drop_last();
        assert(all_digits(s1)) by {
            assert forall|i: int| 0 <= i < s1.len() implies #[trigger] is_digit(s1[i]) by {
                assert(is_digit(s[i]));
            }
        }
        lemma_digits_value_zero(s1);
        assert(is_digit(s[s.len() - 1]));
        if digits_value(s) == 0 {
            assert forall|i: int| 0 <= i < s.len() implies s[i] == '0' by {
                if i < s.len() - 1 {
                    assert(s1[i] == s[i]);
                }
            }
        }
        if forall|i: int| 0 <= i < s.len() ==> s[i] == '0' {
            assert forall|i: int| 0 <= i < s1.len() implies s1[i] == '0' by {
                assert(s[i] == '0');
            }
            assert(s[s.len() - 1] == '0');
        }
    }
}

/// Appending a digit multiplies the value by ten and adds the digit.
pub proof fn lemma_digits_value_push(s: Seq<char>, c: char)
    ensures
        digits_value(s.push(c)) == digits_value(s) * 10 + digit_value(c),
{
    assert(s.push(c).drop_last() =~= s);
}

/// The value of a concatenation.
pub proof fn lemma_digits_value_append(s: Seq<char>, t: Seq<char>)
    ensures
        digits_value(s + t) == digits_value(s) * pow10(t.len()) + digits_value(t),
    decreases t.len(),
{
    if t.len() == 0 {
        assert(s + t =~= s);
        assert(pow10(t.len()) == 1);
        assert(digits_value(t) == 0);
    } else {
        let t1 = t.drop_last();
        lemma_digits_value_append(s, t1);
        assert((s + t).drop_last() =~= s + t1);
        assert((s + t).last() == t.last());
        assert(digits_value(s + t) == digits_value(s + t1) * 10 + digit_value(t.last()));
        assert(digits_value(t) == digits_value(t1) * 10 + digit_value(t.last()));
        assert(pow10(t.len()) == 10 * pow10(t1.len()));
        let a = digits_value(s);
        let b = digits_value(t1);
        let p = pow10(t1.len());
        assert((a * p + b) * 10 == a * (10 * p) + b * 10) by (nonlinear_arith);
        assert(digits_value(s + t1) == a * p + b);
        assert(digits_value(s + t) == (a * p + b) * 10 + digit_value(t.last()));
        assert(digits_value(t) == b * 10 + digit_value(t.last()));
        assert(digits_value(s + t) == a * (10 * p) + digits_value(t));
    }
}

/// A string of `k` digits spells a number below `10^k`.
pub proof fn lemma_digits_value_bound(s: Seq<char>)
    requires
        all_digits(s),
    ensures
        digits_value(s) < pow10(s.len()),
    decreases s.len(),
{
    if s.len() > 0 {
        let s1 = s.drop_last();
        assert(all_digits(s1)) by {
            assert forall|i: int| 0 <= i < s1.len() implies #[trigger] is_digit(s1[i]) by {
                assert(is_digit(s[i]));
            }
        }
        lemma_digits_value_bound(s1);
        assert(is_digit(s[s.len() - 1]));
        assert(digits_value(s) <= (pow10(s1.len()) - 1) * 10 + 9) by (nonlinear_arith)
            requires
                digits_value(s) == digits_value(s1) * 10 + digit_value(s.last()),
                digits_value(s1) <= pow10(s1.len()) - 1,
                digit_value(s.last()) <= 9,
        ;
    }
}

/// The canonical spelling of `n` is a nonempty digit string of value `n`, with no
/// leading zero unless `n` is zero.
pub proof fn lemma_decimal(n: nat)
    ensures
        all_digits(decimal(n)),
        digits_value(decimal(n)) == n,
        decimal(n).len() >= 1,
        n > 0 ==> decimal(n)[0] != '0',
    decreases n,
{
    if n < 10 {
        lemma_digit_char(n);
        let t = seq![digit_char(n)];
        assert(decimal(n) == t);
        assert(t.drop_last() =~= Seq::<char>::empty());
        assert(digits_value(Seq::<char>::empty()) == 0);
        assert(t.last() == digit_char(n));
        assert(digits_value(t) == digits_value(t.drop_last()) * 10 + digit_value(t.last()));
    } else {
        lemma_decimal(n / 10);
        lemma_digit_char(n % 10);
        let s = decimal(n / 10);
        lemma_digits_value_push(s, digit_char(n % 10));
        assert(decimal(n) == s.push(digit_char(n % 10)));
        assert(digits_value(decimal(n)) == (n / 10) * 10 + n % 10);
        assert(decimal(n)[0] == s[0]);
        assert forall|i: int| 0 <= i < decimal(n).len() implies #[trigger] is_digit(
            decimal(n)[i],
        ) by {
            if i < s.len() {
                assert(decimal(n)[i] == s[i]);
            }
        }
    }
}

/// The zero-padded spelling has exactly `w` digits, of value `n mod 10^w`.
pub proof fn lemma_zero_padded(n: nat, w: nat)
    ensures
        all_digits(zero_padded(n, w)),
        zero_padded(n, w).len() == w,
        digits_value(zero_padded(n, w)) == n % pow10(w),
    decreases w,
{
    lemma_pow10_pos(w);
    if w > 0 {
        let w1 = (w - 1) as nat;
        lemma_zero_padded(n / 10, w1);
        let s = zero_padded(n / 10, w1);
        lemma_digits_value_push(s, digit_char(n % 10));
        assert forall|i: int| 0 <= i < zero_padded(n, w).len() implies #[trigger] is_digit(
            zero_padded(n, w)[i],
        ) by {
            if i < s.len() {
                assert(zero_padded(n, w)[i] == s[i]);
            }
        }
        lemma_pow10_pos(w1);
        lemma_mod_breakdown(n as int, 10, pow10(w1) as int);
        assert(pow10(w) == 10 * pow10(w1));
        assert(10 * pow10(w1) == pow10(w1) * 10) by (nonlinear_arith);
    } else {
        assert(n % 1 == 0);
    }
}

/// A digit string of width `w` is the zero-padded spelling of its value.
pub proof fn lemma_zero_padded_of_digits(s: Seq<char>)
    requires
        all_digits(s),
    ensures
        s == zero_padded(digits_value(s), s.len()),
    decreases s.len(),
{
    if s.len() > 0 {
        let s1 = s.drop_last();
        assert(all_digits(s1)) by {
            assert forall|i: int| 0 <= i < s1.len() implies #[trigger] is_digit(s1[i]) by {
                assert(is_digit(s[i]));
            }
        }
        lemma_zero_padded_of_digits(s1);
        let v = digits_value(s);
        let d = digit_value(s.last());
        assert(is_digit(s[s.len() - 1]));
        assert(d < 10);
        lemma_fundamental_div_mod_converse(v as int, 10, digits_value(s1) as int, d as int);
        assert(digit_char(d) == s.last());
        assert(zero_padded(v, s.len()) =~= s1.push(s.last()));
        assert(s1.push(s.last()) =~= s);
    }
}

/// Appends the decimal spelling of `n`.
pub fn push_decimal(out: &mut Vec<char>, n: u64)
    ensures
        final(out)@ == old(out)@ + decimal(n as nat),
    decreases n,
{
    if n >= 10 {
        push_decimal(out, n / 10);
    }
    let c = digit_of(n % 10);
    out.push(c);
    proof {
        if n >= 10 {
            assert(decimal(n as nat) == decimal((n / 10) as nat).push(digit_char((n % 10) as nat)));
        }
    }
    assert(out@ =~= old(out)@ + decimal(n as nat));
}

/// The character of a decimal digit.
pub fn digit_of(d: u64) -> (c: char)
    requires
        d < 10,
    ensures
        c == digit_char(d as nat),
{
    let c = match d {
        0 => '0',
        1 => '1',
        2 => '2',
        3 => '3',
        4 => '4',
        5 => '5',
        6 => '6',
        7 => '7',
        8 => '8',
        _ => '9',
    };
    c
}

} // verus!
