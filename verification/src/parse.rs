//! Parsing a byte size: a plain integer, or a decimal number followed by an optional
//! unit (`"1024"`, `"1.5 KB"`, `"2MiB"`, `"3 g"`).
use crate::binary64::binary64;
use crate::digits::{
    all_digits, digit_value, digits_value, is_digit, lemma_digits_value_append,
    lemma_digits_value_push,
};
use crate::numeric::{lemma_pow10_pos, pow10};
use vstd::arithmetic::power2::pow2;
use crate::render::{holds_integer, lemma_binary64_of_integer};
use crate::scaling::{decimal_times_unit, digit_value_of, scale_decimal};
use crate::text::{chars_of, debug_quoted, debug_string, push_chars, push_str, string_from_chars};
use crate::units::{unit_bytes, unit_error_message, unit_from_name, ParseError, Unit};
use vstd::prelude::*;

verus! {

/// The number of leading characters of `s` that satisfy `p`.
pub open spec fn leading_count(s: Seq<char>, p: spec_fn(char) -> bool) -> nat
    decreases s.len(),
{
    if s.len() > 0 && p(s[0]) {
        1 + leading_count(s.drop_first(), p)
    } else {
        0
    }
}

/// The prefix of `s` whose characters all satisfy `p`, up to the first that does not.
pub open spec fn prefix_while(s: Seq<char>, p: spec_fn(char) -> bool) -> Seq<char> {
    s.take(leading_count(s, p) as int)
}

/// What remains of `s` after its prefix whose characters all satisfy `p`.
pub open spec fn suffix_after(s: Seq<char>, p: spec_fn(char) -> bool) -> Seq<char> {
    s.skip(leading_count(s, p) as int)
}

/// A character of the number part of a byte size: an ASCII digit or a dot.
pub open spec fn is_number_char(c: char) -> bool {
    is_digit(c) || c == '.'
}

/// Whether `c` has the Unicode `White_Space` property: `\t` to `\r`, the space, U+0085,
/// U+00A0, U+1680, U+2000 to U+200A, U+2028, U+2029, U+202F, U+205F and U+3000.
pub open spec fn is_white_space(c: char) -> bool {
    ||| ('\t' <= c && c <= '\r')
    ||| c == ' '
    ||| c == '\u{85}'
    ||| c == '\u{a0}'
    ||| c == '\u{1680}'
    ||| ('\u{2000}' <= c && c <= '\u{200a}')
    ||| c == '\u{2028}'
    ||| c == '\u{2029}'
    ||| c == '\u{202f}'
    ||| c == '\u{205f}'
    ||| c == '\u{3000}'
}

/// `char::is_whitespace`: whether `c` has the Unicode `White_Space` property
/// (`is_white_space`).
#[verifier::external_body]
pub(crate) fn is_whitespace(c: char) -> (r: bool)
    ensures
        r == is_white_space(c),
{
    c.is_whitespace()
}

/// The unsigned integer that `s` spells as Rust writes one: an optional `+`, then one or
/// more ASCII digits, of a value that fits in a `u64`.
pub open spec fn u64_literal(s: Seq<char>) -> Option<u64> {
    let d = if s.len() > 0 && s[0] == '+' {
        s.drop_first()
    } else {
        s
    };
    if d.len() > 0 && all_digits(d) && digits_value(d) <= u64::MAX {
        Some(digits_value(d) as u64)
    } else {
        None
    }
}

/// The integer and fractional digits of a decimal literal made of digits and dots:
/// digits, optionally a dot and more digits, with at least one digit in all.
pub open spec fn decimal_parts(s: Seq<char>) -> Option<(Seq<char>, Seq<char>)> {
    let ip = leading_count(s, |c: char| is_digit(c));
    if ip == s.len() {
        if ip > 0 {
            Some((s, Seq::<char>::empty()))
        } else {
            None
        }
    } else {
        let rest = s.skip(ip + 1int);
        if all_digits(rest) && (ip > 0 || rest.len() > 0) {
            Some((s.take(ip as int), rest))
        } else {
            None
        }
    }
}

/// Why a number part is not a decimal literal.
pub open spec fn literal_error(s: Seq<char>) -> Seq<char> {
    if s.len() == 0 {
        "cannot parse float from empty string"@
    } else {
        "invalid float literal"@
    }
}

/// The unit that follows a number: bytes when nothing follows, else the unit that the
/// text names (`unit_from_name`).
pub open spec fn unit_of_suffix(suffix: Seq<char>) -> Result<Unit, Seq<char>> {
    if suffix.len() == 0 {
        Ok(Unit::Byte)
    } else {
        unit_from_name(suffix)
    }
}

/// The result of parsing `s` as a byte size, or the message of its error.
///
/// A plain unsigned integer is the count itself.  Otherwise the leading digits and dots
/// must form a decimal number, and what follows it, after white space, is an optional
/// unit (`unit_of_suffix`; bytes when it is left out).  A whole number of units is
/// multiplied exactly, and is an error when the number or the product does not fit in a
/// `u64`; a fractional one is multiplied in binary64 arithmetic (`decimal_times_unit`).
pub open spec fn parse_spec(s: Seq<char>) -> Result<u64, Seq<char>> {
    match u64_literal(s) {
        Some(v) => Ok(v),
        None => {
            let number = prefix_while(s, |c: char| is_number_char(c));
            match decimal_parts(number) {
                None => Err(
                    "couldn't parse "@ + debug_quoted(s) + " into a byte size, "@ + literal_error(
                        number,
                    ),
                ),
                Some(parts) => {
                    let rest = s.skip(number.len() as int);
                    let suffix = suffix_after(rest, |c: char| is_white_space(c));
                    match unit_of_suffix(suffix) {
                        Err(m) => Err(
                            "couldn't parse "@ + debug_quoted(suffix) + " into a known SI unit, "@
                                + m,
                        ),
                        Ok(unit) => {
                            let u = unit_bytes(unit);
                            let whole = parts.1.len() == 0 && number.len() == parts.0.len();
                            if whole {
                                if digits_value(number) * u <= u64::MAX {
                                    Ok((digits_value(number) * u) as u64)
                                } else {
                                    Err(debug_quoted(s) + " overflows a u64 byte count"@)
                                }
                            } else {
                                Ok(
                                    decimal_times_unit(
                                        digits_value(parts.0 + parts.1),
                                        parts.1.len(),
                                        u as nat,
                                    ),
                                )
                            }
                        },
                    }
                },
            }
        },
    }
}

/// The leading run of `p` is no longer than the string, and its characters satisfy `p`.
pub proof fn lemma_leading_count_props(s: Seq<char>, p: spec_fn(char) -> bool)
    ensures
        leading_count(s, p) <= s.len(),
        forall|i: int| 0 <= i < leading_count(s, p) ==> p(#[trigger] s[i]),
    decreases s.len(),
{
    if s.len() > 0 && p(s[0]) {
        let t = s.drop_first();
        lemma_leading_count_props(t, p);
        assert forall|i: int| 0 <= i < leading_count(s, p) implies p(#[trigger] s[i]) by {
            if i > 0 {
                assert(s[i] == t[i - 1]);
            }
        }
    }
}

/// A prefix in which every character satisfies `p`, followed by one that does not (or
/// the end), is the leading run of `p`.
pub proof fn lemma_leading_count(s: Seq<char>, p: spec_fn(char) -> bool, k: nat)
    requires
        k <= s.len(),
        forall|i: int| 0 <= i < k ==> p(#[trigger] s[i]),
        k < s.len() ==> !p(s[k as int]),
    ensures
        leading_count(s, p) == k,
    decreases s.len(),
{
    if k > 0 {
        let t = s.drop_first();
        assert forall|i: int| 0 <= i < k - 1 implies p(#[trigger] t[i]) by {
            assert(t[i] == s[i + 1]);
        }
        if k - 1 < t.len() {
            assert(t[k - 1] == s[k as int]);
        }
        lemma_leading_count(t, p, (k - 1) as nat);
        assert(p(s[0]));
    } else if s.len() > 0 {
        assert(!p(s[0]));
    }
}

/// The prefix of `s` whose characters all satisfy `predicate`, up to the first that
/// does not.
pub fn take_while<P: Fn(char) -> bool>(s: &str, predicate: P) -> (r: &str)
    requires
        forall|c: char| predicate.requires((c,)),
    ensures
        r@.len() <= s@.len(),
        r@ == s@.subrange(0, r@.len() as int),
        forall|i: int| 0 <= i < r@.len() ==> predicate.ensures((#[trigger] s@[i],), true),
        r@.len() < s@.len() ==> predicate.ensures((s@[r@.len() as int],), false),
{
    let cs = chars_of(s);
    let mut k: usize = 0;
    while k < cs.len()
        invariant
            cs@ == s@,
            k <= cs@.len(),
            forall|c: char| predicate.requires((c,)),
            forall|i: int| 0 <= i < k ==> predicate.ensures((#[trigger] s@[i],), true),
        ensures
            k <= cs@.len(),
            forall|i: int| 0 <= i < k ==> predicate.ensures((#[trigger] s@[i],), true),
            k < cs@.len() ==> predicate.ensures((s@[k as int],), false),
        decreases cs.len() - k,
    {
        let keep = predicate(cs[k]);
        if !keep {
            break;
        }
        k = k + 1;
    }
    s.substring_char(0, k)
}

/// What remains of `s` after its prefix whose characters all satisfy `predicate`.
pub fn skip_while<P: Fn(char) -> bool>(s: &str, predicate: P) -> (r: &str)
    requires
        forall|c: char| predicate.requires((c,)),
    ensures
        r@.len() <= s@.len(),
        r@ == s@.subrange(s@.len() - r@.len(), s@.len() as int),
        forall|i: int| 0 <= i < s@.len() - r@.len() ==> predicate.ensures((#[trigger] s@[i],), true),
        r@.len() > 0 ==> predicate.ensures((s@[s@.len() - r@.len()],), false),
{
    let cs = chars_of(s);
    let mut k: usize = 0;
    while k < cs.len()
        invariant
            cs@ == s@,
            k <= cs@.len(),
            forall|c: char| predicate.requires((c,)),
            forall|i: int| 0 <= i < k ==> predicate.ensures((#[trigger] s@[i],), true),
        ensures
            k <= cs@.len(),
            forall|i: int| 0 <= i < k ==> predicate.ensures((#[trigger] s@[i],), true),
            k < cs@.len() ==> predicate.ensures((s@[k as int],), false),
        decreases cs.len() - k,
    {
        let keep = predicate(cs[k]);
        if !keep {
            break;
        }
        k = k + 1;
    }
    s.substring_char(k, cs.len())
}

/// A predicate value whose result is determined by its argument.
pub open spec fn is_pure<P: Fn(char) -> bool>(predicate: P) -> bool {
    forall|c: char, a: bool, b: bool|
        predicate.ensures((c,), a) && predicate.ensures((c,), b) ==> a == b
}

/// What `take_while` gives back and what `skip_while` gives back, with a pure predicate,
/// join to the whole string: the first ends where the second starts.
pub proof fn law_take_skip_join<P: Fn(char) -> bool>(
    predicate: P,
    s: Seq<char>,
    taken: Seq<char>,
    skipped: Seq<char>,
)
    requires
        is_pure(predicate),
        taken.len() <= s.len(),
        taken == s.subrange(0, taken.len() as int),
        forall|i: int| 0 <= i < taken.len() ==> predicate.ensures((#[trigger] s[i],), true),
        taken.len() < s.len() ==> predicate.ensures((s[taken.len() as int],), false),
        skipped.len() <= s.len(),
        skipped == s.subrange(s.len() - skipped.len(), s.len() as int),
        forall|i: int| 0 <= i < s.len() - skipped.len() ==> predicate.ensures((#[trigger] s[i],), true),
        skipped.len() > 0 ==> predicate.ensures((s[s.len() - skipped.len()],), false),
    ensures
        taken + skipped == s,
{
    let k = taken.len() as int;
    let j = s.len() - skipped.len();
    if k < j {
        assert(predicate.ensures((s[k],), true));
    } else if j < k {
        assert(predicate.ensures((s[j],), true));
    }
    assert(taken + skipped =~= s);
}

/// `is_number_char` as a predicate value.
pub open spec fn number_char_pred() -> spec_fn(char) -> bool {
    |c: char| is_number_char(c)
}

/// `is_white_space` as a predicate value.
pub open spec fn white_space_pred() -> spec_fn(char) -> bool {
    |c: char| is_white_space(c)
}

/// `is_digit` as a predicate value.
pub open spec fn digit_pred() -> spec_fn(char) -> bool {
    |c: char| is_digit(c)
}

/// Whether `c` is an ASCII digit.
pub fn is_ascii_digit(c: char) -> (r: bool)
    ensures
        r == is_digit(c),
{
    '0' <= c && c <= '9'
}

/// Whether `c` may stand in the number part of a byte size: an ASCII digit or a dot.
pub fn number_char(c: char) -> (r: bool)
    ensures
        r == is_number_char(c),
{
    is_ascii_digit(c) || c == '.'
}

/// A digit string spells at least what any of its prefixes spells.
proof fn lemma_digits_value_prefix(d: Seq<char>, j: int)
    requires
        0 <= j <= d.len(),
        all_digits(d),
    ensures
        digits_value(d) >= digits_value(d.take(j)),
{
    assert(d =~= d.take(j) + d.skip(j));
    lemma_digits_value_append(d.take(j), d.skip(j));
    lemma_pow10_pos((d.len() - j) as nat);
    let a = digits_value(d.take(j));
    let p = pow10((d.len() - j) as nat);
    assert(a * p >= a) by (nonlinear_arith)
        requires
            p >= 1,
    ;
}

/// The unsigned integer that `cs` spells, as `u64::from_str` reads it.
pub fn parse_u64_literal(cs: &Vec<char>) -> (r: Option<u64>)
    ensures
        r == u64_literal(cs@),
{
    let n = cs.len();
    let start: usize = if n > 0 && cs[0] == '+' {
        1
    } else {
        0
    };
    let ghost d = cs@.skip(start as int);
    proof {
        if n > 0 && cs@[0] == '+' {
            assert(d =~= cs@.drop_first());
        } else {
            assert(d =~= cs@);
        }
    }
    if start >= n {
        return None;
    }
    let mut acc: u128 = 0;
    let mut i: usize = start;
    proof {
        assert(d.take(0) =~= Seq::<char>::empty());
    }
    while i < n
        invariant
            start <= i <= n == cs@.len(),
            d == cs@.skip(start as int),
            d == (if cs@.len() > 0 && cs@[0] == '+' {
                cs@.drop_first()
            } else {
                cs@
            }),
            d.len() > 0,
            acc == digits_value(d.take(i - start)),
            all_digits(d.take(i - start)),
            acc <= u64::MAX,
        decreases n - i,
    {
        let c = cs[i];
        assert(c == d[i - start]);
        if !is_ascii_digit(c) {
            assert(!all_digits(d));
            return None;
        }
        let v = digit_value_of(c);
        proof {
            assert(d.take(i - start + 1) =~= d.take(i - start).push(c));
            lemma_digits_value_push(d.take(i - start), c);
        }
        acc = acc * 10 + v as u128;
        if acc > u64::MAX as u128 {
            proof {
                if all_digits(d) {
                    lemma_digits_value_prefix(d, i - start + 1);
                }
            }
            return None;
        }
        i = i + 1;
        proof {
            assert forall|j: int| 0 <= j < d.take(i - start).len() implies #[trigger] is_digit(
                d.take(i - start)[j],
            ) by {
                if j < i - start - 1 {
                    assert(d.take(i - start)[j] == d.take(i - start - 1)[j]);
                }
            }
        }
    }
    proof {
        assert(d.take(n - start) =~= d);
    }
    Some(acc as u64)
}

/// Splits a decimal literal made of digits and dots into its integer and fractional
/// digits, if it is one.
fn split_decimal(number: &Vec<char>) -> (r: Option<(Vec<char>, Vec<char>)>)
    requires
        forall|i: int| 0 <= i < number@.len() ==> is_number_char(#[trigger] number@[i]),
    ensures
        match decimal_parts(number@) {
            None => r is None,
            Some(p) => r matches Some(q) && q.0@ == p.0 && q.1@ == p.1,
        },
        r matches Some(q) ==> {
            &&& all_digits(q.0@)
            &&& all_digits(q.1@)
            &&& q.0@.len() <= number@.len()
            &&& q.0@ == number@.take(q.0@.len() as int)
        },
{
    let n = number.len();
    let mut ip: usize = 0;
    while ip < n && is_ascii_digit(number[ip])
        invariant
            ip <= n == number@.len(),
            forall|j: int| 0 <= j < ip ==> is_digit(#[trigger] number@[j]),
        decreases n - ip,
    {
        ip = ip + 1;
    }
    proof {
        lemma_leading_count(number@, digit_pred(), ip as nat);
        assert(digit_pred() == (|c: char| is_digit(c)));
        assert(all_digits(number@.take(ip as int))) by {
            assert forall|t: int| 0 <= t < ip implies #[trigger] is_digit(number@.take(ip as int)[t]) by {
                assert(number@.take(ip as int)[t] == number@[t]);
            }
        }
    }
    let mut int_part: Vec<char> = Vec::new();
    let mut i: usize = 0;
    while i < ip
        invariant
            i <= ip <= n == number@.len(),
            int_part@ == number@.take(i as int),
        decreases ip - i,
    {
        int_part.push(number[i]);
        i = i + 1;
        assert(int_part@ =~= number@.take(i as int));
    }
    if ip == n {
        if ip > 0 {
            assert(int_part@ =~= number@);
            return Some((int_part, Vec::new()));
        } else {
            return None;
        }
    }
    let mut frac: Vec<char> = Vec::new();
    let mut j: usize = ip + 1;
    let mut ok = true;
    while j < n
        invariant
            ip < n == number@.len(),
            ip + 1 <= j <= n,
            frac@ == number@.subrange(ip + 1, j as int),
            ok == all_digits(frac@),
        decreases n - j,
    {
        let c = number[j];
        let dig = is_ascii_digit(c);
        proof {
            if ok && dig {
                assert forall|t: int| 0 <= t < frac@.push(c).len() implies #[trigger] is_digit(
                    frac@.push(c)[t],
                ) by {
                    if t < frac@.len() {
                        assert(frac@.push(c)[t] == frac@[t]);
                    }
                }
            }
            if !dig {
                assert(!is_digit(frac@.push(c)[frac@.len() as int]));
            }
            if !ok {
                assert(!all_digits(frac@));
                let t = choose|t: int| 0 <= t < frac@.len() && !is_digit(frac@[t]);
                assert(frac@.push(c)[t] == frac@[t]);
            }
        }
        frac.push(c);
        ok = ok && dig;
        j = j + 1;
        assert(frac@ =~= number@.subrange(ip + 1, j as int));
    }
    proof {
        assert(number@.skip(ip + 1int) =~= frac@);
    }
    if ok && (ip > 0 || frac.len() > 0) {
        Some((int_part, frac))
    } else {
        None
    }
}

/// Every unit is a binary64 value exactly, and at most `2^60` bytes.
proof fn lemma_unit_exact(unit: Unit)
    ensures
        holds_integer(binary64(unit_bytes(unit) as nat, 1), unit_bytes(unit) as nat),
        1 <= unit_bytes(unit) <= pow2(60),
{
    vstd::arithmetic::power2::lemma2_to64();
    vstd::arithmetic::power2::lemma2_to64_rest();
    let d = unit_bytes(unit) as nat;
    match unit {
        Unit::Byte => lemma_binary64_of_integer(d, 0),
        Unit::KiloByte => lemma_binary64_of_integer(d, 9),
        Unit::MegaByte => lemma_binary64_of_integer(d, 19),
        Unit::GigaByte => lemma_binary64_of_integer(d, 29),
        Unit::TeraByte => lemma_binary64_of_integer(d, 39),
        Unit::PetaByte => lemma_binary64_of_integer(d, 49),
        Unit::ExaByte => lemma_binary64_of_integer(d, 59),
        Unit::KibiByte => lemma_binary64_of_integer(d, 10),
        Unit::MebiByte => lemma_binary64_of_integer(d, 20),
        Unit::GibiByte => lemma_binary64_of_integer(d, 30),
        Unit::TebiByte => lemma_binary64_of_integer(d, 40),
        Unit::PebiByte => lemma_binary64_of_integer(d, 50),
        Unit::ExbiByte => lemma_binary64_of_integer(d, 60),
    }
}

/// The error for a whole number of units that does not fit in a `u64` byte count.
fn overflow_error(value: &str) -> (e: ParseError)
    ensures
        e.0@ == debug_quoted(value@) + " overflows a u64 byte count"@,
{
    let mut msg: Vec<char> = Vec::new();
    let quoted = debug_string(value);
    let quoted_chars = chars_of(quoted.as_str());
    push_chars(&mut msg, &quoted_chars);
    push_str(&mut msg, " overflows a u64 byte count");
    ParseError(string_from_chars(&msg))
}

/// Parses a human-readable byte size string into a byte count, e.g. `"1.5 KiB"` to `1536`.
///
/// Accepts a plain integer, or a number followed by an optional SI/IEC unit
/// (case-insensitive; bytes when it is left out): `"1024"`, `"1.5 KB"`, `"2MiB"`,
/// `"3 g"`, `"1.5"`.  A whole number of units that does not fit in a `u64` is an error.
pub fn parse(value: &str) -> (r: Result<u64, ParseError>)
    ensures
        match parse_spec(value@) {
            Ok(v) => r == Ok::<u64, ParseError>(v),
            Err(m) => r matches Err(e) && e.0@ == m,
        },
{
    let cs = chars_of(value);
    if let Some(v) = parse_u64_literal(&cs) {
        return Ok(v);
    }
    let number = take_while(value, number_char);
    let number_chars = chars_of(number);
    proof {
        lemma_leading_count(value@, number_char_pred(), number@.len());
        assert(number@ =~= prefix_while(value@, |c: char| is_number_char(c)));
        assert forall|i: int| 0 <= i < number@.len() implies is_number_char(
            #[trigger] number_chars@[i],
        ) by {
            assert(number_chars@[i] == value@[i]);
        }
    }
    match split_decimal(&number_chars) {
        None => {
            let mut msg: Vec<char> = Vec::new();
            push_str(&mut msg, "couldn't parse ");
            let quoted = debug_string(value);
            let quoted_chars = chars_of(quoted.as_str());
            push_chars(&mut msg, &quoted_chars);
            push_str(&mut msg, " into a byte size, ");
            if number_chars.len() == 0 {
                push_str(&mut msg, "cannot parse float from empty string");
            } else {
                push_str(&mut msg, "invalid float literal");
            }
            Err(ParseError(string_from_chars(&msg)))
        },
        Some((int_part, frac)) => {
            let rest = value.substring_char(number_chars.len(), cs.len());
            let suffix = skip_while(rest, is_whitespace);
            proof {
                lemma_leading_count(rest@, white_space_pred(), (rest@.len() - suffix@.len()) as nat);
                assert(rest@ =~= value@.skip(number@.len() as int));
                assert(suffix@ =~= suffix_after(rest@, |c: char| is_white_space(c)));
            }
            let unit_result = if suffix.is_empty() {
                Ok(Unit::Byte)
            } else {
                Unit::from_name(suffix)
            };
            match unit_result {
                Err(e) => {
                    let mut msg: Vec<char> = Vec::new();
                    push_str(&mut msg, "couldn't parse ");
                    let quoted = debug_string(suffix);
                    let quoted_chars = chars_of(quoted.as_str());
                    push_chars(&mut msg, &quoted_chars);
                    push_str(&mut msg, " into a known SI unit, ");
                    let inner = chars_of(e.0.as_str());
                    push_chars(&mut msg, &inner);
                    Err(ParseError(string_from_chars(&msg)))
                },
                Ok(unit) => {
                    let u: u64 = u64::from(unit);
                    proof {
                        lemma_unit_exact(unit);
                    }
                    let whole = frac.len() == 0 && number_chars.len() == int_part.len();
                    if whole {
                        match parse_u64_literal(&number_chars) {
                            Some(nv) => {
                                proof {
                                    assert(number_chars@[0] != '+') by {
                                        assert(is_number_char(number_chars@[0]));
                                    }
                                    assert(number_chars@.take(number_chars@.len() as int) =~= number_chars@);
                                    assert(int_part@ =~= number_chars@);
                                }
                                return match nv.checked_mul(u) {
                                    Some(total) => Ok(total),
                                    None => Err(overflow_error(value)),
                                };
                            },
                            None => {
                                proof {
                                    assert(number_chars@.take(number_chars@.len() as int) =~= number_chars@);
                                    assert(int_part@ =~= number_chars@);
                                    if number_chars@[0] == '+' {
                                        assert(is_number_char(number_chars@[0]));
                                    }
                                    let d = digits_value(number_chars@);
                                    assert(d * u > u64::MAX) by (nonlinear_arith)
                                        requires
                                            d > u64::MAX,
                                            u >= 1,
                                    ;
                                }
                                return Err(overflow_error(value));
                            },
                        }
                    }
                    Ok(scale_decimal(&int_part, &frac, u))
                },
            }
        },
    }
}

} // verus!
