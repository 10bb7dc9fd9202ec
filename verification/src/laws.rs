//! Properties that span rendering and parsing.
use crate::binary64::binary64;
use crate::digits::{all_digits, decimal, digits_value, is_digit, lemma_decimal, lemma_zero_padded};
use crate::numeric::{lemma_pow10_pos, pow10};
use crate::parse::{
    decimal_parts, is_number_char, is_white_space, leading_count, lemma_leading_count,
    parse_spec, prefix_while, suffix_after, u64_literal,
};
use crate::numeric::round_half_even;
use crate::render::{
    base_of, fixed_point, power, prefix_letter, rendered, shown_quantity, unit_exponent,
    unit_suffix,
};
use crate::text::{all_ascii, ascii_lower_char, is_ascii_char, lowercased};
use crate::units::{unit_bytes, unit_from_name, Format, Unit};
use vstd::arithmetic::div_mod::{lemma_div_decreases, lemma_fundamental_div_mod};
use vstd::prelude::*;

verus! {

/// Whether the whole-number rendering of `bytes` (no decimals) stays within `u64` when
/// read back: the count it shows, times the unit it shows it in, is at most `u64::MAX`.
pub open spec fn whole_rendering_fits(bytes: u64, format: Format) -> bool {
    let base = base_of(format);
    let scale = power(base, unit_exponent(bytes as nat, base));
    bytes < base || shown_quantity(bytes as nat, scale, 0) * scale <= u64::MAX
}

/// A number part, then white space, then a word that starts with neither: the number
/// part is `f`, and the unit name after the white space is `t`.
proof fn lemma_number_space_unit(f: Seq<char>, w: Seq<char>, t: Seq<char>)
    requires
        f.len() >= 1,
        is_digit(f[0]),
        forall|i: int| 0 <= i < f.len() ==> is_number_char(#[trigger] f[i]),
        forall|i: int| 0 <= i < w.len() ==> is_white_space(#[trigger] w[i]),
        t.len() >= 1,
        !is_white_space(t[0]),
        !is_number_char(t[0]),
    ensures
        u64_literal(f + w + t) is None,
        prefix_while(f + w + t, |c: char| is_number_char(c)) == f,
        (f + w + t).skip(f.len() as int) == w + t,
        suffix_after(w + t, |c: char| is_white_space(c)) == t,
{
    let s = f + w + t;
    let k = f.len() as int;
    // the character right after the number part is white space or the unit's first
    let c = s[k];
    if w.len() > 0 {
        assert(c == w[0]);
        assert(is_white_space(w[0]));
    } else {
        assert(c == t[0]);
    }
    assert(!is_number_char(c));
    assert(s[0] == f[0]);
    assert(!all_digits(s)) by {
        assert(!is_digit(s[k]));
    }
    assert forall|i: int| 0 <= i < f.len() implies (|c: char| is_number_char(c))(
        #[trigger] s[i],
    ) by {
        assert(s[i] == f[i]);
    }
    lemma_leading_count(s, |c: char| is_number_char(c), f.len());
    assert(s.take(k) =~= f);
    assert(s.skip(k) =~= w + t);
    let r = w + t;
    assert forall|i: int| 0 <= i < w.len() implies (|c: char| is_white_space(c))(
        #[trigger] r[i],
    ) by {
        assert(r[i] == w[i]);
    }
    assert(r[w.len() as int] == t[0]);
    lemma_leading_count(r, |c: char| is_white_space(c), w.len());
    assert(r.skip(w.len() as int) =~= t);
}

/// The shape of a fixed-point spelling: digits, and with decimals a dot and more
/// digits; it is a decimal literal, a whole one exactly when there are no decimals.
proof fn lemma_fixed_point(n: nat, p: nat)
    ensures
        fixed_point(n, p).len() >= 1,
        is_digit(fixed_point(n, p)[0]),
        forall|i: int|
            0 <= i < fixed_point(n, p).len() ==> is_number_char(#[trigger] fixed_point(n, p)[i]),
        p == 0 ==> decimal_parts(fixed_point(n, p)) == Some((decimal(n), Seq::<char>::empty())),
        p == 0 ==> fixed_point(n, p) == decimal(n) && digits_value(decimal(n)) == n,
        p > 0 ==> (decimal_parts(fixed_point(n, p)) matches Some(parts) && parts.0.len()
            < fixed_point(n, p).len()),
{
    let f = fixed_point(n, p);
    if p == 0 {
        lemma_decimal(n);
        assert forall|i: int| 0 <= i < f.len() implies (|c: char| is_digit(c))(#[trigger] f[i]) by {
            assert(is_digit(f[i]));
        }
        lemma_leading_count(f, |c: char| is_digit(c), f.len());
    } else {
        lemma_pow10_pos(p);
        let a = decimal(n / pow10(p));
        let z = crate::digits::zero_padded(n % pow10(p), p);
        lemma_decimal(n / pow10(p));
        lemma_zero_padded(n % pow10(p), p);
        assert(f == a + seq!['.'] + z);
        let k = a.len() as int;
        assert forall|i: int| 0 <= i < f.len() implies is_number_char(#[trigger] f[i]) by {
            if i < k {
                assert(f[i] == a[i]);
                assert(is_digit(a[i]));
            } else if i > k {
                assert(f[i] == z[i - k - 1]);
                assert(is_digit(z[i - k - 1]));
            }
        }
        assert(f[0] == a[0]);
        assert(is_digit(a[0]));
        assert forall|i: int| 0 <= i < k implies (|c: char| is_digit(c))(#[trigger] f[i]) by {
            assert(f[i] == a[i]);
            assert(is_digit(a[i]));
        }
        assert(f[k] == '.');
        lemma_leading_count(f, |c: char| is_digit(c), a.len());
        assert(f.skip(k + 1) =~= z);
        assert(f.take(k) =~= a);
    }
}

/// A number below `base^k` has a unit exponent below `k`.
proof fn lemma_unit_exponent_below(n: nat, base: nat, k: nat)
    requires
        base > 1,
        1 <= n < power(base, k),
    ensures
        unit_exponent(n, base) < k,
    decreases n,
{
    if k == 0 {
        assert(power(base, 0) == 1);
    } else if n >= base {
        let m = n / base;
        lemma_fundamental_div_mod(n as int, base as int);
        assert(power(base, k) == base * power(base, (k - 1) as nat));
        let pk = power(base, (k - 1) as nat);
        assert(m < pk && m >= 1) by (nonlinear_arith)
            requires
                n == base * m + n % base,
                0 <= n % base < base,
                n < base * pk,
                n >= base,
        ;
        lemma_div_decreases(n as int, base as int);
        lemma_unit_exponent_below(m, base, (k - 1) as nat);
    }
}

/// A count of at least one unit is shown in one of the six units, `K` to `E`.
proof fn lemma_unit_exponent_range(bytes: u64, base: nat)
    requires
        base == 1000 || base == 1024,
        bytes >= base,
    ensures
        1 <= unit_exponent(bytes as nat, base) <= 6,
{
    reveal_with_fuel(power, 8);
    assert(power(base, 7) >= power(1000, 7)) by {
        assert(power(1000, 7) == 1_000_000_000_000_000_000_000nat);
        assert(power(1024, 7) == 1_180_591_620_717_411_303_424nat);
    }
    lemma_unit_exponent_below(bytes as nat, base, 7);
}

/// The unit name that a rendering ends with (`KiB`, `kB`, `MB`, ...) names the unit of
/// the power it was rendered in, and does not start with white space or a number
/// character.
proof fn lemma_rendered_unit_name(format: Format, e: nat)
    requires
        1 <= e <= 6,
    ensures
        unit_from_name(seq![prefix_letter(format, e)] + unit_suffix(format)) matches Ok(u)
            && unit_bytes(u) == power(base_of(format), e),
        !is_white_space(prefix_letter(format, e)),
        !is_number_char(prefix_letter(format, e)),
{
    reveal_with_fuel(power, 7);
    let l = prefix_letter(format, e);
    let name = seq![l] + unit_suffix(format);
    assert(all_ascii(name)) by {
        assert forall|i: int| 0 <= i < name.len() implies #[trigger] is_ascii_char(name[i]) by {
            if i > 0 {
                assert(name[i] == unit_suffix(format)[i - 1]);
            }
        }
    }
    let low = name.map_values(|c: char| ascii_lower_char(c));
    assert(lowercased(name) == low);
    let ll = ascii_lower_char(l);
    match format {
        Format::IEC => {
            assert(low =~= seq![ll, 'i', 'b']);
        },
        Format::SI => {
            assert(low =~= seq![ll, 'b']);
        },
    }
    assert(ascii_lower_char('K') == 'k');
    assert(ascii_lower_char('M') == 'm');
    assert(ascii_lower_char('G') == 'g');
    assert(ascii_lower_char('T') == 't');
    assert(ascii_lower_char('P') == 'p');
    assert(ascii_lower_char('E') == 'e');
}

/// Everything that is rendered parses back: the text of any byte count, in either
/// format and with any number of decimals, is a valid byte size.  Without decimals a
/// count may be rounded up past `u64::MAX` bytes (`"16 EiB"`); such texts are left out.
pub proof fn law_rendered_parses(bytes: u64, format: Format, p: nat)
    requires
        p > 0 || whole_rendering_fits(bytes, format),
    ensures
        parse_spec(rendered(bytes, format, p)) is Ok,
{
    let base = base_of(format);
    let s = rendered(bytes, format, p);
    let w = seq![' '];
    if bytes < base {
        let f = decimal(bytes as nat);
        lemma_fixed_point(bytes as nat, 0);
        let t = seq!['B'];
        assert(s =~= f + w + t);
        lemma_number_space_unit(f, w, t);
        assert(all_ascii(t)) by {
            assert(is_ascii_char(t[0]));
        }
        assert(lowercased(t) =~= seq!['b']);
        assert(unit_from_name(t) == Ok::<Unit, Seq<char>>(Unit::Byte));
        assert(prefix_while(s, |c: char| is_number_char(c)) == f);
        assert(decimal_parts(f) == Some((f, Seq::<char>::empty())));
        assert(s.skip(f.len() as int) == w + t);
        assert(suffix_after(w + t, |c: char| is_white_space(c)) == t);
        assert(digits_value(f) == bytes);
        assert(unit_bytes(Unit::Byte) == 1);
        assert(digits_value(f) * 1 <= u64::MAX);
    } else {
        lemma_unit_exponent_range(bytes, base);
        let e = unit_exponent(bytes as nat, base);
        let scale = power(base, e);
        let q = shown_quantity(bytes as nat, scale, p);
        let f = fixed_point(q, p);
        let t = seq![prefix_letter(format, e)] + unit_suffix(format);
        assert(s =~= f + w + t);
        lemma_fixed_point(q, p);
        lemma_rendered_unit_name(format, e);
        assert(t[0] == prefix_letter(format, e));
        lemma_number_space_unit(f, w, t);
        assert(prefix_while(s, |c: char| is_number_char(c)) == f);
        assert(s.skip(f.len() as int) == w + t);
        assert(suffix_after(w + t, |c: char| is_white_space(c)) == t);
        assert(unit_from_name(t) is Ok);
        assert(decimal_parts(f) is Some);
    }
}

/// A plain unsigned integer is read as the count it spells.
pub proof fn law_plain_integer(n: u64)
    ensures
        parse_spec(decimal(n as nat)) == Ok::<u64, Seq<char>>(n),
{
    let d = decimal(n as nat);
    lemma_decimal(n as nat);
    assert(d[0] != '+') by {
        assert(is_digit(d[0]));
    }
}

/// A whole number of units is multiplied exactly: digits, optional white space and a
/// unit name give the number times the unit, or the overflow error when that product
/// does not fit in `u64`; it is never rounded or saturated.
pub proof fn law_whole_units_exact(d: Seq<char>, w: Seq<char>, t: Seq<char>, u: Unit)
    requires
        d.len() >= 1,
        all_digits(d),
        forall|i: int| 0 <= i < w.len() ==> is_white_space(#[trigger] w[i]),
        t.len() >= 1,
        !is_white_space(t[0]),
        !is_number_char(t[0]),
        unit_from_name(t) == Ok::<Unit, Seq<char>>(u),
    ensures
        parse_spec(d + w + t) == (if digits_value(d) * unit_bytes(u) <= u64::MAX {
            Ok::<u64, Seq<char>>((digits_value(d) * unit_bytes(u)) as u64)
        } else {
            Err::<u64, Seq<char>>(
                crate::text::debug_quoted(d + w + t) + " overflows a u64 byte count"@,
            )
        }),
{
    assert(is_digit(d[0]));
    assert forall|i: int| 0 <= i < d.len() implies is_number_char(#[trigger] d[i]) by {
        assert(is_digit(d[i]));
    }
    lemma_number_space_unit(d, w, t);
    assert forall|i: int| 0 <= i < d.len() implies (|c: char| is_digit(c))(#[trigger] d[i]) by {
        assert(is_digit(d[i]));
    }
    lemma_leading_count(d, |c: char| is_digit(c), d.len());
    assert(decimal_parts(d) == Some((d, Seq::<char>::empty())));
}

/// Unit names are read without regard to ASCII case: two ASCII names that agree but
/// for the case of their letters name the same unit, or are both unknown.
pub proof fn law_unit_case_insensitive(s: Seq<char>, t: Seq<char>)
    requires
        all_ascii(s),
        all_ascii(t),
        s.len() == t.len(),
        forall|i: int| 0 <= i < s.len() ==> ascii_lower_char(#[trigger] s[i]) == ascii_lower_char(t[i]),
    ensures
        unit_from_name(s) is Ok <==> unit_from_name(t) is Ok,
        unit_from_name(s) is Ok ==> unit_from_name(s) == unit_from_name(t),
{
    assert(lowercased(s) =~= lowercased(t));
}

/// A count below one unit is written as the plain number of bytes, whatever the
/// number of decimals asked for.
pub proof fn law_sub_unit_plain(bytes: u64, format: Format, p: nat)
    requires
        bytes < base_of(format),
    ensures
        rendered(bytes, format, p) == decimal(bytes as nat) + seq![' ', 'B'],
{
}

/// An ASCII letter.
pub open spec fn is_ascii_letter(c: char) -> bool {
    ('A' <= c && c <= 'Z') || ('a' <= c && c <= 'z')
}

/// Two ASCII strings that agree but for the case of their letters.
pub open spec fn same_but_case(s: Seq<char>, t: Seq<char>) -> bool {
    &&& all_ascii(s)
    &&& all_ascii(t)
    &&& s.len() == t.len()
    &&& forall|i: int| 0 <= i < s.len() ==> ascii_lower_char(#[trigger] s[i]) == ascii_lower_char(t[i])
}

/// Characters that agree but for case are equal unless both are letters.
proof fn lemma_same_but_case_char(a: char, b: char)
    requires
        ascii_lower_char(a) == ascii_lower_char(b),
    ensures
        is_ascii_letter(a) <==> is_ascii_letter(b),
        !is_ascii_letter(a) ==> a == b,
{
}

/// Agreeing but for case carries over to the pieces of the two strings.
proof fn lemma_same_but_case_range(s: Seq<char>, t: Seq<char>, i: int, j: int)
    requires
        same_but_case(s, t),
        0 <= i <= j <= s.len(),
    ensures
        same_but_case(s.subrange(i, j), t.subrange(i, j)),
{
    let a = s.subrange(i, j);
    let b = t.subrange(i, j);
    assert forall|k: int| 0 <= k < a.len() implies #[trigger] is_ascii_char(a[k]) by {
        assert(a[k] == s[i + k]);
        assert(is_ascii_char(s[i + k]));
    }
    assert forall|k: int| 0 <= k < b.len() implies #[trigger] is_ascii_char(b[k]) by {
        assert(b[k] == t[i + k]);
        assert(is_ascii_char(t[i + k]));
    }
    assert forall|k: int| 0 <= k < a.len() implies ascii_lower_char(#[trigger] a[k])
        == ascii_lower_char(b[k]) by {
        assert(a[k] == s[i + k]);
        assert(b[k] == t[i + k]);
    }
}

/// Two strings on whose characters `p` agrees have leading runs of the same length.
proof fn lemma_leading_count_agree(s: Seq<char>, t: Seq<char>, p: spec_fn(char) -> bool)
    requires
        s.len() == t.len(),
        forall|i: int| 0 <= i < s.len() ==> p(#[trigger] s[i]) == p(t[i]),
    ensures
        leading_count(s, p) == leading_count(t, p),
    decreases s.len(),
{
    if s.len() > 0 {
        assert(p(s[0]) == p(t[0]));
        let s1 = s.drop_first();
        let t1 = t.drop_first();
        assert forall|i: int| 0 <= i < s1.len() implies p(#[trigger] s1[i]) == p(t1[i]) by {
            assert(s1[i] == s[i + 1]);
            assert(t1[i] == t[i + 1]);
        }
        lemma_leading_count_agree(s1, t1, p);
    }
}

/// The pieces of two strings that agree but for case, made of characters that are not
/// letters, are equal.
proof fn lemma_same_but_case_no_letters(s: Seq<char>, t: Seq<char>)
    requires
        same_but_case(s, t),
        forall|i: int| 0 <= i < s.len() ==> !is_ascii_letter(#[trigger] s[i]),
    ensures
        s == t,
{
    assert forall|i: int| 0 <= i < s.len() implies s[i] == t[i] by {
        lemma_same_but_case_char(s[i], t[i]);
    }
    assert(s =~= t);
}

/// Parsing ignores the case of ASCII letters: two ASCII strings that agree but for the
/// case of their letters (such as `"2 mb"` and `"2 MB"`) are both byte sizes, of the same
/// count, or are both not byte sizes.
pub proof fn law_parse_case_insensitive(s: Seq<char>, t: Seq<char>)
    requires
        same_but_case(s, t),
    ensures
        parse_spec(s) is Ok <==> parse_spec(t) is Ok,
        parse_spec(s) is Ok ==> parse_spec(s) == parse_spec(t),
{
    assert forall|i: int| 0 <= i < s.len() implies {
        &&& is_digit(#[trigger] s[i]) == is_digit(t[i])
        &&& is_number_char(s[i]) == is_number_char(t[i])
        &&& is_white_space(s[i]) == is_white_space(t[i])
        &&& (s[i] == '+') == (t[i] == '+')
        &&& (!is_ascii_letter(s[i]) ==> s[i] == t[i])
    } by {
        lemma_same_but_case_char(s[i], t[i]);
    }
    // the plain integer
    if s.len() > 0 {
        let start: int = if s[0] == '+' { 1 } else { 0 };
        let ds = s.skip(start);
        let dt = t.skip(start);
        if all_digits(ds) {
            assert forall|i: int| 0 <= i < ds.len() implies ds[i] == dt[i] by {
                assert(ds[i] == s[i + start]);
                assert(dt[i] == t[i + start]);
                assert(is_digit(ds[i]));
            }
            assert(ds =~= dt);
        } else {
            let k = choose|k: int| 0 <= k < ds.len() && !is_digit(ds[k]);
            assert(ds[k] == s[k + start]);
            assert(dt[k] == t[k + start]);
            assert(!all_digits(dt));
        }
        if s[0] == '+' {
            assert(ds =~= s.drop_first());
            assert(dt =~= t.drop_first());
        } else {
            assert(ds =~= s);
            assert(dt =~= t);
        }
    }
    assert(u64_literal(s) == u64_literal(t));
    // the number part
    let np = |c: char| is_number_char(c);
    lemma_leading_count_agree(s, t, np);
    let n = leading_count(s, np) as int;
    crate::parse::lemma_leading_count_props(s, np);
    assert forall|i: int| 0 <= i < n implies is_number_char(#[trigger] s[i]) by {
        assert(np(s[i]));
    }
    lemma_same_but_case_range(s, t, 0, n);
    assert forall|i: int| 0 <= i < n implies !is_ascii_letter(#[trigger] s.subrange(0, n)[i]) by {
        assert(s.subrange(0, n)[i] == s[i]);
        assert(is_number_char(s[i]));
    }
    lemma_same_but_case_no_letters(s.subrange(0, n), t.subrange(0, n));
    assert(prefix_while(s, np) == prefix_while(t, np));
    // the unit
    let rs = s.skip(n);
    let rt = t.skip(n);
    lemma_same_but_case_range(s, t, n, s.len() as int);
    assert(rs =~= s.subrange(n, s.len() as int));
    assert(rt =~= t.subrange(n, t.len() as int));
    let wp = |c: char| is_white_space(c);
    assert forall|i: int| 0 <= i < rs.len() implies wp(#[trigger] rs[i]) == wp(rt[i]) by {
        assert(rs[i] == s[i + n]);
        assert(rt[i] == t[i + n]);
    }
    lemma_leading_count_agree(rs, rt, wp);
    let w = leading_count(rs, wp) as int;
    crate::parse::lemma_leading_count_props(rs, wp);
    lemma_same_but_case_range(rs, rt, w, rs.len() as int);
    let us = rs.skip(w);
    let ut = rt.skip(w);
    assert(us =~= rs.subrange(w, rs.len() as int));
    assert(ut =~= rt.subrange(w, rt.len() as int));
    assert(lowercased(us) =~= lowercased(ut));
    assert(suffix_after(rs, wp) == us);
    assert(suffix_after(rt, wp) == ut);
}

/// A number with no unit is a count of bytes: a decimal number, optionally followed by
/// white space, reads as the same number followed by `B`.
pub proof fn law_no_unit_is_bytes(f: Seq<char>, w: Seq<char>)
    requires
        f.len() >= 1,
        is_digit(f[0]),
        forall|i: int| 0 <= i < f.len() ==> is_number_char(#[trigger] f[i]),
        forall|i: int| 0 <= i < w.len() ==> is_white_space(#[trigger] w[i]),
    ensures
        parse_spec(f + w) is Ok <==> parse_spec(f + w + seq!['B']) is Ok,
        parse_spec(f + w) is Ok ==> parse_spec(f + w) == parse_spec(f + w + seq!['B']),
{
    let t = seq!['B'];
    lemma_number_space_unit(f, w, t);
    assert(all_ascii(t)) by {
        assert(is_ascii_char(t[0]));
    }
    assert(lowercased(t) =~= seq!['b']);
    assert(unit_bytes(Unit::Byte) == 1);
    let s = f + w;
    let np = |c: char| is_number_char(c);
    assert forall|i: int| 0 <= i < f.len() implies np(#[trigger] s[i]) by {
        assert(s[i] == f[i]);
    }
    if w.len() > 0 {
        assert(s[f.len() as int] == w[0]);
        assert(is_white_space(w[0]));
    }
    lemma_leading_count(s, np, f.len());
    assert(s.take(f.len() as int) =~= f);
    assert(s.skip(f.len() as int) =~= w);
    assert forall|i: int| 0 <= i < w.len() implies (|c: char| is_white_space(c))(#[trigger] w[i]) by {
    }
    lemma_leading_count(w, |c: char| is_white_space(c), w.len());
    assert(w.skip(w.len() as int) =~= Seq::<char>::empty());
    assert(prefix_while(s, np) == f);
    assert(suffix_after(w, |c: char| is_white_space(c)) == Seq::<char>::empty());
    assert(crate::parse::unit_of_suffix(Seq::<char>::empty()) == Ok::<Unit, Seq<char>>(Unit::Byte));
    assert(crate::parse::unit_of_suffix(t) == Ok::<Unit, Seq<char>>(Unit::Byte));
    assert(prefix_while(s + t, np) == f);
    assert(s + t == f + w + t);
    assert(digits_value(f) * 1 == digits_value(f));
    if u64_literal(s) is Some {
        // only digits, nothing after them
        if w.len() > 0 {
            assert(s[0] == f[0]);
            assert(!is_digit(s[f.len() as int]));
        }
        assert(s =~= f);
        assert(s[0] != '+');
        assert(all_digits(f));
        assert forall|i: int| 0 <= i < f.len() implies (|c: char| is_digit(c))(#[trigger] f[i]) by {
            assert(is_digit(f[i]));
        }
        lemma_leading_count(f, |c: char| is_digit(c), f.len());
        assert(decimal_parts(f) == Some((f, Seq::<char>::empty())));
    }
}

/// A number with a fraction is scaled in binary64 from its whole value: digits, a dot
/// and fractional digits (all of them), then white space and a unit, read as the value
/// `(int * 10^k + frac) / 10^k` rounded to binary64, times the unit, the product rounded
/// to binary64 and truncated to a count (`u64::MAX` beyond it).
pub proof fn law_fraction_scaled(
    d: Seq<char>,
    f: Seq<char>,
    w: Seq<char>,
    t: Seq<char>,
    u: Unit,
)
    requires
        d.len() >= 1,
        all_digits(d),
        all_digits(f),
        forall|i: int| 0 <= i < w.len() ==> is_white_space(#[trigger] w[i]),
        t.len() >= 1,
        !is_white_space(t[0]),
        !is_number_char(t[0]),
        unit_from_name(t) == Ok::<Unit, Seq<char>>(u),
    ensures
        parse_spec(d + seq!['.'] + f + w + t) == Ok::<u64, Seq<char>>(
            match binary64(digits_value(d) * pow10(f.len()) + digits_value(f), pow10(f.len())) {
                None => u64::MAX,
                Some(v) => crate::scaling::saturating_floor(
                    binary64(v.0 * binary64(unit_bytes(u) as nat, 1).unwrap().0,
                        v.1 * binary64(unit_bytes(u) as nat, 1).unwrap().1),
                ),
            },
        ),
{
    let number = d + seq!['.'] + f;
    let k = d.len() as int;
    assert forall|i: int| 0 <= i < number.len() implies is_number_char(#[trigger] number[i]) by {
        if i < k {
            assert(number[i] == d[i]);
            assert(is_digit(d[i]));
        } else if i > k {
            assert(number[i] == f[i - k - 1]);
            assert(is_digit(f[i - k - 1]));
        }
    }
    assert(number[0] == d[0]);
    assert(is_digit(d[0]));
    lemma_number_space_unit(number, w, t);
    assert forall|i: int| 0 <= i < k implies (|c: char| is_digit(c))(#[trigger] number[i]) by {
        assert(number[i] == d[i]);
        assert(is_digit(d[i]));
    }
    assert(number[k] == '.');
    lemma_leading_count(number, |c: char| is_digit(c), d.len());
    assert(number.take(k) =~= d);
    assert(number.skip(k + 1) =~= f);
    assert(decimal_parts(number) == Some((d, f)));
    crate::digits::lemma_digits_value_append(d, f);
    assert(number + w + t == d + seq!['.'] + f + w + t);
}

/// Rounding half to even lands within half a unit of the exact quotient.
proof fn lemma_round_close(a: nat, d: nat)
    requires
        d > 0,
    ensures
        2 * round_half_even(a, d) * d <= 2 * a + d,
        2 * a <= 2 * round_half_even(a, d) * d + d,
{
    let q = a / d;
    let r = a % d;
    lemma_fundamental_div_mod(a as int, d as int);
    let n = round_half_even(a, d);
    assert(a == d * q + r);
    assert(0 <= r < d);
    if 2 * r < d {
        assert(n == q);
    } else if 2 * r > d {
        assert(n == q + 1);
    } else {
        assert(n == q || n == q + 1);
    }
    assert(2 * n * d <= 2 * a + d && 2 * a <= 2 * n * d + d) by (nonlinear_arith)
        requires
            a == d * q + r,
            0 <= r < d,
            (2 * r < d && n == q) || (2 * r > d && n == q + 1) || (2 * r == d && (n == q
                || n == q + 1)),
    ;
}

/// A binary64 value has a positive denominator.
proof fn lemma_binary64_den_pos(a: nat, b: nat)
    ensures
        binary64(a, b) matches Some(r) ==> r.1 > 0,
{
    if a != 0 && b != 0 {
        let q = crate::binary64::ulp_exponent(crate::binary64::floor_log2(a, b));
        let s = crate::binary64::scaled(a, b, -q);
        let m = round_half_even(s.0, s.1);
        crate::binary64::lemma_scaled_den_pos(m, 1, q);
    }
}

/// The unit exponent of `n` picks the power of the base at most `n` whose next power is
/// above it.
proof fn lemma_unit_exponent_bounds(n: nat, base: nat)
    requires
        base > 1,
        n >= 1,
    ensures
        power(base, unit_exponent(n, base)) <= n < power(base, unit_exponent(n, base) + 1),
    decreases n,
{
    if n < base {
        assert(unit_exponent(n, base) == 0);
        assert(power(base, 0) == 1);
        assert(power(base, 1) == base * power(base, 0));
        assert(base * 1 == base);
    } else {
        let m = n / base;
        lemma_fundamental_div_mod(n as int, base as int);
        assert(m >= 1) by (nonlinear_arith)
            requires
                n == base * m + n % base,
                0 <= n % base < base,
                n >= base,
        ;
        lemma_div_decreases(n as int, base as int);
        lemma_unit_exponent_bounds(m, base);
        let e1 = unit_exponent(m, base);
        assert(unit_exponent(n, base) == e1 + 1);
        let a = power(base, e1);
        let b = power(base, e1 + 1);
        assert(power(base, e1 + 1) == base * a);
        assert(power(base, e1 + 2) == base * b);
        assert(base * a <= n < base * b) by (nonlinear_arith)
            requires
                a <= m < b,
                n == base * m + n % base,
                0 <= n % base < base,
        ;
    }
}

/// The decimals shown are the correctly rounded decimals of the quotient: for a count
/// of at least one unit, the text is a fixed-point number `n / 10^p`, a space and the
/// unit of the power `base^e` with `base^e <= bytes < base^(e + 1)`, where `n` is
/// within half of `10^-p` units of the binary64 quotient `q` of `bytes` by `base^e`
/// (both taken to binary64 first): `|n - q * 10^p| <= 1/2`.
pub proof fn law_rendered_decimals(bytes: u64, format: Format, p: nat)
    requires
        bytes >= base_of(format),
    ensures
        ({
            let base = base_of(format);
            let e = unit_exponent(bytes as nat, base);
            let x = binary64(bytes as nat, 1).unwrap();
            let y = binary64(power(base, e), 1).unwrap();
            let q = binary64(x.0 * y.1, x.1 * y.0).unwrap();
            &&& 1 <= e <= 6
            &&& power(base, e) <= bytes < power(base, e + 1)
            &&& binary64(x.0 * y.1, x.1 * y.0) is Some
            &&& q.1 > 0
            &&& exists|n: nat|
                #[trigger] fixed_point(n, p) + seq![' ', prefix_letter(format, e)] + unit_suffix(
                    format,
                ) == rendered(bytes, format, p) && 2 * n * q.1 <= 2 * (q.0 * pow10(p)) + q.1
                    && 2 * (q.0 * pow10(p)) <= 2 * n * q.1 + q.1
        }),
{
    let base = base_of(format);
    lemma_unit_exponent_range(bytes, base);
    lemma_unit_exponent_bounds(bytes as nat, base);
    let e = unit_exponent(bytes as nat, base);
    let scale = power(base, e);
    crate::render::lemma_scale_exact(base, e);
    let l = crate::numeric::ilog2(bytes as nat);
    crate::numeric::lemma_ilog2(bytes as nat);
    vstd::arithmetic::power2::lemma2_to64();
    assert(l <= 63) by {
        if l >= 64 {
            crate::numeric::lemma_pow2_increases(64, l);
        }
    }
    crate::render::lemma_binary64_of_integer(bytes as nat, l);
    crate::numeric::lemma_pow2_increases(l + 1, 64);
    let big = crate::render::integer_to_binary64(bytes as nat, l);
    let x = binary64(bytes as nat, 1).unwrap();
    let y = binary64(scale, 1).unwrap();
    assert(x.0 == big * x.1 && x.1 > 0);
    assert(y.0 == scale * y.1 && y.1 > 0);
    assert(scale >= 1) by {
        reveal_with_fuel(power, 7);
    }
    let a = x.0 * y.1;
    let d = x.1 * y.0;
    assert(a * scale == big * d && d > 0) by (nonlinear_arith)
        requires
            x.0 == big * x.1,
            y.0 == scale * y.1,
            x.1 > 0,
            y.1 > 0,
            scale >= 1,
            a == x.0 * y.1,
            d == x.1 * y.0,
    ;
    crate::binary64::lemma_binary64_equal_fractions(a, d, big, scale);
    assert(big <= vstd::arithmetic::power2::pow2(64));
    assert(!crate::binary64::pow2_le(64, big, scale)) by {
        assert(vstd::arithmetic::power2::pow2(64) * scale > big) by (nonlinear_arith)
            requires
                big <= vstd::arithmetic::power2::pow2(64),
                scale >= 1000,
                vstd::arithmetic::power2::pow2(64) > 0,
        ;
    }
    assert(scale >= 1000) by {
        reveal_with_fuel(power, 7);
    }
    crate::binary64::lemma_binary64_below(big, scale, 64);
    lemma_binary64_den_pos(a, d);
    let q = binary64(a, d).unwrap();
    lemma_round_close(q.0 * pow10(p), q.1);
    let n = shown_quantity(bytes as nat, scale, p);
    assert(n == round_half_even(q.0 * pow10(p), q.1));
    assert(fixed_point(n, p) + seq![' ', prefix_letter(format, e)] + unit_suffix(format)
        == rendered(bytes, format, p));
    assert(binary64(x.0 * y.1, x.1 * y.0) is Some);
    assert(power(base, e) <= bytes < power(base, e + 1));
}

/// The unit written after a rendered number is the power it was divided by: for each
/// exponent from 1 to 6, the unit name rendered with it (`KiB`, `kB`, `MB`, ...) names
/// the unit of `base^e` bytes, and starts with neither white space nor a number
/// character.
pub proof fn law_rendered_unit_is_the_power(format: Format, e: nat)
    requires
        1 <= e <= 6,
    ensures
        unit_from_name(seq![prefix_letter(format, e)] + unit_suffix(format)) matches Ok(u)
            && unit_bytes(u) == power(base_of(format), e),
        !is_white_space(prefix_letter(format, e)),
        !is_number_char(prefix_letter(format, e)),
{
    lemma_rendered_unit_name(format, e);
}

} // verus!
