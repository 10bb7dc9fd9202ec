//! Unit constants, the two unit systems, and the units that a byte size may name.
use crate::text::{all_ascii, ascii_lower_char, chars_of, debug_quoted, debug_string, is_ascii_char, lowercased, push_chars, push_str, string_from_chars, to_lowercase};
use vstd::prelude::*;

verus! {

/// byte size for 1 byte
pub const B: u64 = 1;

/// bytes size for 1 kilobyte
pub const KB: u64 = 1_000;

/// bytes size for 1 megabyte
pub const MB: u64 = 1_000_000;

/// bytes size for 1 gigabyte
pub const GB: u64 = 1_000_000_000;

/// bytes size for 1 terabyte
pub const TB: u64 = 1_000_000_000_000;

/// bytes size for 1 petabyte
pub const PB: u64 = 1_000_000_000_000_000;

/// bytes size for 1 exabyte
pub const EB: u64 = 1_000_000_000_000_000_000;

/// bytes size for 1 kibibyte
pub const KIB: u64 = 1_024;

/// bytes size for 1 mebibyte
pub const MIB: u64 = 1_048_576;

/// bytes size for 1 gibibyte
pub const GIB: u64 = 1_073_741_824;

/// bytes size for 1 tebibyte
pub const TIB: u64 = 1_099_511_627_776;

/// bytes size for 1 pebibyte
pub const PIB: u64 = 1_125_899_906_842_624;

/// bytes size for 1 exbibyte
pub const EIB: u64 = 1_152_921_504_606_846_976;

/// The two unit systems: IEC (binary, powers of 1024) and SI (decimal, powers of 1000).
#[derive(Debug, Clone, Copy, Default, PartialEq, Eq, Structural)]
pub enum Format {
    #[default]
    IEC,
    SI,
}

/// An error in parsing a byte size, with its message.
#[derive(Debug, Clone)]
pub struct ParseError(pub String);

impl PartialEq for ParseError {
    fn eq(&self, other: &ParseError) -> (r: bool) {
        self.0 == other.0
    }
}

impl vstd::std_specs::cmp::PartialEqSpecImpl for ParseError {
    open spec fn obeys_eq_spec() -> bool {
        true
    }

    open spec fn eq_spec(&self, other: &ParseError) -> bool {
        self.0@ == other.0@
    }
}

impl Eq for ParseError {}

/// A unit that a byte size may be written in.
#[non_exhaustive]
#[derive(Debug, Clone, Copy, PartialEq, Eq, Structural)]
pub enum Unit {
    Byte,
    // power of tens
    KiloByte,
    MegaByte,
    GigaByte,
    TeraByte,
    PetaByte,
    ExaByte,
    // power of twos
    KibiByte,
    MebiByte,
    GibiByte,
    TebiByte,
    PebiByte,
    ExbiByte,
}

/// The number of bytes in one of `unit`.
pub open spec fn unit_bytes(unit: Unit) -> u64 {
    match unit {
        Unit::Byte => B,
        Unit::KiloByte => KB,
        Unit::MegaByte => MB,
        Unit::GigaByte => GB,
        Unit::TeraByte => TB,
        Unit::PetaByte => PB,
        Unit::ExaByte => EB,
        Unit::KibiByte => KIB,
        Unit::MebiByte => MIB,
        Unit::GibiByte => GIB,
        Unit::TebiByte => TIB,
        Unit::PebiByte => PIB,
        Unit::ExbiByte => EIB,
    }
}

impl From<Unit> for u64 {
    fn from(unit: Unit) -> (r: u64) {
        match unit {
            Unit::Byte => B,
            // power of tens
            Unit::KiloByte => KB,
            Unit::MegaByte => MB,
            Unit::GigaByte => GB,
            Unit::TeraByte => TB,
            Unit::PetaByte => PB,
            Unit::ExaByte => EB,
            // power of twos
            Unit::KibiByte => KIB,
            Unit::MebiByte => MIB,
            Unit::GibiByte => GIB,
            Unit::TebiByte => TIB,
            Unit::PebiByte => PIB,
            Unit::ExbiByte => EIB,
        }
    }
}

impl vstd::std_specs::convert::FromSpecImpl<Unit> for u64 {
    open spec fn obeys_from_spec() -> bool {
        true
    }

    open spec fn from_spec(unit: Unit) -> u64 {
        unit_bytes(unit)
    }
}

/// The unit that the lowercase name `s` stands for: one letter, optionally followed by
/// `i` (binary) and then optionally by `b`; `b` alone is a byte.
pub open spec fn unit_named(s: Seq<char>) -> Option<Unit> {
    if s == seq!['b'] {
        Some(Unit::Byte)
    } else if s == seq!['k'] || s == seq!['k', 'b'] {
        Some(Unit::KiloByte)
    } else if s == seq!['m'] || s == seq!['m', 'b'] {
        Some(Unit::MegaByte)
    } else if s == seq!['g'] || s == seq!['g', 'b'] {
        Some(Unit::GigaByte)
    } else if s == seq!['t'] || s == seq!['t', 'b'] {
        Some(Unit::TeraByte)
    } else if s == seq!['p'] || s == seq!['p', 'b'] {
        Some(Unit::PetaByte)
    } else if s == seq!['e'] || s == seq!['e', 'b'] {
        Some(Unit::ExaByte)
    } else if s == seq!['k', 'i'] || s == seq!['k', 'i', 'b'] {
        Some(Unit::KibiByte)
    } else if s == seq!['m', 'i'] || s == seq!['m', 'i', 'b'] {
        Some(Unit::MebiByte)
    } else if s == seq!['g', 'i'] || s == seq!['g', 'i', 'b'] {
        Some(Unit::GibiByte)
    } else if s == seq!['t', 'i'] || s == seq!['t', 'i', 'b'] {
        Some(Unit::TebiByte)
    } else if s == seq!['p', 'i'] || s == seq!['p', 'i', 'b'] {
        Some(Unit::PebiByte)
    } else if s == seq!['e', 'i'] || s == seq!['e', 'i', 'b'] {
        Some(Unit::ExbiByte)
    } else {
        None
    }
}

/// The message of the error for an unknown unit name `s`.
pub open spec fn unit_error_message(s: Seq<char>) -> Seq<char> {
    "couldn't parse unit of "@ + debug_quoted(s)
}

/// The unit that `s` names, compared without regard to case (by the Unicode lowercase
/// of `s`, `lowercased`), or the error for an unknown name.
pub open spec fn unit_from_name(s: Seq<char>) -> Result<Unit, Seq<char>> {
    match unit_named(lowercased(s)) {
        Some(u) => Ok(u),
        None => Err(unit_error_message(s)),
    }
}

/// Whether `v` is exactly the one character `a`.
fn is_one(v: &Vec<char>, a: char) -> (r: bool)
    ensures
        r == (v@ == seq![a]),
{
    let r = v.len() == 1 && v[0] == a;
    assert(r ==> v@ =~= seq![a]);
    r
}

/// Whether `v` is exactly the two characters `a`, `b`.
fn is_two(v: &Vec<char>, a: char, b: char) -> (r: bool)
    ensures
        r == (v@ == seq![a, b]),
{
    let r = v.len() == 2 && v[0] == a && v[1] == b;
    assert(r ==> v@ =~= seq![a, b]);
    r
}

/// Whether `v` is exactly the three characters `a`, `b`, `c`.
fn is_three(v: &Vec<char>, a: char, b: char, c: char) -> (r: bool)
    ensures
        r == (v@ == seq![a, b, c]),
{
    let r = v.len() == 3 && v[0] == a && v[1] == b && v[2] == c;
    assert(r ==> v@ =~= seq![a, b, c]);
    r
}

/// The unit of the lowercase name `v`, if it is one.
fn unit_of_lowercase(v: &Vec<char>) -> (r: Option<Unit>)
    ensures
        r == unit_named(v@),
{
    if is_one(v, 'b') {
        Some(Unit::Byte)
    } else if is_one(v, 'k') || is_two(v, 'k', 'b') {
        Some(Unit::KiloByte)
    } else if is_one(v, 'm') || is_two(v, 'm', 'b') {
        Some(Unit::MegaByte)
    } else if is_one(v, 'g') || is_two(v, 'g', 'b') {
        Some(Unit::GigaByte)
    } else if is_one(v, 't') || is_two(v, 't', 'b') {
        Some(Unit::TeraByte)
    } else if is_one(v, 'p') || is_two(v, 'p', 'b') {
        Some(Unit::PetaByte)
    } else if is_one(v, 'e') || is_two(v, 'e', 'b') {
        Some(Unit::ExaByte)
    } else if is_two(v, 'k', 'i') || is_three(v, 'k', 'i', 'b') {
        Some(Unit::KibiByte)
    } else if is_two(v, 'm', 'i') || is_three(v, 'm', 'i', 'b') {
        Some(Unit::MebiByte)
    } else if is_two(v, 'g', 'i') || is_three(v, 'g', 'i', 'b') {
        Some(Unit::GibiByte)
    } else if is_two(v, 't', 'i') || is_three(v, 't', 'i', 'b') {
        Some(Unit::TebiByte)
    } else if is_two(v, 'p', 'i') || is_three(v, 'p', 'i', 'b') {
        Some(Unit::PebiByte)
    } else if is_two(v, 'e', 'i') || is_three(v, 'e', 'i', 'b') {
        Some(Unit::ExbiByte)
    } else {
        None
    }
}

impl Unit {
    /// The unit that `unit` names, without regard to case: `"b"`, `"k"`/`"kb"` ...
    /// `"e"`/`"eb"` for powers of ten, `"ki"`/`"kib"` ... `"ei"`/`"eib"` for powers of two.
    pub fn from_name(unit: &str) -> (r: Result<Unit, ParseError>)
        ensures
            match unit_from_name(unit@) {
                Ok(u) => r == Ok::<Unit, ParseError>(u),
                Err(m) => r matches Err(e) && e.0@ == m,
            },
    {
        let lower = to_lowercase(unit);
        let lower_chars = chars_of(lower.as_str());
        match unit_of_lowercase(&lower_chars) {
            Some(u) => Ok(u),
            None => {
                let mut msg: Vec<char> = Vec::new();
                push_str(&mut msg, "couldn't parse unit of ");
                let quoted = debug_string(unit);
                let quoted_chars = chars_of(quoted.as_str());
                push_chars(&mut msg, &quoted_chars);
                Err(ParseError(string_from_chars(&msg)))
            },
        }
    }
}

impl core::str::FromStr for Unit {
    type Err = ParseError;

    fn from_str(unit: &str) -> (r: Result<Unit, ParseError>)
        ensures
            match unit_from_name(unit@) {
                Ok(u) => r == Ok::<Unit, ParseError>(u),
                Err(m) => r matches Err(e) && e.0@ == m,
            },
    {
        Unit::from_name(unit)
    }
}

/// The bytes in the unit that `s` names, or 0 when it names none.
pub open spec fn named_bytes(s: Seq<char>) -> nat {
    match unit_from_name(s) {
        Ok(u) => unit_bytes(u) as nat,
        Err(_) => 0,
    }
}

/// Whether the one-letter name `[l]` and the `b`-suffixed name `[l, 'b']` both name
/// units, the same one; and likewise `[l, 'i']` and `[l, 'i', 'b']`.
pub open spec fn short_names_agree(l: char) -> bool {
    &&& unit_from_name(seq![l]) is Ok
    &&& unit_from_name(seq![l]) == unit_from_name(seq![l, 'b'])
    &&& unit_from_name(seq![l, 'i']) is Ok
    &&& unit_from_name(seq![l, 'i']) == unit_from_name(seq![l, 'i', 'b'])
}

/// Every unit name is accepted: `b` is a byte; each of `k`, `m`, `g`, `t`, `p`, `e`
/// names the same unit alone as with `b` after it, and with `i` as with `ib`; each
/// decimal unit is 1000 times the one before it and each binary unit 1024 times.
pub proof fn law_unit_names()
    ensures
        named_bytes(seq!['b']) == 1,
        short_names_agree('k'),
        short_names_agree('m'),
        short_names_agree('g'),
        short_names_agree('t'),
        short_names_agree('p'),
        short_names_agree('e'),
        named_bytes(seq!['k', 'b']) == 1000 * named_bytes(seq!['b']),
        named_bytes(seq!['m', 'b']) == 1000 * named_bytes(seq!['k', 'b']),
        named_bytes(seq!['g', 'b']) == 1000 * named_bytes(seq!['m', 'b']),
        named_bytes(seq!['t', 'b']) == 1000 * named_bytes(seq!['g', 'b']),
        named_bytes(seq!['p', 'b']) == 1000 * named_bytes(seq!['t', 'b']),
        named_bytes(seq!['e', 'b']) == 1000 * named_bytes(seq!['p', 'b']),
        named_bytes(seq!['k', 'i', 'b']) == 1024 * named_bytes(seq!['b']),
        named_bytes(seq!['m', 'i', 'b']) == 1024 * named_bytes(seq!['k', 'i', 'b']),
        named_bytes(seq!['g', 'i', 'b']) == 1024 * named_bytes(seq!['m', 'i', 'b']),
        named_bytes(seq!['t', 'i', 'b']) == 1024 * named_bytes(seq!['g', 'i', 'b']),
        named_bytes(seq!['p', 'i', 'b']) == 1024 * named_bytes(seq!['t', 'i', 'b']),
        named_bytes(seq!['e', 'i', 'b']) == 1024 * named_bytes(seq!['p', 'i', 'b']),
{
    lemma_lower_name(seq!['b']);
    lemma_lower_name(seq!['k']);
    lemma_lower_name(seq!['k', 'b']);
    lemma_lower_name(seq!['k', 'i']);
    lemma_lower_name(seq!['k', 'i', 'b']);
    lemma_lower_name(seq!['m']);
    lemma_lower_name(seq!['m', 'b']);
    lemma_lower_name(seq!['m', 'i']);
    lemma_lower_name(seq!['m', 'i', 'b']);
    lemma_lower_name(seq!['g']);
    lemma_lower_name(seq!['g', 'b']);
    lemma_lower_name(seq!['g', 'i']);
    lemma_lower_name(seq!['g', 'i', 'b']);
    lemma_lower_name(seq!['t']);
    lemma_lower_name(seq!['t', 'b']);
    lemma_lower_name(seq!['t', 'i']);
    lemma_lower_name(seq!['t', 'i', 'b']);
    lemma_lower_name(seq!['p']);
    lemma_lower_name(seq!['p', 'b']);
    lemma_lower_name(seq!['p', 'i']);
    lemma_lower_name(seq!['p', 'i', 'b']);
    lemma_lower_name(seq!['e']);
    lemma_lower_name(seq!['e', 'b']);
    lemma_lower_name(seq!['e', 'i']);
    lemma_lower_name(seq!['e', 'i', 'b']);
    assert(seq!['b'][0] == 'b');
    assert(seq!['k'][0] == 'k');
    assert(seq!['k', 'b'][0] == 'k');
    assert(seq!['k', 'b'][1] == 'b');
    assert(seq!['k', 'i'][0] == 'k');
    assert(seq!['k', 'i'][1] == 'i');
    assert(seq!['k', 'i', 'b'][0] == 'k');
    assert(seq!['k', 'i', 'b'][1] == 'i');
    assert(seq!['k', 'i', 'b'][2] == 'b');
    assert(seq!['m'][0] == 'm');
    assert(seq!['m', 'b'][0] == 'm');
    assert(seq!['m', 'b'][1] == 'b');
    assert(seq!['m', 'i'][0] == 'm');
    assert(seq!['m', 'i'][1] == 'i');
    assert(seq!['m', 'i', 'b'][0] == 'm');
    assert(seq!['m', 'i', 'b'][1] == 'i');
    assert(seq!['m', 'i', 'b'][2] == 'b');
    assert(seq!['g'][0] == 'g');
    assert(seq!['g', 'b'][0] == 'g');
    assert(seq!['g', 'b'][1] == 'b');
    assert(seq!['g', 'i'][0] == 'g');
    assert(seq!['g', 'i'][1] == 'i');
    assert(seq!['g', 'i', 'b'][0] == 'g');
    assert(seq!['g', 'i', 'b'][1] == 'i');
    assert(seq!['g', 'i', 'b'][2] == 'b');
    assert(seq!['t'][0] == 't');
    assert(seq!['t', 'b'][0] == 't');
    assert(seq!['t', 'b'][1] == 'b');
    assert(seq!['t', 'i'][0] == 't');
    assert(seq!['t', 'i'][1] == 'i');
    assert(seq!['t', 'i', 'b'][0] == 't');
    assert(seq!['t', 'i', 'b'][1] == 'i');
    assert(seq!['t', 'i', 'b'][2] == 'b');
    assert(seq!['p'][0] == 'p');
    assert(seq!['p', 'b'][0] == 'p');
    assert(seq!['p', 'b'][1] == 'b');
    assert(seq!['p', 'i'][0] == 'p');
    assert(seq!['p', 'i'][1] == 'i');
    assert(seq!['p', 'i', 'b'][0] == 'p');
    assert(seq!['p', 'i', 'b'][1] == 'i');
    assert(seq!['p', 'i', 'b'][2] == 'b');
    assert(seq!['e'][0] == 'e');
    assert(seq!['e', 'b'][0] == 'e');
    assert(seq!['e', 'b'][1] == 'b');
    assert(seq!['e', 'i'][0] == 'e');
    assert(seq!['e', 'i'][1] == 'i');
    assert(seq!['e', 'i', 'b'][0] == 'e');
    assert(seq!['e', 'i', 'b'][1] == 'i');
    assert(seq!['e', 'i', 'b'][2] == 'b');
}

/// A name of lowercase letters is its own lowercase.
proof fn lemma_lower_name(s: Seq<char>)
    requires
        forall|i: int| 0 <= i < s.len() ==> 'a' <= #[trigger] s[i] <= 'z',
    ensures
        lowercased(s) == s,
{
    assert(all_ascii(s)) by {
        assert forall|i: int| 0 <= i < s.len() implies #[trigger] is_ascii_char(s[i]) by {
            assert('a' <= s[i] <= 'z');
        }
    }
    assert(s.map_values(|c: char| ascii_lower_char(c)) =~= s);
}

} // verus!
