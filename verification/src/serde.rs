//! Byte counts in serialized data, independent of any serializer: what is written for a
//! count, and what a count is read back from.
use crate::laws::law_rendered_parses;
use crate::parse::{parse, parse_spec};
use crate::render::{rendered, to_string};
use crate::units::Format;
use vstd::prelude::*;

pub mod map_keys;

verus! {

/// What is written for a byte count.
#[derive(Debug)]
pub enum ByteRepr {
    /// Its human-readable text, in IEC units with one decimal (`"1.5 KiB"`).
    Text(String),
    /// The raw count.
    Number(u64),
}

/// A value that a byte count is read from.
#[derive(Debug)]
pub enum ByteInput {
    /// A signed integer.
    Signed(i64),
    /// An unsigned integer.
    Unsigned(u64),
    /// A string, parsed as a byte size.
    Text(String),
}

/// Why a value is not a byte count.
#[derive(Debug)]
pub enum ByteInputError {
    /// A negative integer.
    Negative(i64),
    /// A string that does not parse as a byte size.
    Unparsable(String),
}

/// Whether `repr` is what is written for `value`: its text in IEC units with one
/// decimal for human-readable formats, the raw count otherwise.
pub open spec fn represents(repr: ByteRepr, value: u64, human_readable: bool) -> bool {
    if human_readable {
        repr matches ByteRepr::Text(s) && s@ == rendered(value, Format::IEC, 1)
    } else {
        repr == ByteRepr::Number(value)
    }
}

/// The byte count that `input` stands for, or why it stands for none: a non-negative
/// integer is the count itself, a negative one is an error, and a string is parsed as a
/// byte size.
pub open spec fn input_value(input: ByteInput) -> Result<u64, ByteInputError> {
    match input {
        ByteInput::Signed(v) => if v >= 0 {
            Ok(v as u64)
        } else {
            Err(ByteInputError::Negative(v))
        },
        ByteInput::Unsigned(v) => Ok(v),
        ByteInput::Text(s) => match parse_spec(s@) {
            Ok(v) => Ok(v),
            Err(_) => Err(ByteInputError::Unparsable(s)),
        },
    }
}

/// The representation of `value`: its text for human-readable formats, the raw count
/// otherwise.
pub fn serialize(value: u64, human_readable: bool) -> (r: ByteRepr)
    ensures
        represents(r, value, human_readable),
{
    if human_readable {
        ByteRepr::Text(to_string(value, Format::IEC))
    } else {
        ByteRepr::Number(value)
    }
}

/// The byte count that `input` stands for: a non-negative integer as it is, a string
/// parsed as a byte size.
pub fn deserialize(input: ByteInput) -> (r: Result<u64, ByteInputError>)
    ensures
        r == input_value(input),
{
    match input {
        ByteInput::Signed(v) => if v >= 0 {
            Ok(v as u64)
        } else {
            Err(ByteInputError::Negative(v))
        },
        ByteInput::Unsigned(v) => Ok(v),
        ByteInput::Text(s) => match parse(s.as_str()) {
            Ok(v) => Ok(v),
            Err(_) => Err(ByteInputError::Unparsable(s)),
        },
    }
}

/// What a reader is handed for `repr`: text as text, a number as an unsigned integer.
pub open spec fn read_as_input(repr: ByteRepr) -> ByteInput {
    match repr {
        ByteRepr::Text(s) => ByteInput::Text(s),
        ByteRepr::Number(n) => ByteInput::Unsigned(n),
    }
}

/// What is written for a count reads back as a count: exactly the count in formats that
/// are not human-readable, and in human-readable ones the count that its rendered text
/// parses to (the text rounds, so that count may differ).
pub proof fn law_written_reads_back(value: u64, human_readable: bool, repr: ByteRepr)
    requires
        represents(repr, value, human_readable),
    ensures
        input_value(read_as_input(repr)) is Ok,
        !human_readable ==> input_value(read_as_input(repr)) == Ok::<u64, ByteInputError>(value),
        human_readable ==> (parse_spec(rendered(value, Format::IEC, 1)) matches Ok(v)
            && input_value(read_as_input(repr)) == Ok::<u64, ByteInputError>(v)),
{
    law_rendered_parses(value, Format::IEC, 1);
}

/// An integer is read as the count it is, whether it comes signed or unsigned: a
/// non-negative signed integer reads as the same count as the unsigned integer of the
/// same value, and a negative one is refused.
pub proof fn law_integers_read_as_themselves(v: i64, n: u64)
    ensures
        input_value(ByteInput::Unsigned(n)) matches Ok(c) && c == n,
        v >= 0 ==> (input_value(ByteInput::Signed(v)) matches Ok(c) && c == v),
        v >= 0 && v == n ==> input_value(ByteInput::Signed(v)) == input_value(ByteInput::Unsigned(n)),
        v < 0 ==> input_value(ByteInput::Signed(v)) is Err,
{
}

} // verus!
