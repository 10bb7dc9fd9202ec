//! Byte sizes: unit constants, rendering a byte count as human-readable text, and
//! parsing such text back into a count.
//!
//! Rendering and parsing with a fraction follow binary64 (IEEE 754 double) arithmetic
//! exactly, computed in integers: see `render` and `scaling`.
use vstd::prelude::*;

pub mod binary64;
pub mod bytescale;
pub mod digits;
pub mod laws;
pub mod numeric;
pub mod order;
pub mod parse;
pub mod range;
pub mod render;
pub mod scaling;
pub mod serde;
pub mod text;
pub mod units;

pub use bytescale::ByteScale;
pub use parse::{parse, skip_while, take_while};
pub use range::HumanByteRange;
pub use render::{to_string, to_string_with_precision};
pub use units::{Format, ParseError, Unit, B, EB, EIB, GB, GIB, KB, KIB, MB, MIB, PB, PIB, TB, TIB};

verus! {

} // verus!
