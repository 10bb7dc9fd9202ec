# humanbyte

Byte sizes for humans: unit constants, rendering a byte count as text such as
`"1.5 KiB"` or `"2.0 GB"`, parsing such text back into a count, a `ByteScale`
new-type with arithmetic, and serde helpers that read and write byte counts.

The library in `src/` is verified: every function carries its contract and proof, but
for four small trusted wrappers around std (`char::is_whitespace`, `str::to_lowercase`,
`Debug` quoting of a string, and collecting characters into a `String`), whose
contracts are taken from std's documentation.

Rendering and parsing with a fraction follow binary64 (IEEE 754 double) arithmetic; the
library computes that arithmetic exactly in integers, so every result is stated and
proved over plain numbers.  A number with no unit is a count of bytes, and a whole
number of units that does not fit in a `u64` is an error.

- `units`: the constants, `Format`, `Unit` and unit names.
- `render`, `binary64`, `digits`, `numeric`: rendering a count with a given number of
  decimals.
- `parse`, `scaling`: parsing a byte size; a whole number of units is multiplied
  exactly, a fractional one in binary64.
- `bytescale`, `range`: the `ByteScale` new-type and inclusive ranges of sizes.
- `serde`, `serde/map_keys`: what is written for a count and what a count is read from.
- `laws`, `order`: properties that span rendering and parsing, such as that everything
  rendered parses back, and the order of byte sizes.
- `text`: conversions between strings and characters, and the few string operations
  taken from std.

In-place division (`/=`) requires a divisor other than zero, and in-place `+=`, `-=`
and `*=` wrap around on overflow.  `ByteScale`'s `Debug` is derived and prints
`ByteScale(n)`; its display text comes from `to_string`, and the `ByteScale` in `app/`
prints that text for both `Display` and `Debug`.

`app/` holds what needs outside traits: `Display` and `Error`, serde's `Serialize` and
`Deserialize`, schemars' `JsonSchema` and `Arbitrary`.
