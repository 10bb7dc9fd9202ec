//! `ByteScale`: a byte count as a new-type, with constructors in every unit,
//! arithmetic, conversions, rendering and parsing.
use crate::parse::{parse, parse_spec};
use crate::range::HumanByteRange;
use crate::render::{rendered, to_string, to_string_with_precision};
use crate::units::{Format, ParseError, GB, GIB, KB, KIB, MB, MIB, PB, PIB, TB, TIB};
use vstd::prelude::*;
use vstd::std_specs::convert::IntoSpec;
use vstd::std_specs::ops::{AddSpec, MulSpec, SubSpec};

verus! {

/// A new-type for byte sizes, providing convenient constructors, arithmetic operations,
/// conversions, and display.
#[derive(Copy, Clone, PartialEq, Eq, Structural, Ord, Hash, Debug)]
pub struct ByteScale(pub u64);

impl Default for ByteScale {
    fn default() -> (r: ByteScale)
        ensures
            r.0 == 0,
    {
        ByteScale(0)
    }
}

impl From<u64> for ByteScale {
    fn from(size: u64) -> (r: ByteScale) {
        ByteScale(size)
    }
}

impl vstd::std_specs::convert::FromSpecImpl<u64> for ByteScale {
    open spec fn obeys_from_spec() -> bool {
        true
    }

    open spec fn from_spec(size: u64) -> ByteScale {
        ByteScale(size)
    }
}

impl ByteScale {
    /// Construct `ByteScale` given an amount of bytes.
    pub fn b(size: u64) -> (r: ByteScale)
        ensures
            r.0 == size,
    {
        ByteScale(size)
    }

    /// Construct `ByteScale` given an amount of kilobytes; the total byte count must fit
    /// in a `u64`.
    pub fn kb(size: u64) -> (r: ByteScale)
        requires
            size * KB <= u64::MAX,
        ensures
            r.0 == size * KB,
    {
        ByteScale(size * KB)
    }

    /// Construct `ByteScale` given an amount of kibibytes; the total byte count must fit
    /// in a `u64`.
    pub fn kib(size: u64) -> (r: ByteScale)
        requires
            size * KIB <= u64::MAX,
        ensures
            r.0 == size * KIB,
    {
        ByteScale(size * KIB)
    }

    /// Construct `ByteScale` given an amount of megabytes; the total byte count must fit
    /// in a `u64`.
    pub fn mb(size: u64) -> (r: ByteScale)
        requires
            size * MB <= u64::MAX,
        ensures
            r.0 == size * MB,
    {
        ByteScale(size * MB)
    }

    /// Construct `ByteScale` given an amount of mebibytes; the total byte count must fit
    /// in a `u64`.
    pub fn mib(size: u64) -> (r: ByteScale)
        requires
            size * MIB <= u64::MAX,
        ensures
            r.0 == size * MIB,
    {
        ByteScale(size * MIB)
    }

    /// Construct `ByteScale` given an amount of gigabytes; the total byte count must fit
    /// in a `u64`.
    pub fn gb(size: u64) -> (r: ByteScale)
        requires
            size * GB <= u64::MAX,
        ensures
            r.0 == size * GB,
    {
        ByteScale(size * GB)
    }

    /// Construct `ByteScale` given an amount of gibibytes; the total byte count must fit
    /// in a `u64`.
    pub fn gib(size: u64) -> (r: ByteScale)
        requires
            size * GIB <= u64::MAX,
        ensures
            r.0 == size * GIB,
    {
        ByteScale(size * GIB)
    }

    /// Construct `ByteScale` given an amount of terabytes; the total byte count must fit
    /// in a `u64`.
    pub fn tb(size: u64) -> (r: ByteScale)
        requires
            size * TB <= u64::MAX,
        ensures
            r.0 == size * TB,
    {
        ByteScale(size * TB)
    }

    /// Construct `ByteScale` given an amount of tebibytes; the total byte count must fit
    /// in a `u64`.
    pub fn tib(size: u64) -> (r: ByteScale)
        requires
            size * TIB <= u64::MAX,
        ensures
            r.0 == size * TIB,
    {
        ByteScale(size * TIB)
    }

    /// Construct `ByteScale` given an amount of petabytes; the total byte count must fit
    /// in a `u64`.
    pub fn pb(size: u64) -> (r: ByteScale)
        requires
            size * PB <= u64::MAX,
        ensures
            r.0 == size * PB,
    {
        ByteScale(size * PB)
    }

    /// Construct `ByteScale` given an amount of pebibytes; the total byte count must fit
    /// in a `u64`.
    pub fn pib(size: u64) -> (r: ByteScale)
        requires
            size * PIB <= u64::MAX,
        ensures
            r.0 == size * PIB,
    {
        ByteScale(size * PIB)
    }

    /// Returns the size as a string with an optional SI unit.
    pub fn to_string_as(&self, format: Format) -> (r: String)
        ensures
            r@ == rendered(self.0, format, 1),
    {
        to_string(self.0, format)
    }

    /// Returns the size as a string with the given number of decimals.
    pub fn to_string_with_precision(&self, format: Format, precision: usize) -> (r: String)
        ensures
            r@ == rendered(self.0, format, precision as nat),
    {
        to_string_with_precision(self.0, format, precision)
    }

    /// The size as it is displayed: in IEC units, with one decimal.
    pub fn to_string(&self) -> (r: String)
        ensures
            r@ == rendered(self.0, Format::IEC, 1),
    {
        to_string(self.0, Format::IEC)
    }

    /// Returns the inner u64 value.
    pub fn as_u64(&self) -> (r: u64)
        ensures
            r == self.0,
    {
        self.0
    }

    /// Returns the inner value as usize.
    pub fn as_usize(&self) -> (r: usize)
        requires
            self.0 <= usize::MAX,
        ensures
            r == self.0,
    {
        self.0 as usize
    }

    /// Parses a byte size (see `parse`).
    pub fn parse_size(value: &str) -> (r: Result<ByteScale, ParseError>)
        ensures
            match parse_spec(value@) {
                Ok(v) => r == Ok::<ByteScale, ParseError>(ByteScale(v)),
                Err(m) => r matches Err(e) && e.0@ == m,
            },
    {
        match parse(value) {
            Ok(v) => Ok(ByteScale(v)),
            Err(e) => Err(e),
        }
    }

    /// Provides `HumanByteRange` with explicit lower and upper bounds.
    pub fn range<I: Into<ByteScale>>(start: I, stop: I) -> (r: HumanByteRange<ByteScale>)
        ensures
            I::obeys_into_spec() ==> r.start() == start.into_spec() && r.stop() == stop.into_spec(),
    {
        HumanByteRange::new(Some(start), Some(stop))
    }

    /// Provides `HumanByteRange` with explicit lower bound. Upper bound is set to `u64::MAX`.
    pub fn range_start<I: Into<ByteScale>>(start: I) -> (r: HumanByteRange<ByteScale>)
        ensures
            I::obeys_into_spec() ==> r.start() == start.into_spec(),
            r.stop() == ByteScale(u64::MAX),
    {
        HumanByteRange::new(Some(start), None)
    }

    /// Provides `HumanByteRange` with explicit upper bound. Lower bound is set to `0`.
    pub fn range_stop<I: Into<ByteScale>>(stop: I) -> (r: HumanByteRange<ByteScale>)
        ensures
            r.start() == ByteScale(0),
            I::obeys_into_spec() ==> r.stop() == stop.into_spec(),
    {
        HumanByteRange::new(None, Some(stop))
    }
}

impl core::str::FromStr for ByteScale {
    type Err = String;

    /// Parses a byte size (see `parse`); an error is its message.
    fn from_str(value: &str) -> (r: Result<ByteScale, String>)
        ensures
            match parse_spec(value@) {
                Ok(v) => r == Ok::<ByteScale, String>(ByteScale(v)),
                Err(m) => r matches Err(e) && e@ == m,
            },
    {
        match ByteScale::parse_size(value) {
            Ok(size) => Ok(size),
            Err(e) => Err(e.0),
        }
    }
}

impl core::ops::Add<ByteScale> for ByteScale {
    type Output = ByteScale;

    fn add(self, rhs: ByteScale) -> (r: ByteScale) {
        ByteScale(self.0 + rhs.0)
    }
}

impl vstd::std_specs::ops::AddSpecImpl<ByteScale> for ByteScale {
    open spec fn obeys_add_spec() -> bool {
        true
    }

    open spec fn add_req(self, rhs: ByteScale) -> bool {
        self.0 + rhs.0 <= u64::MAX
    }

    open spec fn add_spec(self, rhs: ByteScale) -> ByteScale {
        ByteScale((self.0 + rhs.0) as u64)
    }
}

impl core::ops::Sub<ByteScale> for ByteScale {
    type Output = ByteScale;

    fn sub(self, rhs: ByteScale) -> (r: ByteScale) {
        ByteScale(self.0 - rhs.0)
    }
}

impl vstd::std_specs::ops::SubSpecImpl<ByteScale> for ByteScale {
    open spec fn obeys_sub_spec() -> bool {
        true
    }

    open spec fn sub_req(self, rhs: ByteScale) -> bool {
        self.0 >= rhs.0
    }

    open spec fn sub_spec(self, rhs: ByteScale) -> ByteScale {
        ByteScale((self.0 - rhs.0) as u64)
    }
}

impl core::ops::Div<ByteScale> for ByteScale {
    type Output = u64;

    fn div(self, rhs: ByteScale) -> (r: u64) {
        self.0 / rhs.0
    }
}

impl vstd::std_specs::ops::DivSpecImpl<ByteScale> for ByteScale {
    open spec fn obeys_div_spec() -> bool {
        true
    }

    open spec fn div_req(self, rhs: ByteScale) -> bool {
        rhs.0 != 0
    }

    open spec fn div_spec(self, rhs: ByteScale) -> u64 {
        self.0 / rhs.0
    }
}

impl core::ops::Rem<ByteScale> for ByteScale {
    type Output = ByteScale;

    fn rem(self, rhs: ByteScale) -> (r: ByteScale) {
        ByteScale(self.0 % rhs.0)
    }
}

impl vstd::std_specs::ops::RemSpecImpl<ByteScale> for ByteScale {
    open spec fn obeys_rem_spec() -> bool {
        true
    }

    open spec fn rem_req(self, rhs: ByteScale) -> bool {
        rhs.0 != 0
    }

    open spec fn rem_spec(self, rhs: ByteScale) -> ByteScale {
        ByteScale(self.0 % rhs.0)
    }
}

impl<T: Into<u64>> core::ops::Add<T> for ByteScale {
    type Output = ByteScale;

    fn add(self, rhs: T) -> (r: ByteScale) {
        let v: u64 = rhs.into();
        ByteScale(self.0 + v)
    }
}

impl<T: Into<u64>> vstd::std_specs::ops::AddSpecImpl<T> for ByteScale {
    open spec fn obeys_add_spec() -> bool {
        true
    }

    open spec fn add_req(self, rhs: T) -> bool {
        <T as IntoSpec<u64>>::obeys_into_spec() && self.0 + rhs.into_spec() <= u64::MAX
    }

    open spec fn add_spec(self, rhs: T) -> ByteScale {
        ByteScale((self.0 + rhs.into_spec()) as u64)
    }
}

impl<T: Into<u64>> core::ops::Sub<T> for ByteScale {
    type Output = ByteScale;

    fn sub(self, rhs: T) -> (r: ByteScale) {
        let v: u64 = rhs.into();
        ByteScale(self.0 - v)
    }
}

impl<T: Into<u64>> vstd::std_specs::ops::SubSpecImpl<T> for ByteScale {
    open spec fn obeys_sub_spec() -> bool {
        true
    }

    open spec fn sub_req(self, rhs: T) -> bool {
        <T as IntoSpec<u64>>::obeys_into_spec() && self.0 >= rhs.into_spec()
    }

    open spec fn sub_spec(self, rhs: T) -> ByteScale {
        ByteScale((self.0 - rhs.into_spec()) as u64)
    }
}

impl<T: Into<u64>> core::ops::Mul<T> for ByteScale {
    type Output = ByteScale;

    fn mul(self, rhs: T) -> (r: ByteScale) {
        let v: u64 = rhs.into();
        ByteScale(self.0 * v)
    }
}

impl<T: Into<u64>> vstd::std_specs::ops::MulSpecImpl<T> for ByteScale {
    open spec fn obeys_mul_spec() -> bool {
        true
    }

    open spec fn mul_req(self, rhs: T) -> bool {
        <T as IntoSpec<u64>>::obeys_into_spec() && self.0 * rhs.into_spec() <= u64::MAX
    }

    open spec fn mul_spec(self, rhs: T) -> ByteScale {
        ByteScale((self.0 * rhs.into_spec()) as u64)
    }
}

impl<T: Into<u64>> core::ops::Div<T> for ByteScale {
    type Output = ByteScale;

    fn div(self, rhs: T) -> (r: ByteScale) {
        let v: u64 = rhs.into();
        ByteScale(self.0 / v)
    }
}

impl<T: Into<u64>> vstd::std_specs::ops::DivSpecImpl<T> for ByteScale {
    open spec fn obeys_div_spec() -> bool {
        true
    }

    open spec fn div_req(self, rhs: T) -> bool {
        <T as IntoSpec<u64>>::obeys_into_spec() && rhs.into_spec() != 0
    }

    open spec fn div_spec(self, rhs: T) -> ByteScale {
        ByteScale(self.0 / rhs.into_spec())
    }
}

impl core::ops::Add<ByteScale> for u64 {
    type Output = ByteScale;

    fn add(self, rhs: ByteScale) -> (r: ByteScale) {
        ByteScale(rhs.0 + self)
    }
}

impl vstd::std_specs::ops::AddSpecImpl<ByteScale> for u64 {
    open spec fn obeys_add_spec() -> bool {
        true
    }

    open spec fn add_req(self, rhs: ByteScale) -> bool {
        rhs.0 + self <= u64::MAX
    }

    open spec fn add_spec(self, rhs: ByteScale) -> ByteScale {
        ByteScale((rhs.0 + self) as u64)
    }
}

impl core::ops::Mul<ByteScale> for u64 {
    type Output = ByteScale;

    fn mul(self, rhs: ByteScale) -> (r: ByteScale) {
        ByteScale(rhs.0 * self)
    }
}

impl vstd::std_specs::ops::MulSpecImpl<ByteScale> for u64 {
    open spec fn obeys_mul_spec() -> bool {
        true
    }

    open spec fn mul_req(self, rhs: ByteScale) -> bool {
        rhs.0 * self <= u64::MAX
    }

    open spec fn mul_spec(self, rhs: ByteScale) -> ByteScale {
        ByteScale((rhs.0 * self) as u64)
    }
}

impl core::ops::Add<ByteScale> for u32 {
    type Output = ByteScale;

    fn add(self, rhs: ByteScale) -> (r: ByteScale) {
        ByteScale(rhs.0 + self as u64)
    }
}

impl vstd::std_specs::ops::AddSpecImpl<ByteScale> for u32 {
    open spec fn obeys_add_spec() -> bool {
        true
    }

    open spec fn add_req(self, rhs: ByteScale) -> bool {
        rhs.0 + self <= u64::MAX
    }

    open spec fn add_spec(self, rhs: ByteScale) -> ByteScale {
        ByteScale((rhs.0 + self) as u64)
    }
}

impl core::ops::Mul<ByteScale> for u32 {
    type Output = ByteScale;

    fn mul(self, rhs: ByteScale) -> (r: ByteScale) {
        ByteScale(rhs.0 * self as u64)
    }
}

impl vstd::std_specs::ops::MulSpecImpl<ByteScale> for u32 {
    open spec fn obeys_mul_spec() -> bool {
        true
    }

    open spec fn mul_req(self, rhs: ByteScale) -> bool {
        rhs.0 * self <= u64::MAX
    }

    open spec fn mul_spec(self, rhs: ByteScale) -> ByteScale {
        ByteScale((rhs.0 * self) as u64)
    }
}

impl core::ops::Add<ByteScale> for u16 {
    type Output = ByteScale;

    fn add(self, rhs: ByteScale) -> (r: ByteScale) {
        ByteScale(rhs.0 + self as u64)
    }
}

impl vstd::std_specs::ops::AddSpecImpl<ByteScale> for u16 {
    open spec fn obeys_add_spec() -> bool {
        true
    }

    open spec fn add_req(self, rhs: ByteScale) -> bool {
        rhs.0 + self <= u64::MAX
    }

    open spec fn add_spec(self, rhs: ByteScale) -> ByteScale {
        ByteScale((rhs.0 + self) as u64)
    }
}

impl core::ops::Mul<ByteScale> for u16 {
    type Output = ByteScale;

    fn mul(self, rhs: ByteScale) -> (r: ByteScale) {
        ByteScale(rhs.0 * self as u64)
    }
}

impl vstd::std_specs::ops::MulSpecImpl<ByteScale> for u16 {
    open spec fn obeys_mul_spec() -> bool {
        true
    }

    open spec fn mul_req(self, rhs: ByteScale) -> bool {
        rhs.0 * self <= u64::MAX
    }

    open spec fn mul_spec(self, rhs: ByteScale) -> ByteScale {
        ByteScale((rhs.0 * self) as u64)
    }
}

impl core::ops::Add<ByteScale> for u8 {
    type Output = ByteScale;

    fn add(self, rhs: ByteScale) -> (r: ByteScale) {
        ByteScale(rhs.0 + self as u64)
    }
}

impl vstd::std_specs::ops::AddSpecImpl<ByteScale> for u8 {
    open spec fn obeys_add_spec() -> bool {
        true
    }

    open spec fn add_req(self, rhs: ByteScale) -> bool {
        rhs.0 + self <= u64::MAX
    }

    open spec fn add_spec(self, rhs: ByteScale) -> ByteScale {
        ByteScale((rhs.0 + self) as u64)
    }
}

impl core::ops::Mul<ByteScale> for u8 {
    type Output = ByteScale;

    fn mul(self, rhs: ByteScale) -> (r: ByteScale) {
        ByteScale(rhs.0 * self as u64)
    }
}

impl vstd::std_specs::ops::MulSpecImpl<ByteScale> for u8 {
    open spec fn obeys_mul_spec() -> bool {
        true
    }

    open spec fn mul_req(self, rhs: ByteScale) -> bool {
        rhs.0 * self <= u64::MAX
    }

    open spec fn mul_spec(self, rhs: ByteScale) -> ByteScale {
        ByteScale((rhs.0 * self) as u64)
    }
}

impl core::ops::Add<ByteScale> for usize {
    type Output = ByteScale;

    fn add(self, rhs: ByteScale) -> (r: ByteScale) {
        ByteScale(rhs.0 + self as u64)
    }
}

impl vstd::std_specs::ops::AddSpecImpl<ByteScale> for usize {
    open spec fn obeys_add_spec() -> bool {
        true
    }

    open spec fn add_req(self, rhs: ByteScale) -> bool {
        rhs.0 + self <= u64::MAX
    }

    open spec fn add_spec(self, rhs: ByteScale) -> ByteScale {
        ByteScale((rhs.0 + self) as u64)
    }
}

impl core::ops::Mul<ByteScale> for usize {
    type Output = ByteScale;

    fn mul(self, rhs: ByteScale) -> (r: ByteScale) {
        ByteScale(rhs.0 * self as u64)
    }
}

impl vstd::std_specs::ops::MulSpecImpl<ByteScale> for usize {
    open spec fn obeys_mul_spec() -> bool {
        true
    }

    open spec fn mul_req(self, rhs: ByteScale) -> bool {
        rhs.0 * self <= u64::MAX
    }

    open spec fn mul_spec(self, rhs: ByteScale) -> ByteScale {
        ByteScale((rhs.0 * self) as u64)
    }
}

impl core::ops::Sub<ByteScale> for usize {
    type Output = ByteScale;

    fn sub(self, rhs: ByteScale) -> (r: ByteScale) {
        ByteScale(self as u64 - rhs.0)
    }
}

impl vstd::std_specs::ops::SubSpecImpl<ByteScale> for usize {
    open spec fn obeys_sub_spec() -> bool {
        true
    }

    open spec fn sub_req(self, rhs: ByteScale) -> bool {
        self >= rhs.0
    }

    open spec fn sub_spec(self, rhs: ByteScale) -> ByteScale {
        ByteScale((self - rhs.0) as u64)
    }
}

impl core::ops::AddAssign<ByteScale> for ByteScale {
    /// Adds in place; a sum beyond `u64::MAX` wraps around.
    fn add_assign(&mut self, rhs: ByteScale)
        ensures
            final(self).0 == (old(self).0 + rhs.0) % 0x1_0000_0000_0000_0000,
    {
        self.0 = self.0.wrapping_add(rhs.0);
    }
}

impl core::ops::SubAssign<ByteScale> for ByteScale {
    /// Subtracts in place; a difference below zero wraps around.
    fn sub_assign(&mut self, rhs: ByteScale)
        ensures
            final(self).0 == (old(self).0 - rhs.0) % 0x1_0000_0000_0000_0000,
    {
        self.0 = self.0.wrapping_sub(rhs.0);
    }
}

impl<T: Into<u64>> core::ops::AddAssign<T> for ByteScale {
    /// Adds in place; a sum beyond `u64::MAX` wraps around.
    fn add_assign(&mut self, rhs: T)
        ensures
            <T as IntoSpec<u64>>::obeys_into_spec() ==> final(self).0 == (old(self).0
                + rhs.into_spec()) % 0x1_0000_0000_0000_0000,
    {
        let v: u64 = rhs.into();
        self.0 = self.0.wrapping_add(v);
    }
}

impl<T: Into<u64>> core::ops::SubAssign<T> for ByteScale {
    /// Subtracts in place; a difference below zero wraps around.
    fn sub_assign(&mut self, rhs: T)
        ensures
            <T as IntoSpec<u64>>::obeys_into_spec() ==> final(self).0 == (old(self).0
                - rhs.into_spec()) % 0x1_0000_0000_0000_0000,
    {
        let v: u64 = rhs.into();
        self.0 = self.0.wrapping_sub(v);
    }
}

impl<T: Into<u64>> core::ops::MulAssign<T> for ByteScale {
    /// Multiplies in place; a product beyond `u64::MAX` wraps around.
    fn mul_assign(&mut self, rhs: T)
        ensures
            <T as IntoSpec<u64>>::obeys_into_spec() ==> final(self).0 == (old(self).0
                * rhs.into_spec()) % 0x1_0000_0000_0000_0000,
    {
        let v: u64 = rhs.into();
        self.0 = self.0.wrapping_mul(v);
    }
}

impl<T: Into<u64>> core::ops::DivAssign<T> for ByteScale {
    /// Divides in place, rounding down; the divisor must not be zero.
    fn div_assign(&mut self, rhs: T)
        requires
            <T as IntoSpec<u64>>::obeys_into_spec(),
            rhs.into_spec() != 0,
        ensures
            final(self).0 == old(self).0 / rhs.into_spec(),
    {
        let v: u64 = rhs.into();
        self.0 = self.0 / v;
    }
}


/// A count on the left of a size scales or shifts it by that count: `n * s` and `s * n`
/// hold `n` times the bytes of `s`, and `n + s` and `s + n` hold their sum, for every
/// unsigned count type, whenever the result fits in a `u64`; `n - s` with a `usize` on
/// the left holds the difference.
pub proof fn law_count_on_either_side(s: ByteScale, a: u64, b: u32, c: u16, d: u8, e: usize)
    ensures
        <u64 as MulSpec<ByteScale>>::obeys_mul_spec() && <u32 as MulSpec<ByteScale>>::obeys_mul_spec()
            && <u16 as MulSpec<ByteScale>>::obeys_mul_spec() && <u8 as MulSpec<ByteScale>>::obeys_mul_spec()
            && <usize as MulSpec<ByteScale>>::obeys_mul_spec(),
        s.0 * a <= u64::MAX ==> a.mul_req(s) && a.mul_spec(s).0 == s.0 * a,
        s.0 * b <= u64::MAX ==> b.mul_req(s) && s.mul_req(b) && b.mul_spec(s).0 == s.0 * b
            && b.mul_spec(s) == s.mul_spec(b),
        s.0 * c <= u64::MAX ==> c.mul_req(s) && s.mul_req(c) && c.mul_spec(s).0 == s.0 * c
            && c.mul_spec(s) == s.mul_spec(c),
        s.0 * d <= u64::MAX ==> d.mul_req(s) && s.mul_req(d) && d.mul_spec(s).0 == s.0 * d
            && d.mul_spec(s) == s.mul_spec(d),
        s.0 * e <= u64::MAX ==> e.mul_req(s) && e.mul_spec(s).0 == s.0 * e,
        s.0 + a <= u64::MAX ==> a.add_req(s) && a.add_spec(s).0 == s.0 + a,
        s.0 + b <= u64::MAX ==> b.add_req(s) && s.add_req(b) && b.add_spec(s).0 == s.0 + b
            && b.add_spec(s) == s.add_spec(b),
        s.0 + c <= u64::MAX ==> c.add_req(s) && s.add_req(c) && c.add_spec(s).0 == s.0 + c
            && c.add_spec(s) == s.add_spec(c),
        s.0 + d <= u64::MAX ==> d.add_req(s) && s.add_req(d) && d.add_spec(s).0 == s.0 + d
            && d.add_spec(s) == s.add_spec(d),
        s.0 + e <= u64::MAX ==> e.add_req(s) && e.add_spec(s).0 == s.0 + e,
        e >= s.0 ==> e.sub_req(s) && e.sub_spec(s).0 == e - s.0,
{
}

} // verus!
