use humanbyte::{ByteScale, Format, HumanByteRange, ParseError, KIB};
use std::ops::{Bound, RangeBounds};

#[test]
fn constructors_multiply_by_their_unit() {
    assert_eq!(ByteScale::kib(3).as_u64(), 3 * KIB);
    assert_eq!(ByteScale::pb(2).as_u64(), 2_000_000_000_000_000);
    assert_eq!(ByteScale::gib(1).as_usize(), 1 << 30);
    assert_eq!(ByteScale::from(77u64), ByteScale(77));
}

#[test]
fn division_and_remainder() {
    assert_eq!(ByteScale(10) / ByteScale(3), 3u64);
    assert_eq!(ByteScale(10) % ByteScale(3), ByteScale(1));
    assert_eq!(ByteScale(10) / 4u8, ByteScale(2));
    let mut x = ByteScale(100);
    x /= 7u32;
    assert_eq!(x, ByteScale(14));
    x /= 2u64;
    assert_eq!(x, ByteScale(7));
}

#[test]
fn primitives_on_the_left() {
    assert_eq!(3u8 * ByteScale(5), ByteScale(15));
    assert_eq!(3usize + ByteScale(5), ByteScale(8));
    assert_eq!(9usize - ByteScale(5), ByteScale(4));
    assert_eq!(2u64 + ByteScale(5), ByteScale(7));
}

#[test]
fn in_place_arithmetic_wraps() {
    let mut x = ByteScale(u64::MAX);
    x += 2u8;
    assert_eq!(x, ByteScale(1));
    x -= ByteScale(2);
    assert_eq!(x, ByteScale(u64::MAX));
}

#[test]
fn parsing_into_a_byte_scale() {
    assert_eq!("1.5 KiB".parse::<ByteScale>(), Ok(ByteScale(1536)));
    assert_eq!(ByteScale::parse_size("2 kb"), Ok(ByteScale(2000)));
    assert_eq!(
        ByteScale::parse_size("x"),
        Err(ParseError(
            "couldn't parse \"x\" into a byte size, cannot parse float from empty string".to_string()
        ))
    );
    assert_eq!(
        "x".parse::<ByteScale>(),
        Err("couldn't parse \"x\" into a byte size, cannot parse float from empty string".to_string())
    );
}

#[test]
fn displayed_text_parses_back() {
    for size in [ByteScale(0), ByteScale::kib(301), ByteScale::mb(419), ByteScale(u64::MAX)] {
        assert!(size.to_string().parse::<ByteScale>().is_ok());
        assert!(size.to_string_with_precision(Format::SI, 3).parse::<ByteScale>().is_ok());
    }
}

#[test]
fn ranges_are_inclusive_with_open_ends_filled_in() {
    let r = ByteScale::range(ByteScale(1), ByteScale(10));
    assert!(r.contains(&ByteScale(1)));
    assert!(r.contains(&ByteScale(10)));
    assert!(!r.contains(&ByteScale(11)));
    let from = ByteScale::range_start(ByteScale(5));
    assert_eq!(from.end_bound(), Bound::Included(&ByteScale(u64::MAX)));
    assert_eq!(from.start_bound(), Bound::Included(&ByteScale(5)));
    let to = ByteScale::range_stop(ByteScale(5));
    assert_eq!(to.start_bound(), Bound::Included(&ByteScale(0)));
    let plain: HumanByteRange<u64> = HumanByteRange::new(None::<u64>, Some(7u64));
    assert_eq!(*plain.start_value(), 0);
    assert_eq!(*plain.stop_value(), 7);
}

#[test]
fn operators_take_any_value_that_converts_to_a_count() {
    assert_eq!(ByteScale(1) + true, ByteScale(2));
    assert_eq!(ByteScale(10) - 3u16, ByteScale(7));
    assert_eq!(ByteScale(10) * std::num::NonZeroU64::new(3).unwrap(), ByteScale(30));
    let mut x = ByteScale(10);
    x *= 'A';
    assert_eq!(x, ByteScale(650));
    x /= true;
    assert_eq!(x, ByteScale(650));
}

#[test]
fn sizes_are_ordered_by_their_counts() {
    assert!(ByteScale::kb(1) < ByteScale::kib(1));
    assert!(ByteScale::kib(1) <= ByteScale(1024));
    assert!(ByteScale::gb(1) > ByteScale::mib(953));
    assert_eq!(ByteScale(3).partial_cmp(&ByteScale(3)), Some(std::cmp::Ordering::Equal));
    assert_eq!(ByteScale(3).max(ByteScale(9)), ByteScale(9));
}
