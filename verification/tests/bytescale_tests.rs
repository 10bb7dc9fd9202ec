use humanbyte::{ByteScale, Format, B, KB, MB};

#[test]
fn test_arithmetic_op() {
    let mut x = ByteScale::mb(1);
    let y = ByteScale::kb(100);

    assert_eq!((x + y).as_u64(), 1_100_000u64);

    assert_eq!((x - y).as_u64(), 900_000u64);

    assert_eq!((x + (100 * 1000) as u64).as_u64(), 1_100_000);

    assert_eq!((x * 2u64).as_u64(), 2_000_000);

    x += y;
    assert_eq!(x.as_u64(), 1_100_000);
    x *= 2u64;
    assert_eq!(x.as_u64(), 2_200_000);
}

#[test]
fn test_arithmetic_primitives() {
    let mut x = ByteScale::mb(1);

    assert_eq!((x + MB).as_u64(), 2_000_000);

    assert_eq!((x + MB as u32).as_u64(), 2_000_000);

    assert_eq!((x + KB as u16).as_u64(), 1_001_000);

    assert_eq!((x + B as u8).as_u64(), 1_000_001);

    assert_eq!((x - MB).as_u64(), 0);

    assert_eq!((x - MB as u32).as_u64(), 0);

    assert_eq!((x - KB as u32).as_u64(), 999_000);

    assert_eq!((x - B as u32).as_u64(), 999_999);

    x += MB;
    x += MB as u32;
    x += 10u16;
    x += 1u8;
    assert_eq!(x.as_u64(), 3_000_011);
}

#[test]
fn test_comparison() {
    assert_eq!(ByteScale::mb(1), ByteScale::kb(1000));
    assert_eq!(ByteScale::mib(1), ByteScale::kib(1024));
    assert_ne!(ByteScale::mb(1), ByteScale::kib(1024));
    assert!(ByteScale::mb(1) < ByteScale::kib(1024));
    assert!(ByteScale::b(0) < ByteScale::tib(1));
}

#[test]
fn test_display() {
    assert_eq!("215 B", ByteScale::b(215).to_string());
    assert_eq!("1.0 KiB", ByteScale::kib(1).to_string());
    assert_eq!("301.0 KiB", ByteScale::kib(301).to_string());
    assert_eq!("419.0 MiB", ByteScale::mib(419).to_string());
    assert_eq!("518.0 GiB", ByteScale::gib(518).to_string());
    assert_eq!("815.0 TiB", ByteScale::tib(815).to_string());
    assert_eq!("609.0 PiB", ByteScale::pib(609).to_string());
}

#[test]
fn test_display_alignment() {
    assert_eq!("|357 B     |", format!("|{:10}|", ByteScale(357).to_string()));
    assert_eq!("|     357 B|", format!("|{:>10}|", ByteScale(357).to_string()));
    assert_eq!("|357 B     |", format!("|{:<10}|", ByteScale(357).to_string()));
    assert_eq!("|  357 B   |", format!("|{:^10}|", ByteScale(357).to_string()));

    assert_eq!("|-----357 B|", format!("|{:->10}|", ByteScale(357).to_string()));
    assert_eq!("|357 B-----|", format!("|{:-<10}|", ByteScale(357).to_string()));
    assert_eq!("|--357 B---|", format!("|{:-^10}|", ByteScale(357).to_string()));
}

#[test]
fn test_to_string_as() {
    assert_eq!("215 B".to_string(), ByteScale::b(215).to_string_as(Format::IEC));
    assert_eq!("215 B".to_string(), ByteScale::b(215).to_string_as(Format::SI));

    assert_eq!("1.0 KiB".to_string(), ByteScale::kib(1).to_string_as(Format::IEC));
    assert_eq!("1.0 kB".to_string(), ByteScale::kib(1).to_string_as(Format::SI));

    assert_eq!("293.9 KiB".to_string(), ByteScale::kb(301).to_string_as(Format::IEC));
    assert_eq!("301.0 kB".to_string(), ByteScale::kb(301).to_string_as(Format::SI));

    assert_eq!("1.0 MiB".to_string(), ByteScale::mib(1).to_string_as(Format::IEC));
    assert_eq!("1.0 MB".to_string(), ByteScale::mib(1).to_string_as(Format::SI));

    assert_eq!("1.9 GiB".to_string(), ByteScale::mib(1907).to_string_as(Format::IEC));
    assert_eq!("2.0 GB".to_string(), ByteScale::mib(1908).to_string_as(Format::SI));

    assert_eq!("399.6 MiB".to_string(), ByteScale::mb(419).to_string_as(Format::IEC));
    assert_eq!("419.0 MB".to_string(), ByteScale::mb(419).to_string_as(Format::SI));

    assert_eq!("482.4 GiB".to_string(), ByteScale::gb(518).to_string_as(Format::IEC));
    assert_eq!("518.0 GB".to_string(), ByteScale::gb(518).to_string_as(Format::SI));

    assert_eq!("741.2 TiB".to_string(), ByteScale::tb(815).to_string_as(Format::IEC));
    assert_eq!("815.0 TB".to_string(), ByteScale::tb(815).to_string_as(Format::SI));

    assert_eq!("540.9 PiB".to_string(), ByteScale::pb(609).to_string_as(Format::IEC));
    assert_eq!("609.0 PB".to_string(), ByteScale::pb(609).to_string_as(Format::SI));
}

#[test]
fn when_err() {
    let parse = |s: &str| -> Result<ByteScale, String> { s.parse::<ByteScale>() };

    assert!(parse("").is_err());
    assert!(parse("a124GB").is_err());
    assert!(parse("1.3 42.0 B").is_err());
    assert!(parse("1.3 ... B").is_err());
    // whitespace used to separate digits is an error
    assert!(parse("1 000 B").is_err());
}

#[test]
fn test_default() {
    assert_eq!(ByteScale::b(0), ByteScale::default());
}

#[test]
fn test_to_string() {
    assert_eq!("609.0 PB".to_string(), ByteScale::pb(609).to_string_as(Format::SI));
}
