use humanbyte::{parse, to_string, to_string_with_precision, Format, EB, EIB, GIB, KIB, MIB, PIB, TIB};

#[test]
fn test_parse() {
    assert_eq!(parse("1024"), Ok(1024));
    assert_eq!(parse("1 KiB"), Ok(1024));
    assert_eq!(parse("1.5KiB"), Ok(1536));
    assert_eq!(parse("2 mb"), Ok(2_000_000));
    assert_eq!(parse("3 g"), Ok(3_000_000_000));
    assert_eq!(parse("1 EiB"), Ok(EIB));
    assert_eq!(parse("2 eb"), Ok(2 * EB));
    assert!(parse("").is_err());
    assert!(parse("1.5 XB").is_err());
}

#[test]
fn test_parse_integer_exactness() {
    // 2^53 + 1 is not representable as f64; the suffix path must not round it
    assert_eq!(parse("9007199254740993B"), Ok(9_007_199_254_740_993));
    assert_eq!(parse("9007199254740993 B"), Ok(9_007_199_254_740_993));
    assert_eq!(parse("18446744073709551615B"), Ok(u64::MAX));
    // integer overflow errors instead of silently wrapping/saturating
    assert!(parse("20000 PB").is_err());
    // fractional values still take the binary64 path
    assert_eq!(parse("1.5 KiB"), Ok(1536));
}

#[test]
fn test_display_parse_roundtrip() {
    // everything we can display must parse back (u64::MAX shows as EiB)
    for bytes in [0, 1, 999, 1024, KIB, MIB, GIB, TIB, PIB, EIB, u64::MAX] {
        for format in [Format::IEC, Format::SI] {
            let s = to_string(bytes, format);
            assert!(parse(&s).is_ok(), "couldn't parse back {s:?}");
        }
    }
}

#[test]
fn test_precision() {
    assert_eq!(to_string_with_precision(TIB, Format::IEC, 2), "1.00 TiB");
    assert_eq!(to_string_with_precision(1536, Format::IEC, 0), "2 KiB");
    assert_eq!(to_string_with_precision(1536, Format::IEC, 3), "1.500 KiB");
    // sub-unit values are plain byte counts regardless of precision
    assert_eq!(to_string_with_precision(215, Format::IEC, 2), "215 B");
    assert_eq!(to_string(TIB, Format::IEC), "1.0 TiB");
}
