use humanbyte::{
    parse, skip_while, take_while, to_string, to_string_with_precision, Format, ParseError, Unit,
    EB, EIB, GB, KIB, MB, PIB, TB,
};

fn message(s: &str) -> String {
    match parse(s) {
        Err(ParseError(m)) => m,
        Ok(v) => panic!("{s:?} parsed as {v}"),
    }
}

#[test]
fn rendered_text_parses_back_with_any_decimals() {
    for bytes in [0, 7, 999, 1000, 1023, 1024, 1536, 999_999, MB, GB + 1, TB, PIB - 1, EB, EIB, u64::MAX] {
        for format in [Format::IEC, Format::SI] {
            for precision in [1, 2, 3, 5] {
                let s = to_string_with_precision(bytes, format, precision);
                assert!(parse(&s).is_ok(), "couldn't parse back {s:?}");
            }
        }
    }
}

#[test]
fn whole_rendering_that_overflows_is_the_one_exception() {
    assert_eq!(to_string_with_precision(u64::MAX, Format::IEC, 0), "16 EiB");
    assert_eq!(message("16 EiB"), "\"16 EiB\" overflows a u64 byte count");
    assert_eq!(to_string_with_precision(u64::MAX, Format::SI, 0), "18 EB");
    assert_eq!(parse("18 EB"), Ok(18 * EB));
    assert_eq!(parse(&to_string_with_precision(1536, Format::IEC, 0)), Ok(2048));
}

#[test]
fn largest_counts_render_in_the_largest_unit() {
    assert_eq!(to_string(u64::MAX, Format::IEC), "16.0 EiB");
    assert_eq!(to_string(u64::MAX, Format::SI), "18.4 EB");
    assert_eq!(to_string(EIB, Format::IEC), "1.0 EiB");
    assert_eq!(to_string(EB - 1, Format::SI), "1000.0 PB");
}

#[test]
fn sub_unit_counts_are_plain_whatever_the_precision() {
    for precision in [0, 1, 4] {
        assert_eq!(to_string_with_precision(999, Format::SI, precision), "999 B");
        assert_eq!(to_string_with_precision(1023, Format::IEC, precision), "1023 B");
        assert_eq!(to_string_with_precision(0, Format::IEC, precision), "0 B");
    }
    assert_eq!(to_string(1000, Format::SI), "1.0 kB");
    assert_eq!(to_string(1000, Format::IEC), "1000 B");
}

#[test]
fn rounding_to_the_shown_decimals_is_half_to_even() {
    assert_eq!(to_string_with_precision(2560, Format::IEC, 0), "2 KiB");
    assert_eq!(to_string_with_precision(3584, Format::IEC, 0), "4 KiB");
    assert_eq!(to_string_with_precision(1050, Format::SI, 1), "1.1 kB");
    assert_eq!(to_string_with_precision(1850, Format::SI, 1), "1.9 kB");
    assert_eq!(to_string_with_precision(1250, Format::SI, 1), "1.2 kB");
    assert_eq!(to_string_with_precision(1023 * KIB, Format::IEC, 1), "1023.0 KiB");
    assert_eq!(to_string_with_precision(1_048_575, Format::IEC, 1), "1024.0 KiB");
}

#[test]
fn plain_integers_are_their_own_count() {
    assert_eq!(parse("0"), Ok(0));
    assert_eq!(parse("18446744073709551615"), Ok(u64::MAX));
    assert_eq!(parse("+5"), Ok(5));
    assert_eq!(parse("007"), Ok(7));
}

#[test]
fn whole_units_are_multiplied_exactly() {
    assert_eq!(parse("9007199254740993 B"), Ok(9_007_199_254_740_993));
    assert_eq!(parse("16383 PiB"), Ok(16383 * PIB));
    assert_eq!(message("20000 PB"), "\"20000 PB\" overflows a u64 byte count");
    assert_eq!(parse("3  KB"), Ok(3000));
}

#[test]
fn white_space_before_the_unit_is_any_unicode_white_space() {
    assert_eq!(parse("3\tKB"), Ok(3000));
    assert_eq!(parse("3\n\r KiB"), Ok(3 * KIB));
    assert_eq!(parse("1\u{a0}MB"), Ok(MB));
    assert_eq!(parse("1\u{3000}GB"), Ok(GB));
}

#[test]
fn unit_names_ignore_case() {
    assert_eq!(parse("1 KIB"), Ok(KIB));
    assert_eq!(parse("1 kIb"), Ok(KIB));
    assert_eq!(parse("1 Tb"), Ok(TB));
    assert_eq!(parse("1 ki"), Ok(KIB));
    assert_eq!(Unit::from_name("EiB"), Ok(Unit::ExbiByte));
    assert_eq!("mB".parse::<Unit>(), Ok(Unit::MegaByte));
    assert_eq!(u64::from(Unit::ExbiByte), EIB);
    assert_eq!(u64::from(Unit::Byte), 1);
}

#[test]
fn fractions_are_scaled_in_binary64() {
    assert_eq!(parse(".5 KiB"), Ok(512));
    assert_eq!(parse("1. KiB"), Ok(1024));
    assert_eq!(parse("1.5 B"), Ok(1));
    assert_eq!(parse("0.0000001 KB"), Ok(0));
    assert_eq!(parse("0.1 EB"), Ok(100_000_000_000_000_000));
    assert_eq!(parse("2.5 MiB"), Ok(2_621_440));
    assert_eq!(parse("20000.5 EB"), Ok(u64::MAX));
}

#[test]
fn a_number_without_a_unit_is_bytes() {
    assert_eq!(parse("1.5"), Ok(1));
    assert_eq!(parse("2.0"), Ok(2));
    assert_eq!(parse("1024 "), Ok(1024));
    assert_eq!(parse("2.5 "), parse("2.5 B"));
    assert_eq!(parse("7"), parse("7B"));
    assert_eq!(parse(".5\t"), Ok(0));
    assert_eq!(message("99999999999999999999"), "\"99999999999999999999\" overflows a u64 byte count");
}

#[test]
fn a_whole_number_beyond_u64_is_an_overflow() {
    assert_eq!(
        message("99999999999999999999 B"),
        "\"99999999999999999999 B\" overflows a u64 byte count"
    );
    assert_eq!(
        message("18446744073709551616 B"),
        "\"18446744073709551616 B\" overflows a u64 byte count"
    );
}

#[test]
fn each_error_says_what_failed() {
    assert_eq!(
        message(""),
        "couldn't parse \"\" into a byte size, cannot parse float from empty string"
    );
    assert_eq!(message("."), "couldn't parse \".\" into a byte size, invalid float literal");
    assert_eq!(
        message("1.2.3 KB"),
        "couldn't parse \"1.2.3 KB\" into a byte size, invalid float literal"
    );
    assert_eq!(
        message("+5 KB"),
        "couldn't parse \"+5 KB\" into a byte size, cannot parse float from empty string"
    );
    assert_eq!(
        message("a\tb"),
        "couldn't parse \"a\\tb\" into a byte size, cannot parse float from empty string"
    );
    assert_eq!(
        message("1e3"),
        "couldn't parse \"e3\" into a known SI unit, couldn't parse unit of \"e3\""
    );
    assert_eq!(
        Unit::from_name("xb"),
        Err(ParseError("couldn't parse unit of \"xb\"".to_string()))
    );
}

#[test]
fn take_while_and_skip_while_split_at_the_first_mismatch() {
    let digits = |c: char| c.is_ascii_digit() || c == '.';
    assert_eq!(take_while("1.5 KiB", digits), "1.5");
    assert_eq!(skip_while("1.5 KiB", digits), " KiB");
    assert_eq!(take_while("KiB", digits), "");
    assert_eq!(skip_while("  \tKiB", char::is_whitespace), "KiB");
    assert_eq!(skip_while("   ", char::is_whitespace), "");
    assert_eq!(take_while("ééx", |c| c == 'é'), "éé");
}

#[test]
fn the_default_format_is_iec() {
    assert_eq!(Format::default(), Format::IEC);
}

#[test]
fn parsing_ignores_ascii_case_throughout() {
    assert_eq!(parse("2 mb"), parse("2 MB"));
    assert_eq!(parse("1.5 kib"), parse("1.5 KIB"));
    assert_eq!(parse("1.5 kib"), Ok(1536));
    assert!(parse("1 xb").is_err() && parse("1 XB").is_err());
}

#[test]
fn the_taken_and_skipped_parts_join_to_the_whole() {
    for s in ["1.5 KiB", "", "KiB", "12", "  x", "ééx"] {
        let p = |c: char| c.is_ascii_digit() || c == '.' || c == 'é';
        assert_eq!(format!("{}{}", take_while(s, p), skip_while(s, p)), s);
    }
}
