use station_stats::{fixed_point_parse, format_tenths};

fn render_tenths(v: i32) -> String {
    let wide = v as i64;
    let sign = if wide < 0 { "-" } else { "" };
    let magnitude = wide.abs();
    format!("{}{}.{}", sign, magnitude / 10, magnitude % 10)
}

#[test]
fn parses_one_fractional_digit() {
    assert_eq!(fixed_point_parse(b"12.3"), Some(123));
    assert_eq!(fixed_point_parse(b"0.0"), Some(0));
    assert_eq!(fixed_point_parse(b"7.0"), Some(70));
    assert_eq!(fixed_point_parse(b"99.9"), Some(999));
}

#[test]
fn parses_negative_numbers() {
    assert_eq!(fixed_point_parse(b"-0.5"), Some(-5));
    assert_eq!(fixed_point_parse(b"-99.9"), Some(-999));
    assert_eq!(fixed_point_parse(b"-12"), Some(-120));
    assert_eq!(fixed_point_parse(b"-0.0"), Some(0));
    assert_eq!(fixed_point_parse(b"-0"), Some(0));
}

#[test]
fn parses_without_fraction() {
    assert_eq!(fixed_point_parse(b"12"), Some(120));
    assert_eq!(fixed_point_parse(b"0"), Some(0));
    assert_eq!(fixed_point_parse(b"5."), Some(50));
    assert_eq!(fixed_point_parse(b"-5."), Some(-50));
}

#[test]
fn parses_without_whole_digits() {
    assert_eq!(fixed_point_parse(b".5"), Some(5));
    assert_eq!(fixed_point_parse(b"-.5"), Some(-5));
}

#[test]
fn parses_leading_zeros() {
    assert_eq!(fixed_point_parse(b"007.5"), Some(75));
    assert_eq!(fixed_point_parse(b"00000000000000000000000000000012.3"), Some(123));
}

#[test]
fn numeric_round_trip() {
    for text in ["12.3", "-0.5", "0.0", "-99.9"] {
        let value = fixed_point_parse(text.as_bytes()).unwrap();
        assert_eq!(render_tenths(value), text);
        assert_eq!(fixed_point_parse(render_tenths(value).as_bytes()), Some(value));
    }
}

#[test]
fn round_trip_from_values() {
    for value in [0, 1, -1, 9, 10, -10, 123, -999, 1000, i32::MAX, i32::MIN, i32::MIN + 1] {
        assert_eq!(fixed_point_parse(render_tenths(value).as_bytes()), Some(value));
    }
}

#[test]
fn rejects_text_without_digits() {
    assert_eq!(fixed_point_parse(b""), None);
    assert_eq!(fixed_point_parse(b"-"), None);
    assert_eq!(fixed_point_parse(b"."), None);
    assert_eq!(fixed_point_parse(b"-."), None);
}

#[test]
fn rejects_more_than_one_fractional_digit() {
    assert_eq!(fixed_point_parse(b"1.23"), None);
    assert_eq!(fixed_point_parse(b"0.00"), None);
    assert_eq!(fixed_point_parse(b"-4.567"), None);
}

#[test]
fn rejects_foreign_bytes() {
    assert_eq!(fixed_point_parse(b"1a"), None);
    assert_eq!(fixed_point_parse(b"a1"), None);
    assert_eq!(fixed_point_parse(b"1.a"), None);
    assert_eq!(fixed_point_parse(b" 1.0"), None);
    assert_eq!(fixed_point_parse(b"1.0 "), None);
    assert_eq!(fixed_point_parse(b"+1.0"), None);
    assert_eq!(fixed_point_parse(b"1e3"), None);
    assert_eq!(fixed_point_parse(b"1,000.0"), None);
    assert_eq!(fixed_point_parse(b"1;2"), None);
    assert_eq!(fixed_point_parse(b"1.0\n"), None);
}

#[test]
fn rejects_misplaced_sign_and_point() {
    assert_eq!(fixed_point_parse(b"--1"), None);
    assert_eq!(fixed_point_parse(b"1-"), None);
    assert_eq!(fixed_point_parse(b"1.-2"), None);
    assert_eq!(fixed_point_parse(b"1.2.3"), None);
    assert_eq!(fixed_point_parse(b"1..2"), None);
    assert_eq!(fixed_point_parse(b"..1"), None);
}

#[test]
fn accepts_the_whole_range_of_tenths() {
    assert_eq!(fixed_point_parse(b"214748364.7"), Some(i32::MAX));
    assert_eq!(fixed_point_parse(b"-214748364.8"), Some(i32::MIN));
    assert_eq!(fixed_point_parse(b"214748364"), Some(2147483640));
    assert_eq!(fixed_point_parse(b"-214748364"), Some(-2147483640));
}

#[test]
fn rejects_what_does_not_fit() {
    assert_eq!(fixed_point_parse(b"214748364.8"), None);
    assert_eq!(fixed_point_parse(b"-214748364.9"), None);
    assert_eq!(fixed_point_parse(b"214748365"), None);
    assert_eq!(fixed_point_parse(b"-214748365"), None);
    assert_eq!(fixed_point_parse(b"99999999999999999999999999999999999999.9"), None);
    assert_eq!(fixed_point_parse(b"-99999999999999999999999999999999999999"), None);
}

#[test]
fn formats_with_one_fractional_digit() {
    assert_eq!(format_tenths(123), b"12.3".to_vec());
    assert_eq!(format_tenths(-5), b"-0.5".to_vec());
    assert_eq!(format_tenths(0), b"0.0".to_vec());
    assert_eq!(format_tenths(-999), b"-99.9".to_vec());
    assert_eq!(format_tenths(7), b"0.7".to_vec());
    assert_eq!(format_tenths(70), b"7.0".to_vec());
    assert_eq!(format_tenths(-10), b"-1.0".to_vec());
    assert_eq!(format_tenths(100000), b"10000.0".to_vec());
}

#[test]
fn formats_the_ends_of_the_range() {
    assert_eq!(format_tenths(i32::MAX), b"214748364.7".to_vec());
    assert_eq!(format_tenths(i32::MIN), b"-214748364.8".to_vec());
}

#[test]
fn format_then_parse_gives_the_value_back() {
    let mut v: i64 = i32::MIN as i64;
    while v <= i32::MAX as i64 {
        let value = v as i32;
        let text = format_tenths(value);
        assert_eq!(text, render_tenths(value).into_bytes());
        assert_eq!(fixed_point_parse(&text), Some(value));
        v += 9_999_991;
    }
    for value in -1200..=1200 {
        assert_eq!(fixed_point_parse(&format_tenths(value)), Some(value));
    }
}

#[test]
fn parse_then_format_gives_the_text_back() {
    for text in ["12.3", "-0.5", "0.0", "-99.9", "100.0", "0.1", "-214748364.8"] {
        let value = fixed_point_parse(text.as_bytes()).unwrap();
        assert_eq!(format_tenths(value), text.as_bytes().to_vec());
    }
}
