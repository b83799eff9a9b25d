use desilence::timestamp::{parse_timestamp, seconds_text, MAX_MICROS};

#[test]
fn whole_seconds_are_counted_in_microseconds() {
    assert_eq!(parse_timestamp("0"), Some(0));
    assert_eq!(parse_timestamp("3"), Some(3_000_000));
    assert_eq!(parse_timestamp("12"), Some(12_000_000));
}

#[test]
fn fractions_are_exact_to_the_microsecond() {
    assert_eq!(parse_timestamp("2.500000"), Some(2_500_000));
    assert_eq!(parse_timestamp("3.005"), Some(3_005_000));
    assert_eq!(parse_timestamp("0.000001"), Some(1));
    assert_eq!(parse_timestamp("1."), Some(1_000_000));
    assert_eq!(parse_timestamp(".5"), Some(500_000));
}

#[test]
fn digits_beyond_the_microsecond_are_dropped() {
    assert_eq!(parse_timestamp("0.0000019"), Some(1));
    assert_eq!(parse_timestamp("-0.00133333"), Some(-1_333));
    assert_eq!(parse_timestamp("0.0000009"), Some(0));
}

#[test]
fn signs_are_read() {
    assert_eq!(parse_timestamp("+1.5"), Some(1_500_000));
    assert_eq!(parse_timestamp("-1.5"), Some(-1_500_000));
    assert_eq!(parse_timestamp("-0"), Some(0));
}

#[test]
fn exponents_shift_the_point() {
    assert_eq!(parse_timestamp("2.08333e-05"), Some(20));
    assert_eq!(parse_timestamp("1.23457e+06"), Some(1_234_570_000_000));
    assert_eq!(parse_timestamp("1E3"), Some(1_000_000_000));
    assert_eq!(parse_timestamp("25e-1"), Some(2_500_000));
    assert_eq!(parse_timestamp("1e-7"), Some(0));
}

#[test]
fn the_largest_timestamp_is_a_million_million_seconds() {
    assert_eq!(parse_timestamp("1000000000000"), Some(1_000_000_000_000_000_000));
    assert_eq!(parse_timestamp("1e12"), Some(1_000_000_000_000_000_000));
    assert_eq!(parse_timestamp("1000000000000.000001"), None);
    assert_eq!(parse_timestamp("1e13"), None);
    assert_eq!(parse_timestamp("-1e13"), None);
    assert_eq!(parse_timestamp("99999999999999999999999999999999999999"), None);
}

#[test]
fn huge_exponents_do_not_overflow() {
    assert_eq!(parse_timestamp("1e99999999999999999999999999999999999999999"), None);
    assert_eq!(parse_timestamp("0e99999999999999999999999999999999999999999"), Some(0));
    assert_eq!(parse_timestamp("1e-99999999999999999999999999999999999999999"), Some(0));
    assert_eq!(parse_timestamp("0.000e400"), Some(0));
}

#[test]
fn long_digit_strings_are_read_digit_by_digit() {
    assert_eq!(parse_timestamp("00000000000000000000000000000000000000012.5"), Some(12_500_000));
    assert_eq!(
        parse_timestamp("123456789012345678901234567890e-25"),
        Some(12_345_678_901)
    );
}

#[test]
fn words_that_are_no_numbers_are_refused() {
    for word in [
        "", "+", "-", ".", "e5", "1e", "1e+", "abc", "1.2.3", "1,5", "0x10", "1_000", " 1", "1 ",
        "--1", "1e5.0", "1.5s", "inf", "nan", "infinity", "NaN", "-inf", "1.5|",
    ] {
        assert_eq!(parse_timestamp(word), None, "{word:?}");
    }
}

#[test]
fn timestamps_are_written_in_seconds_with_six_decimals() {
    assert_eq!(seconds_text(0), "0.000000");
    assert_eq!(seconds_text(2_500_000), "2.500000");
    assert_eq!(seconds_text(1), "0.000001");
    assert_eq!(seconds_text(-1_333), "-0.001333");
    assert_eq!(seconds_text(3_005_000), "3.005000");
    assert_eq!(seconds_text(123_456_789_012), "123456.789012");
    assert_eq!(seconds_text(i64::MAX), "9223372036854.775807");
    assert_eq!(seconds_text(i64::MIN), "-9223372036854.775808");
}

#[test]
fn what_is_written_reads_back_as_the_same_timestamp() {
    for v in [0, 1, -1, 9, 10, 999_999, 1_000_000, -1_000_001, 2_500_000, 86_400_000_000, MAX_MICROS, -MAX_MICROS] {
        assert_eq!(parse_timestamp(&seconds_text(v)), Some(v), "{v}");
    }
}
