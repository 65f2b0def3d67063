use keystats::decode::{parse_temp_fast, ParseError};

#[test]
fn round_trip_short_positive() {
    assert_eq!(parse_temp_fast(b"5.0"), Ok(50));
}

#[test]
fn round_trip_short_negative() {
    assert_eq!(parse_temp_fast(b"-5.0"), Ok(-50));
}

#[test]
fn round_trip_long_positive() {
    assert_eq!(parse_temp_fast(b"45.0"), Ok(450));
}

#[test]
fn round_trip_long_negative() {
    assert_eq!(parse_temp_fast(b"-45.0"), Ok(-450));
}

#[test]
fn decode_extremes() {
    assert_eq!(parse_temp_fast(b"99.9"), Ok(999));
    assert_eq!(parse_temp_fast(b"-99.9"), Ok(-999));
    assert_eq!(parse_temp_fast(b"0.0"), Ok(0));
    assert_eq!(parse_temp_fast(b"-0.1"), Ok(-1));
}

#[test]
fn decode_fractional_digit() {
    assert_eq!(parse_temp_fast(b"4.2"), Ok(42));
    assert_eq!(parse_temp_fast(b"12.7"), Ok(127));
    assert_eq!(parse_temp_fast(b"-3.9"), Ok(-39));
}

#[test]
fn decode_rejects_wrong_length() {
    assert_eq!(parse_temp_fast(b""), Err(ParseError::InvalidNumberFormat));
    assert_eq!(parse_temp_fast(b"5"), Err(ParseError::InvalidNumberFormat));
    assert_eq!(parse_temp_fast(b"5."), Err(ParseError::InvalidNumberFormat));
    assert_eq!(parse_temp_fast(b"123.45"), Err(ParseError::InvalidNumberFormat));
    assert_eq!(parse_temp_fast(b"-123.4"), Err(ParseError::InvalidNumberFormat));
}

#[test]
fn decode_rejects_wrong_characters() {
    assert_eq!(parse_temp_fast(b"a.0"), Err(ParseError::InvalidNumberFormat));
    assert_eq!(parse_temp_fast(b"5x0"), Err(ParseError::InvalidNumberFormat));
    assert_eq!(parse_temp_fast(b"5.a"), Err(ParseError::InvalidNumberFormat));
    assert_eq!(parse_temp_fast(b"-a.0"), Err(ParseError::InvalidNumberFormat));
    assert_eq!(parse_temp_fast(b"--5.0"), Err(ParseError::InvalidNumberFormat));
    assert_eq!(parse_temp_fast(b"5..0"), Err(ParseError::InvalidNumberFormat));
}

#[test]
fn decode_rejects_misplaced_dot() {
    assert_eq!(parse_temp_fast(b".50"), Err(ParseError::InvalidNumberFormat));
    assert_eq!(parse_temp_fast(b"50."), Err(ParseError::InvalidNumberFormat));
    assert_eq!(parse_temp_fast(b"-5.0.", ), Err(ParseError::InvalidNumberFormat));
}
