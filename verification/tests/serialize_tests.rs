use fft_conformance::sample::Sample;
use fft_conformance::serialize::write_signal;
use fft_conformance::parse::{parse_signal, ParseError};

fn s(re: i64, im: i64) -> Sample {
    Sample::new(re, im)
}

#[test]
fn write_simple_line() {
    let sig = vec![s(150, 0)];
    let text = write_signal(&sig);
    assert_eq!(text, b"1.50,0.00\n".to_vec());
}

#[test]
fn write_negative_and_small() {
    let sig = vec![s(-5, 50), s(0, -65)];
    let text = write_signal(&sig);
    assert_eq!(text, b"-0.05,0.50\n0.00,-0.65\n".to_vec());
}

#[test]
fn write_empty_signal() {
    let sig: Vec<Sample> = Vec::new();
    let text = write_signal(&sig);
    assert_eq!(text, Vec::<u8>::new());
}

#[test]
fn write_large_magnitudes() {
    let sig = vec![s(i64::MAX, i64::MIN + 1)];
    let text = write_signal(&sig);
    assert_eq!(
        text,
        b"92233720368547758.07,-92233720368547758.07\n".to_vec()
    );
}

#[test]
fn round_trip_returns_the_same_signal() {
    let sig = vec![
        s(150, 0),
        s(35, 135),
        s(-100, 50),
        s(-35, -65),
        s(0, 0),
        s(-1, 1),
        s(i64::MAX, -9),
        s(1234567, -7654321),
    ];
    let text = write_signal(&sig);
    assert_eq!(parse_signal(&text), Ok(sig));
}

#[test]
fn round_trip_empty() {
    let sig: Vec<Sample> = Vec::new();
    let text = write_signal(&sig);
    assert_eq!(parse_signal(&text), Ok(sig));
}

#[test]
fn parse_valid_text() {
    let text = b"0.25,0.60\n2.25,-0.60\n".to_vec();
    assert_eq!(parse_signal(&text), Ok(vec![s(25, 60), s(225, -60)]));
}

#[test]
fn parse_rejects_missing_fraction_digit() {
    assert_eq!(parse_signal(&b"1.5,0.00\n".to_vec()), Err(ParseError::Malformed));
}

#[test]
fn parse_rejects_leading_zero() {
    assert_eq!(parse_signal(&b"01.00,0.00\n".to_vec()), Err(ParseError::Malformed));
}

#[test]
fn parse_rejects_negative_zero() {
    assert_eq!(parse_signal(&b"-0.00,0.00\n".to_vec()), Err(ParseError::Malformed));
}

#[test]
fn parse_rejects_missing_newline() {
    assert_eq!(parse_signal(&b"1.00,2.00".to_vec()), Err(ParseError::Malformed));
}

#[test]
fn parse_rejects_spaces() {
    assert_eq!(parse_signal(&b"1.00 ,2.00\n".to_vec()), Err(ParseError::Malformed));
}

#[test]
fn parse_rejects_overflowing_magnitude() {
    // One hundredth above the largest representable magnitude.
    assert_eq!(
        parse_signal(&b"92233720368547758.08,0.00\n".to_vec()),
        Err(ParseError::Malformed)
    );
    // A far larger integer part overflows the scanner's cap itself.
    assert_eq!(
        parse_signal(&b"999999999999999999999.00,0.00\n".to_vec()),
        Err(ParseError::Malformed)
    );
}

#[test]
fn parse_accepts_extreme_magnitudes() {
    let text = b"92233720368547758.07,-92233720368547758.07\n".to_vec();
    assert_eq!(parse_signal(&text), Ok(vec![s(i64::MAX, i64::MIN + 1)]));
}
