//! End-to-end oracle checks: the library's fixture texts are held against
//! an independent floating-point computation of the same signals and
//! transform (rustfft), and against hand-checked literal values for the
//! four-point case.

use fft_conformance::sample::Sample;
use fft_conformance::serialize::write_signal;
use fft_conformance::parse::parse_signal;
use fft_conformance::compare::{compare_bytes, ComparisonResult};
use fft_conformance::fixture::fixture_contents;
use fft_conformance::sizes::sizes;

use rustfft::algorithm::Radix4;
use rustfft::num_complex::Complex;
use rustfft::{Fft, FftDirection};

fn round_to_hundredths(x: f64) -> i64 {
    (x * 100.0).round() as i64
}

/// The deterministic two-tone synthetic signal, rounded to two decimals.
fn generate(len: usize) -> Vec<Sample> {
    (0..len)
        .map(|i| {
            let theta = i as f64 / len as f64 * std::f64::consts::PI;
            let re = 1.0 * (10.0 * theta).cos() + 0.5 * (25.0 * theta).cos();
            let im = 1.0 * (10.0 * theta).sin() + 0.5 * (25.0 * theta).sin();
            Sample::new(round_to_hundredths(re), round_to_hundredths(im))
        })
        .collect()
}

/// The normalized forward transform, computed independently of the library
/// and rounded to the fixture precision.
fn transform(input: &[Sample]) -> Vec<Sample> {
    let mut buf: Vec<Complex<f64>> = input
        .iter()
        .map(|s| Complex {
            re: s.re as f64 / 100.0,
            im: s.im as f64 / 100.0,
        })
        .collect();
    let fft = Radix4::new(buf.len(), FftDirection::Forward);
    fft.process(&mut buf);
    let factor = 1.0 / (buf.len() as f64).sqrt();
    buf.iter()
        .map(|c| Sample::new(round_to_hundredths(c.re * factor), round_to_hundredths(c.im * factor)))
        .collect()
}

#[test]
fn all_zero_input_transforms_to_all_zero() {
    // The normalized transform of the zero signal is the zero signal, for
    // any configured size, and its fixture text is all zero lines.
    for &n in &[4usize, 64, 256] {
        let zeros = vec![Sample::new(0, 0); n];
        let out = transform(&zeros);
        assert_eq!(out, zeros);
        let text = write_signal(&out);
        assert_eq!(text, b"0.00,0.00\n".repeat(n));
    }
}

#[test]
fn generate_is_deterministic() {
    for &n in &[4usize, 64, 256] {
        assert_eq!(generate(n), generate(n));
    }
}

#[test]
fn four_point_input_matches_hand_values() {
    let input = generate(4);
    assert_eq!(
        input,
        vec![
            Sample::new(150, 0),
            Sample::new(35, 135),
            Sample::new(-100, 50),
            Sample::new(-35, -65),
        ]
    );
}

#[test]
fn four_point_transform_matches_hand_values() {
    let output = transform(&generate(4));
    assert_eq!(
        output,
        vec![
            Sample::new(25, 60),
            Sample::new(225, -60),
            Sample::new(25, -10),
            Sample::new(25, 10),
        ]
    );
}

#[test]
fn four_point_fixtures_match_expected_literals() {
    let input = generate(4);
    let output = transform(&input);
    let pair = fixture_contents(4, &input, &output).unwrap();
    assert_eq!(pair.input_text, b"1.50,0.00\n0.35,1.35\n-1.00,0.50\n-0.35,-0.65\n".to_vec());
    assert_eq!(pair.output_text, b"0.25,0.60\n2.25,-0.60\n0.25,-0.10\n0.25,0.10\n".to_vec());
}

#[test]
fn echo_stub_fails_conformance() {
    // A stub that merely echoes its input must be caught: the input fixture
    // is not its own transform.
    let input = generate(4);
    let output = transform(&input);
    let pair = fixture_contents(4, &input, &output).unwrap();
    let echoed = pair.input_text.clone();
    match compare_bytes(&pair.output_text, &echoed) {
        ComparisonResult::Pass => panic!("echo stub must not conform"),
        ComparisonResult::Mismatch { offset } => assert_eq!(offset, 0),
    }
}

#[test]
fn faithful_stub_passes_every_configured_size() {
    // A stub that parses the fixture-format input, applies the identical
    // normalized transform with the same rounding, and writes the same
    // format must pass for every configured size.
    for n in sizes() {
        let input = generate(n);
        let output = transform(&input);
        let pair = fixture_contents(n, &input, &output).unwrap();

        // The stub sees only the serialized input text.
        let parsed = parse_signal(&pair.input_text).unwrap();
        assert_eq!(parsed, input);
        let stub_output = write_signal(&transform(&parsed));

        assert_eq!(compare_bytes(&pair.output_text, &stub_output), ComparisonResult::Pass);
    }
}
