use fft_conformance::sample::Sample;
use fft_conformance::sizes::{sizes, check_size, ConfigError};
use fft_conformance::compare::{compare_bytes, ComparisonResult};
use fft_conformance::fixture::{fixture_contents, fixture_file_name};

fn s(re: i64, im: i64) -> Sample {
    Sample::new(re, im)
}

#[test]
fn size_matrix_is_fixed() {
    assert_eq!(sizes(), vec![4, 64, 256, 1024, 4096, 16384]);
}

#[test]
fn check_size_accepts_powers_of_two() {
    assert_eq!(check_size(1), Ok(()));
    assert_eq!(check_size(2), Ok(()));
    assert_eq!(check_size(4), Ok(()));
    assert_eq!(check_size(16384), Ok(()));
}

#[test]
fn check_size_rejects_others() {
    assert_eq!(check_size(0), Err(ConfigError::NotPowerOfTwo));
    assert_eq!(check_size(3), Err(ConfigError::NotPowerOfTwo));
    assert_eq!(check_size(6), Err(ConfigError::NotPowerOfTwo));
    assert_eq!(check_size(100), Err(ConfigError::NotPowerOfTwo));
}

#[test]
fn compare_identical_is_pass() {
    let a = b"0.25,0.60\n".to_vec();
    let b = b"0.25,0.60\n".to_vec();
    assert_eq!(compare_bytes(&a, &b), ComparisonResult::Pass);
}

#[test]
fn compare_reports_first_divergence() {
    let a = b"0.25,0.60\n".to_vec();
    let b = b"0.25,0.61\n".to_vec();
    assert_eq!(compare_bytes(&a, &b), ComparisonResult::Mismatch { offset: 8 });
}

#[test]
fn compare_reports_short_prefix() {
    let a = b"0.25,0.60\n0.25,0.10\n".to_vec();
    let b = b"0.25,0.60\n".to_vec();
    assert_eq!(compare_bytes(&a, &b), ComparisonResult::Mismatch { offset: 10 });
}

#[test]
fn fixture_name_is_size_dot_dat() {
    assert_eq!(fixture_file_name(4), b"4.dat".to_vec());
    assert_eq!(fixture_file_name(16384), b"16384.dat".to_vec());
}

#[test]
fn fixture_rejects_non_power_of_two_before_any_text() {
    let input = vec![s(0, 0); 6];
    let output = vec![s(0, 0); 6];
    assert!(matches!(
        fixture_contents(6, &input, &output),
        Err(ConfigError::NotPowerOfTwo)
    ));
}

#[test]
fn fixture_rejects_wrong_length() {
    let input = vec![s(0, 0); 4];
    let output = vec![s(0, 0); 2];
    assert!(matches!(
        fixture_contents(4, &input, &output),
        Err(ConfigError::WrongLength)
    ));
}

#[test]
fn fixture_generation_is_idempotent() {
    let input = vec![s(150, 0), s(35, 135), s(-100, 50), s(-35, -65)];
    let output = vec![s(25, 60), s(225, -60), s(25, -10), s(25, 10)];
    let first = fixture_contents(4, &input, &output).unwrap();
    let second = fixture_contents(4, &input, &output).unwrap();
    assert_eq!(first.input_text, second.input_text);
    assert_eq!(first.output_text, second.output_text);
}
