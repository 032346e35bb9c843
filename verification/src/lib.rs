//! Conformance oracle for a normalized forward Discrete Fourier Transform.
//!
//! The oracle manufactures deterministic synthetic signals, computes a
//! reference transform, and persists both as fixed-precision text fixtures.
//! An implementation under test is then fed the same inputs and its output
//! is compared byte for byte against the persisted reference output.
//!
//! Everything numeric that this library touches is fixed-precision: a
//! complex sample is a pair of integers counting hundredths. That choice is
//! what turns an approximate floating-point comparison into an exact text
//! comparison, and it is what makes the serializer, the validation and the
//! comparison protocol fully verifiable.

pub mod compare;
pub mod fixture;
pub mod parse;
pub mod sample;
pub mod serialize;
pub mod sizes;
