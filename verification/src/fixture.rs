//! Fixture production: the texts persisted for one configured size.
//!
//! For each size the harness persists two files, the serialized input signal
//! and the serialized reference output. This module produces their exact
//! contents and names; the caller only copies bytes to disk.

use vstd::prelude::*;
use crate::sample::{Sample, signal_wf};
use crate::serialize::{render_signal, dec_rep, write_signal, push_decimal};
use crate::sizes::{ConfigError, is_pow2, check_size};

verus! {

/// The two fixture texts for one size: the serialized input signal and the
/// serialized reference output, in the wire format.
pub struct FixturePair {
    /// Contents of `inputs/{size}.dat`.
    pub input_text: Vec<u8>,
    /// Contents of `outputs/{size}.dat`.
    pub output_text: Vec<u8>,
}

/// The file name under which fixtures for `size` are persisted: the decimal
/// size followed by `.dat`.
pub open spec fn fixture_name_spec(size: nat) -> Seq<u8> {
    dec_rep(size) + seq![46u8, 100u8, 97u8, 116u8]
}

/// Renders the fixture file name for `size`, `{size}.dat`.
pub fn fixture_file_name(size: usize) -> (r: Vec<u8>)
    ensures
        r@ == fixture_name_spec(size as nat),
{
    let mut out: Vec<u8> = Vec::new();
    push_decimal(&mut out, size as u64);
    out.push(46);
    out.push(100);
    out.push(97);
    out.push(116);
    proof {
        assert(out@ =~= fixture_name_spec(size as nat));
    }
    out
}

/// Produces the two fixture texts for one size, validating the size before
/// any text is rendered. Succeeds exactly when the size is a power of two
/// and both signals have that length; the error says which rule failed.
pub fn fixture_contents(size: usize, input: &Vec<Sample>, output: &Vec<Sample>) -> (r: Result<
    FixturePair,
    ConfigError,
>)
    requires
        signal_wf(input@),
        signal_wf(output@),
    ensures
        r is Ok <==> (is_pow2(size as nat) && input@.len() == size && output@.len() == size),
        r matches Ok(p) ==> p.input_text@ == render_signal(input@) && p.output_text@
            == render_signal(output@),
        !is_pow2(size as nat) ==> r == Result::<FixturePair, ConfigError>::Err(
            ConfigError::NotPowerOfTwo,
        ),
        is_pow2(size as nat) && !(input@.len() == size && output@.len() == size) ==> r
            == Result::<FixturePair, ConfigError>::Err(ConfigError::WrongLength),
{
    if let Err(e) = check_size(size) {
        return Err(e);
    }
    if input.len() != size || output.len() != size {
        return Err(ConfigError::WrongLength);
    }
    let input_text = write_signal(input);
    let output_text = write_signal(output);
    Ok(FixturePair { input_text, output_text })
}

/// Fixture generation is idempotent: the persisted texts are a function of
/// the signals alone, so producing them twice from the same signals yields
/// byte-identical fixtures both times.
pub proof fn lemma_fixture_idempotent(
    input: Seq<Sample>,
    output: Seq<Sample>,
    first_in: Seq<u8>,
    first_out: Seq<u8>,
    second_in: Seq<u8>,
    second_out: Seq<u8>,
)
    requires
        first_in == render_signal(input),
        first_out == render_signal(output),
        second_in == render_signal(input),
        second_out == render_signal(output),
    ensures
        first_in == second_in,
        first_out == second_out,
{
}

} // verus!
