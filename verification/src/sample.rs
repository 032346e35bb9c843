//! The fixed-precision complex sample and the signal it forms.

use vstd::prelude::*;

verus! {

/// A complex sample with both components held in hundredths, so that the
/// value `1.50` is stored as `150`. Fixed precision makes equality of
/// samples exactly the equality of their serialized text.
#[derive(Clone, Copy, Debug, PartialEq, Eq, Structural)]
pub struct Sample {
    /// Real component, in hundredths.
    pub re: i64,
    /// Imaginary component, in hundredths.
    pub im: i64,
}

/// A component is well formed when its absolute value is representable,
/// which only rules out the one value whose negation overflows.
pub open spec fn component_wf(v: i64) -> bool {
    v != i64::MIN
}

/// A sample is well formed when both components are.
pub open spec fn sample_wf(s: Sample) -> bool {
    component_wf(s.re) && component_wf(s.im)
}

/// A signal is well formed when every sample in it is.
pub open spec fn signal_wf(s: Seq<Sample>) -> bool {
    forall|i: int| 0 <= i < s.len() ==> sample_wf(#[trigger] s[i])
}

impl Sample {
    /// Builds a sample from its two components, given in hundredths.
    pub fn new(re: i64, im: i64) -> (r: Sample)
        ensures
            r.re == re,
            r.im == im,
    {
        Sample { re, im }
    }
}

} // verus!
