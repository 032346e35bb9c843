//! The byte-exact comparison protocol.
//!
//! Captured output from the implementation under test is held against the
//! persisted reference fixture byte for byte; on failure the verdict carries
//! the offset of the first diverging byte.

use vstd::prelude::*;

verus! {

/// The verdict of one conformance check.
#[derive(Clone, Copy, Debug, PartialEq, Eq, Structural)]
pub enum ComparisonResult {
    /// The captured output is byte-identical to the reference fixture.
    Pass,
    /// The two texts diverge; `offset` is the first byte position at which
    /// they differ, or the length of the shorter text when one is a proper
    /// prefix of the other.
    Mismatch { offset: usize },
}

/// Length of the longest common prefix of two byte sequences.
pub open spec fn common_prefix_len(a: Seq<u8>, b: Seq<u8>) -> nat
    decreases a.len(),
{
    if a.len() == 0 || b.len() == 0 || a[0] != b[0] {
        0
    } else {
        1 + common_prefix_len(a.drop_first(), b.drop_first())
    }
}

/// The common prefix of two sequences never outruns either of them, and
/// stepping through equal bytes extends it one at a time.
proof fn lemma_common_prefix_step(a: Seq<u8>, b: Seq<u8>, i: nat)
    requires
        i <= a.len(),
        i <= b.len(),
        forall|j: int| 0 <= j < i ==> a[j] == b[j],
    ensures
        common_prefix_len(a, b) >= i,
    decreases i,
{
    if i > 0 {
        lemma_common_prefix_step(a.drop_first(), b.drop_first(), (i - 1) as nat);
        assert(a[0] == b[0]);
    }
}

/// The byte at the end of the common prefix, if both sequences reach it,
/// differs.
proof fn lemma_common_prefix_stops(a: Seq<u8>, b: Seq<u8>)
    ensures
        common_prefix_len(a, b) <= a.len(),
        common_prefix_len(a, b) <= b.len(),
        forall|j: int| 0 <= j < common_prefix_len(a, b) ==> a[j] == b[j],
        common_prefix_len(a, b) < a.len() && common_prefix_len(a, b) < b.len() ==> a[
            common_prefix_len(a, b) as int
        ] != b[common_prefix_len(a, b) as int],
    decreases a.len(),
{
    if a.len() == 0 || b.len() == 0 || a[0] != b[0] {
    } else {
        lemma_common_prefix_stops(a.drop_first(), b.drop_first());
        assert forall|j: int| 0 <= j < common_prefix_len(a, b) implies a[j] == b[j] by {
            if j > 0 {
                assert(a.drop_first()[j - 1] == b.drop_first()[j - 1]);
            }
        }
    }
}

/// Compares the reference text against the captured text byte for byte.
/// The verdict is `Pass` exactly when the two are identical; otherwise it
/// names the first diverging byte offset.
pub fn compare_bytes(expected: &Vec<u8>, actual: &Vec<u8>) -> (r: ComparisonResult)
    ensures
        r is Pass <==> expected@ == actual@,
        r matches ComparisonResult::Mismatch { offset } ==> offset == common_prefix_len(
            expected@,
            actual@,
        ),
{
    let n = if expected.len() < actual.len() {
        expected.len()
    } else {
        actual.len()
    };
    let mut i: usize = 0;
    while i < n
        invariant
            i <= n,
            n <= expected@.len(),
            n <= actual@.len(),
            n == expected@.len() || n == actual@.len(),
            forall|j: int| 0 <= j < i ==> expected@[j] == actual@[j],
        decreases n - i,
    {
        if expected[i] != actual[i] {
            proof {
                lemma_common_prefix_step(expected@, actual@, i as nat);
                lemma_common_prefix_stops(expected@, actual@);
            }
            return ComparisonResult::Mismatch { offset: i };
        }
        i = i + 1;
    }
    proof {
        lemma_common_prefix_step(expected@, actual@, n as nat);
        lemma_common_prefix_stops(expected@, actual@);
    }
    if expected.len() == actual.len() {
        proof {
            assert(expected@ =~= actual@);
        }
        ComparisonResult::Pass
    } else {
        ComparisonResult::Mismatch { offset: n }
    }
}

} // verus!
