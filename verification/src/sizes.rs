//! The size matrix and the power-of-two rule that every size must obey.

use vstd::prelude::*;

verus! {

/// A configuration is rejected before any work is done on it.
#[derive(Clone, Copy, Debug, PartialEq, Eq, Structural)]
pub enum ConfigError {
    /// The requested signal length is not a power of two.
    NotPowerOfTwo,
    /// A signal handed over for fixture production does not have the
    /// requested length.
    WrongLength,
}

/// Whether `n` is a power of two (so in particular positive).
pub open spec fn is_pow2(n: nat) -> bool
    decreases n,
{
    if n == 0 {
        false
    } else if n == 1 {
        true
    } else {
        n % 2 == 0 && is_pow2(n / 2)
    }
}

/// Accepts exactly the powers of two; everything else is a configuration
/// error, raised before any fixture text is produced.
pub fn check_size(n: usize) -> (r: Result<(), ConfigError>)
    ensures
        r is Ok <==> is_pow2(n as nat),
        r is Err ==> r == Result::<(), ConfigError>::Err(ConfigError::NotPowerOfTwo),
{
    if n == 0 {
        return Err(ConfigError::NotPowerOfTwo);
    }
    let mut m: usize = n;
    while m > 1 && m % 2 == 0
        invariant
            1 <= m <= n,
            is_pow2(n as nat) <==> is_pow2(m as nat),
        decreases m,
    {
        m = m / 2;
    }
    if m == 1 {
        Ok(())
    } else {
        assert(!is_pow2(m as nat));
        Err(ConfigError::NotPowerOfTwo)
    }
}

/// The fixed, ordered size matrix that a run exercises.
pub open spec fn size_matrix() -> Seq<usize> {
    seq![4usize, 64usize, 256usize, 1024usize, 4096usize, 16384usize]
}

/// Every configured size is a power of two.
pub proof fn lemma_size_matrix_pow2()
    ensures
        forall|i: int| 0 <= i < size_matrix().len() ==> is_pow2(#[trigger] size_matrix()[i] as nat),
{
    reveal_with_fuel(is_pow2, 16);
    assert(is_pow2(4nat));
    assert(is_pow2(64nat));
    assert(is_pow2(256nat));
    assert(is_pow2(1024nat));
    assert(is_pow2(4096nat));
    assert(is_pow2(16384nat));
    assert forall|i: int| 0 <= i < size_matrix().len() implies is_pow2(
        #[trigger] size_matrix()[i] as nat,
    ) by {
        if i == 0 {
        } else if i == 1 {
        } else if i == 2 {
        } else if i == 3 {
        } else if i == 4 {
        } else {
            assert(i == 5);
        }
    }
}

/// The configured sizes, in the order in which a run visits them.
pub fn sizes() -> (r: Vec<usize>)
    ensures
        r@ == size_matrix(),
        forall|i: int| 0 <= i < r@.len() ==> is_pow2(#[trigger] r@[i] as nat),
{
    let mut v: Vec<usize> = Vec::new();
    v.push(4);
    v.push(64);
    v.push(256);
    v.push(1024);
    v.push(4096);
    v.push(16384);
    proof {
        assert(v@ =~= size_matrix());
        lemma_size_matrix_pow2();
    }
    v
}

} // verus!
