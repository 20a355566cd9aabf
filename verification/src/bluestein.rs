//! Sizing of Bluestein's chirp-z transform.
use vstd::prelude::*;
use crate::factorization::next_power_of_two;
use crate::primes::{next_power_of_two_value, power_of_two, lemma_next_power_of_two};

verus! {

/// Bytes in one double-precision complex sample (two 8-byte floats).
pub const COMPLEX64_BYTES: usize = 16;

/// The convolution size `M = next_pow2(2n - 1)` of a Bluestein transform of
/// length `n`, and the bytes of its chirp cache (`M` double-precision complex
/// samples).
pub fn bluestein_memory_estimate(n: usize) -> (r: (usize, usize))
    requires
        1 <= n <= usize::MAX / 2,
        next_power_of_two_value((2 * n - 1) as nat) * COMPLEX64_BYTES <= usize::MAX,
    ensures
        r.0 == next_power_of_two_value((2 * n - 1) as nat),
        r.1 == r.0 * COMPLEX64_BYTES,
        2 * n - 1 <= usize::MAX / 2 + 1 ==> power_of_two(r.0 as nat) && 2 * n - 1 <= r.0 && r.0 / 2 < 2 * n - 1,
{
    let m = next_power_of_two(2 * n - 1);
    proof {
        lemma_next_power_of_two((2 * n - 1) as nat);
    }
    let bytes = m * COMPLEX64_BYTES;
    (m, bytes)
}

} // verus!
