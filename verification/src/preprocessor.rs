//! Frame sizing for the feature-extraction front end.
//!
//! The spectral pipeline itself (windowing, FFT, mel filtering, DCT) is
//! floating-point work done outside the verified core; only the discrete
//! frame-size computation lives here.

use vstd::arithmetic::power2::{lemma2_to64, pow2};
use vstd::prelude::*;

verus! {

/// The smallest power of two strictly greater than `num`: the number of
/// samples per analysis frame, rounded up from roughly 20 ms of audio.
pub fn get_next_power_of_2(num: usize) -> (result: usize)
    requires
        num <= usize::MAX / 2,
    ensures
        result > num,
        exists|e: nat|
            {
                &&& result == #[trigger] pow2(e)
                &&& (e == 0 || pow2((e - 1) as nat) <= num)
            },
{
    let mut base2: usize = 1;
    let ghost mut e: nat = 0;
    proof {
        lemma2_to64();
    }
    while base2 <= num
        invariant
            num <= usize::MAX / 2,
            base2 >= 1,
            base2 == pow2(e),
            e == 0 || pow2((e - 1) as nat) <= num,
        decreases 2 * num + 1 - base2,
    {
        base2 = base2 * 2;
        proof {
            assert(2 * pow2(e) == pow2(e + 1)) by {
                vstd::arithmetic::power2::lemma_pow2_unfold(e + 1);
            }
            e = e + 1;
        }
    }
    base2
}

} // verus!
