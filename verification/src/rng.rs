//! The random source that the position hash table and the playouts draw from.

use vstd::prelude::*;
use rand::Rng;

verus! {

#[verifier::external_type_specification]
#[verifier::external_body]
pub struct ExThreadRng(rand::rngs::ThreadRng);

/// `rand::thread_rng`: the calling thread's generator. Nothing is claimed of it.
#[verifier::external_body]
pub(crate) fn thread_rng() -> rand::rngs::ThreadRng {
    rand::thread_rng()
}

/// `Rng::gen` at `u64`: some 64 bits. Nothing is claimed of the value.
#[verifier::external_body]
pub(crate) fn next_u64(rng: &mut rand::rngs::ThreadRng) -> u64 {
    rng.gen::<u64>()
}

/// `Rng::gen_range` on the half-open range from 0 to `n`: the value drawn lies
/// in that range. The range must not be empty, or the call panics.
#[verifier::external_body]
pub(crate) fn below(rng: &mut rand::rngs::ThreadRng, n: usize) -> (r: usize)
    requires
        n > 0,
    ensures
        r < n,
{
    rng.gen_range(0..n)
}

} // verus!
