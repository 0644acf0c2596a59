//! The random source the generator draws from. The generator itself is
//! verified for every value a draw can return; only the draw is trusted.

use vstd::prelude::*;

verus! {

/// Declares rand's standard seedable generator so that it can stand in
/// signatures; a value of it is opaque to the verifier.
#[verifier::external_type_specification]
#[verifier::external_body]
pub struct ExStdRng(rand::rngs::StdRng);

/// Relies on rand::Rng::gen_range over the half-open range `0..n`: the draw
/// returns a value of that range, so the result is below `n`. The call
/// panics only on an empty range, which the precondition rules out.
#[verifier::external_body]
pub(crate) fn rand_below(rng: &mut rand::rngs::StdRng, n: usize) -> (r: usize)
    requires
        n >= 1,
    ensures
        r < n,
{
    rand::Rng::gen_range(rng, 0..n)
}

} // verus!
