//! The explicit random source handed to the generator.
//!
//! Every random choice the generator makes draws from a caller-supplied
//! generator, so runs are reproducible under a fixed seed.

use vstd::prelude::*;

verus! {

/// Declares rand's seedable standard generator, so that values of it can
/// cross this library's signatures.
#[verifier::external_type_specification]
#[verifier::external_body]
pub struct ExStdRng(rand::rngs::StdRng);

/// Relies on rand's `Rng::gen_range` over the range `0..n`: the drawn value
/// is below `n`. The call panics only on an empty range, which the
/// precondition rules out.
#[verifier::external_body]
pub(crate) fn rng_below(rng: &mut rand::rngs::StdRng, n: usize) -> (r: usize)
    requires
        n >= 1,
    ensures
        r < n,
{
    rand::Rng::gen_range(rng, 0..n)
}

} // verus!
