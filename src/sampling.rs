//! Uniform random draws, made with `rand`.
use vstd::prelude::*;
use rand::Rng;
use rand::rngs::StdRng;

verus! {

#[verifier::external_type_specification]
#[verifier::external_body]
pub struct ExStdRng(StdRng);

/// Relies on `rand::Rng::gen_range(low, high)`, which returns a value in
/// `[low, high)` and panics when `low >= high`.
#[verifier::external_body]
pub(crate) fn draw_below(rng: &mut StdRng, n: usize) -> (r: usize)
    requires
        0 < n,
    ensures
        r < n,
{
    rng.gen_range(0, n)
}

} // verus!
