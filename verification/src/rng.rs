//! The injected randomness source the mutation operators draw from.
//!
//! Operators take an explicit, seedable generator instead of ambient global
//! randomness, so callers (and tests) can fix sequences deterministically.
//! Nothing is assumed about which value a draw produces, only that it lies
//! in the requested range; every operator contract therefore holds for
//! every possible draw.

use vstd::prelude::*;

verus! {

/// rand's standard seedable generator, opaque to verification.
#[verifier::external_type_specification]
#[verifier::external_body]
pub struct ExStdRng(rand::rngs::StdRng);

/// Relies on rand's `Rng::gen_range` over `0..len`: it panics only on an
/// empty range and otherwise returns a value of that range.
#[verifier::external_body]
pub(crate) fn pick_index(rng: &mut rand::rngs::StdRng, len: usize) -> (i: usize)
    requires
        len >= 1,
    ensures
        i < len,
{
    rand::Rng::gen_range(rng, 0..len)
}

} // verus!
