//! The random draws of reservoir sampling, from the `rand` crate's
//! xorshift generator.
use rand::{Rng, XorShiftRng};
use vstd::prelude::*;

verus! {

/// The xorshift generator of the `rand` crate.
#[verifier::external_type_specification]
#[verifier::external_body]
pub struct ExXorShiftRng(XorShiftRng);

/// `Rng::gen_range(low, high)` of the `rand` crate on `usize`: a value drawn
/// from `low` (included) to `high` (excluded). Which value comes out depends
/// on the generator's hidden state, so only its range is stated. The call
/// panics when `low >= high`, which `requires` leaves out.
#[verifier::external_body]
pub fn gen_range(rng: &mut XorShiftRng, low: usize, high: usize) -> (r: usize)
    requires
        low < high,
    ensures
        low <= r < high,
{
    rng.gen_range(low, high)
}

} // verus!
