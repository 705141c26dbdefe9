//! Calls into other crates and into parts of std that carry no specification
//! here. Each item below is believed as stated.
use vstd::prelude::*;
use crate::rules::{joined, sorted_digits};
use rand::rngs::SmallRng;
use rand::{Rng, SeedableRng};

verus! {

/// The small, fast generator of `rand`; opaque here.
#[verifier::external_type_specification]
#[verifier::external_body]
pub struct ExSmallRng(SmallRng);

/// Relies on `SeedableRng::from_seed` of `rand::rngs::SmallRng`, which builds a
/// generator from sixteen seed bytes and cannot fail.
#[verifier::external_body]
pub(crate) fn rng_from_seed(seed: [u8; 16]) -> SmallRng {
    SmallRng::from_seed(seed)
}

/// Relies on `Rng::gen_range` of `rand` 0.7: with `low < high` it returns a value
/// in `[low, high)`.
#[verifier::external_body]
pub(crate) fn random_digit(rng: &mut SmallRng) -> (r: u32)
    ensures
        r < 10,
{
    rng.gen_range(0u32, 10u32)
}

/// Relies on `slice::sort` of std: the same numbers, in ascending order (for
/// numbers there is exactly one such arrangement).
#[verifier::external_body]
pub(crate) fn sorted_copy(v: &Vec<u32>) -> (r: Vec<u32>)
    ensures
        r@ == sorted_digits(v@),
{
    let mut r = v.clone();
    r.sort();
    r
}

/// Relies on `itertools::join`: each number written with `Display` (decimal),
/// with `sep` between neighbours; an empty list gives an empty string.
#[verifier::external_body]
pub(crate) fn join_numbers(v: &Vec<u32>) -> (r: String)
    ensures
        r@ == joined(v@),
{
    itertools::join(v, "|")
}

} // verus!
