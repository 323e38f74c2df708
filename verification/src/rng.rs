use vstd::prelude::*;

use rand::RngExt;

verus! {

/// Relies on rand's `random_range` over `min..=max`: the draw lies in
/// that (nonempty) range. Nothing more is assumed of a random value.
#[verifier::external_body]
pub fn random_int(min: i32, max: i32) -> (r: i32)
    requires
        min <= max,
    ensures
        min <= r <= max,
{
    let mut rng = rand::rng();
    rng.random_range(min..=max)
}

} // verus!
