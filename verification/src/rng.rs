use vstd::prelude::*;
use rand::RngExt;

verus! {

/// Relies on rand::Rng::random_range over `0..n`: for a non-empty range it
/// returns a value inside the range. Nothing more is assumed of the draw.
#[verifier::external_body]
pub fn rand_below(n: usize) -> (r: usize)
    requires
        n > 0,
    ensures
        r < n,
{
    rand::rng().random_range(0..n)
}

} // verus!
