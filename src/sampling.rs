//! The source of randomness.

use vstd::prelude::*;
use rand::Rng;

verus! {

/// Relies on `rand::thread_rng` and `Rng::gen_range`: a number drawn uniformly from
/// `0..bound`, which lies in that range (`gen_range` panics on an empty range, hence the
/// requirement).
#[verifier::external_body]
pub(crate) fn uniform_below(bound: u128) -> (r: u128)
    requires
        bound > 0,
    ensures
        r < bound,
{
    rand::thread_rng().gen_range(0..bound)
}

} // verus!
