use vstd::prelude::*;

use rand::Rng;

verus! {

/// Relies on `rand::Rng::gen_range` over the range `0..n`: it returns a value
/// drawn from that range, and panics only when the range is empty, which the
/// precondition rules out.  Nothing is assumed about which value comes back,
/// so callers must be correct for every possible draw.
#[verifier::external_body]
pub(crate) fn random_below(n: usize) -> (r: usize)
    requires
        n >= 1,
    ensures
        r < n,
{
    rand::thread_rng().gen_range(0..n)
}

} // verus!
