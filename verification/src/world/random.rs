use vstd::prelude::*;

verus! {

/// `rand::random_range(0..n)`: some number below `n`, drawn from the thread
/// local generator; nothing more is said of which one.
#[verifier::external_body]
pub(crate) fn random_below(n: u128) -> (r: u128)
    requires
        n > 0,
    ensures
        r < n,
{
    rand::random_range(0..n)
}

} // verus!
