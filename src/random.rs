use vstd::prelude::*;
use rand::Rng;

verus! {

/// Relies on rand::Rng::gen_range over rand::thread_rng(): a value drawn from
/// `0..n`, which panics on an empty range.
#[verifier::external_body]
pub(crate) fn random_below(n: usize) -> (r: usize)
    requires
        n > 0,
    ensures
        r < n,
{
    rand::thread_rng().gen_range(0..n)
}

/// Relies on rand::Rng::gen_range over rand::thread_rng(): a value drawn from
/// `lo..=hi`, which panics on an empty range.
#[verifier::external_body]
pub(crate) fn random_between(lo: i32, hi: i32) -> (r: i32)
    requires
        lo <= hi,
    ensures
        lo <= r <= hi,
{
    rand::thread_rng().gen_range(lo..=hi)
}

} // verus!
