use vstd::prelude::*;

verus! {

/// Relies on rand::Rng::gen_range with rand::thread_rng: a value drawn
/// uniformly from `lo..=hi`. It panics on an empty range, which `requires`
/// rules out.
#[verifier::external_body]
pub(crate) fn random_in(lo: u64, hi: u64) -> (r: u64)
    requires
        lo <= hi,
    ensures
        lo <= r <= hi,
{
    rand::Rng::gen_range(&mut rand::thread_rng(), lo..=hi)
}

} // verus!
