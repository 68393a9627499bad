//! The random source the renderer draws from.
use vstd::prelude::*;
use rand::Rng;
use rand::rngs::ThreadRng;

verus! {

#[verifier::external_type_specification]
#[verifier::external_body]
pub struct ExThreadRng(ThreadRng);

/// Relies on `rand::Rng::gen_range`: the value is drawn from the half-open
/// range `lo..hi`, and the call panics only when that range is empty.
#[verifier::external_body]
pub(crate) fn gen_range(rng: &mut ThreadRng, lo: i64, hi: i64) -> (r: i64)
    requires
        lo < hi,
    ensures
        lo <= r < hi,
{
    rng.gen_range(lo..hi)
}

} // verus!
