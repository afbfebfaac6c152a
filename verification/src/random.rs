use vstd::prelude::*;

verus! {

/// `rand::rngs::ThreadRng`, the handle on the thread-local generator; Verus
/// sees nothing inside it.
#[verifier::external_type_specification]
#[verifier::external_body]
pub struct ExThreadRng(rand::rngs::ThreadRng);

/// Calls `rand::thread_rng`, which hands out the thread's generator seeded
/// from the operating system. Nothing is claimed of the handle.
#[verifier::external_body]
pub(crate) fn thread_rng() -> rand::rngs::ThreadRng {
    rand::thread_rng()
}

/// Calls `rand::Rng::gen_range` on a `u32` range. Its documentation promises
/// a value in `[low, high)` and a panic when `low >= high`, so the range must
/// be non-empty; which value of the range comes out is left open, as it rests
/// on chance.
#[verifier::external_body]
pub(crate) fn gen_range_u32(rng: &mut rand::rngs::ThreadRng, low: u32, high: u32) -> (v: u32)
    requires
        low < high,
    ensures
        low <= v < high,
{
    rand::Rng::gen_range(rng, low, high)
}

} // verus!
