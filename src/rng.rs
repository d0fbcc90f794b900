use vstd::prelude::*;
use rand::Rng;
use rand_xoshiro::Xoshiro256PlusPlus;

verus! {

/// The seeded generator that every random rule of the library draws from.
#[verifier::external_type_specification]
#[verifier::external_body]
pub struct ExXoshiro256PlusPlus(Xoshiro256PlusPlus);

/// Relies on `rand::Rng::gen_range` over `0..n`: a value in `[0, n)`.
/// `gen_range` panics on an empty range, hence `n > 0`.
#[verifier::external_body]
pub(crate) fn draw_below(rng: &mut Xoshiro256PlusPlus, n: usize) -> (r: usize)
    requires
        n > 0,
    ensures
        r < n,
{
    rng.gen_range(0..n)
}

/// Relies on `rand::Rng::gen::<bool>`: one fair coin.
#[verifier::external_body]
pub(crate) fn draw_bool(rng: &mut Xoshiro256PlusPlus) -> (r: bool) {
    rng.gen::<bool>()
}

} // verus!
