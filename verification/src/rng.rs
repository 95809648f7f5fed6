use vstd::prelude::*;

verus! {

/// The pseudo-random generator of `frand`; Verus sees none of its state.
#[verifier::external_type_specification]
#[verifier::external_body]
pub struct ExRand(frand::Rand);

/// The generator `frand::Rand::with_seed` makes from a seed.
pub uninterp spec fn seeded_rand(seed: u64) -> frand::Rand;

/// The value `frand::Rand::gen_range` draws from the `u64` range `lo..hi`
/// with the generator `rng`, and the generator after the draw.
pub uninterp spec fn frand_u64_draw(rng: frand::Rand, lo: u64, hi: u64) -> (u64, frand::Rand);

/// The value `frand::Rand::gen_range` draws from the `i16` range `lo..hi`
/// with the generator `rng`, and the generator after the draw.
pub uninterp spec fn frand_i16_draw(rng: frand::Rand, lo: i16, hi: i16) -> (i16, frand::Rand);

/// Calls `frand::Rand::with_seed`, a `const fn` that hashes the seed into the
/// generator's only state, so the generator depends on the seed alone.
#[verifier::external_body]
pub(crate) fn rand_with_seed(seed: u64) -> (r: frand::Rand)
    ensures
        r == seeded_rand(seed),
{
    frand::Rand::with_seed(seed)
}

/// Calls `frand::Rand::gen_range` on the `u64` range `lo..hi`. frand 0.10
/// advances its one `u64` of state by a constant, hashes it into `random` and
/// returns `random % (hi - lo) + lo`: pure integer arithmetic on the state and
/// the bounds, so the value and the next state are named over them. On a
/// non-empty range the value lies in it; an empty range would divide by zero,
/// which `requires` rules out.
#[verifier::external_body]
pub(crate) fn rand_range_u64(rng: &mut frand::Rand, lo: u64, hi: u64) -> (r: u64)
    requires
        lo < hi,
    ensures
        lo <= r < hi,
        (r, *final(rng)) == frand_u64_draw(*old(rng), lo, hi),
{
    rng.gen_range(lo..hi)
}

/// Calls `frand::Rand::gen_range` on the `i16` range `lo..hi`. frand maps the
/// bounds to `u16`, draws `random % (hi - lo)` there from its state and adds
/// `lo` back, which for a non-empty range lands inside it; value and next
/// state depend on the state and the bounds alone, and are named over them.
/// `requires` keeps the range non-empty, as an empty one would divide by zero.
#[verifier::external_body]
pub(crate) fn rand_range_i16(rng: &mut frand::Rand, lo: i16, hi: i16) -> (r: i16)
    requires
        lo < hi,
    ensures
        lo <= r < hi,
        (r, *final(rng)) == frand_i16_draw(*old(rng), lo, hi),
{
    rng.gen_range(lo..hi)
}

} // verus!
