use rand::Rng;
use rand::SeedableRng;
use rand::seq::SliceRandom;
use rand_seeder::Seeder;
use vstd::prelude::*;

verus! {

/// The generator of `rand_pcg`, known there as `Pcg64`. Nothing of its state is visible here.
#[verifier::external_type_specification]
#[verifier::external_body]
pub struct ExLcg128Xsl64(rand_pcg::Lcg128Xsl64);

/// The generator that every simulation draws from.
pub type MyRng = rand_pcg::Lcg128Xsl64;

/// `rand_seeder::Seeder::from` followed by `Seeder::make_rng`: a generator whose stream is
/// fixed by the text of `seed`. Nothing is claimed of the generator.
#[verifier::external_body]
pub(crate) fn rng_from_seed(seed: &str) -> (rng: MyRng) {
    Seeder::from(seed).make_rng()
}

/// `rand::SeedableRng::from_entropy`: a generator seeded by the operating system. It fails
/// hard where the system cannot provide entropy. Nothing is claimed of the generator.
#[verifier::external_body]
pub(crate) fn rng_from_entropy() -> (rng: MyRng) {
    MyRng::from_entropy()
}

/// `rand::Rng::gen_range` on the half-open range from zero to `bound`: the draw lies in that
/// range. The range must not be empty.
#[verifier::external_body]
pub(crate) fn draw_below(rng: &mut MyRng, bound: u64) -> (r: u64)
    requires
        bound > 0,
    ensures
        r < bound,
{
    rng.gen_range(0..bound)
}

/// `rand::Rng::gen` for a `bool`. Nothing is claimed of the draw.
#[verifier::external_body]
pub(crate) fn draw_bool(rng: &mut MyRng) -> (r: bool) {
    rng.gen()
}

/// `rand::seq::SliceRandom::choose`: one of the items, or nothing where there are none.
#[verifier::external_body]
pub(crate) fn choose_one<T: Copy>(rng: &mut MyRng, items: &Vec<T>) -> (r: Option<T>)
    ensures
        match r {
            Some(item) => items@.contains(item),
            None => items@.len() == 0,
        },
{
    items.choose(rng).copied()
}

/// A generator fixed by `seed`, or one seeded by the operating system where no seed is given.
pub fn new_rng(seed: Option<&str>) -> (rng: MyRng) {
    match seed {
        Some(text) => rng_from_seed(text),
        None => rng_from_entropy(),
    }
}

} // verus!
