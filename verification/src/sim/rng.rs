//! The randomness the simulation draws on, from `rand` and `rand_pcg`.
//!
//! The generator is a permuted congruential generator, seeded once per map
//! and once per match. It is not chance: every draw is a function of the
//! generator's state and the draw's arguments, and so is the state it leaves.
//! `Pcg` carries that state as a mathematical value beside the generator, and
//! the functions below name each draw as a function of it.
use rand::{Rng, SeedableRng};
use rand_pcg::Mcg128Xsl64;
use vstd::prelude::*;

verus! {

/// The permuted congruential generator both the map and the match draw from.
#[verifier::external_type_specification]
#[verifier::external_body]
pub struct ExMcg128Xsl64(Mcg128Xsl64);

/// The state `SeedableRng::seed_from_u64` gives the generator for `seed`.
pub uninterp spec fn pcg_seed(seed: u64) -> int;

/// What `Rng::gen_ratio(numerator, denominator)` returns from state `state`,
/// and the state it leaves.
pub uninterp spec fn pcg_ratio(state: int, numerator: u32, denominator: u32) -> (bool, int);

/// What `Rng::gen_range(0..n)` over `u64` returns from state `state`, and the
/// state it leaves.
pub uninterp spec fn pcg_below(state: int, n: u64) -> (u64, int);

/// A generator together with its state as a value. Only the functions of
/// this module make one or draw from one.
pub struct Pcg {
    gen: Mcg128Xsl64,
    state: Ghost<int>,
}

impl View for Pcg {
    type V = int;

    closed spec fn view(&self) -> int {
        self.state@
    }
}

impl Clone for Pcg {
    /// `Clone::clone` of the generator, which `rand_pcg` derives: a copy of
    /// the state, so the copy continues the same stream.
    #[verifier::external_body]
    fn clone(&self) -> (c: Self)
        ensures
            c@ == self@,
    {
        Pcg { gen: self.gen.clone(), state: self.state }
    }
}

/// `SeedableRng::seed_from_u64`: a generator whose whole stream is fixed by
/// `seed`; its state is named `pcg_seed(seed)`.
#[verifier::external_body]
pub(crate) fn seeded(seed: u64) -> (g: Pcg)
    ensures
        g@ == pcg_seed(seed),
{
    Pcg { gen: Mcg128Xsl64::seed_from_u64(seed), state: Ghost(pcg_seed(seed)) }
}

/// `Rng::gen_ratio`: true with a chance of `numerator` in `denominator`.
/// The result and the next state are those `pcg_ratio` names; the source
/// makes it true when the two are equal and false when the numerator is 0.
/// It panics when the denominator is 0 or smaller than the numerator.
#[verifier::external_body]
pub(crate) fn roll_ratio(rng: &mut Pcg, numerator: u32, denominator: u32) -> (b: bool)
    requires
        0 < denominator,
        numerator <= denominator,
    ensures
        b == pcg_ratio(old(rng)@, numerator, denominator).0,
        final(rng)@ == pcg_ratio(old(rng)@, numerator, denominator).1,
        numerator == denominator ==> b,
        numerator == 0 ==> !b,
{
    rng.gen.gen_ratio(numerator, denominator)
}

/// `Rng::gen_range(0..n)` over `u64`: a value below `n`, which must not be 0.
/// The result and the next state are those `pcg_below` names. The draw is
/// taken at a fixed width, so it is the same on every machine; on a 64-bit
/// one it is the draw a `usize` range makes.
#[verifier::external_body]
pub(crate) fn roll_below(rng: &mut Pcg, n: u64) -> (i: u64)
    requires
        0 < n,
    ensures
        i == pcg_below(old(rng)@, n).0,
        final(rng)@ == pcg_below(old(rng)@, n).1,
        i < n,
{
    rng.gen.gen_range(0..n)
}

} // verus!
