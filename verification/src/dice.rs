//! Chance: the round's one stream of random numbers.
//!
//! A round is replayable from its seed because every roll comes out of one
//! generator in one order. What a roll gives is never promised beyond its
//! range. Where a contract speaks of the generator, it says when no roll is
//! made, as equality of the generator before and after.

use rand::{RngExt, SeedableRng};
use vstd::prelude::*;

verus! {

/// The generator a round draws from, opaque here.
#[verifier::external_type_specification]
#[verifier::external_body]
pub struct ExSmallRng(rand::rngs::SmallRng);

/// A chance, opaque here: a coin with a fixed bias.
#[verifier::external_type_specification]
#[verifier::external_body]
pub struct ExBernoulli(rand::distr::Bernoulli);

/// A seed nobody chose, from `rand::rng().random()`. Nothing is promised of
/// it. The call panics if the operating system has no randomness to give.
#[verifier::external_body]
fn any_seed() -> (seed: u64) {
    rand::rng().random()
}

/// A generator started from a seed, by `SmallRng::seed_from_u64`. The stream
/// that follows from a seed is not promised to be the same on every machine,
/// so nothing is said of it.
#[verifier::external_body]
fn seeded(seed: u64) -> (rng: rand::rngs::SmallRng) {
    rand::rngs::SmallRng::seed_from_u64(seed)
}

/// One of `n` things, by `RngExt::random_range` over `0..n`, which panics on
/// an empty range. The result lies in the range; the generator moves on.
#[verifier::external_body]
fn below(rng: &mut rand::rngs::SmallRng, n: usize) -> (pick: usize)
    requires
        n > 0,
    ensures
        pick < n,
{
    rng.random_range(0..n)
}

/// One of `n` sprite rows, by `RngExt::random_range` over `0..n`, which panics
/// on an empty range. The result lies in the range; the generator moves on.
#[verifier::external_body]
fn row_below(rng: &mut rand::rngs::SmallRng, n: i32) -> (row: i32)
    requires
        n > 0,
    ensures
        0 <= row < n,
{
    rng.random_range(0..n)
}

/// A biased coin, by `RngExt::sample` of a `Bernoulli`. Either side may come
/// up; the generator moves on.
#[verifier::external_body]
pub(crate) fn toss(rng: &mut rand::rngs::SmallRng, odds: &rand::distr::Bernoulli) -> (heads: bool) {
    rng.sample(*odds)
}

/// The seed a round runs with: the pinned one, else one nobody chose.
pub fn choose_seed(pinned: Option<u64>) -> (seed: u64)
    ensures
        pinned matches Some(s) ==> seed == s,
{
    match pinned {
        Some(s) => s,
        None => any_seed(),
    }
}

/// The stream a seed starts.
pub fn round_stream(seed: u64) -> (rng: rand::rngs::SmallRng) {
    seeded(seed)
}

/// Pick a position in a list of `n`, drawing nothing when there is none.
pub fn pick_index(rng: &mut rand::rngs::SmallRng, n: usize) -> (pick: Option<usize>)
    ensures
        n == 0 ==> pick is None && *final(rng) == *old(rng),
        n > 0 ==> (pick matches Some(i) && i < n),
{
    if n == 0 {
        None
    } else {
        Some(below(rng, n))
    }
}

/// Pick a sprite row among `n`.
pub fn pick_row(rng: &mut rand::rngs::SmallRng, n: i32) -> (row: i32)
    requires
        n > 0,
    ensures
        0 <= row < n,
{
    row_below(rng, n)
}

/// A number from `low` to `high`, both counted. The range must not be empty.
pub fn roll_between(rng: &mut rand::rngs::SmallRng, low: usize, high: usize) -> (roll: usize)
    requires
        low <= high,
        high - low < usize::MAX,
    ensures
        low <= roll <= high,
{
    low + below(rng, high - low + 1)
}

/// How often something happens.
pub enum Odds {
    Never,
    Sometimes(rand::distr::Bernoulli),
    Always,
}

/// Whether something with these odds happens. Only open odds draw.
pub fn chance(rng: &mut rand::rngs::SmallRng, odds: &Odds) -> (r: bool)
    ensures
        odds is Never ==> !r && *final(rng) == *old(rng),
        odds is Always ==> r && *final(rng) == *old(rng),
{
    match odds {
        Odds::Never => false,
        Odds::Sometimes(odds) => toss(rng, odds),
        Odds::Always => true,
    }
}

} // verus!
