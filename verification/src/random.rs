//! The random source maze generation draws from, and the few draws it makes.
//!
//! The generator is rand's xoshiro256++, which rand documents as reproducible
//! across releases and platforms: what a draw gives depends only on the seed
//! the generator was made from, the draws made of it before, and what this
//! draw asks for. [`Draws`] keeps that record beside the generator, and each
//! draw's result is named as a function of it, so the same seed gives the
//! same maze.

use rand::rngs::Xoshiro256PlusPlus;
use rand::seq::SliceRandom;
use rand::{RngExt, SeedableRng};
use vstd::prelude::*;

use crate::grid::Coord;

verus! {

/// rand's xoshiro256++ generator, carried inside [`Draws`].
#[verifier::external_type_specification]
#[verifier::external_body]
pub struct ExXoshiro256PlusPlus(Xoshiro256PlusPlus);

/// One draw made of the generator, by what it asked for.
#[derive(Clone, Copy, Debug, PartialEq, Eq, Structural)]
pub enum Draw {
    /// A value in `low..high`.
    Range(i32, i32),
    /// An index below a length.
    Index(usize),
    /// A shuffle of a list this long.
    Shuffle(usize),
}

/// The generator, with the seed it was made from and the draws made of it so
/// far. Only the draws below touch the generator, and each one records
/// itself.
pub struct Draws {
    rng: Xoshiro256PlusPlus,
    seed: Ghost<u64>,
    made: Ghost<Seq<Draw>>,
}

impl Draws {
    /// The seed the generator was made from.
    pub closed spec fn seed(&self) -> u64 {
        self.seed@
    }

    /// The draws made of the generator so far, oldest first.
    pub closed spec fn made(&self) -> Seq<Draw> {
        self.made@
    }
}

/// What `RngExt::random_range(low..high)` gives on an `i32` range, from a
/// xoshiro256++ generator seeded with `seed` after the draws `made`.
pub uninterp spec fn drawn_range(seed: u64, made: Seq<Draw>, low: i32, high: i32) -> i32;

/// What `RngExt::random_range(0..len)` gives on a `usize` range, from a
/// xoshiro256++ generator seeded with `seed` after the draws `made`.
pub uninterp spec fn drawn_index(seed: u64, made: Seq<Draw>, len: usize) -> usize;

/// The order `SliceRandom::shuffle` leaves `items` in, with a xoshiro256++
/// generator seeded with `seed` after the draws `made`.
pub uninterp spec fn shuffled(seed: u64, made: Seq<Draw>, items: Seq<Coord>) -> Seq<Coord>;

/// Calls `SeedableRng::seed_from_u64` for xoshiro256++: a generator whose
/// sequence is fixed by `seed`, with no draws made of it yet.
#[verifier::external_body]
pub(crate) fn seeded(seed: u64) -> (r: Draws)
    ensures
        r.seed() == seed,
        r.made() == Seq::<Draw>::empty(),
{
    Draws { rng: Xoshiro256PlusPlus::seed_from_u64(seed), seed: Ghost(seed), made: Ghost(Seq::empty()) }
}

/// Calls `RngExt::random_range` on the `i32` range `low..high`, which rand
/// documents as returning a value inside the half-open range and panicking
/// only when the range is empty (ruled out here). The value is the one the
/// seed and the earlier draws fix, and the draw is recorded.
#[verifier::external_body]
pub(crate) fn random_i32(rng: &mut Draws, low: i32, high: i32) -> (r: i32)
    requires
        low < high,
    ensures
        low <= r < high,
        r == drawn_range(old(rng).seed(), old(rng).made(), low, high),
        final(rng).seed() == old(rng).seed(),
        final(rng).made() == old(rng).made().push(Draw::Range(low, high)),
{
    rng.made = Ghost(rng.made@.push(Draw::Range(low, high)));
    rng.rng.random_range(low..high)
}

/// Calls `RngExt::random_range` on the `usize` range `0..len`: a value below
/// `len`. The range is non-empty, so the call does not panic. The value is
/// the one the seed and the earlier draws fix, and the draw is recorded.
#[verifier::external_body]
pub(crate) fn random_index(rng: &mut Draws, len: usize) -> (r: usize)
    requires
        0 < len,
    ensures
        r < len,
        r == drawn_index(old(rng).seed(), old(rng).made(), len),
        final(rng).seed() == old(rng).seed(),
        final(rng).made() == old(rng).made().push(Draw::Index(len)),
{
    rng.made = Ghost(rng.made@.push(Draw::Index(len)));
    rng.rng.random_range(0..len)
}

/// Calls `SliceRandom::shuffle`, which reorders the items in place: the same
/// items come out, each as often as it went in, in the order the seed and the
/// earlier draws fix. The draw is recorded.
#[verifier::external_body]
pub(crate) fn shuffle(items: &mut Vec<Coord>, rng: &mut Draws)
    ensures
        final(items)@.to_multiset() == old(items)@.to_multiset(),
        final(items)@ == shuffled(old(rng).seed(), old(rng).made(), old(items)@),
        final(rng).seed() == old(rng).seed(),
        final(rng).made() == old(rng).made().push(Draw::Shuffle(old(items)@.len() as usize)),
{
    rng.made = Ghost(rng.made@.push(Draw::Shuffle(items.len())));
    items.shuffle(&mut rng.rng)
}

} // verus!
