//! The random source threaded through generation and validation.

use vstd::prelude::*;
use rand::rngs::StdRng;
use rand::seq::SliceRandom;
use rand::{Rng, SeedableRng};
use crate::cell::Direction;

verus! {

#[verifier::external_type_specification]
#[verifier::external_body]
pub struct ExStdRng(StdRng);

/// Relies on rand's `SeedableRng::seed_from_u64`: a generator whose output is
/// fixed by the seed.
#[verifier::external_body]
pub(crate) fn seeded_rng(seed: u64) -> StdRng {
    StdRng::seed_from_u64(seed)
}

/// Relies on rand's `SeedableRng::try_from_os_rng`: a generator seeded from the
/// operating system, or `None` when the system has no entropy to give.
#[verifier::external_body]
pub(crate) fn entropy_rng() -> Option<StdRng> {
    StdRng::try_from_os_rng().ok()
}

/// Returns a generator seeded from the operating system, or by a fixed seed
/// when the system has none to give; for uses whose results do not depend on
/// the order drawn.
pub(crate) fn any_rng() -> StdRng {
    match entropy_rng() {
        Some(rng) => rng,
        None => seeded_rng(0),
    }
}

/// Relies on rand's `SliceRandom::shuffle`, which reorders the slice by swaps.
#[verifier::external_body]
pub(crate) fn shuffle<T>(items: &mut Vec<T>, rng: &mut StdRng)
    ensures
        final(items)@.to_multiset() == old(items)@.to_multiset(),
{
    items.shuffle(rng);
}

/// Relies on rand's `Rng::random_range` over `0..n`, which panics on an empty range.
#[verifier::external_body]
pub(crate) fn random_below(rng: &mut StdRng, n: usize) -> (r: usize)
    requires
        n > 0,
    ensures
        r < n,
{
    rng.random_range(0..n)
}

/// Relies on rand's `Rng::random::<bool>`: a fair coin.
#[verifier::external_body]
pub(crate) fn random_coin(rng: &mut StdRng) -> bool {
    rng.random::<bool>()
}

/// The four directions in the order north, south, west, east.
pub open spec fn direction_order() -> Seq<Direction> {
    seq![Direction::North, Direction::South, Direction::West, Direction::East]
}

/// Returns the four directions in a random order.
pub fn random_directions(rng: &mut StdRng) -> (r: [Direction; 4])
    ensures
        forall|d: Direction| r@.contains(d),
{
    let mut dirs = vec![Direction::North, Direction::South, Direction::West, Direction::East];
    proof {
        assert(dirs@ =~= direction_order());
    }
    let ghost before = dirs@;
    shuffle(&mut dirs, rng);
    proof {
        vstd::seq_lib::to_multiset_len(dirs@);
        vstd::seq_lib::to_multiset_len(before);
    }
    proof {
        assert forall|d: Direction| dirs@.contains(d) by {
            let k: int = match d {
                Direction::North => 0,
                Direction::South => 1,
                Direction::West => 2,
                Direction::East => 3,
            };
            assert(direction_order()[k] == d);
            assert(before.contains(d));
            vstd::seq_lib::to_multiset_contains(before, d);
            vstd::seq_lib::to_multiset_contains(dirs@, d);
        }
    }
    let r = [dirs[0], dirs[1], dirs[2], dirs[3]];
    proof {
        assert(r@ =~= dirs@);
    }
    r
}

} // verus!
