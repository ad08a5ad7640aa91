//! Random choice of a candidate, through rand's small seeded generator.
use vstd::prelude::*;
use rand::rngs::SmallRng;
use rand::{Rng, SeedableRng};
use crate::cell::{Cell, supported};
use crate::search::Choose;

verus! {

#[verifier::external_type_specification]
#[verifier::external_body]
pub struct ExSmallRng(SmallRng);

/// Relies on `rand::Rng::random_range` on `0..n`: a value below `n` (it
/// panics only on an empty range, which `n > 0` rules out).
#[verifier::external_body]
fn random_below(rng: &mut SmallRng, n: u32) -> (r: u32)
    requires
        n > 0,
    ensures
        r < n,
{
    rng.random_range(0..n)
}

/// Relies on `rand::SeedableRng::from_seed` for `SmallRng`: a generator
/// seeded with the 32 bytes given.
#[verifier::external_body]
fn small_rng_from_seed(seed: [u8; 32]) -> SmallRng {
    SmallRng::from_seed(seed)
}

/// The 32-byte seed whose first four bytes are `seed` in big-endian order,
/// the rest zero.
pub fn seed_block(seed: u32) -> (r: [u8; 32])
    ensures
        r@.len() == 32,
        r@[0] == (seed / 0x100_0000) as u8,
        r@[1] == ((seed / 0x1_0000) % 0x100) as u8,
        r@[2] == ((seed / 0x100) % 0x100) as u8,
        r@[3] == (seed % 0x100) as u8,
        forall|k: int| 4 <= k < 32 ==> r@[k] == 0,
{
    let mut block = [0u8; 32];
    block[0] = (seed / 0x100_0000) as u8;
    block[1] = ((seed / 0x1_0000) % 0x100) as u8;
    block[2] = ((seed / 0x100) % 0x100) as u8;
    block[3] = (seed % 0x100) as u8;
    block
}

/// The rank, counted from the lowest, of the candidate that a draw `k` of
/// `0..n` picks: `0` the lowest, `1` the highest, any other `k` rank `k - 1`.
/// Each rank of `0..n` comes from exactly one draw, so a uniform draw picks
/// each candidate with probability `1/n`.
pub fn rank_of_draw(n: u32, k: u32) -> (r: u32)
    requires
        k < n,
    ensures
        r < n,
        k == 0 ==> r == 0,
        k == 1 ==> r == n - 1,
        k >= 2 ==> r == k - 1,
        forall|j: u32| j < n && j != k ==> #[trigger] rank_spec(n, j) != r,
        r == rank_spec(n, k),
{
    if k == 0 {
        0
    } else if k == 1 {
        n - 1
    } else {
        k - 1
    }
}

/// The rank that draw `k` of `0..n` picks, as [`rank_of_draw`] computes it.
pub open spec fn rank_spec(n: u32, k: u32) -> u32 {
    if k == 0 {
        0
    } else if k == 1 {
        (n - 1) as u32
    } else {
        (k - 1) as u32
    }
}

impl<const N: usize> Cell<N> {
    /// A candidate drawn uniformly at random, or `None` when there is none.
    ///
    /// A draw `k` of `0..len` picks the lowest candidate for `0`, the highest
    /// for `1`, and the candidate of rank `k - 1` otherwise.
    pub fn get_random(self, rng: &mut SmallRng) -> (r: Option<u32>)
        ensures
            r is None <==> self.size() == 0,
            r matches Some(v) ==> v < 64 && self.has(v as int),
    {
        let n = self.len();
        if n == 0 {
            return None;
        }
        let k = if n == 1 {
            0
        } else {
            random_below(rng, n as u32)
        };
        self.nth(rank_of_draw(n as u32, k))
    }
}

/// Picks values uniformly at random, from a generator seeded for reproducibility.
pub struct ChooseAtRandom<const N: usize> {
    rng: SmallRng,
    /// The seed the generator was made from.
    seed: Ghost<u32>,
}

impl<const N: usize> ChooseAtRandom<N> {
    /// The seed the generator was made from.
    pub closed spec fn seed(&self) -> u32 {
        self.seed@
    }

    /// A chooser whose generator is seeded with `seed` (big-endian, in the
    /// first four bytes of the seed block).
    pub fn new(seed: u32) -> (r: Self)
        ensures
            r.seed() == seed,
    {
        ChooseAtRandom { rng: small_rng_from_seed(seed_block(seed)), seed: Ghost(seed) }
    }
}

impl<const N: usize> Choose<N> for ChooseAtRandom<N> {
    fn choose_value_in_cell(&mut self, cell: Cell<N>) -> (r: Option<u32>) {
        cell.get_random(&mut self.rng)
    }
}

} // verus!
