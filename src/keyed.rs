//! Keyed pseudorandom draws: ChaCha20 seeded from a 64-bit key.
//!
//! A generator seeded with the same key and asked for the same ranges in the
//! same order gives the same values, so each sequence below is named as a
//! function of the key and the ranges alone.
use rand::Rng;
use rand::SeedableRng;
use rand_chacha::ChaCha20Rng;
use vstd::prelude::*;

verus! {

/// The `len` values drawn, each from `0..=max`, by a ChaCha20 generator seeded with `key`.
pub uninterp spec fn chacha_bytes(key: u64, len: nat, max: u8) -> Seq<u8>;

/// The values drawn from `0..=n-1`, `0..=n-2`, ..., `0..=1`, in that order, by a
/// ChaCha20 generator seeded with `key`.
pub uninterp spec fn chacha_swap_draws(key: u64, n: nat) -> Seq<u64>;

/// Relies on `ChaCha20Rng::seed_from_u64` (rand_core's `SeedableRng`) and on
/// rand's `Rng::gen_range` over `0..=max`: `len` draws, each in range.
#[verifier::external_body]
pub(crate) fn keystream(key: u64, len: usize, max: u8) -> (r: Vec<u8>)
    ensures
        r@ == chacha_bytes(key, len as nat, max),
        r@.len() == len,
        forall|i: int| 0 <= i < len ==> r@[i] <= max,
{
    let mut rng = ChaCha20Rng::seed_from_u64(key);
    (0..len).map(|_| rng.gen_range(0..=max)).collect()
}

/// Relies on `ChaCha20Rng::seed_from_u64` (rand_core's `SeedableRng`) and on
/// rand's `Rng::gen_range` over `0..=i` for `i` from `n - 1` down to 1: one
/// draw per `i`, each in its range.
#[verifier::external_body]
pub(crate) fn swap_draws(key: u64, n: u64) -> (r: Vec<u64>)
    ensures
        r@ == chacha_swap_draws(key, n as nat),
        r@.len() == if n == 0 { 0 } else { n - 1 },
        forall|k: int| 0 <= k < r@.len() ==> r@[k] <= n - 1 - k,
{
    let mut rng = ChaCha20Rng::seed_from_u64(key);
    (1..n).rev().map(|i| rng.gen_range(0..=i)).collect()
}

} // verus!
