//! Reproducible random streams for the randomized searches.
//!
//! Each random start `i` of a search draws from its own generator, seeded by a
//! splitmix64 mix of the master seed and `i`, so what start `i` draws depends
//! on `(master_seed, i)` alone: never on the order in which starts run, nor on
//! how many threads run them.

use rand::seq::SliceRandom;
use rand::SeedableRng;
use rand_chacha::ChaCha8Rng;
use vstd::prelude::*;

use crate::order::{index_seq, indexes_into, lemma_rearranged_indices_are_permutation};

verus! {

/// `x · c` reduced modulo 2⁶⁴.
pub open spec fn mul_mod64(x: u64, c: u64) -> u64 {
    ((x as nat * c as nat) % 0x1_0000_0000_0000_0000) as u64
}

/// The splitmix64 mix of `master ^ index · γ` that seeds sub-stream `index`.
pub open spec fn substream_seed_of(master: u64, index: u64) -> u64 {
    let z0 = master ^ mul_mod64(index, 0x9E37_79B9_7F4A_7C15);
    let z1 = mul_mod64(z0 ^ (z0 >> 30u64), 0xBF58_476D_1CE4_E5B9);
    let z2 = mul_mod64(z1 ^ (z1 >> 27u64), 0x94D0_49BB_1331_11EB);
    z2 ^ (z2 >> 31u64)
}

/// The seed of sub-stream `index` under `master_seed`.
pub fn substream_seed(master_seed: u64, index: u64) -> (seed: u64)
    ensures
        seed == substream_seed_of(master_seed, index),
{
    let mut z = master_seed ^ index.wrapping_mul(0x9E37_79B9_7F4A_7C15);
    z = (z ^ (z >> 30u64)).wrapping_mul(0xBF58_476D_1CE4_E5B9);
    z = (z ^ (z >> 27u64)).wrapping_mul(0x94D0_49BB_1331_11EB);
    z ^ (z >> 31u64)
}

/// The indices that `rand::seq::index::sample(rng, length, amount)` returns
/// when `rng` is a `ChaCha8Rng` made by `seed_from_u64(seed)`.
pub uninterp spec fn chacha_index_sample(seed: u64, length: usize, amount: usize) -> Seq<usize>;

/// The order into which `SliceRandom::shuffle(items, rng)` puts `items` when
/// `rng` is a `ChaCha8Rng` made by `seed_from_u64(seed)`.
pub uninterp spec fn chacha_shuffle(seed: u64, items: Seq<usize>) -> Seq<usize>;

/// Calls `rand_chacha::ChaCha8Rng::seed_from_u64(seed)` and, with that
/// generator, `rand::seq::index::sample(rng, length, amount)`. Trusted: the
/// result is the named draw of `(seed, length, amount)` (both calls are
/// deterministic), and, as rand documents, exactly `amount` distinct indices
/// below `length`. `sample` panics when `amount > length`, and (in a debug
/// build) when `amount == length > u32::MAX`; `requires` rules both out.
#[verifier::external_body]
fn chacha_sample_indices(seed: u64, length: usize, amount: usize) -> (drawn: Vec<usize>)
    requires
        amount <= length,
        amount < length || length <= u32::MAX,
    ensures
        drawn@ == chacha_index_sample(seed, length, amount),
        drawn@.len() == amount,
        drawn@.no_duplicates(),
        indexes_into(drawn@, length as nat),
{
    let mut rng = ChaCha8Rng::seed_from_u64(seed);
    rand::seq::index::sample(&mut rng, length, amount).into_vec()
}

/// Calls `rand_chacha::ChaCha8Rng::seed_from_u64(seed)` and, with that
/// generator, `SliceRandom::shuffle` on `items`. Trusted: the result is the
/// named shuffle of `(seed, items)` (both calls are deterministic), and, as
/// rand documents, a rearrangement of `items` (same elements, same counts).
#[verifier::external_body]
fn chacha_shuffled(items: Vec<usize>, seed: u64) -> (shuffled: Vec<usize>)
    ensures
        shuffled@ == chacha_shuffle(seed, items@),
        shuffled@.to_multiset() == items@.to_multiset(),
{
    let mut items = items;
    let mut rng = ChaCha8Rng::seed_from_u64(seed);
    items.shuffle(&mut rng);
    items
}

/// The elemental subset of attempt `attempt` in a FAST resampling search over
/// `n` observations: `p` distinct observation indices drawn from the
/// attempt's own sub-stream.
pub fn elemental_subset(master_seed: u64, attempt: u64, n: usize, p: usize) -> (subset: Vec<usize>)
    requires
        p <= n,
        p < n || n <= u32::MAX,
    ensures
        subset@ == chacha_index_sample(substream_seed_of(master_seed, attempt), n, p),
        subset@.len() == p,
        subset@.no_duplicates(),
        indexes_into(subset@, n as nat),
{
    let seed = substream_seed(master_seed, attempt);
    chacha_sample_indices(seed, n, p)
}

/// The random visiting order of random start `start` over `n` observations:
/// all of `0..n`, shuffled with the start's own sub-stream.
pub fn start_order(master_seed: u64, start: u64, n: usize) -> (order: Vec<usize>)
    ensures
        order@ == chacha_shuffle(substream_seed_of(master_seed, start), index_seq(n as nat)),
        order@.len() == n,
        order@.no_duplicates(),
        indexes_into(order@, n as nat),
        forall|j: usize| j < n ==> #[trigger] order@.contains(j),
{
    let mut idx: Vec<usize> = Vec::new();
    let mut i: usize = 0;
    while i < n
        invariant
            i <= n,
            idx@ == index_seq(i as nat),
        decreases n - i,
    {
        idx.push(i);
        i = i + 1;
        proof {
            assert(idx@ =~= index_seq(i as nat));
        }
    }
    let seed = substream_seed(master_seed, start);
    let order = chacha_shuffled(idx, seed);
    proof {
        lemma_rearranged_indices_are_permutation(n as nat, order@);
    }
    order
}

} // verus!
