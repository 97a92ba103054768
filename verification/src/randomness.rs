//! The random source of the generator: `rand`'s seedable standard generator.
//!
//! A generator is seen as the endless stream of 32-bit words that it has still
//! to hand out. What a draw returns, and which words it leaves, depends on that
//! stream and on the arguments of the draw alone.
use rand::rngs::StdRng;
use rand::seq::SliceRandom;
use rand::{Rng, SeedableRng};
use vstd::prelude::*;

verus! {

/// `rand::rngs::StdRng`, a deterministic pseudo-random generator.
#[verifier::external_type_specification]
#[verifier::external_body]
pub struct ExStdRng(rand::rngs::StdRng);

/// The words that a generator has still to hand out, by position.
pub uninterp spec fn rng_words(rng: StdRng) -> Map<nat, u32>;

/// The words of a generator that `StdRng::seed_from_u64` makes from `seed`.
pub uninterp spec fn seed_words(seed: u64) -> Map<nat, u32>;

/// What `Rng::gen_range` draws from `lo..hi` off the stream `words`, on a machine
/// whose `usize` has `usize_bits` bits, and the words that are left after it.
pub uninterp spec fn range_draw(
    words: Map<nat, u32>,
    lo: usize,
    hi: usize,
    usize_bits: u32,
) -> (usize, Map<nat, u32>);

/// How `SliceRandom::shuffle` rearranges `len` items off the stream `words`: the
/// former position of the item at each position, and the words left after it.
pub uninterp spec fn shuffle_order(words: Map<nat, u32>, len: nat) -> (Seq<int>, Map<nat, u32>);

/// `after` holds the items of `before`, each once, with the item of position
/// `order[k]` moved to position `k`.
pub open spec fn rearranged(before: Seq<String>, after: Seq<String>, order: Seq<int>) -> bool {
    &&& order.len() == before.len()
    &&& order.no_duplicates()
    &&& forall|k: int| 0 <= k < order.len() ==> 0 <= #[trigger] order[k] < before.len()
    &&& after == order.map_values(|k: int| before[k])
}

/// `StdRng::seed_from_u64`: the stream of the new generator is a function of
/// the seed.
#[verifier::external_body]
pub(crate) fn seeded_rng(seed: u64) -> (rng: StdRng)
    ensures
        rng_words(rng) == seed_words(seed),
{
    StdRng::seed_from_u64(seed)
}

/// `StdRng::from_entropy`: a generator seeded by the operating system. Nothing
/// is known of its stream. It panics where the system has no entropy to give.
#[verifier::external_body]
pub(crate) fn entropy_rng() -> (rng: StdRng) {
    StdRng::from_entropy()
}

/// `Rng::gen_range` on the half-open range `lo..hi`: a number in the range, which
/// depends on the generator's stream, the range and the width of `usize`. It
/// panics on an empty range.
#[verifier::external_body]
pub(crate) fn draw(rng: &mut StdRng, lo: usize, hi: usize) -> (r: usize)
    requires
        lo < hi,
    ensures
        lo <= r < hi,
        (r, rng_words(*final(rng))) == range_draw(rng_words(*old(rng)), lo, hi, usize::BITS),
{
    rng.gen_range(lo..hi)
}

/// `SliceRandom::shuffle`: rearranges the items by a permutation that depends on
/// the generator's stream and the number of items.
#[verifier::external_body]
pub(crate) fn shuffle(items: &mut Vec<String>, rng: &mut StdRng)
    ensures
        rearranged(
            old(items)@,
            final(items)@,
            shuffle_order(rng_words(*old(rng)), old(items)@.len()).0,
        ),
        rng_words(*final(rng)) == shuffle_order(rng_words(*old(rng)), old(items)@.len()).1,
{
    items.shuffle(rng)
}

} // verus!
