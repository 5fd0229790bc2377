//! The pseudorandom generator behind stochastic rewriting.
//!
//! The generator is `rand_xoshiro`'s xoshiro256++ and the weighted choice is
//! `rand`'s. Neither is verified here. The library treats the generator as a
//! deterministic machine: its state is four words, seeding fixes them, and a
//! weighted draw is a function of the state and the weights. The functions
//! of this module state that and nothing about which numbers come out.

use rand::seq::SliceRandom;
use rand::SeedableRng;
use rand_xoshiro::Xoshiro256PlusPlus;
use vstd::prelude::*;

verus! {

/// The generator that stochastic systems draw from.
pub type SystemRng = Xoshiro256PlusPlus;

/// `rand_xoshiro::Xoshiro256PlusPlus`, carried through as an opaque value.
#[verifier::external_type_specification]
#[verifier::external_body]
pub struct ExXoshiro256PlusPlus(Xoshiro256PlusPlus);

/// What a generator holds: its four state words.
pub uninterp spec fn state_words(generator: Xoshiro256PlusPlus) -> Seq<u64>;

/// The state words of the generator that `seed` gives.
pub uninterp spec fn seeded_words(seed: u64) -> Seq<u64>;

/// One weighted draw by a generator in state `words`: the index drawn among
/// `weights`, and the generator's state words afterwards.
pub uninterp spec fn weighted_draw(words: Seq<u64>, weights: Seq<u32>) -> (int, Seq<u64>);

/// A copy of a generator is in the state of the generator it was made from.
///
/// Trusted: this is the `Clone` that `rand_xoshiro` derives for
/// `Xoshiro256PlusPlus`, which copies the state words.
pub assume_specification[ <Xoshiro256PlusPlus as Clone>::clone ](
    generator: &Xoshiro256PlusPlus,
) -> (copy: Xoshiro256PlusPlus)
    ensures
        state_words(copy) == state_words(*generator),
;

/// The sum of `weights`.
pub open spec fn total_weight(weights: Seq<u32>) -> nat
    decreases weights.len(),
{
    if weights.len() == 0 {
        0
    } else {
        total_weight(weights.drop_last()) + weights.last() as nat
    }
}

/// The weights of a list of candidates, in order.
pub open spec fn weights_of<T>(candidates: Seq<(T, u32)>) -> Seq<u32> {
    candidates.map_values(|candidate: (T, u32)| candidate.1)
}

/// A draw among `weights` is possible: some weight is positive, and the sum
/// of all fits the weights' type.
pub open spec fn samplable(weights: Seq<u32>) -> bool {
    0 < total_weight(weights) <= u32::MAX
}

/// Weights that add up to more than nothing hold a positive weight.
pub proof fn lemma_positive_weight_exists(weights: Seq<u32>)
    requires
        total_weight(weights) > 0,
    ensures
        exists|i: int| 0 <= i < weights.len() && #[trigger] weights[i] > 0,
    decreases weights.len(),
{
    if weights.last() > 0 {
        assert(weights[weights.len() - 1] > 0);
    } else {
        lemma_positive_weight_exists(weights.drop_last());
        let i = choose|i: int|
            0 <= i < weights.drop_last().len() && #[trigger] weights.drop_last()[i] > 0;
        assert(weights[i] > 0);
    }
}

/// The index that a generator in state `words` draws among `weights`, read
/// so that it always names a positive weight where there is one: where the
/// named draw does, it is that index.
pub open spec fn drawn_index(words: Seq<u64>, weights: Seq<u32>) -> int {
    let drawn = weighted_draw(words, weights).0;
    if 0 <= drawn < weights.len() && weights[drawn] > 0 {
        drawn
    } else {
        choose|i: int| 0 <= i < weights.len() && #[trigger] weights[i] > 0
    }
}

/// Among weights that can be drawn from, the index drawn names a positive
/// weight.
pub proof fn lemma_drawn_index(words: Seq<u64>, weights: Seq<u32>)
    requires
        total_weight(weights) > 0,
    ensures
        0 <= drawn_index(words, weights) < weights.len(),
        weights[drawn_index(words, weights)] > 0,
{
    lemma_positive_weight_exists(weights);
}

/// A generator seeded with `seed`.
///
/// Trusted: this is `SeedableRng::seed_from_u64` of `Xoshiro256PlusPlus`. The
/// contract gives the resulting state a name and claims only that it is a
/// function of `seed`.
#[verifier::external_body]
pub(crate) fn seeded(seed: u64) -> (generator: SystemRng)
    ensures
        state_words(generator) == seeded_words(seed),
{
    SystemRng::seed_from_u64(seed)
}

/// A generator seeded from the operating system's entropy.
///
/// Trusted: this is `SeedableRng::from_entropy` of `Xoshiro256PlusPlus`.
/// Nothing is claimed of the generator that comes back. The call does not
/// return if the operating system has no entropy to give.
#[verifier::external_body]
pub(crate) fn from_entropy() -> (generator: SystemRng) {
    SystemRng::from_entropy()
}

/// Draws one of `candidates`, each with a chance in proportion to its weight.
///
/// Trusted: this is `SliceRandom::choose_weighted` of `rand`, with the
/// candidate's second field as its weight. As `rand` documents, the draw
/// fails if there is no candidate or if all weights are zero, and then the
/// generator is left alone; a candidate of weight zero is never drawn. Which
/// candidate is drawn, and the state that the generator is left in, are
/// named as a function of the generator's state and of the weights. Weights
/// whose sum does not fit in `u32` are ruled out, as `rand` adds them up in
/// that type.
#[verifier::external_body]
pub(crate) fn choose_weighted<'a, T>(
    generator: &mut SystemRng,
    candidates: &'a Vec<(T, u32)>,
) -> (chosen: Option<&'a (T, u32)>)
    requires
        total_weight(weights_of(candidates@)) <= u32::MAX,
    ensures
        chosen is Some <==> total_weight(weights_of(candidates@)) > 0,
        chosen is None ==> state_words(*final(generator)) == state_words(*old(generator)),
        chosen is Some ==> ({
            let draw = weighted_draw(state_words(*old(generator)), weights_of(candidates@));
            &&& 0 <= draw.0 < candidates@.len()
            &&& candidates@[draw.0].1 > 0
            &&& *chosen->0 == candidates@[draw.0]
            &&& state_words(*final(generator)) == draw.1
        }),
{
    candidates.choose_weighted(generator, |candidate| candidate.1).ok()
}

} // verus!
