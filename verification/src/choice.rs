//! Weighted choice among the candidates of a symbol.
//!
//! A stochastic rule table holds, for each symbol that has a rule, a list of
//! candidates: replacements, each with a weight. Rewriting the symbol draws
//! one of them, with a chance in proportion to its weight.

use crate::derivation::{lemma_walk_resolved, walk};
use crate::rewriting::{expand, expand_resolving, lemma_expand_resolved, resolves_by};
use crate::rng::{
    choose_weighted, drawn_index, lemma_drawn_index, samplable, state_words, total_weight,
    weighted_draw, weights_of, SystemRng,
};
use crate::table::{keys_of, lemma_walked_keys, lookup, walked_keys};
use std::collections::HashMap;
use vstd::prelude::*;

verus! {

/// A list of candidates as mathematics: each replacement with its weight.
pub open spec fn candidates_model<T: View<V = Seq<char>>>(candidates: Seq<(T, u32)>) -> Seq<
    (Seq<char>, u32),
> {
    candidates.map_values(|candidate: (T, u32)| (candidate.0@, candidate.1))
}

/// The stochastic rule table that a map from symbols to candidates stands
/// for.
pub open spec fn choice_model<T: View<V = Seq<char>>>(table: Map<char, Vec<(T, u32)>>) -> Map<
    char,
    Seq<(Seq<char>, u32)>,
> {
    table.map_values(|candidates: Vec<(T, u32)>| candidates_model(candidates@))
}

/// The table that a list of stochastic rules builds up, a later rule for a
/// symbol replacing an earlier one.
pub open spec fn choice_table_of<T: View<V = Seq<char>>>(pairs: Seq<(char, Vec<(T, u32)>)>) -> Map<
    char,
    Seq<(Seq<char>, u32)>,
>
    decreases pairs.len(),
{
    if pairs.len() == 0 {
        Map::empty()
    } else {
        choice_table_of(pairs.drop_last()).insert(
            pairs.last().0,
            candidates_model(pairs.last().1@),
        )
    }
}

/// Every symbol with a rule has a candidate of positive weight to draw, and
/// the weights of its candidates can be added up.
pub open spec fn every_rule_samplable(rules: Map<char, Seq<(Seq<char>, u32)>>) -> bool {
    forall|symbol: char| #[trigger]
        rules.contains_key(symbol) ==> samplable(weights_of(rules[symbol]))
}

/// Every symbol of `word` that has a rule has a candidate to draw: one
/// round of rewriting of `word` can draw what it needs.
pub open spec fn word_samplable(rules: Map<char, Seq<(Seq<char>, u32)>>, word: Seq<char>) -> bool {
    forall|i: int|
        0 <= i < word.len() && rules.contains_key(#[trigger] word[i]) ==> samplable(
            weights_of(rules[word[i]]),
        )
}

/// The resolver of a stochastic grammar: a symbol with a rule is replaced by
/// the candidate that the generator draws, and the generator moves on. Where
/// the symbol has a candidate of positive weight, the replacement is one.
pub open spec fn by_draw(rules: Map<char, Seq<(Seq<char>, u32)>>) -> spec_fn(
    char,
    Seq<u64>,
) -> Option<(Seq<char>, Seq<u64>)> {
    |symbol: char, words: Seq<u64>|
        if rules.contains_key(symbol) {
            let weights = weights_of(rules[symbol]);
            Some((rules[symbol][drawn_index(words, weights)].0, weighted_draw(words, weights).1))
        } else {
            None
        }
}

/// Where a symbol's candidates can be drawn from, its replacement is one of
/// them, and one of positive weight, whatever the state of the generator.
pub proof fn lemma_replacement_is_candidate(
    rules: Map<char, Seq<(Seq<char>, u32)>>,
    symbol: char,
    words: Seq<u64>,
)
    requires
        rules.contains_key(symbol),
        samplable(weights_of(rules[symbol])),
    ensures
        by_draw(rules)(symbol, words) is Some,
        exists|i: int|
            0 <= i < rules[symbol].len() && (#[trigger] rules[symbol][i]).1 > 0 && (by_draw(rules)(
                symbol,
                words,
            )->0).0 == rules[symbol][i].0,
{
    let weights = weights_of(rules[symbol]);
    lemma_drawn_index(words, weights);
    let i = drawn_index(words, weights);
    assert(rules[symbol][i].1 == weights[i]);
}

/// Every symbol with a rule has one candidate, of positive weight.
pub open spec fn single_candidates(rules: Map<char, Seq<(Seq<char>, u32)>>) -> bool {
    forall|symbol: char| #[trigger]
        rules.contains_key(symbol) ==> rules[symbol].len() == 1 && rules[symbol][0].1 > 0
}

/// The deterministic table of the first candidates.
pub open spec fn first_candidates(rules: Map<char, Seq<(Seq<char>, u32)>>) -> Map<
    char,
    Seq<char>,
> {
    rules.map_values(|candidates: Seq<(Seq<char>, u32)>| candidates[0].0)
}

/// Where every symbol with a rule has one candidate, of positive weight,
/// nothing is left to chance: each symbol is replaced by its candidate,
/// whatever the generator draws.
pub proof fn lemma_single_candidates(rules: Map<char, Seq<(Seq<char>, u32)>>)
    requires
        single_candidates(rules),
    ensures
        resolves_by(by_draw(rules), first_candidates(rules)),
{
    let resolve = by_draw(rules);
    let table = first_candidates(rules);
    assert forall|symbol: char, words: Seq<u64>|
        match #[trigger] resolve(symbol, words) {
            Some((body, _)) => table.contains_key(symbol) && body == table[symbol],
            None => !table.contains_key(symbol),
        } by {
        if rules.contains_key(symbol) {
            let weights = weights_of(rules[symbol]);
            assert(weights.drop_last().len() == 0);
            assert(total_weight(weights.drop_last()) == 0);
            assert(total_weight(weights) == weights[0]);
            lemma_drawn_index(words, weights);
        }
    }
}

/// With one candidate for each symbol, of positive weight, eager expansion
/// gives the word of the deterministic system of these candidates, whatever
/// the generator draws.
pub proof fn lemma_single_candidates_expand(
    rules: Map<char, Seq<(Seq<char>, u32)>>,
    word: Seq<char>,
    depth: nat,
    words: Seq<u64>,
)
    requires
        single_candidates(rules),
    ensures
        expand_resolving(by_draw(rules), word, depth, words).0 == expand(
            first_candidates(rules),
            word,
            depth,
        ),
{
    lemma_single_candidates(rules);
    lemma_expand_resolved(by_draw(rules), first_candidates(rules), word, depth, words);
}

/// With one candidate for each symbol, of positive weight, the depth-first
/// walk gives the word of the deterministic system of these candidates,
/// whatever the generator draws.
pub proof fn lemma_single_candidates_walk(
    rules: Map<char, Seq<(Seq<char>, u32)>>,
    word: Seq<char>,
    level: nat,
    words: Seq<u64>,
)
    requires
        single_candidates(rules),
    ensures
        walk(by_draw(rules), word, level, words).word == expand(
            first_candidates(rules),
            word,
            level,
        ),
{
    lemma_single_candidates(rules);
    lemma_walk_resolved(by_draw(rules), first_candidates(rules), word, level, words);
}

/// The weights of a list of candidates are those of its model.
pub proof fn lemma_model_weights<T: View<V = Seq<char>>>(candidates: Seq<(T, u32)>)
    ensures
        weights_of(candidates_model(candidates)) == weights_of(candidates),
{
}

/// The weights of a shorter list add up to no more than those of the whole.
pub proof fn lemma_total_weight_grows(weights: Seq<u32>, shorter: int)
    requires
        0 <= shorter <= weights.len(),
    ensures
        total_weight(weights.take(shorter)) <= total_weight(weights),
    decreases weights.len() - shorter,
{
    if shorter < weights.len() {
        lemma_total_weight_grows(weights, shorter + 1);
        assert(weights.take(shorter + 1).drop_last() =~= weights.take(shorter));
    } else {
        assert(weights.take(shorter) =~= weights);
    }
}

/// Whether a draw among `candidates` is possible.
pub fn can_draw<T>(candidates: &Vec<(T, u32)>) -> (possible: bool)
    ensures
        possible == samplable(weights_of(candidates@)),
{
    let ghost weights = weights_of(candidates@);
    let mut total: u64 = 0;
    let mut i: usize = 0;
    while i < candidates.len()
        invariant
            i <= candidates.len(),
            weights == weights_of(candidates@),
            total == total_weight(weights.take(i as int)),
            total <= u32::MAX,
        decreases candidates.len() - i,
    {
        proof {
            assert(weights.take(i + 1).drop_last() =~= weights.take(i as int));
            lemma_total_weight_grows(weights, i + 1);
        }
        total = total + candidates[i].1 as u64;
        if total > u32::MAX as u64 {
            return false;
        }
        i = i + 1;
    }
    proof {
        assert(weights.take(i as int) =~= weights);
    }
    total > 0
}

/// Whether every symbol with a rule in `rules` has a candidate of positive
/// weight, and weights that add up to no more than `u32::MAX`.
pub fn every_rule_can_draw<T: View<V = Seq<char>>>(rules: &HashMap<char, Vec<(T, u32)>>) -> (ok:
    bool)
    ensures
        ok == every_rule_samplable(choice_model(rules@)),
{
    let ghost model = choice_model(rules@);
    let ghost keys = walked_keys(rules);
    let walk = keys_of(rules);
    proof {
        lemma_walked_keys(rules, walk);
    }
    for symbol in it: walk
        invariant
            model == choice_model(rules@),
            keys == walked_keys(rules),
            it.seq().unref() == keys,
            forall|symbol: char| rules@.contains_key(symbol) <==> keys.contains(symbol),
            forall|k: int| 0 <= k < it.index() ==> samplable(weights_of(model[#[trigger] keys[k]])),
    {
        assert(*symbol == keys[it.index() as int]);
        assert(keys.contains(*symbol));
        if let Some(candidates) = lookup(rules, *symbol) {
            proof {
                lemma_model_weights(candidates@);
            }
            if !can_draw(candidates) {
                assert(model.contains_key(*symbol));
                return false;
            }
        }
    }
    proof {
        assert forall|symbol: char| #[trigger] model.contains_key(symbol) implies samplable(
            weights_of(model[symbol]),
        ) by {
            assert(keys.contains(symbol));
        }
    }
    true
}

/// Looks `symbol` up in `rules` and, where it has candidates, draws one.
///
/// Returns `None`, and leaves the generator alone, where `symbol` has no
/// rule. A symbol whose rule has no candidate to draw is never passed
/// through as if it had no rule: the precondition rules it out, and a caller
/// that does not keep to it is stopped.
pub fn draw_rule<'a, T: View<V = Seq<char>>>(
    rules: &'a HashMap<char, Vec<(T, u32)>>,
    symbol: char,
    rng: &mut SystemRng,
) -> (chosen: Option<&'a T>)
    requires
        rules@.contains_key(symbol) ==> samplable(weights_of(rules@[symbol]@)),
    ensures
        match by_draw(choice_model(rules@))(symbol, state_words(*old(rng))) {
            Some((body, words)) => chosen is Some && chosen->0@ == body && state_words(
                *final(rng),
            ) == words,
            None => chosen is None && *final(rng) == *old(rng),
        },
        chosen is Some ==> exists|i: int|
            0 <= i < rules@[symbol]@.len() && (#[trigger] rules@[symbol]@[i]).1 > 0 && *chosen->0
                == rules@[symbol]@[i].0,
{
    match lookup(rules, symbol) {
        Some(candidates) => {
            proof {
                lemma_model_weights(candidates@);
            }
            match choose_weighted(rng, candidates) {
                Some(candidate) => Some(&candidate.0),
                None => unreached(),
            }
        },
        None => None,
    }
}

} // verus!
