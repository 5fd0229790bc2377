//! Stochastic L-systems: a symbol may have several replacements, each with a
//! weight, and one of them is drawn whenever the symbol is rewritten.

use crate::choice::{
    by_draw, candidates_model, choice_model, choice_table_of, draw_rule, every_rule_can_draw,
    every_rule_samplable, first_candidates, lemma_model_weights, lemma_single_candidates_expand,
    lemma_single_candidates_walk, single_candidates,
};
use crate::derivation::{
    lemma_pending_descend, lemma_pending_emit, lemma_pending_skip, lemma_walk_level_zero,
    pending, walk, Derivation,
};
use crate::eager::expand_text_drawing;
use crate::layers::{Frontier, LayerStack, Pull};
use crate::rewriting::{expand, expand_resolving, lemma_expand_resolving_zero};
use crate::rng::{
    from_entropy, samplable, seeded, seeded_words, state_words, weights_of, SystemRng,
};
use crate::table::store;
use std::collections::HashMap;
use vstd::prelude::*;

verus! {

/// The basic description of a stochastic L-system. Used to generate or
/// iterate over its words.
///
/// A weight is a whole number. The chance of a candidate is its weight's
/// share of the sum of the weights of all candidates of its symbol.
///
/// Using the same seed for [`LSystemStochastic::builder`] and
/// [`LSystemStochastic::string`] does not give the same word: the two meet
/// the symbols, and so draw, in different orders.
#[derive(Debug, Clone)]
pub struct LSystemStochastic {
    /// The axiom: the word before any rewriting.
    pub initiator: String,
    /// The candidates of each symbol that has a rule, each with its weight.
    pub rules: HashMap<char, Vec<(String, u32)>>,
}

impl LSystemStochastic {
    /// The rule table as a map from symbols to weighted candidates.
    pub open spec fn model(&self) -> Map<char, Seq<(Seq<char>, u32)>> {
        choice_model(self.rules@)
    }

    /// Every symbol with a rule has a candidate of positive weight, and the
    /// weights of its candidates add up to no more than `u32::MAX`.
    pub open spec fn well_formed(&self) -> bool {
        every_rule_samplable(self.model())
    }

    /// The word that `depth` rounds of rewriting make of the axiom, each
    /// round done in full before the next, when the generator starts in the
    /// state `words`.
    pub open spec fn eager_word(&self, depth: nat, words: Seq<u64>) -> Seq<char> {
        expand_resolving(by_draw(self.model()), self.initiator@, depth, words).0
    }

    /// The word that a depth-first walk to `depth` makes of the axiom when
    /// the generator starts in the state `words`.
    pub open spec fn lazy_word(&self, depth: nat, words: Seq<u64>) -> Seq<char> {
        walk(by_draw(self.model()), self.initiator@, depth, words).word
    }

    /// Seeded runs can be repeated: two systems with the same axiom and the
    /// same rules, expanded to the same depth with the same seed, give the
    /// same word. This holds of eager and of lazy expansion, each compared
    /// with itself.
    pub proof fn lemma_seeded_runs_agree(&self, other: &LSystemStochastic, depth: nat, seed: u64)
        requires
            self.initiator@ == other.initiator@,
            self.model() == other.model(),
        ensures
            self.eager_word(depth, seeded_words(seed)) == other.eager_word(
                depth,
                seeded_words(seed),
            ),
            self.lazy_word(depth, seeded_words(seed)) == other.lazy_word(
                depth,
                seeded_words(seed),
            ),
    {
    }

    /// Where every symbol with a rule has one candidate, of positive weight,
    /// the system is a deterministic one: eager and lazy expansion both give
    /// the word that rewriting by these candidates gives, whatever the seed
    /// and whatever the generator draws.
    pub proof fn lemma_single_candidates(&self, depth: nat, words: Seq<u64>)
        requires
            single_candidates(self.model()),
        ensures
            self.eager_word(depth, words) == expand(
                first_candidates(self.model()),
                self.initiator@,
                depth,
            ),
            self.lazy_word(depth, words) == expand(
                first_candidates(self.model()),
                self.initiator@,
                depth,
            ),
    {
        lemma_single_candidates_expand(self.model(), self.initiator@, depth, words);
        lemma_single_candidates_walk(self.model(), self.initiator@, depth, words);
    }

    /// At depth 0 both expansions give the axiom unchanged, whatever the
    /// state of the generator and whatever the rules, drawable or not.
    pub proof fn lemma_depth_zero(&self, words: Seq<u64>)
        ensures
            self.eager_word(0, words) == self.initiator@,
            self.lazy_word(0, words) == self.initiator@,
    {
        lemma_expand_resolving_zero(by_draw(self.model()), self.initiator@, words);
        lemma_walk_level_zero(by_draw(self.model()), self.initiator@, words);
    }

    /// A system with the given axiom and rules. Where `rules` names a symbol
    /// more than once, its last rule counts.
    pub fn new(initiator: String, rules: &[(char, Vec<(&str, u32)>)]) -> (system:
        LSystemStochastic)
        ensures
            system.initiator == initiator,
            system.model() == choice_table_of(rules@),
    {
        let mut map: HashMap<char, Vec<(String, u32)>> = HashMap::with_capacity(rules.len());
        let mut i: usize = 0;
        while i < rules.len()
            invariant
                i <= rules.len(),
                choice_model(map@) == choice_table_of(rules@.take(i as int)),
            decreases rules.len() - i,
        {
            let given = &rules[i].1;
            let mut candidates: Vec<(String, u32)> = Vec::new();
            let mut j: usize = 0;
            while j < given.len()
                invariant
                    j <= given.len(),
                    candidates_model(candidates@) == candidates_model(given@.take(j as int)),
                decreases given.len() - j,
            {
                let ghost copied = candidates@;
                let text = given[j].0.to_owned();
                candidates.push((text, given[j].1));
                proof {
                    let read = candidates_model(given@.take(j as int));
                    assert(candidates_model(copied).len() == read.len());
                    assert forall|k: int| 0 <= k < j + 1 implies candidates_model(candidates@)[k]
                        == candidates_model(given@.take(j + 1))[k] by {
                        if k < j {
                            assert(candidates_model(copied)[k] == read[k]);
                        }
                    }
                }
                j = j + 1;
            }
            store(&mut map, rules[i].0, candidates);
            proof {
                assert(given@.take(given.len() as int) =~= given@);
                assert(rules@.take(i + 1).drop_last() =~= rules@.take(i as int));
            }
            i = i + 1;
        }
        proof {
            assert(rules@.take(rules.len() as int) =~= rules@);
        }
        LSystemStochastic { initiator, rules: map }
    }

    /// Whether every symbol with a rule has a candidate of positive weight,
    /// and weights that add up to no more than `u32::MAX`.
    pub fn is_well_formed(&self) -> (ok: bool)
        ensures
            ok == self.well_formed(),
    {
        every_rule_can_draw(&self.rules)
    }

    /// Return a rewrite rule drawn for a given character, or `None` if the
    /// character is a terminal.
    pub fn get(&self, c: &char, rng: &mut SystemRng) -> (rule: Option<&String>)
        requires
            self.model().contains_key(*c) ==> samplable(weights_of(self.model()[*c])),
        ensures
            match by_draw(self.model())(*c, state_words(*old(rng))) {
                Some((body, words)) => rule is Some && rule->0@ == body && state_words(
                    *final(rng),
                ) == words,
                None => rule is None && *final(rng) == *old(rng),
            },
            rule is Some ==> exists|i: int|
                0 <= i < self.rules@[*c]@.len() && (#[trigger] self.rules@[*c]@[i]).1 > 0
                    && *rule->0 == self.rules@[*c]@[i].0,
    {
        proof {
            if self.rules@.contains_key(*c) {
                lemma_model_weights(self.rules@[*c]@);
            }
        }
        draw_rule(&self.rules, *c, rng)
    }

    /// Construct a memory efficient iterator over the L-system at a given
    /// depth. With a seed the iterator hands out the same word every time;
    /// without one it is seeded from the operating system. Nothing is drawn
    /// and no rule is looked at yet.
    pub fn builder(&self, depth: usize, seed: Option<u64>) -> (builder: LSystemBuilderStochastic<
        '_,
    >)
        requires
            depth < usize::MAX,
        ensures
            builder.wf(),
            builder.system() == self,
            builder.spec_depth() == depth,
            builder.frontier() == Frontier::fresh(self.initiator@, depth as nat),
            builder@ == self.lazy_word(depth as nat, builder.generator_words()),
            seed is Some ==> builder.generator_words() == seeded_words(seed->0),
    {
        LSystemBuilderStochastic::new(self, depth, seed)
    }

    /// Write the L-system, at the given depth, to a `String`, drawing from
    /// `rng`.
    pub fn string_with(&self, depth: usize, rng: &mut SystemRng) -> (out: String)
        requires
            depth > 0 ==> self.well_formed(),
        ensures
            (out@, state_words(*final(rng))) == expand_resolving(
                by_draw(self.model()),
                self.initiator@,
                depth as nat,
                state_words(*old(rng)),
            ),
    {
        expand_text_drawing(self.initiator.as_str(), &self.rules, depth, rng)
    }

    /// Write the L-system, at the given depth, to a `String`. This is faster
    /// than using the builder but may result in a very large allocation.
    /// With a seed the word is the same every time; without one the
    /// generator is seeded from the operating system.
    pub fn string(&self, depth: usize, seed: Option<u64>) -> (out: String)
        requires
            depth > 0 ==> self.well_formed(),
        ensures
            match seed {
                Some(n) => out@ == self.eager_word(depth as nat, seeded_words(n)),
                None => exists|words: Seq<u64>| out@ == #[trigger] self.eager_word(
                    depth as nat,
                    words,
                ),
            },
    {
        let mut rng = match seed {
            Some(n) => seeded(n),
            None => from_entropy(),
        };
        let ghost start = state_words(rng);
        let out = self.string_with(depth, &mut rng);
        proof {
            assert(out@ == self.eager_word(depth as nat, start));
        }
        out
    }
}

/// Lazy expansion of a stochastic L-system: hands out a word of the system
/// one symbol at a time, drawing each replacement when the walk reaches its
/// symbol, and holding one cursor per level of depth and no rewritten text.
#[derive(Debug)]
pub struct LSystemBuilderStochastic<'a> {
    system: &'a LSystemStochastic,
    stack: LayerStack<'a>,
    rng: SystemRng,
}

impl<'a> View for LSystemBuilderStochastic<'a> {
    type V = Seq<char>;

    /// The symbols that are still to come.
    closed spec fn view(&self) -> Seq<char> {
        pending(by_draw(self.system.model()), self.stack@.layers, 0, state_words(self.rng)).word
    }
}

impl<'a> Clone for LSystemBuilderStochastic<'a> {
    /// A builder over the same system, with a generator in the same state,
    /// that has the same symbols to come.
    fn clone(&self) -> (copy: Self)
        ensures
            copy@ == self@,
            copy.wf() == self.wf(),
            copy.system() == self.system(),
            copy.spec_depth() == self.spec_depth(),
            copy.frontier() == self.frontier(),
            copy.generator_words() == self.generator_words(),
            copy.words_at_next() == self.words_at_next(),
    {
        LSystemBuilderStochastic {
            system: self.system,
            stack: self.stack.clone(),
            rng: self.rng.clone(),
        }
    }
}

impl<'a> LSystemBuilderStochastic<'a> {
    /// The builder's layers are consistent.
    pub closed spec fn wf(&self) -> bool {
        self.stack.wf()
    }

    /// The system that the builder reads.
    pub closed spec fn system(&self) -> &'a LSystemStochastic {
        self.system
    }

    /// The depth that the builder expands to.
    pub closed spec fn spec_depth(&self) -> nat {
        self.stack.spec_depth()
    }

    /// The builder's layers and its pointer to the layer being drained.
    pub closed spec fn frontier(&self) -> Frontier {
        self.stack@
    }

    /// The number of cursors that the builder holds.
    pub open spec fn layer_count(&self) -> nat {
        self.frontier().layers.len()
    }

    /// The state words of the builder's generator.
    pub closed spec fn generator_words(&self) -> Seq<u64> {
        state_words(self.rng)
    }

    /// The state words that the generator will have when the next symbol
    /// comes out; where none is to come, when the builder finds that out.
    pub closed spec fn words_at_next(&self) -> Seq<u64> {
        pending(
            by_draw(self.system.model()),
            self.stack@.layers,
            0,
            state_words(self.rng),
        ).at_first
    }

    /// How many symbols the builder has yet to replace before it is done.
    pub closed spec fn replacements_left(&self) -> nat {
        pending(
            by_draw(self.system.model()),
            self.stack@.layers,
            0,
            state_words(self.rng),
        ).replaced
    }

    /// A builder's cursors are as many as its depth and one more, whatever
    /// it has handed out.
    pub proof fn lemma_layer_count(&self)
        requires
            self.wf(),
        ensures
            self.layer_count() == self.spec_depth() + 1,
    {
        self.stack.lemma_wf();
    }

    /// What a builder's layers and pointer are like, and what it has to
    /// come in terms of them and of its generator: the pointer is in range,
    /// the layers below it are drained, and the symbols to come are those of
    /// the depth-first walk of the layers, each at its own level.
    pub proof fn lemma_frontier(&self)
        requires
            self.wf(),
        ensures
            self.frontier().wf(),
            self.layer_count() == self.spec_depth() + 1,
            self@ == pending(
                by_draw(self.system().model()),
                self.frontier().layers,
                0,
                self.generator_words(),
            ).word,
            self.words_at_next() == pending(
                by_draw(self.system().model()),
                self.frontier().layers,
                0,
                self.generator_words(),
            ).at_first,
    {
        self.stack.lemma_wf();
    }

    /// A builder of depth 0 draws nothing: what it has to come is what is
    /// left of the axiom, and its generator stays as it is.
    pub proof fn lemma_depth_zero_draws_nothing(&self)
        requires
            self.wf(),
            self.spec_depth() == 0,
        ensures
            self@ == self.frontier().layers[0],
            self.words_at_next() == self.generator_words(),
    {
        self.stack.lemma_wf();
        let resolve = by_draw(self.system.model());
        let words = state_words(self.rng);
        let layers = self.stack@.layers;
        lemma_walk_level_zero(resolve, layers[0], words);
        assert(pending(resolve, layers, 1, words) == Derivation::nothing(words));
        assert(pending(resolve, layers, 0, words).word =~= layers[0]);
    }

    /// A builder over `system` that draws from `rng` and has a whole word at
    /// `depth` to come. Nothing is drawn and no rule is looked at yet: the
    /// axiom lies on the top layer and the layers below it are empty.
    pub fn with_generator(system: &'a LSystemStochastic, depth: usize, rng: SystemRng) -> (builder:
        Self)
        requires
            depth < usize::MAX,
        ensures
            builder.wf(),
            builder.system() == system,
            builder.spec_depth() == depth,
            builder.frontier() == Frontier::fresh(system.initiator@, depth as nat),
            builder.generator_words() == state_words(rng),
            builder@ == system.lazy_word(depth as nat, state_words(rng)),
    {
        let stack = LayerStack::new(system.initiator.as_str(), depth);
        proof {
            let resolve = by_draw(system.model());
            let words = state_words(rng);
            lemma_pending_skip(resolve, stack@.layers, 0, depth as nat, words);
            let top = walk(resolve, system.initiator@, depth as nat, words);
            assert(pending(resolve, stack@.layers, depth as nat, words) == top.followed_by(
                pending(resolve, stack@.layers, (depth + 1) as nat, top.state),
            ));
        }
        LSystemBuilderStochastic { system, stack, rng }
    }

    /// A builder over `system`, seeded with `seed`, or from the operating
    /// system where there is none. Nothing is drawn and no rule is looked at
    /// yet; a rule without a candidate to draw matters only to the pull that
    /// would draw.
    pub fn new(system: &'a LSystemStochastic, depth: usize, seed: Option<u64>) -> (builder: Self)
        requires
            depth < usize::MAX,
        ensures
            builder.wf(),
            builder.system() == system,
            builder.spec_depth() == depth,
            builder.frontier() == Frontier::fresh(system.initiator@, depth as nat),
            builder@ == system.lazy_word(depth as nat, builder.generator_words()),
            seed is Some ==> builder.generator_words() == seeded_words(seed->0),
    {
        let rng = match seed {
            Some(n) => seeded(n),
            None => from_entropy(),
        };
        Self::with_generator(system, depth, rng)
    }

    /// The next symbol of the word, or `None` when the word has been handed
    /// out in full. After `None` every layer is drained and the pointer
    /// stands one past the last layer; a builder in that state stays as it
    /// is. A builder of depth 0 draws nothing, so its system may be any.
    pub fn next(&mut self) -> (symbol: Option<char>)
        requires
            old(self).wf(),
            old(self).spec_depth() > 0 ==> old(self).system().well_formed(),
        ensures
            final(self).wf(),
            final(self).system() == old(self).system(),
            final(self).spec_depth() == old(self).spec_depth(),
            final(self).layer_count() == old(self).layer_count(),
            final(self).layer_count() == final(self).spec_depth() + 1,
            final(self).frontier().wf(),
            final(self).generator_words() == old(self).words_at_next(),
            symbol is None ==> final(self).frontier().exhausted(),
            old(self).frontier().active == old(self).layer_count() ==> {
                &&& symbol is None
                &&& final(self).frontier() == old(self).frontier()
                &&& final(self).generator_words() == old(self).generator_words()
            },
            match symbol {
                Some(c) => old(self)@.len() > 0 && c == old(self)@[0] && final(self)@ == old(
                    self,
                )@.drop_first(),
                None => old(self)@.len() == 0 && final(self)@.len() == 0,
            },
    {
        let system: &'a LSystemStochastic = self.system;
        let ghost resolve = by_draw(system.model());
        proof {
            self.stack.lemma_wf();
        }
        loop
            invariant
                self.wf(),
                self.system == old(self).system,
                system == self.system,
                resolve == by_draw(system.model()),
                self.spec_depth() == old(self).spec_depth(),
                self.layer_count() == old(self).layer_count(),
                self.spec_depth() > 0 ==> system.well_formed(),
                self@ == old(self)@,
                self.words_at_next() == old(self).words_at_next(),
                old(self).frontier().wf(),
                old(self).frontier().active == old(self).layer_count() ==> {
                    &&& self.frontier() == old(self).frontier()
                    &&& self.generator_words() == old(self).generator_words()
                },
            decreases self.replacements_left(),
        {
            let ghost before = self.stack@;
            let ghost words = state_words(self.rng);
            proof {
                self.stack.lemma_wf();
            }
            match self.stack.poll() {
                Pull::Exhausted => {
                    proof {
                        lemma_pending_skip(resolve, before.layers, 0, before.layers.len(), words);
                    }
                    return None;
                },
                Pull::Emit(c) => {
                    proof {
                        lemma_pending_emit(resolve, before.layers, 0, words);
                    }
                    return Some(c);
                },
                Pull::Resolve(c) => {
                    let ghost at = self.stack@.active;
                    let ghost taken = self.stack@;
                    proof {
                        lemma_pending_skip(resolve, before.layers, 0, at, words);
                    }
                    match system.get(&c, &mut self.rng) {
                        None => {
                            proof {
                                lemma_pending_emit(resolve, before.layers, at, words);
                                lemma_pending_skip(resolve, taken.layers, 0, at, words);
                            }
                            return Some(c);
                        },
                        Some(body) => {
                            self.stack.descend(body.as_str());
                            proof {
                                lemma_pending_descend(resolve, before.layers, at, words);
                                lemma_pending_skip(
                                    resolve,
                                    self.stack@.layers,
                                    0,
                                    (at - 1) as nat,
                                    state_words(self.rng),
                                );
                            }
                        },
                    }
                },
            }
        }
    }

    /// Hands out all that is still to come, as one `String`.
    pub fn collect(&mut self) -> (out: String)
        requires
            old(self).wf(),
            old(self).spec_depth() > 0 ==> old(self).system().well_formed(),
        ensures
            final(self).wf(),
            final(self).system() == old(self).system(),
            final(self).spec_depth() == old(self).spec_depth(),
            out@ == old(self)@,
            final(self)@.len() == 0,
            final(self).frontier().exhausted(),
            final(self).layer_count() == final(self).spec_depth() + 1,
    {
        let mut out = String::new();
        loop
            invariant
                self.wf(),
                self.system() == old(self).system(),
                self.spec_depth() == old(self).spec_depth(),
                self.spec_depth() > 0 ==> self.system().well_formed(),
                out@ + self@ == old(self)@,
            decreases self@.len(),
        {
            match self.next() {
                Some(c) => {
                    out.push(c);
                },
                None => {
                    return out;
                },
            }
        }
    }
}

} // verus!
