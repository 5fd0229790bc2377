//! Deterministic L-systems: the grammar, eager rewriting to a `String`, and
//! the lazy builder that hands out the same symbols one at a time.

use crate::derivation::{
    lemma_pending_descend, lemma_pending_emit, lemma_pending_is_owed, lemma_pending_skip,
    lemma_walk_is_expand, lemma_walk_level_zero, owed, pending, walk,
};
use crate::eager::expand_text;
use crate::layers::{Frontier, LayerStack, Pull};
use crate::rewriting::{by_table, expand, lemma_expand_zero, resolves_by};
use crate::table::{
    keys_of, lemma_walked_keys, lookup, rule_model, store, table_of, walked_keys,
};
use rustc_hash::FxHashMap;
use vstd::prelude::*;
use vstd::string::StringExecFns;

pub use crate::stochastic::{LSystemBuilderStochastic, LSystemStochastic};

verus! {

/// The basic description of an L-system: the word it starts from (its
/// axiom) and its rewriting rules. Used to generate or iterate over its
/// words.
#[derive(Debug, Clone)]
pub struct LSystem {
    /// The axiom: the word before any rewriting.
    pub initiator: String,
    /// The replacement of each symbol that has one.
    pub rules: FxHashMap<char, String>,
}

impl LSystem {
    /// The rule table as a map from symbols to words.
    pub open spec fn model(&self) -> Map<char, Seq<char>> {
        rule_model(self.rules@)
    }

    /// The word that `depth` rounds of rewriting make of the axiom.
    pub open spec fn word_at(&self, depth: nat) -> Seq<char> {
        expand(self.model(), self.initiator@, depth)
    }

    /// The word that a depth-first walk to `depth` makes of the axiom: the
    /// symbols in the order in which a builder hands them out.
    pub open spec fn lazy_word(&self, depth: nat) -> Seq<char> {
        walk(by_table(self.model()), self.initiator@, depth, ()).word
    }

    /// Lazy and eager expansion agree: at every depth, the symbols that a
    /// builder hands out, in order, are the word that rewriting round by
    /// round produces.
    pub proof fn lemma_lazy_word_is_word_at(&self, depth: nat)
        ensures
            self.lazy_word(depth) == self.word_at(depth),
    {
        lemma_walk_is_expand(self.model(), self.initiator@, depth);
    }

    /// At depth 0 both expansions give the axiom unchanged.
    pub proof fn lemma_depth_zero(&self)
        ensures
            self.word_at(0) == self.initiator@,
            self.lazy_word(0) == self.initiator@,
    {
        lemma_expand_zero(self.model(), self.initiator@);
        lemma_walk_level_zero(by_table(self.model()), self.initiator@, ());
    }

    /// A system with the given axiom and rules. Where `rules` names a symbol
    /// more than once, its last rule counts.
    pub fn new(initiator: String, rules: &[(char, &str)]) -> (system: LSystem)
        ensures
            system.initiator == initiator,
            system.model() == table_of(rules@),
    {
        let mut map: FxHashMap<char, String> = FxHashMap::default();
        let mut i: usize = 0;
        while i < rules.len()
            invariant
                i <= rules.len(),
                rule_model(map@) == table_of(rules@.take(i as int)),
            decreases rules.len() - i,
        {
            let text = rules[i].1.to_owned();
            store(&mut map, rules[i].0, text);
            proof {
                assert(rules@.take(i + 1).drop_last() =~= rules@.take(i as int));
            }
            i = i + 1;
        }
        proof {
            assert(rules@.take(rules.len() as int) =~= rules@);
        }
        LSystem { initiator, rules: map }
    }

    /// Return the rewrite rule for a given character or `None` if the
    /// character is a terminal.
    pub fn get(&self, c: &char) -> (rule: Option<&String>)
        ensures
            self.rules@.contains_key(*c) ==> rule == Some(&self.rules@[*c]),
            !self.rules@.contains_key(*c) ==> rule is None,
            rule is Some <==> self.model().contains_key(*c),
            rule is Some ==> rule->0@ == self.model()[*c],
    {
        lookup(&self.rules, *c)
    }

    /// Construct a memory efficient iterator over the L-system at a given
    /// depth.
    pub fn builder(&self, depth: usize) -> (builder: LSystemBuilder<'_>)
        requires
            depth < usize::MAX,
        ensures
            builder.wf(),
            builder.system() == self,
            builder.spec_depth() == depth,
            builder.frontier() == Frontier::fresh(self.initiator@, depth as nat),
            builder@ == self.lazy_word(depth as nat),
            builder@ == self.word_at(depth as nat),
    {
        LSystemBuilder::new(self, depth)
    }

    /// The system in words: its axiom, and a line for each rule. The rules
    /// come in the order in which the table hands them out.
    pub fn to_text(&self) -> (out: String)
        ensures
            exists|order: Seq<char>|
                lists_rules(self.model(), order) && out@ == "Axiom: "@ + self.initiator@
                    + "\nRules:\n"@ + #[trigger] rule_lines(self.model(), order),
    {
        let mut out = "Axiom: ".to_owned();
        out.append(self.initiator.as_str());
        out.append("\nRules:\n");
        let ghost head = out@;
        let ghost keys = walked_keys(&self.rules);
        let walk = keys_of(&self.rules);
        proof {
            lemma_walked_keys(&self.rules, walk);
        }
        for symbol in it: walk
            invariant
                head == "Axiom: "@ + self.initiator@ + "\nRules:\n"@,
                keys == walked_keys(&self.rules),
                it.seq().unref() == keys,
                forall|symbol: char| self.rules@.contains_key(symbol) <==> keys.contains(symbol),
                out@ == head + rule_lines(self.model(), keys.take(it.index() as int)),
        {
            assert(*symbol == keys[it.index() as int]);
            assert(keys.contains(*symbol));
            if let Some(body) = self.get(symbol) {
                out.append("  ");
                out.push(*symbol);
                out.append(" => ");
                out.append(body.as_str());
                out.append("\n");
                proof {
                    let shown = it.index() as int;
                    assert(keys.take(shown + 1).drop_last() =~= keys.take(shown));
                }
            }
        }
        proof {
            assert(keys.take(keys.len() as int) =~= keys);
        }
        out
    }

    /// Write the L-system, at the given depth, to a `String`. This is faster
    /// than using the builder but may result in a very large allocation.
    pub fn string(&self, depth: usize) -> (out: String)
        ensures
            out@ == self.word_at(depth as nat),
    {
        expand_text(self.initiator.as_str(), &self.rules, depth)
    }
}

/// The lines that describe the rules of the symbols in `order`, one line for
/// each: the symbol, an arrow, and its replacement.
pub open spec fn rule_lines(rules: Map<char, Seq<char>>, order: Seq<char>) -> Seq<char>
    decreases order.len(),
{
    if order.len() == 0 {
        Seq::empty()
    } else {
        rule_lines(rules, order.drop_last()) + "  "@ + seq![order.last()] + " => "@
            + rules[order.last()] + "\n"@
    }
}

/// `order` lists the symbols that have a rule, each once.
pub open spec fn lists_rules(rules: Map<char, Seq<char>>, order: Seq<char>) -> bool {
    &&& order.no_duplicates()
    &&& forall|symbol: char| rules.contains_key(symbol) <==> order.contains(symbol)
}

/// Lazy expansion of a deterministic L-system: hands out, one symbol at a
/// time, the word that [`LSystem::string`] writes, holding one cursor per
/// level of depth and no rewritten text.
#[derive(Debug)]
pub struct LSystemBuilder<'a> {
    system: &'a LSystem,
    stack: LayerStack<'a>,
}

impl<'a> View for LSystemBuilder<'a> {
    type V = Seq<char>;

    /// The symbols that are still to come.
    closed spec fn view(&self) -> Seq<char> {
        pending(by_table(self.system.model()), self.stack@.layers, 0, ()).word
    }
}

impl<'a> Clone for LSystemBuilder<'a> {
    /// A builder over the same system that has the same symbols to come.
    fn clone(&self) -> (copy: Self)
        ensures
            copy@ == self@,
            copy.wf() == self.wf(),
            copy.system() == self.system(),
            copy.spec_depth() == self.spec_depth(),
            copy.frontier() == self.frontier(),
    {
        LSystemBuilder { system: self.system, stack: self.stack.clone() }
    }
}

impl<'a> LSystemBuilder<'a> {
    /// The builder's layers are consistent.
    pub closed spec fn wf(&self) -> bool {
        self.stack.wf()
    }

    /// The system that the builder reads.
    pub closed spec fn system(&self) -> &'a LSystem {
        self.system
    }

    /// The depth that the builder expands to.
    pub closed spec fn spec_depth(&self) -> nat {
        self.stack.spec_depth()
    }

    /// The builder's layers and its pointer to the layer being drained.
    pub closed spec fn frontier(&self) -> Frontier {
        self.stack@
    }

    /// The number of cursors that the builder holds.
    pub open spec fn layer_count(&self) -> nat {
        self.frontier().layers.len()
    }

    /// How many symbols the builder has yet to replace before it is done.
    pub closed spec fn replacements_left(&self) -> nat {
        pending(by_table(self.system.model()), self.stack@.layers, 0, ()).replaced
    }

    /// A builder's cursors are as many as its depth and one more, whatever
    /// it has handed out.
    pub proof fn lemma_layer_count(&self)
        requires
            self.wf(),
        ensures
            self.layer_count() == self.spec_depth() + 1,
    {
        self.stack.lemma_wf();
    }

    /// What a builder's layers and pointer are like, and what it has to
    /// come in terms of them: the pointer is in range, the layers below it
    /// are drained, and the symbols to come are what the layers owe, each
    /// layer's remaining symbols rewritten as many rounds as its index says.
    pub proof fn lemma_frontier(&self)
        requires
            self.wf(),
        ensures
            self.frontier().wf(),
            self.layer_count() == self.spec_depth() + 1,
            self@ == pending(by_table(self.system().model()), self.frontier().layers, 0, ()).word,
            self@ == owed(self.system().model(), self.frontier().layers, 0),
    {
        self.stack.lemma_wf();
        assert(resolves_by(by_table(self.system.model()), self.system.model()));
        lemma_pending_is_owed(
            by_table(self.system.model()),
            self.system.model(),
            self.stack@.layers,
            0,
            (),
        );
    }

    /// A builder over `system` that has all of the word at `depth` to come.
    /// Nothing is looked up yet: the axiom lies on the top layer and the
    /// layers below it are empty.
    pub fn new(system: &'a LSystem, depth: usize) -> (builder: Self)
        requires
            depth < usize::MAX,
        ensures
            builder.wf(),
            builder.system() == system,
            builder.spec_depth() == depth,
            builder.frontier() == Frontier::fresh(system.initiator@, depth as nat),
            builder@ == system.lazy_word(depth as nat),
            builder@ == system.word_at(depth as nat),
    {
        let stack = LayerStack::new(system.initiator.as_str(), depth);
        proof {
            let resolve = by_table(system.model());
            lemma_pending_skip(resolve, stack@.layers, 0, depth as nat, ());
            lemma_walk_is_expand(system.model(), system.initiator@, depth as nat);
            let top = walk(resolve, system.initiator@, depth as nat, ());
            assert(pending(resolve, stack@.layers, depth as nat, ()) == top.followed_by(
                pending(resolve, stack@.layers, (depth + 1) as nat, top.state),
            ));
        }
        LSystemBuilder { system, stack }
    }

    /// The next symbol of the word, or `None` when the word has been handed
    /// out in full. After `None` every layer is drained and the pointer
    /// stands one past the last layer; a builder in that state stays as it is.
    pub fn next(&mut self) -> (symbol: Option<char>)
        requires
            old(self).wf(),
        ensures
            final(self).wf(),
            final(self).system() == old(self).system(),
            final(self).spec_depth() == old(self).spec_depth(),
            final(self).layer_count() == old(self).layer_count(),
            final(self).layer_count() == final(self).spec_depth() + 1,
            final(self).frontier().wf(),
            symbol is None ==> final(self).frontier().exhausted(),
            old(self).frontier().active == old(self).layer_count() ==> {
                &&& symbol is None
                &&& final(self).frontier() == old(self).frontier()
            },
            match symbol {
                Some(c) => old(self)@.len() > 0 && c == old(self)@[0] && final(self)@ == old(
                    self,
                )@.drop_first(),
                None => old(self)@.len() == 0 && final(self)@.len() == 0,
            },
    {
        let system: &'a LSystem = self.system;
        let ghost resolve = by_table(system.model());
        proof {
            self.stack.lemma_wf();
        }
        loop
            invariant
                self.wf(),
                self.system == old(self).system,
                system == self.system,
                resolve == by_table(system.model()),
                self.spec_depth() == old(self).spec_depth(),
                self.layer_count() == old(self).layer_count(),
                self@ == old(self)@,
                old(self).frontier().wf(),
                old(self).frontier().active == old(self).layer_count() ==> {
                    self.frontier() == old(self).frontier()
                },
            decreases self.replacements_left(),
        {
            let ghost before = self.stack@;
            proof {
                self.stack.lemma_wf();
            }
            match self.stack.poll() {
                Pull::Exhausted => {
                    proof {
                        lemma_pending_skip(resolve, before.layers, 0, before.layers.len(), ());
                    }
                    return None;
                },
                Pull::Emit(c) => {
                    proof {
                        lemma_pending_emit(resolve, before.layers, 0, ());
                    }
                    return Some(c);
                },
                Pull::Resolve(c) => {
                    let ghost at = self.stack@.active;
                    let ghost taken = self.stack@;
                    proof {
                        lemma_pending_skip(resolve, before.layers, 0, at, ());
                    }
                    match system.get(&c) {
                        None => {
                            proof {
                                lemma_pending_emit(resolve, before.layers, at, ());
                                lemma_pending_skip(resolve, taken.layers, 0, at, ());
                            }
                            return Some(c);
                        },
                        Some(body) => {
                            self.stack.descend(body.as_str());
                            proof {
                                lemma_pending_descend(resolve, before.layers, at, ());
                                lemma_pending_skip(
                                    resolve,
                                    self.stack@.layers,
                                    0,
                                    (at - 1) as nat,
                                    (),
                                );
                            }
                        },
                    }
                },
            }
        }
    }

    /// Hands out all that is still to come, as one `String`.
    pub fn collect(&mut self) -> (out: String)
        requires
            old(self).wf(),
        ensures
            final(self).wf(),
            final(self).system() == old(self).system(),
            final(self).spec_depth() == old(self).spec_depth(),
            out@ == old(self)@,
            final(self)@.len() == 0,
            final(self).frontier().exhausted(),
            final(self).layer_count() == final(self).spec_depth() + 1,
    {
        let mut out = String::new();
        loop
            invariant
                self.wf(),
                self.system() == old(self).system(),
                self.spec_depth() == old(self).spec_depth(),
                out@ + self@ == old(self)@,
            decreases self@.len(),
        {
            match self.next() {
                Some(c) => {
                    out.push(c);
                },
                None => {
                    return out;
                },
            }
        }
    }
}

} // verus!
