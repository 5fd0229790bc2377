//! Eager rewriting: whole words are rewritten round by round, each round
//! into a freshly built `String`.
//!
//! The functions here work on any rule table keyed by symbol, whatever holds
//! the text of its rules. The grammars and the free functions of the crate
//! call them with their own tables.

use crate::choice::{
    by_draw, choice_model, draw_rule, every_rule_samplable, lemma_model_weights, word_samplable,
};
use crate::rewriting::{expand, expand_resolving, rewrite, rewrite_resolving};
use crate::rng::{state_words, SystemRng};
use crate::table::{lookup, rule_model, TableHasher};
use crate::text::{append_successor, split_first};
use std::collections::HashMap;
use vstd::prelude::*;

verus! {

/// Text that a rule can hold: it can be read as a string slice.
pub trait Text: View<V = Seq<char>> {
    /// The text as a string slice.
    fn as_text(&self) -> (text: &str)
        ensures
            text@ == self@,
    ;
}

impl Text for String {
    fn as_text(&self) -> (text: &str) {
        self.as_str()
    }
}

impl<'a> Text for &'a str {
    fn as_text(&self) -> (text: &str) {
        *self
    }
}

/// One round of rewriting of `word` by `rules`, written to a fresh
/// `String`.
pub fn rewrite_text<T: Text, S: TableHasher>(word: &str, rules: &HashMap<char, T, S>) -> (out:
    String)
    ensures
        out@ == rewrite(rule_model(rules@), word@),
{
    let ghost model = rule_model(rules@);
    let ghost mut done: Seq<char> = Seq::empty();
    let mut out = String::new();
    let mut rest: &str = word;
    loop
        invariant
            model == rule_model(rules@),
            done + rest@ == word@,
            out@ == rewrite(model, done),
        decreases rest@.len(),
    {
        match split_first(rest) {
            None => {
                return out;
            },
            Some((symbol, tail)) => {
                proof {
                    assert(done.push(symbol).drop_last() =~= done);
                }
                let body = match lookup(rules, symbol) {
                    Some(text) => Some(text.as_text()),
                    None => None,
                };
                append_successor(&mut out, symbol, body);
                proof {
                    done = done.push(symbol);
                }
                rest = tail;
            },
        }
    }
}

/// `depth` rounds of rewriting by `rules`, starting from `word`.
pub fn expand_text<T: Text, S: TableHasher>(
    word: &str,
    rules: &HashMap<char, T, S>,
    depth: usize,
) -> (out: String)
    ensures
        out@ == expand(rule_model(rules@), word@, depth as nat),
{
    let mut expression = word.to_owned();
    let mut round: usize = 0;
    while round < depth
        invariant
            round <= depth,
            expression@ == expand(rule_model(rules@), word@, round as nat),
        decreases depth - round,
    {
        expression = rewrite_text(expression.as_str(), rules);
        round = round + 1;
    }
    expression
}

/// One round of rewriting of `word`, written to a fresh `String`, each
/// replacement drawn from `rng` among the candidates that `rules` holds for
/// the symbol. Only the symbols of `word` need candidates to draw.
pub fn rewrite_text_drawing<T: Text>(
    word: &str,
    rules: &HashMap<char, Vec<(T, u32)>>,
    rng: &mut SystemRng,
) -> (out: String)
    requires
        word_samplable(choice_model(rules@), word@),
    ensures
        (out@, state_words(*final(rng))) == rewrite_resolving(
            by_draw(choice_model(rules@)),
            word@,
            state_words(*old(rng)),
        ),
{
    let ghost resolve = by_draw(choice_model(rules@));
    let ghost start = state_words(*rng);
    let ghost mut done: Seq<char> = Seq::empty();
    let mut out = String::new();
    let mut rest: &str = word;
    loop
        invariant
            word_samplable(choice_model(rules@), word@),
            resolve == by_draw(choice_model(rules@)),
            start == state_words(*old(rng)),
            done + rest@ == word@,
            (out@, state_words(*rng)) == rewrite_resolving(resolve, done, start),
        decreases rest@.len(),
    {
        match split_first(rest) {
            None => {
                return out;
            },
            Some((symbol, tail)) => {
                proof {
                    assert(done.push(symbol).drop_last() =~= done);
                    assert(word@[done.len() as int] == rest@[0]);
                    if rules@.contains_key(symbol) {
                        assert(choice_model(rules@).contains_key(symbol));
                        lemma_model_weights(rules@[symbol]@);
                    }
                }
                let body = match draw_rule(rules, symbol, rng) {
                    Some(text) => Some(text.as_text()),
                    None => None,
                };
                append_successor(&mut out, symbol, body);
                proof {
                    done = done.push(symbol);
                }
                rest = tail;
            },
        }
    }
}

/// `depth` rounds of rewriting, starting from `word`, each replacement
/// drawn from `rng`. Every round is done in full before the next begins.
/// At depth 0 nothing is drawn, and the rules may be any.
pub fn expand_text_drawing<T: Text>(
    word: &str,
    rules: &HashMap<char, Vec<(T, u32)>>,
    depth: usize,
    rng: &mut SystemRng,
) -> (out: String)
    requires
        depth > 0 ==> every_rule_samplable(choice_model(rules@)),
    ensures
        (out@, state_words(*final(rng))) == expand_resolving(
            by_draw(choice_model(rules@)),
            word@,
            depth as nat,
            state_words(*old(rng)),
        ),
{
    let mut expression = word.to_owned();
    let mut round: usize = 0;
    while round < depth
        invariant
            depth > 0 ==> every_rule_samplable(choice_model(rules@)),
            round <= depth,
            (expression@, state_words(*rng)) == expand_resolving(
                by_draw(choice_model(rules@)),
                word@,
                round as nat,
                state_words(*old(rng)),
            ),
        decreases depth - round,
    {
        expression = rewrite_text_drawing(expression.as_str(), rules, rng);
        round = round + 1;
    }
    expression
}

} // verus!
