//! Eager rewriting over borrowed rule tables.

use crate::eager::{expand_text, expand_text_drawing, rewrite_text};
use crate::rewriting::{expand, expand_resolving};
use crate::rng::{from_entropy, seeded, seeded_words, state_words};
use crate::choice::{by_draw, choice_model, every_rule_samplable};
use crate::table::rule_model;
use std::collections::HashMap;
use vstd::prelude::*;

verus! {

/// Starting from the axiom, apply the rules the number of times specified and
/// return the resulting `String`.
pub fn write_lsystem(initiator: &str, rules: &HashMap<char, &str>, depth: usize) -> (out: String)
    ensures
        out@ == expand(rule_model(rules@), initiator@, depth as nat),
{
    expand_text(initiator, rules, depth)
}

/// Starting from the axiom, apply the rules the number of times specified and
/// return the word reached after each round, the axiom itself first.
pub fn write_lsystem_sequence(initiator: &str, rules: &HashMap<char, &str>, depth: usize) -> (out:
    Vec<String>)
    requires
        depth < usize::MAX,
    ensures
        out@.len() == depth + 1,
        forall|round: int|
            0 <= round <= depth ==> (#[trigger] out@[round])@ == expand(
                rule_model(rules@),
                initiator@,
                round as nat,
            ),
{
    let mut out: Vec<String> = Vec::with_capacity(depth + 1);
    out.push(initiator.to_owned());
    let mut expression = initiator.to_owned();
    let mut round: usize = 0;
    while round < depth
        invariant
            round <= depth,
            expression@ == expand(rule_model(rules@), initiator@, round as nat),
            out@.len() == round + 1,
            forall|earlier: int|
                0 <= earlier <= round ==> (#[trigger] out@[earlier])@ == expand(
                    rule_model(rules@),
                    initiator@,
                    earlier as nat,
                ),
        decreases depth - round,
    {
        let next = rewrite_text(expression.as_str(), rules);
        out.push(next.clone());
        expression = next;
        round = round + 1;
    }
    out
}

/// Starting from the axiom, apply the rules the number of times specified,
/// each replacement drawn among the candidates of its symbol, and return the
/// resulting `String`. With a seed the word is the same every time; without
/// one the generator is seeded from the operating system.
pub fn write_lsystem_stochastic(
    initiator: &str,
    rules: &HashMap<char, Vec<(&str, u32)>>,
    depth: usize,
    seed: Option<u64>,
) -> (out: String)
    requires
        depth > 0 ==> every_rule_samplable(choice_model(rules@)),
    ensures
        match seed {
            Some(n) => out@ == expand_resolving(
                by_draw(choice_model(rules@)),
                initiator@,
                depth as nat,
                seeded_words(n),
            ).0,
            None => exists|words: Seq<u64>|
                out@ == (#[trigger] expand_resolving(
                    by_draw(choice_model(rules@)),
                    initiator@,
                    depth as nat,
                    words,
                )).0,
        },
{
    let mut rng = match seed {
        Some(n) => seeded(n),
        None => from_entropy(),
    };
    let ghost start = state_words(rng);
    let out = expand_text_drawing(initiator, rules, depth, &mut rng);
    proof {
        assert(out@ == expand_resolving(
            by_draw(choice_model(rules@)),
            initiator@,
            depth as nat,
            start,
        ).0);
    }
    out
}

} // verus!
