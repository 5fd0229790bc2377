//! What the layer machine produces, as mathematics.
//!
//! A *derivation* walks the derivation tree of a word depth first, left to
//! right, and asks a resolver for the replacement of each symbol when the
//! walk reaches it. This is the order in which the layer machine meets the
//! symbols. A deterministic grammar resolves a symbol by reading its table
//! and has no state to speak of; a stochastic one draws from a generator,
//! whose state moves on with every draw.
//!
//! For a deterministic grammar the walk produces the word that rewriting
//! round by round produces ([`lemma_walk_is_expand`]).

use crate::rewriting::{
    by_table, expand, lemma_expand_empty, lemma_expand_first, lemma_terminal_passes, resolves_by,
};
use vstd::arithmetic::power::{lemma_pow_positive, pow};
use vstd::prelude::*;

verus! {

/// The outcome of a derivation.
#[verifier::ext_equal]
pub struct Derivation<G> {
    /// The symbols produced, in order.
    pub word: Seq<char>,
    /// The chooser's state after the last choice.
    pub state: G,
    /// How many symbols were replaced on the way.
    pub replaced: nat,
    /// The chooser's state at the moment the first symbol is produced; its
    /// last state where none is.
    pub at_first: G,
}

impl<G> Derivation<G> {
    /// The derivation that produces nothing.
    pub open spec fn nothing(state: G) -> Self {
        Derivation { word: Seq::empty(), state, replaced: 0, at_first: state }
    }

    /// The derivation that produces `symbol` as it is.
    pub open spec fn leaf(symbol: char, state: G) -> Self {
        Derivation { word: seq![symbol], state, replaced: 0, at_first: state }
    }

    /// This derivation, followed by `next`.
    pub open spec fn followed_by(self, next: Self) -> Self {
        Derivation {
            word: self.word + next.word,
            state: next.state,
            replaced: self.replaced + next.replaced,
            at_first: if self.word.len() > 0 {
                self.at_first
            } else {
                next.at_first
            },
        }
    }

    /// This derivation, as that of a symbol which it replaced.
    pub open spec fn below_symbol(self) -> Self {
        Derivation {
            word: self.word,
            state: self.state,
            replaced: self.replaced + 1,
            at_first: self.at_first,
        }
    }
}

/// The derivation of `word` with `level` rounds of rewriting left.
///
/// At level 0 every symbol is final. Above it, a symbol that the resolver
/// replaces contributes the derivation of its replacement, one level lower;
/// any other symbol contributes itself.
pub open spec fn walk<G>(
    resolve: spec_fn(char, G) -> Option<(Seq<char>, G)>,
    word: Seq<char>,
    level: nat,
    state: G,
) -> Derivation<G>
    decreases level, word.len(),
{
    if word.len() == 0 {
        Derivation::nothing(state)
    } else {
        let head = if level > 0 && resolve(word[0], state) is Some {
            let (body, chosen) = resolve(word[0], state)->0;
            walk(resolve, body, (level - 1) as nat, chosen).below_symbol()
        } else {
            Derivation::leaf(word[0], state)
        };
        head.followed_by(walk(resolve, word.drop_first(), level, head.state))
    }
}

/// The derivation of what layers `from` and above still hold: layer `from`
/// first, each layer at its own level.
pub open spec fn pending<G>(
    resolve: spec_fn(char, G) -> Option<(Seq<char>, G)>,
    layers: Seq<Seq<char>>,
    from: nat,
    state: G,
) -> Derivation<G>
    decreases layers.len() - from,
{
    if from >= layers.len() {
        Derivation::nothing(state)
    } else {
        let lowest = walk(resolve, layers[from as int], from, state);
        lowest.followed_by(pending(resolve, layers, from + 1, lowest.state))
    }
}

/// Drained layers contribute nothing.
pub proof fn lemma_pending_skip<G>(
    resolve: spec_fn(char, G) -> Option<(Seq<char>, G)>,
    layers: Seq<Seq<char>>,
    from: nat,
    to: nat,
    state: G,
)
    requires
        from <= to <= layers.len(),
        forall|i: int| from <= i < to ==> (#[trigger] layers[i]).len() == 0,
    ensures
        pending(resolve, layers, from, state) == pending(resolve, layers, to, state),
    decreases to - from,
{
    if from < to {
        lemma_pending_skip(resolve, layers, from + 1, to, state);
    }
}

/// What is pending from a layer upwards depends on those layers only.
pub proof fn lemma_pending_agree<G>(
    resolve: spec_fn(char, G) -> Option<(Seq<char>, G)>,
    layers: Seq<Seq<char>>,
    other: Seq<Seq<char>>,
    from: nat,
    state: G,
)
    requires
        layers.len() == other.len(),
        forall|i: int| from <= i < layers.len() ==> layers[i] == other[i],
    ensures
        pending(resolve, layers, from, state) == pending(resolve, other, from, state),
    decreases layers.len() - from,
{
    if from < layers.len() {
        let lowest = walk(resolve, layers[from as int], from, state);
        lemma_pending_agree(resolve, layers, other, from + 1, lowest.state);
    }
}

/// Taking a symbol that is final, or that the resolver leaves alone, from
/// the lowest pending layer takes it from the front of what is pending.
pub proof fn lemma_pending_emit<G>(
    resolve: spec_fn(char, G) -> Option<(Seq<char>, G)>,
    layers: Seq<Seq<char>>,
    at: nat,
    state: G,
)
    requires
        at < layers.len(),
        layers[at as int].len() > 0,
        at == 0 || resolve(layers[at as int][0], state) is None,
    ensures
        pending(resolve, layers, at, state) == Derivation::leaf(
            layers[at as int][0],
            state,
        ).followed_by(
            pending(
                resolve,
                layers.update(at as int, layers[at as int].drop_first()),
                at,
                state,
            ),
        ),
{
    let rest = layers[at as int].drop_first();
    let tail = walk(resolve, rest, at, state);
    lemma_pending_agree(resolve, layers, layers.update(at as int, rest), at + 1, tail.state);
}

/// Replacing the first symbol of the lowest pending layer by its
/// replacement, installed one layer lower, leaves what is pending as it was;
/// one replacement has then been made.
pub proof fn lemma_pending_descend<G>(
    resolve: spec_fn(char, G) -> Option<(Seq<char>, G)>,
    layers: Seq<Seq<char>>,
    at: nat,
    state: G,
)
    requires
        1 <= at < layers.len(),
        layers[at as int].len() > 0,
        resolve(layers[at as int][0], state) is Some,
    ensures
        ({
            let (body, chosen) = resolve(layers[at as int][0], state)->0;
            let after = layers.update(at as int, layers[at as int].drop_first()).update(
                at - 1,
                body,
            );
            pending(resolve, layers, at, state) == pending(
                resolve,
                after,
                (at - 1) as nat,
                chosen,
            ).below_symbol()
        }),
{
    let (body, chosen) = resolve(layers[at as int][0], state)->0;
    let rest = layers[at as int].drop_first();
    let after = layers.update(at as int, rest).update(at - 1, body);
    let inner = walk(resolve, body, (at - 1) as nat, chosen);
    let tail = walk(resolve, rest, at, inner.state);
    lemma_pending_agree(resolve, layers, after, at + 1, tail.state);
    assert(pending(resolve, after, (at - 1) as nat, chosen) == inner.followed_by(
        pending(resolve, after, at, inner.state),
    ));
}

/// No replacement that `resolve` gives is longer than `width`.
pub open spec fn resolves_within<G>(
    resolve: spec_fn(char, G) -> Option<(Seq<char>, G)>,
    width: nat,
) -> bool {
    forall|symbol: char, state: G|
        (#[trigger] resolve(symbol, state)) is Some ==> (resolve(symbol, state)->0).0.len() <= width
}

/// The number of nodes that have children in a tree of `level` levels
/// below its root in which every node has `width` children.
pub open spec fn inner_nodes(width: nat, level: nat) -> nat
    decreases level,
{
    if level == 0 {
        0
    } else {
        1 + width * inner_nodes(width, (level - 1) as nat)
    }
}

/// A walk ends: whatever the rules, and also where a replacement contains
/// the symbol that it replaces, a walk of `level` levels replaces at most
/// as many symbols as a full tree of that many levels has inner nodes, for
/// each symbol of the word it starts from.
pub proof fn lemma_walk_bounded<G>(
    resolve: spec_fn(char, G) -> Option<(Seq<char>, G)>,
    word: Seq<char>,
    level: nat,
    state: G,
    width: nat,
)
    requires
        resolves_within(resolve, width),
    ensures
        walk(resolve, word, level, state).replaced <= word.len() * inner_nodes(width, level),
    decreases level, word.len(),
{
    if word.len() > 0 {
        let each = inner_nodes(width, level);
        let rest = word.drop_first();
        if level > 0 && resolve(word[0], state) is Some {
            let (body, chosen) = resolve(word[0], state)->0;
            let below = inner_nodes(width, (level - 1) as nat);
            let inner = walk(resolve, body, (level - 1) as nat, chosen);
            lemma_walk_bounded(resolve, body, (level - 1) as nat, chosen, width);
            assert(body.len() * below <= width * below) by (nonlinear_arith)
                requires
                    body.len() <= width,
            ;
            lemma_walk_bounded(resolve, rest, level, inner.state, width);
        } else {
            lemma_walk_bounded(resolve, rest, level, state, width);
        }
        assert((word.len() - 1) * each + each == word.len() * each) by (nonlinear_arith);
    }
}

/// At level 0 every symbol is final: the walk produces the word as it is,
/// and no choice is made.
pub proof fn lemma_walk_level_zero<G>(
    resolve: spec_fn(char, G) -> Option<(Seq<char>, G)>,
    word: Seq<char>,
    state: G,
)
    ensures
        walk(resolve, word, 0, state) == (Derivation {
            word,
            state,
            replaced: 0,
            at_first: state,
        }),
    decreases word.len(),
{
    if word.len() > 0 {
        lemma_walk_level_zero(resolve, word.drop_first(), state);
    }
}

/// A symbol that the resolver leaves alone comes out as itself at every
/// level, and no choice is made for it.
pub proof fn lemma_walk_unresolved<G>(
    resolve: spec_fn(char, G) -> Option<(Seq<char>, G)>,
    symbol: char,
    level: nat,
    state: G,
)
    requires
        resolve(symbol, state) is None,
    ensures
        walk(resolve, seq![symbol], level, state) == Derivation::leaf(symbol, state),
{
    let word = seq![symbol];
    assert(walk(resolve, word.drop_first(), level, state) == Derivation::nothing(state));
}

/// With a resolver that leaves no choice, walking the derivation tree depth
/// first produces the word that `level` rounds of rewriting by its table
/// produce, whatever the state of the chooser.
pub proof fn lemma_walk_resolved<G>(
    resolve: spec_fn(char, G) -> Option<(Seq<char>, G)>,
    rules: Map<char, Seq<char>>,
    word: Seq<char>,
    level: nat,
    state: G,
)
    requires
        resolves_by(resolve, rules),
    ensures
        walk(resolve, word, level, state).word == expand(rules, word, level),
    decreases level, word.len(),
{
    if word.len() == 0 {
        assert(word =~= Seq::<char>::empty());
        lemma_expand_empty(rules, level);
    } else {
        let symbol = word[0];
        let rest = word.drop_first();
        assert(word =~= seq![symbol] + rest);
        assert(resolve(symbol, state) is Some <==> rules.contains_key(symbol));
        if level > 0 && rules.contains_key(symbol) {
            let (body, chosen) = resolve(symbol, state)->0;
            let inner = walk(resolve, body, (level - 1) as nat, chosen);
            lemma_walk_resolved(resolve, rules, body, (level - 1) as nat, chosen);
            lemma_walk_resolved(resolve, rules, rest, level, inner.state);
            lemma_expand_first(rules, symbol, rest, level);
        } else {
            lemma_walk_resolved(resolve, rules, rest, level, state);
            if level > 0 {
                lemma_expand_first(rules, symbol, rest, level);
                lemma_terminal_passes(rules, symbol, (level - 1) as nat);
            }
        }
    }
}

/// Walking the derivation tree depth first produces the word that `depth`
/// rounds of rewriting produce.
pub proof fn lemma_walk_is_expand(rules: Map<char, Seq<char>>, word: Seq<char>, depth: nat)
    ensures
        walk(by_table(rules), word, depth, ()).word == expand(rules, word, depth),
{
    assert(resolves_by(by_table(rules), rules));
    lemma_walk_resolved(by_table(rules), rules, word, depth, ());
}

/// What layers `from` and above still owe under a table: the remaining
/// symbols of each layer, rewritten as many rounds as the layer's index
/// says, layer `from` first.
pub open spec fn owed(rules: Map<char, Seq<char>>, layers: Seq<Seq<char>>, from: nat) -> Seq<char>
    decreases layers.len() - from,
{
    if from >= layers.len() {
        Seq::empty()
    } else {
        expand(rules, layers[from as int], from) + owed(rules, layers, from + 1)
    }
}

/// With a resolver that leaves no choice, what is pending is what the
/// layers owe under its table.
pub proof fn lemma_pending_is_owed<G>(
    resolve: spec_fn(char, G) -> Option<(Seq<char>, G)>,
    rules: Map<char, Seq<char>>,
    layers: Seq<Seq<char>>,
    from: nat,
    state: G,
)
    requires
        resolves_by(resolve, rules),
    ensures
        pending(resolve, layers, from, state).word == owed(rules, layers, from),
    decreases layers.len() - from,
{
    if from < layers.len() {
        let lowest = walk(resolve, layers[from as int], from, state);
        lemma_walk_resolved(resolve, rules, layers[from as int], from, state);
        lemma_pending_is_owed(resolve, rules, layers, from + 1, lowest.state);
    }
}

/// A walk produces a finite word, whatever the rules: at most `width` to
/// the power of `level` symbols for each symbol of the word it starts from.
pub proof fn lemma_walk_word_bounded<G>(
    resolve: spec_fn(char, G) -> Option<(Seq<char>, G)>,
    word: Seq<char>,
    level: nat,
    state: G,
    width: nat,
)
    requires
        width >= 1,
        resolves_within(resolve, width),
    ensures
        walk(resolve, word, level, state).word.len() <= word.len() * pow(width as int, level),
    decreases level, word.len(),
{
    reveal(pow);
    lemma_pow_positive(width as int, level);
    if word.len() > 0 {
        let each = pow(width as int, level);
        let rest = word.drop_first();
        if level > 0 && resolve(word[0], state) is Some {
            let (body, chosen) = resolve(word[0], state)->0;
            let below = pow(width as int, (level - 1) as nat);
            let inner = walk(resolve, body, (level - 1) as nat, chosen);
            lemma_walk_word_bounded(resolve, body, (level - 1) as nat, chosen, width);
            lemma_pow_positive(width as int, (level - 1) as nat);
            assert(body.len() * below <= width * below) by (nonlinear_arith)
                requires
                    body.len() <= width,
                    below > 0,
            ;
            lemma_walk_word_bounded(resolve, rest, level, inner.state, width);
        } else {
            lemma_walk_word_bounded(resolve, rest, level, state, width);
        }
        assert((word.len() - 1) * each + each == word.len() * each) by (nonlinear_arith);
    }
}

} // verus!
