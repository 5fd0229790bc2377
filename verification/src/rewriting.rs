//! The mathematical meaning of rewriting.
//!
//! A rule table maps a symbol to the word that replaces it. One round of
//! rewriting replaces every symbol of a word at once, left to right; a symbol
//! without a rule stands for itself. Expanding a word to a depth applies that
//! many rounds.
//!
//! Where a symbol has more than one replacement, somebody has to choose. A
//! *resolver* says how: given the symbol and the state of whoever chooses,
//! it gives the replacement and the chooser's next state, or `None` where
//! the symbol has no rule. The second half of this module defines rewriting
//! with a resolver.

use vstd::arithmetic::power::pow;
use vstd::prelude::*;

verus! {

/// What one round of rewriting puts in the place of `symbol`: its rule's
/// right-hand side, or the symbol itself where the table has no rule for it.
pub open spec fn successor(rules: Map<char, Seq<char>>, symbol: char) -> Seq<char> {
    if rules.contains_key(symbol) {
        rules[symbol]
    } else {
        seq![symbol]
    }
}

/// One round of rewriting: the successors of the symbols of `word`, in order.
pub open spec fn rewrite(rules: Map<char, Seq<char>>, word: Seq<char>) -> Seq<char>
    decreases word.len(),
{
    if word.len() == 0 {
        Seq::empty()
    } else {
        rewrite(rules, word.drop_last()) + successor(rules, word.last())
    }
}

/// `depth` rounds of rewriting, starting from `word`.
pub open spec fn expand(rules: Map<char, Seq<char>>, word: Seq<char>, depth: nat) -> Seq<char>
    decreases depth,
{
    if depth == 0 {
        word
    } else {
        rewrite(rules, expand(rules, word, (depth - 1) as nat))
    }
}

/// Rewriting a one-symbol word gives that symbol's successor.
pub proof fn lemma_rewrite_single(rules: Map<char, Seq<char>>, symbol: char)
    ensures
        rewrite(rules, seq![symbol]) == successor(rules, symbol),
{
    let word = seq![symbol];
    assert(rewrite(rules, word.drop_last()) =~= Seq::<char>::empty());
}

/// Rewriting works symbol by symbol, so it distributes over concatenation.
pub proof fn lemma_rewrite_concat(rules: Map<char, Seq<char>>, left: Seq<char>, right: Seq<char>)
    ensures
        rewrite(rules, left + right) == rewrite(rules, left) + rewrite(rules, right),
    decreases right.len(),
{
    if right.len() == 0 {
    } else {
        let whole = left + right;
        assert(whole.drop_last() =~= left + right.drop_last());
        lemma_rewrite_concat(rules, left, right.drop_last());
    }
}

/// Expansion distributes over concatenation, at every depth.
pub proof fn lemma_expand_concat(
    rules: Map<char, Seq<char>>,
    left: Seq<char>,
    right: Seq<char>,
    depth: nat,
)
    ensures
        expand(rules, left + right, depth) == expand(rules, left, depth) + expand(
            rules,
            right,
            depth,
        ),
    decreases depth,
{
    if depth > 0 {
        let below = (depth - 1) as nat;
        lemma_expand_concat(rules, left, right, below);
        lemma_rewrite_concat(rules, expand(rules, left, below), expand(rules, right, below));
    }
}

/// The empty word expands to the empty word.
pub proof fn lemma_expand_empty(rules: Map<char, Seq<char>>, depth: nat)
    ensures
        expand(rules, Seq::<char>::empty(), depth) == Seq::<char>::empty(),
    decreases depth,
{
    if depth > 0 {
        lemma_expand_empty(rules, (depth - 1) as nat);
    }
}

/// Rewriting first and expanding afterwards is the same as expanding one
/// round deeper.
pub proof fn lemma_expand_rewritten(rules: Map<char, Seq<char>>, word: Seq<char>, depth: nat)
    ensures
        expand(rules, rewrite(rules, word), depth) == expand(rules, word, depth + 1),
    decreases depth,
{
    if depth == 0 {
        assert(expand(rules, word, 0) == word);
    } else {
        lemma_expand_rewritten(rules, word, (depth - 1) as nat);
    }
}

/// With at least one round left, the first symbol of a word contributes the
/// expansion of its successor, one round shallower, followed by the
/// expansion of the rest of the word.
pub proof fn lemma_expand_first(
    rules: Map<char, Seq<char>>,
    symbol: char,
    rest: Seq<char>,
    depth: nat,
)
    requires
        depth > 0,
    ensures
        expand(rules, seq![symbol] + rest, depth) == expand(
            rules,
            successor(rules, symbol),
            (depth - 1) as nat,
        ) + expand(rules, rest, depth),
{
    lemma_expand_concat(rules, seq![symbol], rest, depth);
    lemma_expand_rewritten(rules, seq![symbol], (depth - 1) as nat);
    lemma_rewrite_single(rules, symbol);
}

/// At depth 0 nothing is rewritten: a word expands to itself.
pub proof fn lemma_expand_zero(rules: Map<char, Seq<char>>, word: Seq<char>)
    ensures
        expand(rules, word, 0) == word,
{
}

/// A symbol without a rule stands for itself at every depth.
pub proof fn lemma_terminal_passes(rules: Map<char, Seq<char>>, symbol: char, depth: nat)
    requires
        !rules.contains_key(symbol),
    ensures
        expand(rules, seq![symbol], depth) == seq![symbol],
    decreases depth,
{
    if depth > 0 {
        lemma_terminal_passes(rules, symbol, (depth - 1) as nat);
        lemma_rewrite_single(rules, symbol);
    }
}

/// A symbol without a rule comes out as itself, in its place, whatever
/// stands around it and however deep the expansion goes.
pub proof fn lemma_terminal_passes_in_place(
    rules: Map<char, Seq<char>>,
    left: Seq<char>,
    symbol: char,
    right: Seq<char>,
    depth: nat,
)
    requires
        !rules.contains_key(symbol),
    ensures
        expand(rules, left + seq![symbol] + right, depth) == expand(rules, left, depth)
            + seq![symbol] + expand(rules, right, depth),
{
    lemma_expand_concat(rules, left + seq![symbol], right, depth);
    lemma_expand_concat(rules, left, seq![symbol], depth);
    lemma_terminal_passes(rules, symbol, depth);
}

/// No replacement in `rules` is longer than `width`.
pub open spec fn rules_within(rules: Map<char, Seq<char>>, width: nat) -> bool {
    forall|symbol: char| #[trigger] rules.contains_key(symbol) ==> rules[symbol].len() <= width
}

/// One round of rewriting makes a word at most `width` times as long.
pub proof fn lemma_rewrite_bounded(rules: Map<char, Seq<char>>, word: Seq<char>, width: nat)
    requires
        width >= 1,
        rules_within(rules, width),
    ensures
        rewrite(rules, word).len() <= width * word.len(),
    decreases word.len(),
{
    if word.len() > 0 {
        lemma_rewrite_bounded(rules, word.drop_last(), width);
        assert(width * (word.len() - 1) + width == width * word.len()) by (nonlinear_arith);
    }
}

/// Expansion to a finite depth gives a finite word, whatever the rules: the
/// word at depth `depth` is at most `width` to the power of `depth` times as
/// long as the word it started from. This holds also where a rule's
/// replacement contains the rule's own symbol.
pub proof fn lemma_expand_bounded(
    rules: Map<char, Seq<char>>,
    word: Seq<char>,
    depth: nat,
    width: nat,
)
    requires
        width >= 1,
        rules_within(rules, width),
    ensures
        expand(rules, word, depth).len() <= pow(width as int, depth) * word.len(),
    decreases depth,
{
    reveal(pow);
    if depth > 0 {
        let below = (depth - 1) as nat;
        let shorter = expand(rules, word, below);
        lemma_expand_bounded(rules, word, below, width);
        lemma_rewrite_bounded(rules, shorter, width);
        let grown = pow(width as int, below);
        assert(width * shorter.len() <= width * (grown * word.len())) by (nonlinear_arith)
            requires
                shorter.len() <= grown * word.len(),
                width >= 1,
        ;
        assert(width * (grown * word.len()) == (width * grown) * word.len()) by (nonlinear_arith);
    }
}

/// The resolver of a deterministic grammar: a symbol is replaced by what the
/// table holds for it, and there is no state to move on.
pub open spec fn by_table(rules: Map<char, Seq<char>>) -> spec_fn(char, ()) -> Option<
    (Seq<char>, ()),
> {
    |symbol: char, state: ()|
        if rules.contains_key(symbol) {
            Some((rules[symbol], state))
        } else {
            None
        }
}

/// One round of rewriting in which a resolver chooses each replacement, the
/// symbols taken left to right: the word that comes out, and the chooser's
/// state after the last symbol.
pub open spec fn rewrite_resolving<G>(
    resolve: spec_fn(char, G) -> Option<(Seq<char>, G)>,
    word: Seq<char>,
    state: G,
) -> (Seq<char>, G)
    decreases word.len(),
{
    if word.len() == 0 {
        (Seq::empty(), state)
    } else {
        let (front, reached) = rewrite_resolving(resolve, word.drop_last(), state);
        match resolve(word.last(), reached) {
            Some((body, next)) => (front + body, next),
            None => (front.push(word.last()), reached),
        }
    }
}

/// `depth` rounds of rewriting with a resolver, each round done in full
/// before the next begins.
pub open spec fn expand_resolving<G>(
    resolve: spec_fn(char, G) -> Option<(Seq<char>, G)>,
    word: Seq<char>,
    depth: nat,
    state: G,
) -> (Seq<char>, G)
    decreases depth,
{
    if depth == 0 {
        (word, state)
    } else {
        let (reached, later) = expand_resolving(resolve, word, (depth - 1) as nat, state);
        rewrite_resolving(resolve, reached, later)
    }
}

/// At depth 0 no choice is made: the word and the chooser's state stay as
/// they are.
pub proof fn lemma_expand_resolving_zero<G>(
    resolve: spec_fn(char, G) -> Option<(Seq<char>, G)>,
    word: Seq<char>,
    state: G,
)
    ensures
        expand_resolving(resolve, word, 0, state) == (word, state),
{
}

/// `resolve` replaces the symbols that `rules` has a rule for, and no
/// others, each by its rule, whatever the state of the chooser.
pub open spec fn resolves_by<G>(
    resolve: spec_fn(char, G) -> Option<(Seq<char>, G)>,
    rules: Map<char, Seq<char>>,
) -> bool {
    forall|symbol: char, state: G|
        match #[trigger] resolve(symbol, state) {
            Some((body, _)) => rules.contains_key(symbol) && body == rules[symbol],
            None => !rules.contains_key(symbol),
        }
}

/// A resolver that leaves no choice rewrites as its table does, whatever
/// the state of the chooser.
pub proof fn lemma_rewrite_resolved<G>(
    resolve: spec_fn(char, G) -> Option<(Seq<char>, G)>,
    rules: Map<char, Seq<char>>,
    word: Seq<char>,
    state: G,
)
    requires
        resolves_by(resolve, rules),
    ensures
        rewrite_resolving(resolve, word, state).0 == rewrite(rules, word),
    decreases word.len(),
{
    if word.len() > 0 {
        lemma_rewrite_resolved(resolve, rules, word.drop_last(), state);
        let (front, reached) = rewrite_resolving(resolve, word.drop_last(), state);
        assert(resolve(word.last(), reached) is Some <==> rules.contains_key(word.last()));
        assert(rewrite_resolving(resolve, word, state).0 =~= rewrite(rules, word));
    }
}

/// A resolver that leaves no choice expands as its table does, whatever
/// the state of the chooser.
pub proof fn lemma_expand_resolved<G>(
    resolve: spec_fn(char, G) -> Option<(Seq<char>, G)>,
    rules: Map<char, Seq<char>>,
    word: Seq<char>,
    depth: nat,
    state: G,
)
    requires
        resolves_by(resolve, rules),
    ensures
        expand_resolving(resolve, word, depth, state).0 == expand(rules, word, depth),
    decreases depth,
{
    if depth > 0 {
        lemma_expand_resolved(resolve, rules, word, (depth - 1) as nat, state);
        let (reached, later) = expand_resolving(resolve, word, (depth - 1) as nat, state);
        lemma_rewrite_resolved(resolve, rules, reached, later);
    }
}

} // verus!
