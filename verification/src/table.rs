//! Rule tables: hash maps keyed by symbol.
//!
//! The tables are `std::collections::HashMap`s, with the standard hasher or
//! with the one of `rustc_hash`. What a table holds is its view, a
//! `Map<char, _>`. Three functions here say how reading, writing and
//! walking a table relate to that view; they are where the library trusts
//! the hash map.

use crate::sealed::Sealed;
use rustc_hash::FxHasher;
use std::collections::hash_map::{Keys, RandomState};
use std::collections::HashMap;
use std::hash::{BuildHasher, BuildHasherDefault};
use vstd::prelude::*;
use vstd::std_specs::hash::{into_iter_keys, spec_keys_iter};
use vstd::std_specs::iter::IteratorSpec;

verus! {

/// `rustc_hash::FxHasher`, the hasher of an `FxHashMap`: an opaque type.
#[verifier::external_type_specification]
#[verifier::external_body]
pub struct ExFxHasher(FxHasher);

/// `std::hash::BuildHasherDefault`, which gives a map a hasher made by
/// `Default`: an opaque type.
#[verifier::external_type_specification]
#[verifier::external_body]
#[verifier::reject_recursive_types(H)]
pub struct ExBuildHasherDefault<H>(BuildHasherDefault<H>);

/// The hashers of the library's tables: the standard one, and the one of
/// `rustc_hash`. Both hash equal symbols alike, every time, which is what a
/// hash map needs of its hasher. No other type can be given this trait.
pub trait TableHasher: BuildHasher + Sealed {

}

impl TableHasher for RandomState {

}

impl TableHasher for BuildHasherDefault<FxHasher> {

}

/// The deterministic rule table that a map from symbols to texts stands for.
pub open spec fn rule_model<T: View<V = Seq<char>>>(table: Map<char, T>) -> Map<char, Seq<char>> {
    table.map_values(|text: T| text@)
}

/// The table that a list of rules builds up, a later rule for a symbol
/// replacing an earlier one.
pub open spec fn table_of<T: View<V = Seq<char>>>(pairs: Seq<(char, T)>) -> Map<char, Seq<char>>
    decreases pairs.len(),
{
    if pairs.len() == 0 {
        Map::empty()
    } else {
        table_of(pairs.drop_last()).insert(pairs.last().0, pairs.last().1@)
    }
}

/// Reads the entry of `symbol`.
///
/// Trusted: this is `HashMap::get` with a `char` key. The contract states what
/// the standard library documents: the value stored under a key equal to
/// `symbol`, or `None` where the map holds no such key.
#[verifier::external_body]
pub(crate) fn lookup<'a, V, S: TableHasher>(table: &'a HashMap<char, V, S>, symbol: char) -> (found:
    Option<&'a V>)
    ensures
        table@.contains_key(symbol) ==> found == Some(&table@[symbol]),
        !table@.contains_key(symbol) ==> found is None,
{
    table.get(&symbol)
}

/// Stores `value` under `symbol`, replacing what was stored there.
///
/// Trusted: this is `HashMap::insert` with a `char` key. The contract states
/// what the standard library documents: afterwards the map holds `value`
/// under `symbol` and is otherwise unchanged.
#[verifier::external_body]
pub(crate) fn store<V, S: TableHasher>(table: &mut HashMap<char, V, S>, symbol: char, value: V)
    ensures
        final(table)@ == old(table)@.insert(symbol, value),
{
    table.insert(symbol, value);
}

/// Walks the symbols that have an entry, in the order of the table.
///
/// Trusted: this is `HashMap::keys` with a `char` key. The contract states
/// that the iterator which comes back is the one by which `vstd` describes
/// `keys`: as the standard library documents, it visits every key of the map
/// once and nothing else, in no order that is stated.
#[verifier::external_body]
pub(crate) fn keys_of<'a, V, S: TableHasher>(table: &'a HashMap<char, V, S>) -> (keys: Keys<
    'a,
    char,
    V,
>)
    ensures
        keys == spec_keys_iter(table),
        IteratorSpec::decrease(&keys) is Some,
        IteratorSpec::initial_value_relation(&keys, &keys),
{
    table.keys()
}

/// The symbols that a walk of `table` visits, in the order of the walk.
pub(crate) open spec fn walked_keys<V, S>(table: &HashMap<char, V, S>) -> Seq<char> {
    into_iter_keys(spec_keys_iter(table))
}

/// A walk visits every symbol that has an entry once, and nothing else.
pub(crate) proof fn lemma_walked_keys<'a, V, S>(
    table: &'a HashMap<char, V, S>,
    keys: Keys<'a, char, V>,
)
    requires
        keys == spec_keys_iter(table),
        IteratorSpec::initial_value_relation(&keys, &keys),
    ensures
        walked_keys(table) == keys.remaining().unref(),
        walked_keys(table).no_duplicates(),
        forall|symbol: char| table@.contains_key(symbol) <==> walked_keys(table).contains(symbol),
{
    broadcast use vstd::std_specs::hash::axiom_spec_keys_iter;

    let refs = keys.remaining();
    let walked = walked_keys(table);
    assert(walked.to_set() == table@.dom());
    assert forall|i: int, j: int|
        0 <= i < walked.len() && 0 <= j < walked.len() && i != j implies walked[i] != walked[j] by {
        assert(refs[i] != refs[j]);
    }
    assert forall|symbol: char| table@.contains_key(symbol) <==> walked.contains(symbol) by {
        assert(walked.to_set().contains(symbol) <==> walked.contains(symbol));
    }
}

} // verus!
