//! Lindenmayer systems: string rewriting, eager and lazy.
//!
//! An L-system rewrites a word, its axiom, a number of rounds. Every round
//! replaces each symbol that has a rule by the rule's right-hand side, all
//! symbols at once. The word grows exponentially with the number of rounds.
//!
//! * [`LSystem`] and [`LSystemStochastic`] hold a grammar and write its word
//!   at a given depth to a `String`.
//! * [`LSystemBuilder`] and [`LSystemBuilderStochastic`] hand the word out
//!   symbol by symbol instead. They walk the derivation tree depth first with
//!   one cursor per level, so they need memory in proportion to the depth
//!   and not to the length of the word.
//!
//! What the functions compute is stated over the mathematical definitions of
//! [`rewriting`] and [`derivation`], and proved.

pub mod builder;
pub mod choice;
pub mod derivation;
pub mod eager;
pub mod layers;
pub mod rewriting;
pub mod rng;
mod sealed;
pub mod stochastic;
pub mod table;
pub mod text;
pub mod writer;

pub use builder::{LSystem, LSystemBuilder};
pub use stochastic::{LSystemBuilderStochastic, LSystemStochastic};
