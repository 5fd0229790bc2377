//! The seal of [`crate::table::TableHasher`].

use rustc_hash::FxHasher;
use std::collections::hash_map::RandomState;
use std::hash::BuildHasherDefault;
use vstd::prelude::*;

verus! {

/// Implemented for the hashers of the library's tables and, as nothing
/// outside the library can name it, for no other.
pub trait Sealed {

}

impl Sealed for RandomState {

}

impl Sealed for BuildHasherDefault<FxHasher> {

}

} // verus!
