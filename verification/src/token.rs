//! Token identifiers and the candidates built from them.

use vstd::prelude::*;

pub mod data;
pub mod data_array;

verus! {

/// The identifier of one token of a vocabulary.
#[derive(Clone, Copy, Debug, PartialEq, Eq, Structural, Hash)]
pub struct LlamaToken(pub i32);

impl LlamaToken {
    /// Wraps a raw identifier.
    pub fn new(id: i32) -> (token: Self)
        ensures
            token.0 == id,
    {
        LlamaToken(id)
    }
}

} // verus!
