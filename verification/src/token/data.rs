//! One candidate.

use crate::scalar::{Scalar, ONE_CODE};
use crate::token::LlamaToken;
use vstd::prelude::*;

verus! {

/// One candidate for the next token: its identifier, its raw score and the
/// probability derived from it. The probability means something only after a
/// stage that normalises has run.
#[derive(Clone, Copy, Debug, PartialEq, Eq, Structural)]
pub struct LlamaTokenData {
    pub id: LlamaToken,
    pub logit: Scalar,
    pub p: Scalar,
}

impl LlamaTokenData {
    /// A candidate from its three parts.
    pub fn new(id: LlamaToken, logit: Scalar, p: Scalar) -> (data: Self)
        ensures
            data.id == id,
            data.logit == logit,
            data.p == p,
    {
        LlamaTokenData { id, logit, p }
    }

    /// The token's identifier.
    pub fn id(&self) -> (id: LlamaToken)
        ensures
            id == self.id,
    {
        self.id
    }

    /// The raw score.
    pub fn logit(&self) -> (logit: Scalar)
        ensures
            logit == self.logit,
    {
        self.logit
    }

    /// The probability.
    pub fn p(&self) -> (p: Scalar)
        ensures
            p == self.p,
    {
        self.p
    }

    /// Whether the candidate is proper: its token number is not below zero, and
    /// its probability lies between zero and one.
    pub open spec fn proper(self) -> bool {
        &&& self.id.0 >= 0
        &&& 0 <= self.p.code() <= ONE_CODE
    }

    /// Whether the candidate is proper.
    pub fn is_proper(&self) -> (yes: bool)
        ensures
            yes == self.proper(),
    {
        let p = self.p.order_key();
        self.id.0 >= 0 && 0 <= p && p <= ONE_CODE
    }

    /// The integer by which the candidate's score is ordered.
    pub open spec fn rank(self) -> int {
        self.logit.code()
    }
}

} // verus!
