use vstd::prelude::*;

use crate::solver::{Base, Chain};

verus! {

/// The ways a translation can fail.
#[derive(Debug, Clone, Copy, PartialEq, Eq, Structural)]
pub enum FactoringError {
    /// A fourth base was inserted into a chain that already holds three.
    AttemptedInsertionOnFullChain(Chain, Base),
    /// A chain was translated before all three of its bases were present.
    FinaliseCalledOnIncompleteChain(Chain),
    /// A letter is none of the recognised nucleotide or ambiguity codes.
    LetterNotAmbiguousBase(char),
}

pub type FResult<T> = Result<T, FactoringError>;

} // verus!
