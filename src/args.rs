use vstd::prelude::*;

verus! {

/// The command line: one nucleotide sequence.
pub struct Args {
    pub sequence: String,
}

} // verus!
