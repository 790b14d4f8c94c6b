//! Translation of nucleotide sequences with IUPAC ambiguity codes into every
//! amino-acid sequence that the ambiguity allows.

pub mod args;
pub mod error;
pub mod order;
pub mod scanner;
pub mod solver;
