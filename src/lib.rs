//! Counting the placements of n non-attacking queens on an n-by-n board through
//! a boolean satisfiability oracle: the constraint encoding, the decoding of a
//! satisfying assignment, the folding of board symmetries and the decisions of
//! the enumeration loop, each with its contract.
pub mod formula;
pub mod lines;
pub mod constraints;
pub mod symmetry;
pub mod decode;
pub mod enumerate;
pub mod oracle;
