use vstd::prelude::*;

pub mod circuit;
pub mod columns;
pub mod completeness;
pub mod constraints;
pub mod degree;
pub mod field;
pub mod keccak_stark;
pub mod limbs;
pub mod logic;
pub mod permutation;
pub mod round;
pub mod table_laws;
pub mod tamper;

pub use columns::{NUM_COLUMNS, NUM_PUBLIC_INPUTS};
pub use constraints::Residuals;
pub use keccak_stark::KeccakStark;
pub use permutation::{NUM_INPUTS, NUM_ROUNDS};

verus! {

} // verus!
