//! An assembler for the Hack 16-bit machine language: symbolic lines in,
//! 16-character binary words out.
use vstd::prelude::*;

pub mod binary;
pub mod codes;
pub mod generator;
pub mod instruction;
pub mod parser;
pub mod symbol;
pub mod text;

verus! {

} // verus!
