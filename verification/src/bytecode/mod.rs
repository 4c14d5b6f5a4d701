//! The bytecode: value types and typed instructions.
use vstd::prelude::*;

pub mod chunk;
pub mod format;
pub mod half;
pub mod listing;
pub mod op;
pub mod readback;
pub mod serialize;
pub mod value;

verus! {

} // verus!
