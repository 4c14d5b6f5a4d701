//! Exact arbitrary-precision arithmetic.
use vstd::prelude::*;

pub mod decimal;
pub mod display;
pub mod fraction;
pub mod gcd;
pub mod limbs;
pub mod literal;
pub mod rational;
pub mod uint;

verus! {

} // verus!
