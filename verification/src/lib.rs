//! Luarus: an explicitly typed little language, its exact arithmetic, its
//! object heap, its diagnostics and its bytecode.
pub mod bytecode;
pub mod compile;
pub mod diag;
pub mod generator;
pub mod heap;
pub mod interp;
pub mod num;
pub mod rng;
pub mod rule;
pub mod syntax;
pub mod text;
pub mod vm;
