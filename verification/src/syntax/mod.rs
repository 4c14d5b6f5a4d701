//! Lexer, syntax tree and parser.
//!
//! Three rules drive the whole grammar:
//!
//! * an identifier is always written `(name)`, and the text between the parens
//!   is raw, so names may contain spaces, punctuation and emoji;
//! * a literal is always written `'text'`, and its *type* comes from context, so
//!   `'1000'` is a number under `f16` and text under `str`;
//! * statements chain with `,` and one `end` closes the chain.
//!
//! Because `(...)` is opaque and `[...]` is print's value list, grouping is
//! `|...|`.
use vstd::prelude::*;

pub mod ast;
pub mod lexer;
pub mod parser;

verus! {

} // verus!
