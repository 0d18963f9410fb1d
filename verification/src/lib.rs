//! Front half of a small Scheme-like language: a lexer that turns source
//! text into tokens, a parser that groups balanced forms into expression
//! trees, a compiler that lowers expressions into flat bytecode chunks, and
//! a virtual machine that executes those chunks against a global binding
//! table and a fixed registry of native procedures.
//!
//! Every stage carries a mathematical model (a `spec` function over
//! sequences of characters, tokens, expressions or instructions), and each
//! executable entry point is proved to return exactly what its model says.
use vstd::prelude::*;

pub mod ast;
pub mod compiler;
pub mod laws;
pub mod lexer;
pub mod native;
pub mod value;
pub mod vm;

verus! {

} // verus!
