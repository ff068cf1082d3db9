//! A compiler and a stack machine for a small scripting language: literals,
//! global and local variables, assignments, and calls with one argument.
//!
//! [`lex`] turns source bytes into tokens, [`parse`] turns tokens into
//! [`bytecode`] over a pool of constant [`value`]s, and [`vm`] runs it.
//! [`safety`] shows that what the compiler emits, the machine can run.

pub mod bytecode;
pub mod lex;
pub mod number;
pub mod parse;
pub mod safety;
pub mod text;
pub mod value;
pub mod vm;
