//! A small postfix (reverse-Polish) stack language: an interpreter state owns
//! a data stack of signed integers and a dictionary of user-defined words, and
//! evaluates one line of whitespace-separated tokens at a time.
//!
//! The observable behaviour of every operation is pinned down by a
//! mathematical evaluator over sequences of tokens (`semantics`), and the
//! executable interpreter (`interp`) is proved to match it.

pub mod errors;
pub mod numbers;
pub mod tokenizer;
pub mod semantics;
pub mod interp;
pub mod laws;

use vstd::prelude::*;

verus! {

pub use errors::LangError;
pub use interp::LangState;

} // verus!
