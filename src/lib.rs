//! A single-pass scanner for a TOML-like configuration format.
//!
//! [`Lex::scan`] turns the text into a flat stream of [`Symbol`]s, each a kind
//! and a byte span, or stops at the first lexical error.  What the stream is
//! for every input is stated by the spec functions of [`grammar`].
pub mod grammar;
pub mod laws;
mod lex;
mod read;
mod search;
mod symbol;

pub use crate::lex::Lex;
pub use crate::read::{Read, StrRead};
pub use crate::symbol::{Error, Span, Sym, Symbol};
