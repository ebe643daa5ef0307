//! RegexLR: a grammar builder and matcher for regular-expression-like
//! grammars with unordered choice, backed by append-only pools.

pub mod bitset;
pub mod error;
pub mod failure;
pub mod grammar;
pub mod key;
pub mod language;
pub mod matcher;
pub mod pool;
pub mod semantics;
mod index;
mod probe;

pub use error::Error;
