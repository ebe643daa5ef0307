//! Compilation and matching errors for RegexLR parsers.

use crate::grammar::{Alternation, Slot};
use crate::pool::Ind;
use vstd::prelude::*;

verus! {

/// Errors that a RegexLR grammar may encounter
#[derive(Clone, Copy, Debug)]
pub enum Error {
    /// Input does not match grammar
    InputDoesNotMatch {
        /// location of furthest partial match
        location: usize,
    },
    /// Grammar has no start rule
    MissingStart,
    /// Grammar missing called non-terminal
    MissingRule { ind: Ind<Slot<Alternation>> },
}

} // verus!
