//! The query language as functions from a text and a position in it to what stands
//! there.
//!
//! Positions count characters. Each function of the grammar says what is read, where
//! the reading ends, and, where the text does not fit, with which message and where it
//! stops.

pub mod clauses;
pub mod filters;
pub mod json;
pub mod lexical;
pub mod results;

use vstd::prelude::*;

verus! {

/// What becomes of an attempt to read something from a text.
pub enum Step<T> {
    /// It was read, and the next thing starts at `at`.
    Done { value: T, at: int },
    /// The text does not fit. The reading stops at `at`.
    Fail { message: Seq<char>, at: int },
}

impl<T> Step<T> {
    /// Where the reading ends.
    pub open spec fn end(self) -> int {
        match self {
            Step::Done { value, at } => at,
            Step::Fail { message, at } => at,
        }
    }

    /// Whether the reading ends in the text, at `from` or later.
    pub open spec fn ends_within(self, s: Seq<char>, from: int) -> bool {
        from <= self.end() <= s.len()
    }
}

impl<T> Step<Option<T>> {
    /// Whether a thing that was read took at least one character, and nothing was
    /// passed where there was none.
    pub open spec fn takes_something(self, from: int) -> bool {
        match self {
            Step::Done { value: Some(_), at } => from < at,
            Step::Done { value: None, at } => from == at,
            Step::Fail { .. } => true,
        }
    }
}

/// The later of two positions.
pub open spec fn later(a: int, b: int) -> int {
    if a < b {
        b
    } else {
        a
    }
}

} // verus!
