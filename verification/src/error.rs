//! The failures that the dictionary's operations report.

use vstd::prelude::*;

verus! {

/// Why an operation on a dictionary did not produce a value.
#[derive(Debug, Clone, Copy, PartialEq, Eq, Structural)]
pub enum DictError {
    /// A line of the corpus does not hold an entry. `line` counts lines from
    /// zero; where a single line was parsed on its own it is zero.
    MalformedEntry { line: usize },
    /// The index builder refused a headword as a duplicate or out of order.
    DuplicateInsertion,
    /// A snapshot's bytes do not hold a dictionary.
    CorruptSnapshot,
    /// No search automaton could be made for the query and edit budget.
    InvalidQuery,
}

} // verus!
