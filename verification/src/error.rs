//! The ways in which a text can fail to be a document.

use vstd::prelude::*;

verus! {

/// Why a text is no document. Positions count characters from the start of
/// the text.
#[derive(Clone, Copy, Debug, PartialEq, Eq, Structural)]
pub enum ParseError {
    /// The text does not fit the grammar: `position` is where it stops
    /// fitting.
    Syntax { position: usize },
    /// The text holds a table, and something other than whitespace after it,
    /// from `position` on.
    TrailingData { position: usize },
    /// The text starts with a number or a string where a table is required.
    NonObject,
}

} // verus!
