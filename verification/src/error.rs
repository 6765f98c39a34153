//! What reading a store or editing its lists can fail on.

use vstd::prelude::*;

verus! {

/// Why a store's text was not read, or an edit not made.
#[derive(Clone, Copy, Debug, PartialEq, Eq, Structural)]
pub enum Error {
    /// A category line names a colour that is none of the eight.
    InvalidColor,
    /// A category line's probability is no numeral, or its value lies outside 0 to 1.
    InvalidProbability,
    /// A task line's deadline is neither `none` nor a minute of the calendar, written
    /// as four digits of the year, two of the month, two of the day, two of the hour
    /// and two of the minute.
    InvalidDeadline,
    /// The category `Unclassified` was to be deleted.
    ProtectedCategory,
}

/// The first line on which reading a store failed, and why.
#[derive(Clone, Copy, Debug, PartialEq, Eq, Structural)]
pub struct ParseError {
    /// Why the line was refused.
    pub kind: Error,
    /// The line's place among the lines of the text, counted from 0.
    pub line: usize,
}

} // verus!
