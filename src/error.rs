//! Why a clippings export was rejected.
use vstd::prelude::*;

verus! {

/// The three ways a record can fail to parse. Any of them rejects the whole export.
#[derive(Debug, Clone, Copy, PartialEq, Eq, Structural)]
pub enum ParseError {
    /// The record does not have the expected layout: a line, the author group,
    /// the location clause, a separator of the date clause or the blank line is missing.
    StructuralParseError,
    /// A location or date component is not a number of the expected width, or is
    /// out of range.
    NumericFormatError,
    /// The date names a month that is not in the month table.
    UnknownMonthError,
}

} // verus!
