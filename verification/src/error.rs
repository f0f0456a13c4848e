//! The ways in which a partition run can fail before or besides input and output.

use vstd::prelude::*;
use vstd::string::*;

verus! {

/// A failure that the library itself reports.
#[derive(Clone, Copy, Debug, PartialEq, Eq, Structural)]
pub enum PartitionError {
    /// The column selection names no column, or more than one.
    KeyColumnCount,
    /// No collision counter is left to tell a new identifier from those in use.
    IdentifiersExhausted,
    /// The file name template does not hold exactly one placeholder.
    Template,
    /// The regex engine refused the pattern of the characters to strip.
    Pattern,
    /// A pool was asked to keep no destination open at all.
    NoCapacity,
}

impl PartitionError {
    /// The text that a user is shown for this failure.
    pub fn message(&self) -> (text: String)
        ensures
            text@ == match *self {
                PartitionError::KeyColumnCount => "can only partition on one column"@,
                PartitionError::IdentifiersExhausted => "Cannot generate unique value"@,
                PartitionError::Template => "The filename template must contain one '{}'."@,
                PartitionError::Pattern => "Cannot compile the pattern of unsafe characters"@,
                PartitionError::NoCapacity => "The number of open files must be at least one"@,
            },
    {
        match self {
            PartitionError::KeyColumnCount => String::from_str("can only partition on one column"),
            PartitionError::IdentifiersExhausted => String::from_str("Cannot generate unique value"),
            PartitionError::Template => String::from_str(
                "The filename template must contain one '{}'.",
            ),
            PartitionError::Pattern => String::from_str(
                "Cannot compile the pattern of unsafe characters",
            ),
            PartitionError::NoCapacity => String::from_str(
                "The number of open files must be at least one",
            ),
        }
    }
}

} // verus!
