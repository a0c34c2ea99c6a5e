//! Why an operation could not be planned.
use vstd::prelude::*;

verus! {

/// The failures of planning an operation.
#[derive(Debug, Clone, Copy, PartialEq, Eq, Structural)]
pub enum OrganizeError {
    /// Every numbered variant of a destination name was already taken.
    ConflictResolutionExhausted,
    /// A file's creation or modification time was not available.
    MissingTimestamp,
    /// A file's time lies outside the calendar that can be named.
    TimestampOutOfRange,
}

} // verus!
