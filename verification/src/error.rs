//! The failures an operation can report. Every variant is a plain value, so a
//! contract can say exactly which one comes back.

use vstd::prelude::*;

verus! {

/// Malformed input, found before anything is stored.
#[derive(Clone, Copy, Debug, PartialEq, Eq, Structural)]
pub enum ValidationError {
    /// The title has no characters.
    EmptyTitle,
    /// The title has more characters than the limit.
    TitleTooLong,
    /// The priority lies outside the accepted band.
    PriorityOutOfRange,
    /// The estimate is below zero.
    NegativeEstimate,
    /// The close time is present on an issue that is not closed, or absent on
    /// one that is.
    ClosedAtMismatch,
    /// The text names no status.
    InvalidStatus,
    /// The text names no issue type.
    InvalidIssueType,
    /// The text names no dependency type.
    InvalidDependencyType,
    /// The text names no event type.
    InvalidEventType,
}

/// Which referenced record does not exist.
#[derive(Clone, Copy, Debug, PartialEq, Eq, Structural)]
pub enum Missing {
    /// The issue the operation is about.
    Issue,
    /// The issue at the far end of a dependency edge.
    DependsOn,
}

/// The store itself cannot carry out the request.
#[derive(Clone, Copy, Debug, PartialEq, Eq, Structural)]
pub enum StorageFault {
    /// An issue with this identifier is already stored.
    DuplicateId,
    /// The counter of a prefix has reached its last number.
    CounterExhausted,
    /// The audit log has used up its identifiers.
    EventLogFull,
    /// The stored records do not fit together.
    Inconsistent,
}

/// Why an operation failed.
#[derive(Clone, Copy, Debug, PartialEq, Eq, Structural)]
pub enum TraceError {
    Validation(ValidationError),
    NotFound(Missing),
    Storage(StorageFault),
}

impl TraceError {
    /// The words for a failure.
    pub open spec fn text(self) -> Seq<char> {
        match self {
            TraceError::Validation(ValidationError::EmptyTitle) => "title is required"@,
            TraceError::Validation(ValidationError::TitleTooLong) => "title must be 500 characters or less"@,
            TraceError::Validation(ValidationError::PriorityOutOfRange) => "priority must be between 0 and 4"@,
            TraceError::Validation(ValidationError::NegativeEstimate) => "estimated_minutes cannot be negative"@,
            TraceError::Validation(ValidationError::ClosedAtMismatch) => "closed_at must be set exactly when the status is closed"@,
            TraceError::Validation(ValidationError::InvalidStatus) => "invalid status"@,
            TraceError::Validation(ValidationError::InvalidIssueType) => "invalid issue type"@,
            TraceError::Validation(ValidationError::InvalidDependencyType) => "invalid dependency type"@,
            TraceError::Validation(ValidationError::InvalidEventType) => "invalid event type"@,
            TraceError::NotFound(Missing::Issue) => "issue not found"@,
            TraceError::NotFound(Missing::DependsOn) => "depended-on issue not found"@,
            TraceError::Storage(StorageFault::DuplicateId) => "an issue with this id already exists"@,
            TraceError::Storage(StorageFault::CounterExhausted) => "the id counter is exhausted"@,
            TraceError::Storage(StorageFault::EventLogFull) => "the event log is full"@,
            TraceError::Storage(StorageFault::Inconsistent) => "the stored records do not fit together"@,
        }
    }

    /// A short description for people.
    pub fn message(&self) -> (r: &'static str)
        ensures
            r@ == self.text(),
    {
        match self {
            TraceError::Validation(ValidationError::EmptyTitle) => "title is required",
            TraceError::Validation(ValidationError::TitleTooLong) => "title must be 500 characters or less",
            TraceError::Validation(ValidationError::PriorityOutOfRange) => "priority must be between 0 and 4",
            TraceError::Validation(ValidationError::NegativeEstimate) => "estimated_minutes cannot be negative",
            TraceError::Validation(ValidationError::ClosedAtMismatch) => "closed_at must be set exactly when the status is closed",
            TraceError::Validation(ValidationError::InvalidStatus) => "invalid status",
            TraceError::Validation(ValidationError::InvalidIssueType) => "invalid issue type",
            TraceError::Validation(ValidationError::InvalidDependencyType) => "invalid dependency type",
            TraceError::Validation(ValidationError::InvalidEventType) => "invalid event type",
            TraceError::NotFound(Missing::Issue) => "issue not found",
            TraceError::NotFound(Missing::DependsOn) => "depended-on issue not found",
            TraceError::Storage(StorageFault::DuplicateId) => "an issue with this id already exists",
            TraceError::Storage(StorageFault::CounterExhausted) => "the id counter is exhausted",
            TraceError::Storage(StorageFault::EventLogFull) => "the event log is full",
            TraceError::Storage(StorageFault::Inconsistent) => "the stored records do not fit together",
        }
    }
}

} // verus!
