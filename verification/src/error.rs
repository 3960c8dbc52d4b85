//! The ways in which handling one group can fail.

use vstd::prelude::*;

verus! {

/// Why a group was not merged, or why a request to the store failed.
#[derive(Debug, Clone, Copy, PartialEq, Eq, Structural)]
pub enum MergeError {
    /// No record with the group's phone number is left: the group was
    /// resolved since it was found.
    EmptyGroup,
    /// A record of the group has no timestamp to order it by.
    MissingTimestamp,
    /// The store could not be reached.
    StoreUnavailable,
    /// The record that a request names is gone.
    NotFound,
    /// The group took longer than it was given.
    Timeout,
}

impl MergeError {
    /// Whether a group that ended with this error counts as failed. An empty
    /// group is skipped, not failed.
    pub open spec fn is_failure(self) -> bool {
        self != MergeError::EmptyGroup
    }

    /// Whether the same group may succeed when it is tried again later.
    pub open spec fn is_transient(self) -> bool {
        self == MergeError::StoreUnavailable || self == MergeError::Timeout
    }

    /// Whether a group that ended with this error counts as failed.
    pub fn counts_as_failure(self) -> (failure: bool)
        ensures
            failure == self.is_failure(),
    {
        match self {
            MergeError::EmptyGroup => false,
            _ => true,
        }
    }

    /// Whether the same group may succeed when it is tried again later.
    pub fn may_retry(self) -> (retry: bool)
        ensures
            retry == self.is_transient(),
    {
        match self {
            MergeError::StoreUnavailable => true,
            MergeError::Timeout => true,
            _ => false,
        }
    }

    /// The name of the error kind.
    pub fn name(self) -> (name: &'static str)
        ensures
            name@ == match self {
                MergeError::EmptyGroup => "EmptyGroup"@,
                MergeError::MissingTimestamp => "MissingTimestamp"@,
                MergeError::StoreUnavailable => "StoreUnavailable"@,
                MergeError::NotFound => "NotFound"@,
                MergeError::Timeout => "Timeout"@,
            },
    {
        match self {
            MergeError::EmptyGroup => "EmptyGroup",
            MergeError::MissingTimestamp => "MissingTimestamp",
            MergeError::StoreUnavailable => "StoreUnavailable",
            MergeError::NotFound => "NotFound",
            MergeError::Timeout => "Timeout",
        }
    }
}

} // verus!
