//! Batch outcome aggregation: every CPU in a list is attempted exactly once,
//! failures are collected without stopping the batch, and the overall result
//! distinguishes full success, partial success and outright failure.

use vstd::prelude::*;
use crate::errors::ChCpuError;

verus! {

/// The two facts a running batch maintains: whether any application
/// succeeded so far, and the first error encountered, if any.
#[derive(Debug, Clone, PartialEq, Eq)]
pub struct BatchAccumulator {
    pub success_occurred: bool,
    pub first_error: Option<ChCpuError>,
}

/// The overall result of a completed batch.
#[derive(Debug, Clone, PartialEq, Eq)]
pub enum BatchOutcome {
    /// No application failed.
    Success,
    /// Some applications failed, but at least one succeeded.
    PartialSuccess,
    /// Every application failed; carries the first error.
    Failure(ChCpuError),
}

impl BatchAccumulator {
    pub fn new() -> (r: BatchAccumulator)
        ensures
            r.success_occurred == false,
            r.first_error is None,
    {
        BatchAccumulator { success_occurred: false, first_error: None }
    }

    /// Folds in the result of one per-CPU application: a success is
    /// remembered forever, and only the first error is kept.
    pub fn record(&mut self, result: Result<(), ChCpuError>)
        ensures
            final(self).success_occurred == (old(self).success_occurred || result is Ok),
            final(self).first_error == (if old(self).first_error is Some {
                old(self).first_error
            } else {
                match result {
                    Ok(_) => None::<ChCpuError>,
                    Err(e) => Some(e),
                }
            }),
    {
        match result {
            Ok(_) => {
                self.success_occurred = true;
            },
            Err(e) => {
                if self.first_error.is_none() {
                    self.first_error = Some(e);
                }
            },
        }
    }

    /// The overall outcome once the whole list was attempted: success when
    /// nothing failed, partial success when failures and at least one
    /// success met, and the first error when nothing succeeded.
    pub fn finish(self) -> (r: BatchOutcome)
        ensures
            match self.first_error {
                None => r == BatchOutcome::Success,
                Some(e) => if self.success_occurred {
                    r == BatchOutcome::PartialSuccess
                } else {
                    r == BatchOutcome::Failure(e)
                },
            },
    {
        match self.first_error {
            None => BatchOutcome::Success,
            Some(e) => if self.success_occurred {
                BatchOutcome::PartialSuccess
            } else {
                BatchOutcome::Failure(e)
            },
        }
    }
}

impl BatchOutcome {
    /// The process exit status: zero for success, the distinct partial
    /// success status, and one for any other failure.
    pub fn exit_code(&self) -> (c: i32)
        ensures
            match self {
                BatchOutcome::Success => c == 0,
                BatchOutcome::PartialSuccess => c == 64,
                BatchOutcome::Failure(_) => c == 1,
            },
    {
        match self {
            BatchOutcome::Success => 0,
            BatchOutcome::PartialSuccess => 64,
            BatchOutcome::Failure(_) => 1,
        }
    }
}

} // verus!
