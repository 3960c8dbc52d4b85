//! The report of a batch: how many groups were merged, skipped and failed,
//! and which failures there were.

use crate::error::MergeError;
use crate::persist::DeleteFailure;
use crate::persist::GroupResult;
use vstd::prelude::*;

verus! {

/// How handling the group with phone number `phone` ended.
#[derive(Debug, PartialEq, Eq)]
pub struct TaskOutcome {
    pub phone: String,
    pub result: GroupResult,
    /// The deletes that failed after the master was replaced.
    pub delete_failures: Vec<DeleteFailure>,
}

/// What a [`TaskOutcome`] is.
#[verifier::ext_equal]
pub ghost struct TaskOutcomeView {
    pub phone: Seq<char>,
    pub result: GroupResult,
    pub delete_failures: Seq<DeleteFailure>,
}

impl View for TaskOutcome {
    type V = TaskOutcomeView;

    open spec fn view(&self) -> TaskOutcomeView {
        TaskOutcomeView {
            phone: self.phone@,
            result: self.result,
            delete_failures: self.delete_failures@,
        }
    }
}

/// A group that failed.
#[derive(Debug, PartialEq, Eq)]
pub struct Failure {
    pub phone: String,
    pub error: MergeError,
}

/// A record that was left behind after its group was merged.
#[derive(Debug, PartialEq, Eq)]
pub struct FailedDelete {
    pub phone: String,
    pub id: u128,
    pub error: MergeError,
}

/// What a [`Failure`] is.
pub ghost struct FailureView {
    pub phone: Seq<char>,
    pub error: MergeError,
}

/// What a [`FailedDelete`] is.
pub ghost struct FailedDeleteView {
    pub phone: Seq<char>,
    pub id: u128,
    pub error: MergeError,
}

impl View for Failure {
    type V = FailureView;

    open spec fn view(&self) -> FailureView {
        FailureView { phone: self.phone@, error: self.error }
    }
}

impl View for FailedDelete {
    type V = FailedDeleteView;

    open spec fn view(&self) -> FailedDeleteView {
        FailedDeleteView { phone: self.phone@, id: self.id, error: self.error }
    }
}

/// The report of a batch.
#[derive(Debug, PartialEq, Eq)]
pub struct BatchReport {
    /// The groups whose master was replaced by the merged record.
    pub merged: usize,
    /// The groups that had no record left.
    pub skipped_empty: usize,
    /// The groups that failed.
    pub failed: usize,
    /// The groups that failed, each with its error, in the order in which
    /// they ended.
    pub failures: Vec<Failure>,
    /// The records that could not be deleted after their group was merged.
    pub delete_failures: Vec<FailedDelete>,
}

/// What a [`BatchReport`] is.
#[verifier::ext_equal]
pub ghost struct BatchReportView {
    pub merged: nat,
    pub skipped_empty: nat,
    pub failed: nat,
    pub failures: Seq<FailureView>,
    pub delete_failures: Seq<FailedDeleteView>,
}

impl View for BatchReport {
    type V = BatchReportView;

    open spec fn view(&self) -> BatchReportView {
        BatchReportView {
            merged: self.merged as nat,
            skipped_empty: self.skipped_empty as nat,
            failed: self.failed as nat,
            failures: Seq::new(self.failures@.len(), |i: int| self.failures@[i]@),
            delete_failures: Seq::new(
                self.delete_failures@.len(),
                |i: int| self.delete_failures@[i]@,
            ),
        }
    }
}

/// The failed deletes of a group, each with the group's phone number.
pub open spec fn deletes_of(phone: Seq<char>, failures: Seq<DeleteFailure>) -> Seq<
    FailedDeleteView,
> {
    Seq::new(
        failures.len(),
        |i: int| FailedDeleteView { phone, id: failures[i].id, error: failures[i].error },
    )
}

impl BatchReportView {
    /// The report of a batch without groups.
    pub open spec fn empty() -> BatchReportView {
        BatchReportView {
            merged: 0,
            skipped_empty: 0,
            failed: 0,
            failures: Seq::empty(),
            delete_failures: Seq::empty(),
        }
    }

    /// The number of groups that the report counts.
    pub open spec fn total(self) -> nat {
        self.merged + self.skipped_empty + self.failed
    }

    /// The report after one more group ended. A group that failed because it
    /// was empty counts as skipped.
    pub open spec fn counting(self, outcome: TaskOutcomeView) -> BatchReportView {
        let deletes = self.delete_failures + deletes_of(outcome.phone, outcome.delete_failures);
        match outcome.result {
            GroupResult::Merged => BatchReportView {
                merged: self.merged + 1,
                skipped_empty: self.skipped_empty,
                failed: self.failed,
                failures: self.failures,
                delete_failures: deletes,
            },
            GroupResult::SkippedEmpty => BatchReportView {
                merged: self.merged,
                skipped_empty: self.skipped_empty + 1,
                failed: self.failed,
                failures: self.failures,
                delete_failures: deletes,
            },
            GroupResult::Failed(error) => if error.is_failure() {
                BatchReportView {
                    merged: self.merged,
                    skipped_empty: self.skipped_empty,
                    failed: self.failed + 1,
                    failures: self.failures.push(FailureView { phone: outcome.phone, error }),
                    delete_failures: deletes,
                }
            } else {
                BatchReportView {
                    merged: self.merged,
                    skipped_empty: self.skipped_empty + 1,
                    failed: self.failed,
                    failures: self.failures,
                    delete_failures: deletes,
                }
            },
        }
    }
}

/// The report of the groups that ended with `outcomes`, in that order.
pub open spec fn report_of(outcomes: Seq<TaskOutcomeView>) -> BatchReportView
    decreases outcomes.len(),
{
    if outcomes.len() == 0 {
        BatchReportView::empty()
    } else {
        report_of(outcomes.drop_last()).counting(outcomes.last())
    }
}

/// A report counts each group once.
pub proof fn lemma_report_counts_every_group(outcomes: Seq<TaskOutcomeView>)
    ensures
        report_of(outcomes).total() == outcomes.len(),
        report_of(outcomes).failed == report_of(outcomes).failures.len(),
    decreases outcomes.len(),
{
    if outcomes.len() > 0 {
        lemma_report_counts_every_group(outcomes.drop_last());
    }
}

impl BatchReport {
    /// The report of a batch without groups.
    pub fn new() -> (report: BatchReport)
        ensures
            report@ == BatchReportView::empty(),
    {
        let report = BatchReport {
            merged: 0,
            skipped_empty: 0,
            failed: 0,
            failures: Vec::new(),
            delete_failures: Vec::new(),
        };
        assert(report@.failures =~= Seq::empty());
        assert(report@.delete_failures =~= Seq::empty());
        report
    }

    /// The number of groups that the report counts.
    pub fn total(&self) -> (total: usize)
        requires
            self@.total() <= usize::MAX,
        ensures
            total == self@.total(),
    {
        self.merged + self.skipped_empty + self.failed
    }

    /// Notes how one more group ended.
    pub fn record(&mut self, outcome: TaskOutcome)
        requires
            old(self)@.total() < usize::MAX,
        ensures
            final(self)@ == old(self)@.counting(outcome@),
    {
        let ghost before = self@;
        let TaskOutcome { phone, result, delete_failures } = outcome;
        let mut i: usize = 0;
        while i < delete_failures.len()
            invariant
                i <= delete_failures.len(),
                self.merged == before.merged,
                self.skipped_empty == before.skipped_empty,
                self.failed == before.failed,
                self@.failures == before.failures,
                self@.delete_failures == before.delete_failures + deletes_of(
                    phone@,
                    delete_failures@,
                ).take(i as int),
            decreases delete_failures.len() - i,
        {
            let ghost earlier = self@.delete_failures;
            let failure = delete_failures[i];
            self.delete_failures.push(
                FailedDelete { phone: phone.clone(), id: failure.id, error: failure.error },
            );
            assert(self@.delete_failures =~= earlier.push(
                deletes_of(phone@, delete_failures@)[i as int],
            ));
            assert(self@.failures =~= before.failures);
            i += 1;
        }
        assert(deletes_of(phone@, delete_failures@).take(delete_failures.len() as int)
            =~= deletes_of(phone@, delete_failures@));
        let ghost deletes = self@.delete_failures;
        match result {
            GroupResult::Merged => {
                self.merged = self.merged + 1;
            },
            GroupResult::SkippedEmpty => {
                self.skipped_empty = self.skipped_empty + 1;
            },
            GroupResult::Failed(error) => {
                if error.counts_as_failure() {
                    self.failed = self.failed + 1;
                    let ghost earlier = self@.failures;
                    self.failures.push(Failure { phone, error });
                    assert(self@.failures =~= earlier.push(FailureView { phone: phone@, error }));
                } else {
                    self.skipped_empty = self.skipped_empty + 1;
                }
            },
        }
        assert(self@.delete_failures =~= deletes);
    }

    /// Whether there were groups and every one of them failed.
    pub fn every_group_failed(&self) -> (all: bool)
        ensures
            all == (self@.failed > 0 && self@.merged == 0 && self@.skipped_empty == 0),
    {
        self.failed > 0 && self.merged == 0 && self.skipped_empty == 0
    }
}

} // verus!
