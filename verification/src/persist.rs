//! Writing one merge to the store: the master is replaced first, then the
//! other records are deleted one at a time. A delete that fails is noted and
//! the next one is tried; a replacement that fails ends the group.
//!
//! [`Persistence`] decides what to ask of the store next and what an answer
//! means. Whoever talks to the store runs the loop; [`persist`] runs it on a
//! store held in memory.

use crate::error::MergeError;
use crate::merger::merge_of;
use crate::merger::MergeOutcome;
use crate::merger::MergeOutcomeView;
use crate::record::Record;
use crate::record::RecordView;
use crate::store::lemma_replaced_keeps_ids_distinct;
use crate::store::lemma_without_keeps_ids_distinct;
use crate::store::replaced;
use crate::store::with_phone;
use crate::store::without;
use crate::store::Store;
use vstd::prelude::*;

verus! {

/// What is asked of the store.
#[derive(Debug, PartialEq, Eq)]
pub enum StoreRequest {
    /// Put `document` in the place of the record with its identifier; with
    /// `upsert`, add it where that record is gone.
    Replace { document: Record, upsert: bool },
    /// Delete the record with this identifier.
    Delete { id: u128 },
}

/// What a [`StoreRequest`] is.
pub ghost enum StoreRequestView {
    Replace { document: RecordView, upsert: bool },
    Delete { id: u128 },
}

impl View for StoreRequest {
    type V = StoreRequestView;

    open spec fn view(&self) -> StoreRequestView {
        match self {
            StoreRequest::Replace { document, upsert } => StoreRequestView::Replace {
                document: document@,
                upsert: *upsert,
            },
            StoreRequest::Delete { id } => StoreRequestView::Delete { id: *id },
        }
    }
}

/// How handling one group ended.
#[derive(Debug, Clone, Copy, PartialEq, Eq, Structural)]
pub enum GroupResult {
    /// The master was replaced by the merged record.
    Merged,
    /// The group had no record left.
    SkippedEmpty,
    /// The group failed with this error.
    Failed(MergeError),
}

impl GroupResult {
    /// How a group ended that could not be merged: skipped where it was
    /// empty, failed otherwise.
    pub open spec fn of_error(error: MergeError) -> GroupResult {
        if error.is_failure() {
            GroupResult::Failed(error)
        } else {
            GroupResult::SkippedEmpty
        }
    }

    /// How a group ended that could not be merged: skipped where it was
    /// empty, failed otherwise.
    pub fn from_error(error: MergeError) -> (result: GroupResult)
        ensures
            result == GroupResult::of_error(error),
    {
        if error.counts_as_failure() {
            GroupResult::Failed(error)
        } else {
            GroupResult::SkippedEmpty
        }
    }
}

/// A record that could not be deleted after its group was merged.
#[derive(Debug, Clone, Copy, PartialEq, Eq, Structural)]
pub struct DeleteFailure {
    pub id: u128,
    pub error: MergeError,
}

/// How far the writing of one merge has come.
#[verifier::ext_equal]
pub ghost struct PersistenceView {
    /// The merge that is written.
    pub outcome: MergeOutcomeView,
    /// Whether the store has confirmed the replacement of the master.
    pub master_written: bool,
    /// How many deletes the store has answered.
    pub deletes_answered: nat,
    /// The error with which the replacement failed.
    pub failure: Option<MergeError>,
    /// The deletes that failed.
    pub delete_failures: Seq<DeleteFailure>,
}

impl PersistenceView {
    /// The state before anything was asked.
    pub open spec fn start(outcome: MergeOutcomeView) -> PersistenceView {
        PersistenceView {
            outcome,
            master_written: false,
            deletes_answered: 0,
            failure: None,
            delete_failures: Seq::empty(),
        }
    }

    /// Whether nothing is left to ask: the replacement failed, or the master
    /// was replaced and every delete was answered.
    pub open spec fn finished(self) -> bool {
        self.failure is Some || (self.master_written && self.deletes_answered
            >= self.outcome.to_delete.len())
    }

    /// What to ask next: the replacement of the master, with upsert, until it
    /// is confirmed; then the deletes in their order.
    pub open spec fn request(self) -> Option<StoreRequestView> {
        if self.finished() {
            None
        } else if !self.master_written {
            Some(StoreRequestView::Replace { document: self.outcome.merged_record, upsert: true })
        } else {
            Some(StoreRequestView::Delete { id: self.outcome.to_delete[self.deletes_answered as int] })
        }
    }

    /// The state after the store answered the pending request. A failed
    /// replacement ends the group. A delete that did not find its record
    /// counts as done; one that failed otherwise is noted, and the next
    /// delete follows.
    pub open spec fn after(self, reply: Result<(), MergeError>) -> PersistenceView {
        if self.finished() {
            self
        } else if !self.master_written {
            if reply is Ok {
                self.with_master_written()
            } else {
                self.with_failure(reply->Err_0)
            }
        } else if reply is Ok || reply->Err_0 == MergeError::NotFound {
            self.with_delete_answered()
        } else {
            self.with_delete_failed(reply->Err_0)
        }
    }

    /// The state once the replacement of the master is confirmed.
    pub open spec fn with_master_written(self) -> PersistenceView {
        PersistenceView {
            outcome: self.outcome,
            master_written: true,
            deletes_answered: self.deletes_answered,
            failure: self.failure,
            delete_failures: self.delete_failures,
        }
    }

    /// The state once the replacement of the master has failed.
    pub open spec fn with_failure(self, error: MergeError) -> PersistenceView {
        PersistenceView {
            outcome: self.outcome,
            master_written: self.master_written,
            deletes_answered: self.deletes_answered,
            failure: Some(error),
            delete_failures: self.delete_failures,
        }
    }

    /// The state once the pending delete is done.
    pub open spec fn with_delete_answered(self) -> PersistenceView {
        PersistenceView {
            outcome: self.outcome,
            master_written: self.master_written,
            deletes_answered: self.deletes_answered + 1,
            failure: self.failure,
            delete_failures: self.delete_failures,
        }
    }

    /// The state once the pending delete has failed.
    pub open spec fn with_delete_failed(self, error: MergeError) -> PersistenceView {
        PersistenceView {
            outcome: self.outcome,
            master_written: self.master_written,
            deletes_answered: self.deletes_answered + 1,
            failure: self.failure,
            delete_failures: self.delete_failures.push(
                DeleteFailure { id: self.outcome.to_delete[self.deletes_answered as int], error },
            ),
        }
    }

    /// How the group ended: failed where the replacement failed, merged
    /// otherwise.
    pub open spec fn result(self) -> GroupResult {
        match self.failure {
            Some(error) => GroupResult::Failed(error),
            None => GroupResult::Merged,
        }
    }
}

/// The writing of one merge, step by step.
#[derive(Debug)]
pub struct Persistence {
    outcome: MergeOutcome,
    master_written: bool,
    deletes_answered: usize,
    failure: Option<MergeError>,
    delete_failures: Vec<DeleteFailure>,
}

impl View for Persistence {
    type V = PersistenceView;

    closed spec fn view(&self) -> PersistenceView {
        PersistenceView {
            outcome: self.outcome@,
            master_written: self.master_written,
            deletes_answered: self.deletes_answered as nat,
            failure: self.failure,
            delete_failures: self.delete_failures@,
        }
    }
}

impl Persistence {
    /// Starts writing `outcome`.
    pub fn begin(outcome: MergeOutcome) -> (state: Persistence)
        ensures
            state@ == PersistenceView::start(outcome@),
    {
        Persistence {
            outcome,
            master_written: false,
            deletes_answered: 0,
            failure: None,
            delete_failures: Vec::new(),
        }
    }

    /// Whether nothing is left to ask.
    pub fn is_finished(&self) -> (finished: bool)
        ensures
            finished == self@.finished(),
    {
        self.failure.is_some() || (self.master_written && self.deletes_answered
            >= self.outcome.to_delete.len())
    }

    /// What to ask of the store next, if anything.
    pub fn next_request(&self) -> (request: Option<StoreRequest>)
        ensures
            match self@.request() {
                Some(expected) => request matches Some(r) && r@ == expected,
                None => request is None,
            },
    {
        if self.is_finished() {
            None
        } else if !self.master_written {
            Some(StoreRequest::Replace { document: self.outcome.merged_record.duplicate(), upsert: true })
        } else {
            Some(StoreRequest::Delete { id: self.outcome.to_delete[self.deletes_answered] })
        }
    }

    /// Takes the store's answer to the pending request.
    pub fn record_reply(&mut self, reply: Result<(), MergeError>)
        ensures
            final(self)@ == old(self)@.after(reply),
    {
        if self.is_finished() {
            return ;
        }
        if !self.master_written {
            match reply {
                Ok(_) => {
                    self.master_written = true;
                },
                Err(error) => {
                    self.failure = Some(error);
                },
            }
        } else {
            let id = self.outcome.to_delete[self.deletes_answered];
            let total = self.outcome.to_delete.len();
            assert(self.deletes_answered < total);
            let answered = self.deletes_answered + 1;
            match reply {
                Ok(_) => {},
                Err(error) => {
                    if error != MergeError::NotFound {
                        self.delete_failures.push(DeleteFailure { id, error });
                    }
                },
            }
            self.deletes_answered = answered;
        }
    }

    /// How the group ended, once nothing is left to ask.
    pub fn result(&self) -> (result: Option<GroupResult>)
        ensures
            result == if self@.finished() {
                Some(self@.result())
            } else {
                None
            },
    {
        if !self.is_finished() {
            None
        } else {
            match self.failure {
                Some(error) => Some(GroupResult::Failed(error)),
                None => Some(GroupResult::Merged),
            }
        }
    }

    /// The deletes that failed so far.
    pub fn delete_failures(&self) -> (failures: &Vec<DeleteFailure>)
        ensures
            failures@ == self@.delete_failures,
    {
        &self.delete_failures
    }
}

/// The records after those with the identifiers `ids` were deleted, one
/// after the other.
pub open spec fn delete_all(records: Seq<RecordView>, ids: Seq<u128>) -> Seq<RecordView>
    decreases ids.len(),
{
    if ids.len() == 0 {
        records
    } else {
        without(delete_all(records, ids.drop_last()), ids.last())
    }
}

/// The records after a merge was written: the merged record in the place of
/// the master, or added where the master is gone, and the others deleted.
pub open spec fn apply_outcome(records: Seq<RecordView>, outcome: MergeOutcomeView) -> Seq<
    RecordView,
> {
    delete_all(replaced(records, outcome.merged_record, true), outcome.to_delete)
}

/// The records after the group with phone number `phone` was merged and the
/// merge written; the records as they are where the group cannot be merged.
pub open spec fn settled(store: Seq<RecordView>, phone: Seq<char>) -> Seq<RecordView> {
    match merge_of(with_phone(store, phone)) {
        Ok(outcome) => apply_outcome(store, outcome),
        Err(_) => store,
    }
}

/// Deleting records keeps the identifiers distinct.
pub proof fn lemma_delete_all_keeps_ids_distinct(records: Seq<RecordView>, ids: Seq<u128>)
    requires
        crate::store::ids_distinct(records),
    ensures
        crate::store::ids_distinct(delete_all(records, ids)),
    decreases ids.len(),
{
    if ids.len() > 0 {
        lemma_delete_all_keeps_ids_distinct(records, ids.drop_last());
        lemma_without_keeps_ids_distinct(delete_all(records, ids.drop_last()), ids.last());
    }
}

/// Writes `outcome` to a store held in memory, which never fails.
pub fn persist(store: &mut Store, outcome: MergeOutcome) -> (result: GroupResult)
    ensures
        final(store)@ == apply_outcome(old(store)@, outcome@),
        result == GroupResult::Merged,
        old(store).wf() ==> final(store).wf(),
{
    let ghost before = store@;
    let ghost merged = outcome@.merged_record;
    let ghost doomed = outcome@.to_delete;
    let ghost written = replaced(before, merged, true);
    let mut state = Persistence::begin(outcome);
    proof {
        if store.wf() {
            lemma_replaced_keeps_ids_distinct(before, merged, true);
        }
    }
    loop
        invariant
            state@.outcome == (MergeOutcomeView { merged_record: merged, to_delete: doomed }),
            state@.failure is None,
            state@.deletes_answered <= doomed.len(),
            !state@.master_written ==> state@.deletes_answered == 0 && store@ == before,
            state@.master_written ==> store@ == delete_all(
                written,
                doomed.take(state@.deletes_answered as int),
            ),
            written == replaced(before, merged, true),
            old(store).wf() ==> store.wf(),
        ensures
            state@.finished(),
            state@.failure is None,
            state@.master_written,
            store@ == delete_all(written, doomed.take(state@.deletes_answered as int)),
            state@.deletes_answered == doomed.len(),
            old(store).wf() ==> store.wf(),
        decreases
                (if state@.master_written {
                    0int
                } else {
                    1int
                }) + doomed.len() - state@.deletes_answered,
    {
        let reply = match state.next_request() {
            None => {
                break ;
            },
            Some(StoreRequest::Replace { document, upsert }) => {
                assert(doomed.take(0) =~= Seq::<u128>::empty());
                store.replace(document, upsert)
            },
            Some(StoreRequest::Delete { id }) => {
                proof {
                    let n = state@.deletes_answered as int;
                    assert(doomed.take(n + 1).drop_last() =~= doomed.take(n));
                    assert(doomed.take(n + 1).last() == id);
                }
                store.delete(id);
                Ok(())
            },
        };
        state.record_reply(reply);
    }
    assert(doomed.take(doomed.len() as int) =~= doomed);
    GroupResult::Merged
}

} // verus!
