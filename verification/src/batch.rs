//! A whole batch on a store held in memory: find the duplicate groups, merge
//! each, write each merge, and report.

use crate::coordinator::lemma_first_of_is;
use crate::coordinator::phones_of;
use crate::coordinator::Coordinator;
use crate::coordinator::CoordinatorView;
use crate::error::MergeError;
use crate::finder::are_first_groups;
use crate::finder::find_groups;
use crate::finder::DuplicateGroup;
use crate::merger::merge_of;
use crate::merger::merge_records;
use crate::merger::MergeOutcome;
use crate::merger::MergeOutcomeView;
use crate::persist::persist;
use crate::persist::settled;
use crate::persist::GroupResult;
use crate::record::RecordView;
use crate::report::report_of;
use crate::report::BatchReport;
use crate::report::TaskOutcome;
use crate::report::TaskOutcomeView;
use crate::store::ids_distinct;
use crate::store::with_phone;
use crate::store::Store;
use crate::store_laws::lemma_other_groups_untouched;
use crate::window::TimeWindow;
use vstd::prelude::*;

verus! {

/// How a group ends on a store that never fails: merged where it can be
/// merged, skipped where it is empty, failed otherwise.
pub open spec fn result_of_merge(attempt: Result<MergeOutcomeView, MergeError>) -> GroupResult {
    match attempt {
        Ok(_) => GroupResult::Merged,
        Err(error) => GroupResult::of_error(error),
    }
}

/// How the group with phone number `phone` ends on the records `store`.
pub open spec fn outcome_for(store: Seq<RecordView>, phone: Seq<char>) -> TaskOutcomeView {
    TaskOutcomeView {
        phone,
        result: result_of_merge(merge_of(with_phone(store, phone))),
        delete_failures: Seq::empty(),
    }
}

/// The records after the groups with the phone numbers `phones` were
/// handled one after the other.
pub open spec fn store_after(store: Seq<RecordView>, phones: Seq<Seq<char>>) -> Seq<RecordView>
    decreases phones.len(),
{
    if phones.len() == 0 {
        store
    } else {
        settled(store_after(store, phones.drop_last()), phones.last())
    }
}

/// How the groups with the phone numbers `phones` end when they are handled
/// one after the other.
pub open spec fn outcomes_after(store: Seq<RecordView>, phones: Seq<Seq<char>>) -> Seq<
    TaskOutcomeView,
>
    decreases phones.len(),
{
    if phones.len() == 0 {
        Seq::empty()
    } else {
        outcomes_after(store, phones.drop_last()).push(
            outcome_for(store_after(store, phones.drop_last()), phones.last()),
        )
    }
}

/// No phone number occurs twice.
pub open spec fn phones_distinct(phones: Seq<Seq<char>>) -> bool {
    forall|i: int, j: int| 0 <= i < j < phones.len() ==> phones[i] != phones[j]
}

/// What an attempt to merge is, as mathematics.
pub open spec fn attempt_view(attempt: Result<MergeOutcome, MergeError>) -> Result<
    MergeOutcomeView,
    MergeError,
> {
    match attempt {
        Ok(outcome) => Ok(outcome@),
        Err(error) => Err(error),
    }
}

/// Merges the group with phone number `phone` as the store holds it.
/// Nothing is written.
pub fn merge_group(store: &Store, phone: &str) -> (result: Result<MergeOutcome, MergeError>)
    ensures
        attempt_view(result) == merge_of(with_phone(store@, phone@)),
{
    let records = store.find_by_phone(phone);
    merge_records(&records)
}

/// How a group ended whose merge was attempted and, where there was one,
/// written.
fn outcome_of(phone: String, merged: bool, error: Option<MergeError>) -> (outcome: TaskOutcome)
    requires
        merged <==> error is None,
    ensures
        outcome@ == (TaskOutcomeView {
            phone: phone@,
            result: match error {
                None => GroupResult::Merged,
                Some(e) => GroupResult::of_error(e),
            },
            delete_failures: Seq::empty(),
        }),
{
    let result = match error {
        None => GroupResult::Merged,
        Some(e) => GroupResult::from_error(e),
    };
    TaskOutcome { phone, result, delete_failures: Vec::new() }
}

/// Merges the group with phone number `phone` and writes the merge: the
/// master is replaced by the merged record and the other records of the
/// group are deleted. A group that cannot be merged leaves the store as it
/// is.
pub fn process_phone(store: &mut Store, phone: &str) -> (outcome: TaskOutcome)
    ensures
        outcome@ == outcome_for(old(store)@, phone@),
        final(store)@ == settled(old(store)@, phone@),
        old(store).wf() ==> final(store).wf(),
{
    match merge_group(store, phone) {
        Ok(merge) => {
            persist(store, merge);
            outcome_of(phone.to_owned(), true, None)
        },
        Err(error) => outcome_of(phone.to_owned(), false, Some(error)),
    }
}

/// A group that has started: its phone number and what merging it gave.
struct Pending {
    phone: String,
    attempt: Result<MergeOutcome, MergeError>,
}

/// Whether a batch that began on the records `first` is where handling the
/// groups one after the other would be: the groups in flight are those that
/// started and have not ended, in their order; the store and the outcomes
/// are those of the groups that ended; and each group in flight was merged
/// as the store holds it now.
spec fn on_track(
    state: CoordinatorView,
    pending: Seq<Pending>,
    store: Seq<RecordView>,
    first: Seq<RecordView>,
) -> bool {
    let ended = state.settled.len() as int;
    &&& state.wf()
    &&& ids_distinct(store)
    &&& state.settled.len() + pending.len() == state.started
    &&& state.in_flight == state.phones.subrange(ended, state.started as int)
    &&& forall|j: int|
        0 <= j < pending.len() ==> (#[trigger] pending[j]).phone@ == state.phones[ended + j]
    &&& store == store_after(first, state.phones.take(ended))
    &&& state.settled == outcomes_after(first, state.phones.take(ended))
    &&& forall|j: int|
        0 <= j < pending.len() ==> attempt_view((#[trigger] pending[j]).attempt) == merge_of(
            with_phone(store, pending[j].phone@),
        )
}

/// A batch stays on track when the next group starts and is merged as the
/// store holds it.
proof fn lemma_start_stays_on_track(
    state: CoordinatorView,
    pending: Seq<Pending>,
    entry: Pending,
    store: Seq<RecordView>,
    first: Seq<RecordView>,
)
    requires
        on_track(state, pending, store, first),
        state.can_start(),
        entry.phone@ == state.phones[state.started as int],
        attempt_view(entry.attempt) == merge_of(with_phone(store, entry.phone@)),
    ensures
        on_track(state.after_start(), pending.push(entry), store, first),
{
    let after = state.after_start();
    let longer = pending.push(entry);
    let ended = state.settled.len() as int;
    crate::coordinator::lemma_start_keeps_wf(state);
    assert(after.in_flight =~= state.phones.subrange(ended, after.started as int));
    assert forall|j: int| 0 <= j < longer.len() implies (#[trigger] longer[j]).phone@
        == state.phones[ended + j] by {
        if j < pending.len() {
            assert(longer[j] == pending[j]);
        }
    }
    assert forall|j: int| 0 <= j < longer.len() implies attempt_view(
        (#[trigger] longer[j]).attempt,
    ) == merge_of(with_phone(store, longer[j].phone@)) by {
        if j < pending.len() {
            assert(longer[j] == pending[j]);
        }
    }
}

/// A batch stays on track when the group that started first ends and its
/// merge is written. That group is the first in flight.
proof fn lemma_end_stays_on_track(
    state: CoordinatorView,
    pending: Seq<Pending>,
    store: Seq<RecordView>,
    first: Seq<RecordView>,
)
    requires
        on_track(state, pending, store, first),
        pending.len() > 0,
    ensures
        state.awaits(pending[0].phone@),
        on_track(
            state.settled_with(outcome_for(store, pending[0].phone@)),
            pending.remove(0),
            settled(store, pending[0].phone@),
            first,
        ),
{
    let phone = pending[0].phone@;
    let outcome = outcome_for(store, phone);
    let after = state.settled_with(outcome);
    let fewer = pending.remove(0);
    let ended = state.settled.len() as int;
    let phones = state.phones;
    assert(state.in_flight[0] == phone) by {
        assert(pending[0].phone@ == phones[ended + 0]);
    }
    lemma_first_of_is(state.in_flight, phone, 0);
    crate::coordinator::lemma_settle_keeps_wf(state, outcome);
    assert(phones.take(ended + 1).drop_last() =~= phones.take(ended));
    assert(phones.take(ended + 1).last() == phone);
    assert(after.in_flight =~= phones.subrange(ended + 1, state.started as int));
    if merge_of(with_phone(store, phone)) is Ok {
        crate::store_laws::lemma_one_record_left(store, phone);
    }
    assert forall|j: int| 0 <= j < fewer.len() implies (#[trigger] fewer[j]).phone@ == phones[ended
        + 1 + j] by {
        assert(fewer[j] == pending[j + 1]);
    }
    assert forall|j: int| 0 <= j < fewer.len() implies attempt_view(
        (#[trigger] fewer[j]).attempt,
    ) == merge_of(with_phone(settled(store, phone), fewer[j].phone@)) by {
        assert(fewer[j] == pending[j + 1]);
        assert(state.in_flight[j + 1] == phones[ended + j + 1]);
        assert(state.in_flight[0] != state.in_flight[j + 1]);
        lemma_other_groups_untouched(store, phone, fewer[j].phone@);
    }
}

/// A batch on track with no group in flight and none that can start is
/// finished, with the store and the outcomes of handling every group.
proof fn lemma_on_track_to_the_end(
    state: CoordinatorView,
    pending: Seq<Pending>,
    store: Seq<RecordView>,
    first: Seq<RecordView>,
)
    requires
        on_track(state, pending, store, first),
        pending.len() == 0,
        !state.can_start(),
    ensures
        state.finished(),
        store == store_after(first, state.phones),
        state.settled == outcomes_after(first, state.phones),
{
    if state.started < state.phones.len() {
        lemma_first_of_is(state.in_flight, state.phones[state.started as int], 0);
    }
    assert(state.phones.take(state.phones.len() as int) =~= state.phones);
}

/// Handles the groups with at most `max_concurrency` of them in flight: a
/// group is read and merged when it starts, and its merge is written when it
/// ends; the groups end in the order in which they started. A group waits
/// while another with its phone number is in flight.
///
/// The store and the report are those of handling the groups one after the
/// other, whatever `max_concurrency` is.
pub fn run(store: &mut Store, groups: &Vec<DuplicateGroup>, max_concurrency: usize) -> (report:
    BatchReport)
    requires
        max_concurrency >= 1,
        old(store).wf(),
    ensures
        final(store).wf(),
        final(store)@ == store_after(old(store)@, phones_of(groups@)),
        report@ == report_of(outcomes_after(old(store)@, phones_of(groups@))),
        report@.total() == groups.len(),
{
    let ghost phones = phones_of(groups@);
    let ghost first = store@;
    let mut coordinator = Coordinator::new(groups, max_concurrency);
    let mut pending: Vec<Pending> = Vec::new();
    proof {
        coordinator.lemma_wf();
        assert(phones.take(0) =~= Seq::<Seq<char>>::empty());
        assert(coordinator@.in_flight =~= phones.subrange(0, 0));
    }
    loop
        invariant
            coordinator.wf(),
            coordinator@.phones == phones,
            on_track(coordinator@, pending@, store@, first),
        ensures
            coordinator.wf(),
            coordinator@.phones == phones,
            on_track(coordinator@, pending@, store@, first),
            pending.len() == 0,
            !coordinator@.can_start(),
        decreases phones.len() - coordinator@.settled.len(),
    {
        let ghost ended = coordinator@.settled;
        loop
            invariant
                coordinator.wf(),
                coordinator@.phones == phones,
                coordinator@.settled == ended,
                on_track(coordinator@, pending@, store@, first),
            ensures
                coordinator.wf(),
                coordinator@.phones == phones,
                coordinator@.settled == ended,
                on_track(coordinator@, pending@, store@, first),
                !coordinator@.can_start(),
            decreases phones.len() - coordinator@.started,
        {
            let ghost before = coordinator@;
            let ghost waiting = pending@;
            match coordinator.start_next() {
                Some(phone) => {
                    let attempt = merge_group(store, phone.as_str());
                    let entry = Pending { phone, attempt };
                    proof {
                        lemma_start_stays_on_track(before, waiting, entry, store@, first);
                    }
                    pending.push(entry);
                },
                None => {
                    break ;
                },
            }
        }
        if pending.len() == 0 {
            break ;
        }
        proof {
            lemma_end_stays_on_track(coordinator@, pending@, store@, first);
        }
        let Pending { phone, attempt } = pending.remove(0);
        let outcome = match attempt {
            Ok(merge) => {
                persist(store, merge);
                outcome_of(phone, true, None)
            },
            Err(error) => outcome_of(phone, false, Some(error)),
        };
        coordinator.settle(outcome);
    }
    proof {
        lemma_on_track_to_the_end(coordinator@, pending@, store@, first);
        crate::coordinator::lemma_finished_settles_every_group(coordinator@);
    }
    coordinator.finish()
}

/// Finds at most `limit` duplicate groups, among the records whose timestamp
/// lies in the window where one is given, and merges each of them, with at
/// most `max_concurrency` groups in flight.
///
/// The store and the report are those of handling the groups that
/// [`find_groups`] gives one after the other.
pub fn merge(
    store: &mut Store,
    window: Option<TimeWindow>,
    limit: usize,
    max_concurrency: usize,
) -> (found: (Vec<DuplicateGroup>, BatchReport))
    requires
        max_concurrency >= 1,
        old(store).wf(),
    ensures
        final(store).wf(),
        are_first_groups(found.0@, old(store)@, window, limit as nat),
        final(store)@ == store_after(old(store)@, phones_of(found.0@)),
        found.1@ == report_of(outcomes_after(old(store)@, phones_of(found.0@))),
        found.1@.total() == found.0.len(),
{
    let groups = find_groups(store, window, limit);
    let report = run(store, &groups, max_concurrency);
    (groups, report)
}

} // verus!
