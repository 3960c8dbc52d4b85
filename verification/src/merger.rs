//! Merging the records of one group into its master.
//!
//! The records are ordered newest first; the first is the master. The merged
//! record is the master with the accounts of all records, in that order, and
//! with every field that it lacks taken from the first other record that has
//! it. The other records are to be deleted.

use crate::error::MergeError;
use crate::record::accounts_name;
use crate::record::accounts_of;
use crate::record::has_field;
use crate::record::put;
use crate::record::updated_at_name;
use crate::record::updated_at_of;
use crate::record::Fields;
use crate::record::Record;
use crate::record::RecordView;
use crate::text::same_text;
use crate::value::lemma_sequence_view;
use crate::value::views_of;
use crate::value::Value;
use crate::value::ValueView;
use vstd::prelude::*;

verus! {

/// What merging a group decides: the record that replaces the master, and the
/// identifiers of the records to delete.
#[derive(Debug, PartialEq, Eq)]
pub struct MergeOutcome {
    pub merged_record: Record,
    pub to_delete: Vec<u128>,
}

/// What a [`MergeOutcome`] is.
#[verifier::ext_equal]
pub ghost struct MergeOutcomeView {
    pub merged_record: RecordView,
    pub to_delete: Seq<u128>,
}

impl View for MergeOutcome {
    type V = MergeOutcomeView;

    open spec fn view(&self) -> MergeOutcomeView {
        MergeOutcomeView { merged_record: self.merged_record@, to_delete: self.to_delete@ }
    }
}

/// The records of a vector as mathematics.
pub open spec fn views(records: Seq<Record>) -> Seq<RecordView> {
    Seq::new(records.len(), |i: int| records[i]@)
}

/// Whether a record has a timestamp to order it by.
pub open spec fn timestamped(record: RecordView) -> bool {
    updated_at_of(record.fields) is Some
}

/// Whether every record has a timestamp.
pub open spec fn all_timestamped(records: Seq<RecordView>) -> bool {
    forall|i: int| 0 <= i < records.len() ==> timestamped(#[trigger] records[i])
}

/// The time of a record's last update.
pub open spec fn time_of(record: RecordView) -> int {
    updated_at_of(record.fields)->Some_0
}

/// The order of a group: the later update first, and of two records updated
/// at the same time the one with the smaller identifier.
pub open spec fn ranks_before(a: RecordView, b: RecordView) -> bool {
    time_of(a) > time_of(b) || (time_of(a) == time_of(b) && a.id < b.id)
}

/// The place of `record` among `sorted`: before the first record that it
/// ranks before, after all others.
pub open spec fn slot(sorted: Seq<RecordView>, record: RecordView) -> int
    decreases sorted.len(),
{
    if sorted.len() == 0 || ranks_before(record, sorted[0]) {
        0
    } else {
        1 + slot(sorted.drop_first(), record)
    }
}

/// The records newest first. Records that the order does not tell apart stay
/// in the order in which they were given.
pub open spec fn newest_first(records: Seq<RecordView>) -> Seq<RecordView>
    decreases records.len(),
{
    if records.len() == 0 {
        Seq::empty()
    } else {
        let sorted = newest_first(records.drop_last());
        sorted.insert(slot(sorted, records.last()), records.last())
    }
}

/// The master of a group: its first record, newest first.
pub open spec fn master_of(records: Seq<RecordView>) -> RecordView {
    newest_first(records)[0]
}

/// The accounts of the records, one record after the other.
pub open spec fn gathered_accounts(records: Seq<RecordView>) -> Seq<ValueView>
    decreases records.len(),
{
    if records.len() == 0 {
        Seq::empty()
    } else {
        gathered_accounts(records.drop_last()) + accounts_of(records.last().fields)
    }
}

/// Whether a field of this name is taken over from another record where the
/// master lacks it. The accounts and the timestamp never are.
pub open spec fn carried_over(name: Seq<char>) -> bool {
    name != accounts_name() && name != updated_at_name()
}

/// `fields` with every field of `donor` added that is carried over and whose
/// name is not yet present, in the donor's order.
pub open spec fn absorb(fields: Fields, donor: Fields) -> Fields
    decreases donor.len(),
{
    if donor.len() == 0 {
        fields
    } else {
        let so_far = absorb(fields, donor.drop_last());
        let last = donor.last();
        if carried_over(last.0) && !has_field(so_far, last.0) {
            so_far.push(last)
        } else {
            so_far
        }
    }
}

/// `fields` after absorbing each of `donors` in turn.
pub open spec fn absorb_all(fields: Fields, donors: Seq<RecordView>) -> Fields
    decreases donors.len(),
{
    if donors.len() == 0 {
        fields
    } else {
        absorb(absorb_all(fields, donors.drop_last()), donors.last().fields)
    }
}

/// The identifiers of the records, in order.
pub open spec fn ids_of(records: Seq<RecordView>) -> Seq<u128> {
    Seq::new(records.len(), |i: int| records[i].id)
}

/// What merging `sorted`, a group ordered newest first, gives.
pub open spec fn merge_sorted(sorted: Seq<RecordView>) -> MergeOutcomeView {
    let master = sorted[0];
    let with_accounts = put(
        master.fields,
        accounts_name(),
        ValueView::Sequence(gathered_accounts(sorted)),
    );
    MergeOutcomeView {
        merged_record: RecordView {
            id: master.id,
            fields: absorb_all(with_accounts, sorted.skip(1)),
        },
        to_delete: ids_of(sorted.skip(1)),
    }
}

/// What merging a group gives: an error for a group without records or with
/// a record that has no timestamp, else the merge of the records newest first.
pub open spec fn merge_of(records: Seq<RecordView>) -> Result<MergeOutcomeView, MergeError> {
    if records.len() == 0 {
        Err(MergeError::EmptyGroup)
    } else if !all_timestamped(records) {
        Err(MergeError::MissingTimestamp)
    } else {
        Ok(merge_sorted(newest_first(records)))
    }
}

/// Where `slot` puts a record: within bounds, after records that it does not
/// rank before, and before one that it does.
pub proof fn lemma_slot(sorted: Seq<RecordView>, record: RecordView)
    ensures
        0 <= slot(sorted, record) <= sorted.len(),
        forall|k: int|
            0 <= k < slot(sorted, record) ==> !ranks_before(record, #[trigger] sorted[k]),
        slot(sorted, record) < sorted.len() ==> ranks_before(
            record,
            sorted[slot(sorted, record)],
        ),
    decreases sorted.len(),
{
    if sorted.len() > 0 && !ranks_before(record, sorted[0]) {
        let rest = sorted.drop_first();
        lemma_slot(rest, record);
        assert forall|k: int| 0 <= k < slot(sorted, record) implies !ranks_before(
            record,
            #[trigger] sorted[k],
        ) by {
            if k > 0 {
                assert(sorted[k] == rest[k - 1]);
            }
        }
    }
}

/// A place after records that `record` does not rank before, and before one
/// that it does or at the end, is the place that `slot` gives.
pub proof fn lemma_slot_is(sorted: Seq<RecordView>, record: RecordView, at: int)
    requires
        0 <= at <= sorted.len(),
        forall|k: int| 0 <= k < at ==> !ranks_before(record, #[trigger] sorted[k]),
        at < sorted.len() ==> ranks_before(record, sorted[at]),
    ensures
        slot(sorted, record) == at,
    decreases sorted.len(),
{
    if sorted.len() > 0 && at > 0 {
        let rest = sorted.drop_first();
        assert(!ranks_before(record, sorted[0]));
        assert forall|k: int| 0 <= k < at - 1 implies !ranks_before(record, #[trigger] rest[k]) by {
            assert(rest[k] == sorted[k + 1]);
        }
        lemma_slot_is(rest, record, at - 1);
    }
}

/// Ordering keeps the number of records.
pub proof fn lemma_newest_first_len(records: Seq<RecordView>)
    ensures
        newest_first(records).len() == records.len(),
    decreases records.len(),
{
    if records.len() > 0 {
        lemma_newest_first_len(records.drop_last());
        lemma_slot(newest_first(records.drop_last()), records.last());
    }
}

/// The records at the positions that `order` lists.
pub open spec fn picked(records: Seq<RecordView>, order: Seq<usize>) -> Seq<RecordView> {
    Seq::new(order.len(), |k: int| records[order[k] as int])
}

/// The timestamps of the records, if every record has one.
fn timestamps(records: &Vec<Record>) -> (times: Option<Vec<i64>>)
    ensures
        times is Some <==> all_timestamped(views(records@)),
        times matches Some(t) ==> t.len() == records.len() && forall|i: int|
            0 <= i < records.len() ==> t[i] as int == time_of(#[trigger] views(records@)[i]),
{
    let mut times: Vec<i64> = Vec::new();
    let mut i: usize = 0;
    while i < records.len()
        invariant
            i <= records.len(),
            times.len() == i,
            forall|k: int| 0 <= k < i ==> timestamped(#[trigger] views(records@)[k]),
            forall|k: int| 0 <= k < i ==> times[k] as int == time_of(#[trigger] views(records@)[k]),
        decreases records.len() - i,
    {
        match records[i].updated_at() {
            Some(t) => {
                times.push(t);
            },
            None => {
                assert(!timestamped(views(records@)[i as int]));
                return None;
            },
        }
        i += 1;
    }
    Some(times)
}

/// Whether a record updated at `time_a` with identifier `id_a` ranks before
/// one updated at `time_b` with identifier `id_b`.
fn before(time_a: i64, id_a: u128, time_b: i64, id_b: u128) -> (first: bool)
    ensures
        first == (time_a > time_b || (time_a == time_b && id_a < id_b)),
{
    time_a > time_b || (time_a == time_b && id_a < id_b)
}

/// The positions of the records, newest first.
fn newest_first_order(records: &Vec<Record>, times: &Vec<i64>) -> (order: Vec<usize>)
    requires
        times.len() == records.len(),
        forall|i: int|
            0 <= i < records.len() ==> times[i] as int == time_of(#[trigger] views(records@)[i]),
    ensures
        order.len() == records.len(),
        forall|k: int| 0 <= k < order.len() ==> (#[trigger] order[k]) < records.len(),
        picked(views(records@), order@) == newest_first(views(records@)),
{
    let ghost all = views(records@);
    let mut order: Vec<usize> = Vec::new();
    let mut i: usize = 0;
    while i < records.len()
        invariant
            i <= records.len(),
            all == views(records@),
            times.len() == records.len(),
            forall|k: int| 0 <= k < records.len() ==> times[k] as int == time_of(#[trigger] all[k]),
            order.len() == i,
            forall|k: int| 0 <= k < order.len() ==> (#[trigger] order[k]) < records.len(),
            picked(all, order@) == newest_first(all.take(i as int)),
        decreases records.len() - i,
    {
        let ghost sorted = picked(all, order@);
        let mut at: usize = 0;
        while at < order.len() && !before(
            times[i],
            records[i].id(),
            times[order[at]],
            records[order[at]].id(),
        )
            invariant
                at <= order.len(),
                i < records.len(),
                all == views(records@),
                times.len() == records.len(),
                forall|k: int|
                    0 <= k < records.len() ==> times[k] as int == time_of(#[trigger] all[k]),
                forall|k: int| 0 <= k < order.len() ==> (#[trigger] order[k]) < records.len(),
                sorted == picked(all, order@),
                forall|k: int| 0 <= k < at ==> !ranks_before(all[i as int], #[trigger] sorted[k]),
            decreases order.len() - at,
        {
            assert(sorted[at as int] == all[order[at as int] as int]);
            at += 1;
        }
        proof {
            if at < order.len() {
                assert(sorted[at as int] == all[order[at as int] as int]);
            }
            lemma_slot_is(sorted, all[i as int], at as int);
            assert(all.take(i + 1).drop_last() =~= all.take(i as int));
            assert(all.take(i + 1).last() == all[i as int]);
        }
        order.insert(at, i);
        assert(picked(all, order@) =~= sorted.insert(at as int, all[i as int]));
        i += 1;
    }
    assert(all.take(records.len() as int) =~= all);
    order
}

/// Copies of the accounts of the records at the positions that `order`
/// lists, one record after the other.
fn gather_accounts(records: &Vec<Record>, order: &Vec<usize>) -> (accounts: Vec<Value>)
    requires
        forall|k: int| 0 <= k < order.len() ==> (#[trigger] order[k]) < records.len(),
    ensures
        views_of(accounts@) == gathered_accounts(picked(views(records@), order@)),
{
    let ghost sorted = picked(views(records@), order@);
    let mut accounts: Vec<Value> = Vec::new();
    let mut k: usize = 0;
    assert(views_of(accounts@) =~= gathered_accounts(sorted.take(0)));
    while k < order.len()
        invariant
            k <= order.len(),
            sorted == picked(views(records@), order@),
            forall|j: int| 0 <= j < order.len() ==> (#[trigger] order[j]) < records.len(),
            views_of(accounts@) == gathered_accounts(sorted.take(k as int)),
        decreases order.len() - k,
    {
        let record = &records[order[k]];
        let ghost so_far = views_of(accounts@);
        proof {
            assert(sorted.take(k + 1).drop_last() =~= sorted.take(k as int));
            assert(sorted.take(k + 1).last() == record@);
        }
        match record.accounts() {
            Some(items) => {
                let mut j: usize = 0;
                while j < items.len()
                    invariant
                        j <= items.len(),
                        views_of(accounts@) == so_far + views_of(items@).take(j as int),
                    decreases items.len() - j,
                {
                    let ghost earlier = views_of(accounts@);
                    accounts.push(items[j].duplicate());
                    assert(views_of(accounts@) =~= earlier.push(items@[j as int]@));
                    assert(views_of(items@).take(j + 1) =~= views_of(items@).take(j as int).push(
                        items@[j as int]@,
                    ));
                    j += 1;
                }
                assert(views_of(items@).take(items.len() as int) =~= views_of(items@));
            },
            None => {
                assert(views_of(accounts@) =~= so_far + accounts_of(record@.fields));
            },
        }
        k += 1;
    }
    assert(sorted.take(order.len() as int) =~= sorted);
    accounts
}

/// Adds to `merged` a copy of every field of `donor` that is carried over and
/// that `merged` does not have yet.
fn fill_missing(merged: &mut Record, donor: &Record)
    ensures
        final(merged)@ == (RecordView {
            id: old(merged)@.id,
            fields: absorb(old(merged)@.fields, donor@.fields),
        }),
        old(merged).wf() ==> final(merged).wf(),
{
    let ghost start = merged@.fields;
    let ghost given = donor@.fields;
    let n = donor.len();
    let mut j: usize = 0;
    while j < n
        invariant
            j <= n,
            n == given.len(),
            given == donor@.fields,
            merged@.id == old(merged)@.id,
            merged@.fields == absorb(start, given.take(j as int)),
            old(merged).wf() ==> merged.wf(),
        decreases n - j,
    {
        proof {
            assert(given.take(j + 1).drop_last() =~= given.take(j as int));
            assert(given.take(j + 1).last() == given[j as int]);
        }
        match donor.field_at(j) {
            Some((name, value)) => {
                proof {
                    reveal_strlit("accounts");
                    reveal_strlit("updatedAt");
                }
                if !same_text(name, "accounts") && !same_text(name, "updatedAt")
                    && !merged.contains_key(name) {
                    merged.insert(name.to_owned(), value.duplicate());
                }
            },
            None => {},
        }
        j += 1;
    }
    assert(given.take(n as int) =~= given);
}

/// Merges the records of one group.
///
/// Fails with `EmptyGroup` where there is no record, and with
/// `MissingTimestamp` where a record has no timestamp. Otherwise the newest
/// record is the master: the result is the master with the accounts of all
/// records, newest first, and with the fields that it lacks, and the
/// identifiers of the other records. Nothing is written.
pub fn merge_records(records: &Vec<Record>) -> (result: Result<MergeOutcome, MergeError>)
    ensures
        match merge_of(views(records@)) {
            Ok(expected) => result matches Ok(outcome) && outcome@ == expected,
            Err(error) => result matches Err(e) && e == error,
        },
        result matches Ok(outcome) ==> ((forall|i: int|
            0 <= i < records.len() ==> (#[trigger] records[i]).wf())
            ==> outcome.merged_record.wf()),
{
    if records.len() == 0 {
        return Err(MergeError::EmptyGroup);
    }
    let times = match timestamps(records) {
        Some(times) => times,
        None => {
            return Err(MergeError::MissingTimestamp);
        },
    };
    let order = newest_first_order(records, &times);
    let ghost sorted = newest_first(views(records@));
    let accounts = gather_accounts(records, &order);
    let master = &records[order[0]];
    assert(master@ == sorted[0]) by {
        assert(picked(views(records@), order@)[0] == master@);
    }
    let mut merged = master.duplicate();
    proof {
        lemma_sequence_view(accounts);
    }
    merged.insert("accounts".to_owned(), Value::Sequence(accounts));
    let ghost with_accounts = merged@.fields;
    let ghost others = sorted.skip(1);
    let mut to_delete: Vec<u128> = Vec::new();
    let mut k: usize = 1;
    assert(to_delete@ =~= ids_of(others.take(0)));
    while k < order.len()
        invariant
            1 <= k <= order.len(),
            order.len() == records.len(),
            forall|j: int| 0 <= j < order.len() ==> (#[trigger] order[j]) < records.len(),
            sorted == picked(views(records@), order@),
            others == sorted.skip(1),
            merged@.id == sorted[0].id,
            merged@.fields == absorb_all(with_accounts, others.take(k - 1)),
            to_delete@ == ids_of(others.take(k - 1)),
            (forall|i: int| 0 <= i < records.len() ==> (#[trigger] records[i]).wf())
                ==> merged.wf(),
        decreases order.len() - k,
    {
        let donor = &records[order[k]];
        proof {
            assert(others.take(k as int).drop_last() =~= others.take(k - 1));
            assert(others.take(k as int).last() == donor@) by {
                assert(sorted[k as int] == donor@);
            }
        }
        fill_missing(&mut merged, donor);
        to_delete.push(donor.id());
        assert(to_delete@ =~= ids_of(others.take(k as int)));
        k += 1;
    }
    assert(others.take(order.len() - 1) =~= others);
    Ok(MergeOutcome { merged_record: merged, to_delete })
}

} // verus!
