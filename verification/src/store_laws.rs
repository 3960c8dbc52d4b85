//! What writing a merge does to a store whose identifiers are distinct.

use crate::error::MergeError;
use crate::merge_laws::lemma_master_fields_win;
use crate::merge_laws::lemma_merged_record_is_settled;
use crate::merge_laws::lemma_newest_first_rearranges;
use crate::merger::ids_of;
use crate::merger::lemma_newest_first_len;
use crate::merger::lemma_slot;
use crate::merger::master_of;
use crate::merger::merge_of;
use crate::merger::newest_first;
use crate::merger::slot;
use crate::merger::MergeOutcomeView;
use crate::persist::apply_outcome;
use crate::persist::delete_all;
use crate::persist::settled;
use crate::record::accounts_name;
use crate::record::lookup;
use crate::record::phone_name;
use crate::record::phone_of;
use crate::record::RecordView;
use crate::store::has_phone;
use crate::store::holds;
use crate::store::ids_distinct;
use crate::store::lemma_position_of;
use crate::store::lemma_position_of_is;
use crate::store::position_of;
use crate::store::replaced;
use crate::store::with_phone;
use crate::store::without;
use vstd::prelude::*;

verus! {

/// The records whose identifier is not among `ids`.
pub open spec fn purge(records: Seq<RecordView>, ids: Seq<u128>) -> Seq<RecordView>
    decreases records.len(),
{
    if records.len() == 0 {
        Seq::empty()
    } else {
        let earlier = purge(records.drop_last(), ids);
        if ids.contains(records.last().id) {
            earlier
        } else {
            earlier.push(records.last())
        }
    }
}

/// The records with `document` in the place of each record that has its
/// identifier.
pub open spec fn swap_in(records: Seq<RecordView>, document: RecordView) -> Seq<RecordView> {
    Seq::new(
        records.len(),
        |i: int|
            if records[i].id == document.id {
                document
            } else {
                records[i]
            },
    )
}

/// Every record that is left after a purge was there before, and its
/// identifier is not among those purged.
pub proof fn lemma_purge_members(records: Seq<RecordView>, ids: Seq<u128>)
    ensures
        purge(records, ids).len() <= records.len(),
        forall|k: int|
            0 <= k < purge(records, ids).len() ==> records.contains(
                #[trigger] purge(records, ids)[k],
            ) && !ids.contains(purge(records, ids)[k].id),
    decreases records.len(),
{
    if records.len() > 0 {
        let earlier = purge(records.drop_last(), ids);
        lemma_purge_members(records.drop_last(), ids);
        assert forall|k: int| 0 <= k < purge(records, ids).len() implies records.contains(
            #[trigger] purge(records, ids)[k],
        ) && !ids.contains(purge(records, ids)[k].id) by {
            if k < earlier.len() {
                let found = choose|i: int|
                    0 <= i < records.drop_last().len() && records.drop_last()[i] == earlier[k];
                assert(records[found] == earlier[k]);
            } else {
                assert(records[records.len() - 1] == purge(records, ids)[k]);
            }
        }
    }
}

/// Purging identifiers that no record has changes nothing.
pub proof fn lemma_purge_nothing(records: Seq<RecordView>, ids: Seq<u128>)
    requires
        forall|i: int| 0 <= i < records.len() ==> !ids.contains((#[trigger] records[i]).id),
    ensures
        purge(records, ids) == records,
    decreases records.len(),
{
    if records.len() > 0 {
        assert forall|i: int| 0 <= i < records.drop_last().len() implies !ids.contains(
            (#[trigger] records.drop_last()[i]).id,
        ) by {
            assert(records.drop_last()[i] == records[i]);
        }
        lemma_purge_nothing(records.drop_last(), ids);
        assert(!ids.contains(records[records.len() - 1].id));
        assert(records =~= records.drop_last().push(records.last()));
    }
}

/// A purge keeps the identifiers distinct.
pub proof fn lemma_purge_keeps_ids_distinct(records: Seq<RecordView>, ids: Seq<u128>)
    requires
        ids_distinct(records),
    ensures
        ids_distinct(purge(records, ids)),
    decreases records.len(),
{
    if records.len() > 0 {
        let shorter = records.drop_last();
        let earlier = purge(shorter, ids);
        assert(ids_distinct(shorter)) by {
            assert forall|i: int, j: int| 0 <= i < j < shorter.len() implies (
            #[trigger] shorter[i]).id != (#[trigger] shorter[j]).id by {
                assert(shorter[i] == records[i] && shorter[j] == records[j]);
            }
        }
        lemma_purge_keeps_ids_distinct(shorter, ids);
        lemma_purge_members(shorter, ids);
        let left = purge(records, ids);
        assert forall|i: int, j: int| 0 <= i < j < left.len() implies (#[trigger] left[i]).id != (
        #[trigger] left[j]).id by {
            if j < earlier.len() {
                assert(left[i] == earlier[i] && left[j] == earlier[j]);
            } else {
                assert(left[i] == earlier[i]);
                let found = choose|k: int| 0 <= k < shorter.len() && shorter[k] == earlier[i];
                assert(records[found] == earlier[i]);
                assert(left[j] == records[records.len() - 1]);
            }
        }
    }
}

/// Purging one identifier after others is purging them all.
pub proof fn lemma_purge_again(records: Seq<RecordView>, ids: Seq<u128>, id: u128)
    ensures
        purge(purge(records, ids), seq![id]) == purge(records, ids.push(id)),
    decreases records.len(),
{
    if records.len() > 0 {
        lemma_purge_again(records.drop_last(), ids, id);
        let last = records.last();
        let earlier = purge(records.drop_last(), ids);
        assert(seq![id].contains(last.id) <==> last.id == id) by {
            if last.id == id {
                assert(seq![id][0] == last.id);
            }
        }
        assert(ids.push(id).contains(last.id) <==> ids.contains(last.id) || last.id == id) by {
            if ids.contains(last.id) {
                let at = choose|k: int| 0 <= k < ids.len() && ids[k] == last.id;
                assert(ids.push(id)[at] == last.id);
            }
            if last.id == id {
                assert(ids.push(id)[ids.len() as int] == last.id);
            }
        }
        if !ids.contains(last.id) {
            assert(earlier.push(last).drop_last() =~= earlier);
            assert(earlier.push(last).last() == last);
        }
    }
}

/// Where identifiers are distinct, deleting a record is purging its
/// identifier.
pub proof fn lemma_without_is_purge(records: Seq<RecordView>, id: u128)
    requires
        ids_distinct(records),
    ensures
        without(records, id) == purge(records, seq![id]),
    decreases records.len(),
{
    let only = seq![id];
    assert(forall|other: u128| only.contains(other) <==> other == id) by {
        assert(only[0] == id);
    }
    lemma_position_of(records, id);
    if records.len() > 0 {
        let shorter = records.drop_last();
        let last = records.last();
        assert(ids_distinct(shorter)) by {
            assert forall|i: int, j: int| 0 <= i < j < shorter.len() implies (
            #[trigger] shorter[i]).id != (#[trigger] shorter[j]).id by {
                assert(shorter[i] == records[i] && shorter[j] == records[j]);
            }
        }
        lemma_without_is_purge(shorter, id);
        lemma_position_of(shorter, id);
        let at = position_of(shorter, id);
        if at < shorter.len() {
            assert(shorter[at] == records[at]);
            assert(last == records[records.len() - 1]);
            assert forall|k: int| 0 <= k < at implies (#[trigger] records[k]).id != id by {
                assert(records[k] == shorter[k]);
            }
            lemma_position_of_is(records, id, at);
            assert(records.remove(at) =~= shorter.remove(at).push(last));
        } else {
            assert forall|k: int| 0 <= k < shorter.len() implies (#[trigger] records[k]).id
                != id by {
                assert(records[k] == shorter[k]);
            }
            assert forall|i: int| 0 <= i < shorter.len() implies !only.contains(
                (#[trigger] shorter[i]).id,
            ) by {}
            lemma_purge_nothing(shorter, only);
            if last.id == id {
                lemma_position_of_is(records, id, records.len() - 1);
                assert(records.remove(records.len() - 1) =~= shorter);
            } else {
                lemma_position_of_is(records, id, records.len() as int);
                assert(records =~= shorter.push(last));
            }
        }
    } else {
        assert(records =~= Seq::<RecordView>::empty());
    }
}

/// Where identifiers are distinct, deleting records one after the other is
/// purging their identifiers.
pub proof fn lemma_delete_all_is_purge(records: Seq<RecordView>, ids: Seq<u128>)
    requires
        ids_distinct(records),
    ensures
        delete_all(records, ids) == purge(records, ids),
    decreases ids.len(),
{
    if ids.len() == 0 {
        assert forall|i: int| 0 <= i < records.len() implies !ids.contains(
            (#[trigger] records[i]).id,
        ) by {}
        lemma_purge_nothing(records, ids);
    } else {
        let earlier = ids.drop_last();
        lemma_delete_all_is_purge(records, earlier);
        lemma_purge_keeps_ids_distinct(records, earlier);
        lemma_without_is_purge(purge(records, earlier), ids.last());
        lemma_purge_again(records, earlier, ids.last());
        assert(ids =~= earlier.push(ids.last()));
    }
}

/// Where identifiers are distinct, replacing a record that is present puts
/// the document in the place of the one record with its identifier.
pub proof fn lemma_replaced_is_swap_in(records: Seq<RecordView>, document: RecordView)
    requires
        ids_distinct(records),
        holds(records, document.id),
    ensures
        replaced(records, document, true) == swap_in(records, document),
{
    lemma_position_of(records, document.id);
    assert(replaced(records, document, true) =~= swap_in(records, document));
}

/// The records with a phone number are records of the store with that phone
/// number, and all of them.
pub proof fn lemma_with_phone_members(records: Seq<RecordView>, phone: Seq<char>)
    ensures
        with_phone(records, phone).len() <= records.len(),
        forall|k: int|
            0 <= k < with_phone(records, phone).len() ==> records.contains(
                #[trigger] with_phone(records, phone)[k],
            ) && has_phone(with_phone(records, phone)[k], phone),
        forall|i: int|
            0 <= i < records.len() && has_phone(#[trigger] records[i], phone) ==> with_phone(
                records,
                phone,
            ).contains(records[i]),
    decreases records.len(),
{
    if records.len() > 0 {
        let shorter = records.drop_last();
        let earlier = with_phone(shorter, phone);
        let all = with_phone(records, phone);
        lemma_with_phone_members(shorter, phone);
        assert forall|k: int| 0 <= k < all.len() implies records.contains(#[trigger] all[k])
            && has_phone(all[k], phone) by {
            if k < earlier.len() {
                let found = choose|i: int| 0 <= i < shorter.len() && shorter[i] == earlier[k];
                assert(records[found] == earlier[k]);
            } else {
                assert(records[records.len() - 1] == all[k]);
            }
        }
        assert forall|i: int|
            0 <= i < records.len() && has_phone(#[trigger] records[i], phone) implies all.contains(
            records[i],
        ) by {
            if i < shorter.len() {
                assert(shorter[i] == records[i]);
                let found = choose|k: int| 0 <= k < earlier.len() && earlier[k] == shorter[i];
                assert(all[found] == records[i]);
            } else {
                assert(all[all.len() - 1] == records[i]);
            }
        }
    }
}

/// The records with a phone number have distinct identifiers where the
/// store's records have.
pub proof fn lemma_with_phone_keeps_ids_distinct(records: Seq<RecordView>, phone: Seq<char>)
    requires
        ids_distinct(records),
    ensures
        ids_distinct(with_phone(records, phone)),
    decreases records.len(),
{
    if records.len() > 0 {
        let shorter = records.drop_last();
        let earlier = with_phone(shorter, phone);
        assert(ids_distinct(shorter)) by {
            assert forall|i: int, j: int| 0 <= i < j < shorter.len() implies (
            #[trigger] shorter[i]).id != (#[trigger] shorter[j]).id by {
                assert(shorter[i] == records[i] && shorter[j] == records[j]);
            }
        }
        lemma_with_phone_keeps_ids_distinct(shorter, phone);
        lemma_with_phone_members(shorter, phone);
        let all = with_phone(records, phone);
        assert forall|i: int, j: int| 0 <= i < j < all.len() implies (#[trigger] all[i]).id != (
        #[trigger] all[j]).id by {
            if j < earlier.len() {
                assert(all[i] == earlier[i] && all[j] == earlier[j]);
            } else {
                assert(all[i] == earlier[i]);
                let found = choose|k: int| 0 <= k < shorter.len() && shorter[k] == earlier[i];
                assert(records[found] == earlier[i]);
                assert(all[j] == records[records.len() - 1]);
            }
        }
    }
}

/// Ordering a group keeps the identifiers distinct.
pub proof fn lemma_newest_first_keeps_ids_distinct(records: Seq<RecordView>)
    requires
        ids_distinct(records),
    ensures
        ids_distinct(newest_first(records)),
    decreases records.len(),
{
    broadcast use vstd::seq_lib::to_multiset_contains;

    if records.len() > 0 {
        let shorter = records.drop_last();
        let last = records.last();
        let sorted = newest_first(shorter);
        let at = slot(sorted, last);
        assert(ids_distinct(shorter)) by {
            assert forall|i: int, j: int| 0 <= i < j < shorter.len() implies (
            #[trigger] shorter[i]).id != (#[trigger] shorter[j]).id by {
                assert(shorter[i] == records[i] && shorter[j] == records[j]);
            }
        }
        lemma_newest_first_keeps_ids_distinct(shorter);
        lemma_newest_first_rearranges(shorter);
        lemma_slot(sorted, last);
        assert forall|k: int| 0 <= k < sorted.len() implies (#[trigger] sorted[k]).id
            != last.id by {
            assert(sorted.contains(sorted[k]));
            assert(sorted.to_multiset().count(sorted[k]) > 0);
            assert(shorter.contains(sorted[k]));
            let found = choose|i: int| 0 <= i < shorter.len() && shorter[i] == sorted[k];
            assert(records[found] == sorted[k]);
            assert(records[records.len() - 1] == last);
        }
        let longer = newest_first(records);
        assert forall|i: int, j: int| 0 <= i < j < longer.len() implies (#[trigger] longer[i]).id
            != (#[trigger] longer[j]).id by {
            let from_i = if i < at { i } else { i - 1 };
            let from_j = if j < at { j } else { j - 1 };
            if i != at {
                assert(longer[i] == sorted[from_i]);
            }
            if j != at {
                assert(longer[j] == sorted[from_j]);
            }
        }
    }
}

/// Records whose phone number is `phone` and that a write neither replaces
/// nor deletes stay as they are, in their order.
pub proof fn lemma_write_spares_phone(
    records: Seq<RecordView>,
    document: RecordView,
    ids: Seq<u128>,
    phone: Seq<char>,
)
    requires
        !has_phone(document, phone),
        forall|i: int|
            0 <= i < records.len() && ((#[trigger] records[i]).id == document.id || ids.contains(
                records[i].id,
            )) ==> !has_phone(records[i], phone),
    ensures
        with_phone(purge(swap_in(records, document), ids), phone) == with_phone(records, phone),
    decreases records.len(),
{
    let swapped = swap_in(records, document);
    if records.len() > 0 {
        let shorter = records.drop_last();
        assert(swapped.drop_last() =~= swap_in(shorter, document));
        assert forall|i: int|
            0 <= i < shorter.len() && ((#[trigger] shorter[i]).id == document.id || ids.contains(
                shorter[i].id,
            )) implies !has_phone(shorter[i], phone) by {
            assert(shorter[i] == records[i]);
        }
        lemma_write_spares_phone(shorter, document, ids, phone);
        let last = records[records.len() - 1];
        let earlier = purge(swap_in(shorter, document), ids);
        if !ids.contains(swapped.last().id) {
            assert(earlier.push(swapped.last()).drop_last() =~= earlier);
        }
    }
}

/// Where every record with phone number `phone` is deleted, and none has the
/// document's identifier, no record with that phone number is left.
pub proof fn lemma_write_clears_phone(
    records: Seq<RecordView>,
    document: RecordView,
    ids: Seq<u128>,
    phone: Seq<char>,
)
    requires
        forall|i: int|
            0 <= i < records.len() ==> (#[trigger] records[i]).id != document.id && (has_phone(
                records[i],
                phone,
            ) ==> ids.contains(records[i].id)),
    ensures
        with_phone(purge(swap_in(records, document), ids), phone) == Seq::<RecordView>::empty(),
    decreases records.len(),
{
    let swapped = swap_in(records, document);
    if records.len() > 0 {
        let shorter = records.drop_last();
        assert(swapped.drop_last() =~= swap_in(shorter, document));
        assert forall|i: int| 0 <= i < shorter.len() implies (#[trigger] shorter[i]).id
            != document.id && (has_phone(shorter[i], phone) ==> ids.contains(shorter[i].id)) by {
            assert(shorter[i] == records[i]);
        }
        lemma_write_clears_phone(shorter, document, ids, phone);
        let last = records[records.len() - 1];
        let earlier = purge(swap_in(shorter, document), ids);
        if !ids.contains(swapped.last().id) {
            assert(earlier.push(swapped.last()).drop_last() =~= earlier);
        }
    }
}

/// Where the document replaces the record at `at`, is not deleted itself and
/// has phone number `phone`, and every other record with that phone number
/// is deleted, the document is the one record with that phone number.
pub proof fn lemma_write_leaves_one(
    records: Seq<RecordView>,
    document: RecordView,
    ids: Seq<u128>,
    phone: Seq<char>,
    at: int,
)
    requires
        0 <= at < records.len(),
        records[at].id == document.id,
        !ids.contains(document.id),
        has_phone(document, phone),
        forall|i: int|
            0 <= i < records.len() && i != at ==> (#[trigger] records[i]).id != document.id && (
            has_phone(records[i], phone) ==> ids.contains(records[i].id)),
    ensures
        with_phone(purge(swap_in(records, document), ids), phone) == seq![document],
    decreases records.len(),
{
    let swapped = swap_in(records, document);
    let shorter = records.drop_last();
    assert(swapped.drop_last() =~= swap_in(shorter, document));
    let earlier = purge(swap_in(shorter, document), ids);
    if !ids.contains(swapped.last().id) {
        assert(earlier.push(swapped.last()).drop_last() =~= earlier);
    }
    if at == records.len() - 1 {
        assert forall|i: int| 0 <= i < shorter.len() implies (#[trigger] shorter[i]).id
            != document.id && (has_phone(shorter[i], phone) ==> ids.contains(shorter[i].id)) by {
            assert(shorter[i] == records[i]);
        }
        lemma_write_clears_phone(shorter, document, ids, phone);
        assert(Seq::<RecordView>::empty().push(document) =~= seq![document]);
    } else {
        assert(shorter[at] == records[at]);
        assert forall|i: int| 0 <= i < shorter.len() && i != at implies (#[trigger] shorter[i]).id
            != document.id && (has_phone(shorter[i], phone) ==> ids.contains(shorter[i].id)) by {
            assert(shorter[i] == records[i]);
        }
        lemma_write_leaves_one(shorter, document, ids, phone, at);
        let last = records[records.len() - 1];
        assert(last.id != document.id);
    }
}

/// What links a group to the store it was found in: the facts that the laws
/// below rest on.
proof fn lemma_group_in_store(store: Seq<RecordView>, phone: Seq<char>) -> (at: int)
    requires
        ids_distinct(store),
        merge_of(with_phone(store, phone)) is Ok,
    ensures
        0 <= at < store.len(),
        store[at] == master_of(with_phone(store, phone)),
        has_phone(store[at], phone),
        has_phone(merge_of(with_phone(store, phone))->Ok_0.merged_record, phone),
        merge_of(with_phone(store, phone))->Ok_0.merged_record.id == store[at].id,
        !merge_of(with_phone(store, phone))->Ok_0.to_delete.contains(store[at].id),
        forall|i: int|
            0 <= i < store.len() && i != at ==> (has_phone(#[trigger] store[i], phone)
                <==> merge_of(with_phone(store, phone))->Ok_0.to_delete.contains(store[i].id)),
{
    broadcast use vstd::seq_lib::to_multiset_contains;

    let group = with_phone(store, phone);
    let sorted = newest_first(group);
    let outcome = merge_of(group)->Ok_0;
    let doomed = outcome.to_delete;
    let master = sorted[0];
    lemma_newest_first_len(group);
    lemma_newest_first_rearranges(group);
    lemma_with_phone_members(store, phone);
    lemma_with_phone_keeps_ids_distinct(store, phone);
    lemma_newest_first_keeps_ids_distinct(group);
    assert(sorted.contains(master));
    assert(sorted.to_multiset().count(master) > 0);
    assert(group.contains(master));
    let in_group = choose|k: int| 0 <= k < group.len() && group[k] == master;
    assert(store.contains(group[in_group]));
    let at = choose|i: int| 0 <= i < store.len() && store[i] == master;
    assert(has_phone(master, phone));
    assert(has_phone(outcome.merged_record, phone)) by {
        reveal_strlit("phone");
        reveal_strlit("accounts");
        assert(phone_name() != accounts_name()) by {
            assert(phone_name().len() == 5);
            assert(accounts_name().len() == 8);
        }
        assert(crate::record::has_field(master.fields, phone_name()));
        lemma_master_fields_win(group, phone_name());
    }
    assert(doomed == ids_of(sorted.skip(1)));
    assert(!doomed.contains(master.id)) by {
        if doomed.contains(master.id) {
            let k = choose|k: int| 0 <= k < doomed.len() && doomed[k] == master.id;
            assert(sorted[k + 1].id == master.id);
        }
    }
    assert forall|i: int| 0 <= i < store.len() && i != at implies (has_phone(
        #[trigger] store[i],
        phone,
    ) <==> doomed.contains(store[i].id)) by {
        if has_phone(store[i], phone) {
            assert(group.contains(store[i]));
            assert(group.to_multiset().count(store[i]) > 0);
            assert(sorted.contains(store[i]));
            let k = choose|k: int| 0 <= k < sorted.len() && sorted[k] == store[i];
            assert(k != 0);
            assert(doomed[k - 1] == store[i].id);
        }
        if doomed.contains(store[i].id) {
            let k = choose|k: int| 0 <= k < doomed.len() && doomed[k] == store[i].id;
            let other = sorted[k + 1];
            assert(sorted.contains(other));
            assert(sorted.to_multiset().count(other) > 0);
            assert(group.contains(other));
            let g = choose|g: int| 0 <= g < group.len() && group[g] == other;
            assert(store.contains(group[g]));
            let j = choose|j: int| 0 <= j < store.len() && store[j] == other;
            assert(j == i);
        }
    }
    at
}

/// After a group was merged and the merge written, the merged record is the
/// one record with the group's phone number.
pub proof fn lemma_one_record_left(store: Seq<RecordView>, phone: Seq<char>)
    requires
        ids_distinct(store),
        merge_of(with_phone(store, phone)) is Ok,
    ensures
        with_phone(settled(store, phone), phone) == seq![
            merge_of(with_phone(store, phone))->Ok_0.merged_record,
        ],
        with_phone(settled(store, phone), phone).len() == 1,
        ids_distinct(settled(store, phone)),
{
    let outcome = merge_of(with_phone(store, phone))->Ok_0;
    let at = lemma_group_in_store(store, phone);
    lemma_write_as_swap_and_purge(store, outcome, at);
    lemma_write_leaves_one(store, outcome.merged_record, outcome.to_delete, phone, at);
}

/// Writing the merge of one group leaves the records with any other phone
/// number as they are.
pub proof fn lemma_other_groups_untouched(
    store: Seq<RecordView>,
    phone: Seq<char>,
    other: Seq<char>,
)
    requires
        ids_distinct(store),
        other != phone,
    ensures
        with_phone(settled(store, phone), other) == with_phone(store, other),
        ids_distinct(settled(store, phone)),
{
    if merge_of(with_phone(store, phone)) is Ok {
        let outcome = merge_of(with_phone(store, phone))->Ok_0;
        let at = lemma_group_in_store(store, phone);
        lemma_write_as_swap_and_purge(store, outcome, at);
        lemma_write_spares_phone(store, outcome.merged_record, outcome.to_delete, other);
    }
}

/// Where identifiers are distinct and the record at `at` has the merged
/// record's identifier, writing the merge puts the merged record in its
/// place and purges the records to delete.
proof fn lemma_write_as_swap_and_purge(store: Seq<RecordView>, outcome: MergeOutcomeView, at: int)
    requires
        ids_distinct(store),
        0 <= at < store.len(),
        store[at].id == outcome.merged_record.id,
    ensures
        apply_outcome(store, outcome) == purge(
            swap_in(store, outcome.merged_record),
            outcome.to_delete,
        ),
        ids_distinct(apply_outcome(store, outcome)),
{
    lemma_position_of(store, outcome.merged_record.id);
    lemma_replaced_is_swap_in(store, outcome.merged_record);
    crate::store::lemma_replaced_keeps_ids_distinct(store, outcome.merged_record, true);
    lemma_delete_all_is_purge(swap_in(store, outcome.merged_record), outcome.to_delete);
    lemma_purge_keeps_ids_distinct(swap_in(store, outcome.merged_record), outcome.to_delete);
}

/// Merging is idempotent: once a group was merged and the merge written,
/// merging the same phone number again gives the record that is there, with
/// nothing to delete, and writing that changes nothing.
pub proof fn lemma_merge_is_idempotent(store: Seq<RecordView>, phone: Seq<char>)
    requires
        ids_distinct(store),
        merge_of(with_phone(store, phone)) is Ok,
    ensures
        merge_of(with_phone(settled(store, phone), phone)) == Ok::<MergeOutcomeView, MergeError>(
            MergeOutcomeView {
                merged_record: merge_of(with_phone(store, phone))->Ok_0.merged_record,
                to_delete: Seq::empty(),
            },
        ),
        settled(settled(store, phone), phone) == settled(store, phone),
{
    let merged = merge_of(with_phone(store, phone))->Ok_0.merged_record;
    let after = settled(store, phone);
    lemma_one_record_left(store, phone);
    lemma_merged_record_is_settled(with_phone(store, phone));
    lemma_with_phone_members(after, phone);
    assert(with_phone(after, phone)[0] == merged);
    assert(after.contains(merged));
    let at = choose|at: int| 0 <= at < after.len() && after[at] == merged;
    lemma_position_of(after, merged.id);
    assert(position_of(after, merged.id) == at);
    assert(replaced(after, merged, true) =~= after);
}

/// A purge only asks which identifiers are named, not in what order.
pub proof fn lemma_purge_same_ids(records: Seq<RecordView>, a: Seq<u128>, b: Seq<u128>)
    requires
        forall|id: u128| a.contains(id) <==> b.contains(id),
    ensures
        purge(records, a) == purge(records, b),
    decreases records.len(),
{
    if records.len() > 0 {
        lemma_purge_same_ids(records.drop_last(), a, b);
    }
}

/// The deletes of one group may be done in any order: where identifiers are
/// distinct, the same records are left.
pub proof fn lemma_delete_order_does_not_matter(
    records: Seq<RecordView>,
    a: Seq<u128>,
    b: Seq<u128>,
)
    requires
        ids_distinct(records),
        a.to_multiset() == b.to_multiset(),
    ensures
        delete_all(records, a) == delete_all(records, b),
{
    broadcast use vstd::seq_lib::to_multiset_contains;

    lemma_delete_all_is_purge(records, a);
    lemma_delete_all_is_purge(records, b);
    assert forall|id: u128| a.contains(id) <==> b.contains(id) by {
        assert(a.contains(id) <==> a.to_multiset().count(id) > 0);
        assert(b.contains(id) <==> b.to_multiset().count(id) > 0);
    }
    lemma_purge_same_ids(records, a, b);
}

} // verus!
