//! What holds of every merge.

use crate::error::MergeError;
use crate::merger::absorb;
use crate::merger::absorb_all;
use crate::merger::all_timestamped;
use crate::merger::carried_over;
use crate::merger::gathered_accounts;
use crate::merger::ids_of;
use crate::merger::lemma_newest_first_len;
use crate::merger::lemma_slot;
use crate::merger::master_of;
use crate::merger::merge_of;
use crate::merger::newest_first;
use crate::merger::ranks_before;
use crate::merger::slot;
use crate::merger::timestamped;
use crate::merger::MergeOutcomeView;
use crate::record::accounts_name;
use crate::record::accounts_of;
use crate::record::has_field;
use crate::record::lemma_lookup_push;
use crate::record::lemma_lookup_put;
use crate::record::lookup;
use crate::record::names_distinct;
use crate::record::put;
use crate::record::updated_at_name;
use crate::record::updated_at_of;
use crate::record::Fields;
use crate::record::RecordView;
use crate::store::ids_distinct;
use crate::value::ValueView;
use vstd::prelude::*;
use vstd::seq_lib::to_multiset_insert;

verus! {

/// The number of accounts that the records hold together.
pub open spec fn total_accounts(records: Seq<RecordView>) -> nat
    decreases records.len(),
{
    if records.len() == 0 {
        0
    } else {
        total_accounts(records.drop_last()) + accounts_of(records.last().fields).len()
    }
}

/// Absorbing a donor changes nothing under a name that is already present.
pub proof fn lemma_absorb_keeps(fields: Fields, donor: Fields, name: Seq<char>)
    requires
        has_field(fields, name),
    ensures
        has_field(absorb(fields, donor), name),
        lookup(absorb(fields, donor), name) == lookup(fields, name),
    decreases donor.len(),
{
    if donor.len() > 0 {
        lemma_absorb_keeps(fields, donor.drop_last(), name);
        lemma_lookup_push(absorb(fields, donor.drop_last()), donor.last(), name);
    }
}

/// Absorbing a donor adds only names that the donor has and that are carried
/// over.
pub proof fn lemma_absorb_adds_donor_names(fields: Fields, donor: Fields, name: Seq<char>)
    requires
        has_field(absorb(fields, donor), name),
    ensures
        has_field(fields, name) || (has_field(donor, name) && carried_over(name)),
    decreases donor.len(),
{
    if donor.len() > 0 {
        let earlier = donor.drop_last();
        assert(donor =~= earlier.push(donor.last()));
        lemma_lookup_push(earlier, donor.last(), name);
        lemma_lookup_push(absorb(fields, earlier), donor.last(), name);
        if has_field(absorb(fields, earlier), name) {
            lemma_absorb_adds_donor_names(fields, earlier, name);
        }
    }
}

/// A name that is new and carried over gets the value that the donor holds
/// under it.
pub proof fn lemma_absorb_takes(fields: Fields, donor: Fields, name: Seq<char>)
    requires
        !has_field(fields, name),
        has_field(donor, name),
        carried_over(name),
    ensures
        has_field(absorb(fields, donor), name),
        lookup(absorb(fields, donor), name) == lookup(donor, name),
    decreases donor.len(),
{
    if donor.len() > 0 {
        let earlier = donor.drop_last();
        let so_far = absorb(fields, earlier);
        assert(donor =~= earlier.push(donor.last()));
        lemma_lookup_push(earlier, donor.last(), name);
        lemma_lookup_push(so_far, donor.last(), name);
        if has_field(earlier, name) {
            lemma_absorb_takes(fields, earlier, name);
        } else {
            if has_field(so_far, name) {
                lemma_absorb_adds_donor_names(fields, earlier, name);
            }
        }
    }
}

/// Absorbing donors changes nothing under a name that is already present.
pub proof fn lemma_absorb_all_keeps(fields: Fields, donors: Seq<RecordView>, name: Seq<char>)
    requires
        has_field(fields, name),
    ensures
        has_field(absorb_all(fields, donors), name),
        lookup(absorb_all(fields, donors), name) == lookup(fields, name),
    decreases donors.len(),
{
    if donors.len() > 0 {
        lemma_absorb_all_keeps(fields, donors.drop_last(), name);
        lemma_absorb_keeps(absorb_all(fields, donors.drop_last()), donors.last().fields, name);
    }
}

/// A name that neither the fields nor any donor has is not there afterwards.
pub proof fn lemma_absorb_all_adds_donor_names(
    fields: Fields,
    donors: Seq<RecordView>,
    name: Seq<char>,
)
    requires
        !has_field(fields, name),
        forall|j: int| 0 <= j < donors.len() ==> !has_field((#[trigger] donors[j]).fields, name),
    ensures
        !has_field(absorb_all(fields, donors), name),
    decreases donors.len(),
{
    if donors.len() > 0 {
        let earlier = donors.drop_last();
        assert forall|j: int| 0 <= j < earlier.len() implies !has_field(
            (#[trigger] earlier[j]).fields,
            name,
        ) by {
            assert(earlier[j] == donors[j]);
        }
        lemma_absorb_all_adds_donor_names(fields, earlier, name);
        if has_field(absorb_all(fields, donors), name) {
            lemma_absorb_adds_donor_names(absorb_all(fields, earlier), donors.last().fields, name);
            assert(!has_field(donors[donors.len() - 1].fields, name));
        }
    }
}

/// The first donor that has a missing, carried-over field supplies it.
pub proof fn lemma_first_supplier_wins(
    fields: Fields,
    donors: Seq<RecordView>,
    at: int,
    name: Seq<char>,
)
    requires
        0 <= at < donors.len(),
        carried_over(name),
        !has_field(fields, name),
        has_field(donors[at].fields, name),
        forall|j: int| 0 <= j < at ==> !has_field((#[trigger] donors[j]).fields, name),
    ensures
        lookup(absorb_all(fields, donors), name) == lookup(donors[at].fields, name),
    decreases donors.len(),
{
    let earlier = donors.drop_last();
    if at == donors.len() - 1 {
        assert forall|j: int| 0 <= j < earlier.len() implies !has_field(
            (#[trigger] earlier[j]).fields,
            name,
        ) by {
            assert(earlier[j] == donors[j]);
        }
        lemma_absorb_all_adds_donor_names(fields, earlier, name);
        lemma_absorb_takes(absorb_all(fields, earlier), donors.last().fields, name);
    } else {
        assert(earlier[at] == donors[at]);
        assert forall|j: int| 0 <= j < at implies !has_field((#[trigger] earlier[j]).fields, name) by {
            assert(earlier[j] == donors[j]);
        }
        lemma_first_supplier_wins(fields, earlier, at, name);
        lemma_absorb_all_adds_donor_names_present(fields, earlier, at, name);
        lemma_absorb_keeps(absorb_all(fields, earlier), donors.last().fields, name);
    }
}

/// After a donor that has a carried-over name was absorbed, the name is
/// present.
pub proof fn lemma_absorb_all_adds_donor_names_present(
    fields: Fields,
    donors: Seq<RecordView>,
    at: int,
    name: Seq<char>,
)
    requires
        0 <= at < donors.len(),
        carried_over(name),
        has_field(donors[at].fields, name),
    ensures
        has_field(absorb_all(fields, donors), name),
    decreases donors.len(),
{
    let earlier = donors.drop_last();
    let so_far = absorb_all(fields, earlier);
    if at == donors.len() - 1 {
        if has_field(so_far, name) {
            lemma_absorb_keeps(so_far, donors.last().fields, name);
        } else {
            lemma_absorb_takes(so_far, donors.last().fields, name);
        }
    } else {
        assert(earlier[at] == donors[at]);
        lemma_absorb_all_adds_donor_names_present(fields, earlier, at, name);
        lemma_absorb_keeps(so_far, donors.last().fields, name);
    }
}

/// Ordering a group newest first only rearranges its records.
pub proof fn lemma_newest_first_rearranges(records: Seq<RecordView>)
    ensures
        newest_first(records).to_multiset() == records.to_multiset(),
        newest_first(records).len() == records.len(),
    decreases records.len(),
{
    lemma_newest_first_len(records);
    if records.len() == 0 {
        assert(newest_first(records) =~= records);
    } else {
        let earlier = records.drop_last();
        let sorted = newest_first(earlier);
        lemma_newest_first_rearranges(earlier);
        lemma_slot(sorted, records.last());
        to_multiset_insert(sorted, slot(sorted, records.last()), records.last());
        assert(records =~= earlier.push(records.last()));
        vstd::seq_lib::to_multiset_build(earlier, records.last());
    }
}

/// Whether no record ranks before one that stands ahead of it.
pub open spec fn is_ordered(records: Seq<RecordView>) -> bool {
    forall|i: int, j: int|
        0 <= i < j < records.len() ==> !ranks_before(#[trigger] records[j], #[trigger] records[i])
}

/// Newest first, no record ranks before one that stands ahead of it.
pub proof fn lemma_newest_first_is_ordered(records: Seq<RecordView>)
    ensures
        is_ordered(newest_first(records)),
    decreases records.len(),
{
    if records.len() > 0 {
        let sorted = newest_first(records.drop_last());
        let last = records.last();
        let at = slot(sorted, last);
        let longer = newest_first(records);
        lemma_newest_first_is_ordered(records.drop_last());
        lemma_slot(sorted, last);
        assert forall|i: int, j: int| 0 <= i < j < longer.len() implies !ranks_before(
            #[trigger] longer[j],
            #[trigger] longer[i],
        ) by {
            if j < at {
                assert(longer[i] == sorted[i] && longer[j] == sorted[j]);
            } else if j == at {
                assert(longer[i] == sorted[i]);
            } else if i == at {
                assert(longer[j] == sorted[j - 1]);
                if j - 1 > at {
                    assert(!ranks_before(sorted[j - 1], sorted[at]));
                }
            } else if i < at {
                assert(longer[i] == sorted[i] && longer[j] == sorted[j - 1]);
            } else {
                assert(longer[i] == sorted[i - 1] && longer[j] == sorted[j - 1]);
            }
        }
    }
}

/// No record of the group ranks before its master.
pub proof fn lemma_master_is_newest(records: Seq<RecordView>, i: int)
    requires
        0 <= i < records.len(),
    ensures
        records.contains(master_of(records)),
        !ranks_before(records[i], master_of(records)),
{
    broadcast use vstd::seq_lib::to_multiset_contains;

    let sorted = newest_first(records);
    lemma_newest_first_rearranges(records);
    lemma_newest_first_is_ordered(records);
    assert(sorted.contains(sorted[0]));
    assert(sorted.to_multiset().count(sorted[0]) > 0);
    assert(records.contains(records[i]));
    assert(records.to_multiset().count(records[i]) > 0);
    assert(sorted.contains(records[i]));
    let at = choose|at: int| 0 <= at < sorted.len() && sorted[at] == records[i];
    if at > 0 {
        assert(!ranks_before(sorted[at], sorted[0]));
    }
}

/// The gathered accounts are as many as the records hold together.
pub proof fn lemma_gathered_accounts_len(records: Seq<RecordView>)
    ensures
        gathered_accounts(records).len() == total_accounts(records),
    decreases records.len(),
{
    if records.len() > 0 {
        lemma_gathered_accounts_len(records.drop_last());
    }
}

/// The accounts of two runs of records add up.
pub proof fn lemma_total_accounts_concat(a: Seq<RecordView>, b: Seq<RecordView>)
    ensures
        total_accounts(a + b) == total_accounts(a) + total_accounts(b),
    decreases b.len(),
{
    if b.len() == 0 {
        assert(a + b =~= a);
    } else {
        lemma_total_accounts_concat(a, b.drop_last());
        assert((a + b).drop_last() =~= a + b.drop_last());
        assert((a + b).last() == b.last());
    }
}

/// Ordering a group does not change how many accounts it holds.
pub proof fn lemma_total_accounts_newest_first(records: Seq<RecordView>)
    ensures
        total_accounts(newest_first(records)) == total_accounts(records),
    decreases records.len(),
{
    if records.len() > 0 {
        let sorted = newest_first(records.drop_last());
        let last = records.last();
        let at = slot(sorted, last);
        lemma_total_accounts_newest_first(records.drop_last());
        lemma_slot(sorted, last);
        let head = sorted.take(at);
        let tail = sorted.skip(at);
        assert(sorted =~= head + tail);
        assert(newest_first(records) =~= (head + seq![last]) + tail);
        lemma_total_accounts_concat(head, tail);
        lemma_total_accounts_concat(head + seq![last], tail);
        lemma_total_accounts_concat(head, seq![last]);
        assert(seq![last].drop_last() =~= Seq::<RecordView>::empty());
        assert(total_accounts(seq![last]) == accounts_of(last.fields).len()) by {
            assert(seq![last].last() == last);
            assert(total_accounts(seq![last].drop_last()) == 0);
        }
    }
}

/// The merged record holds the accounts of all records of the group, newest
/// record first: none is dropped and none is added.
pub proof fn lemma_accounts_complete(records: Seq<RecordView>)
    requires
        merge_of(records) is Ok,
    ensures
        lookup(merge_of(records)->Ok_0.merged_record.fields, accounts_name()) == Some(
            ValueView::Sequence(gathered_accounts(newest_first(records))),
        ),
        accounts_of(merge_of(records)->Ok_0.merged_record.fields) == gathered_accounts(
            newest_first(records),
        ),
        accounts_of(merge_of(records)->Ok_0.merged_record.fields).len() == total_accounts(
            records,
        ),
{
    let sorted = newest_first(records);
    let gathered = ValueView::Sequence(gathered_accounts(sorted));
    let with_accounts = put(sorted[0].fields, accounts_name(), gathered);
    lemma_lookup_put(sorted[0].fields, accounts_name(), gathered, accounts_name());
    lemma_absorb_all_keeps(with_accounts, sorted.skip(1), accounts_name());
    lemma_gathered_accounts_len(sorted);
    lemma_total_accounts_newest_first(records);
}

/// Whatever the master holds under a name other than the accounts, the
/// merged record holds under it too.
pub proof fn lemma_master_fields_win(records: Seq<RecordView>, name: Seq<char>)
    requires
        merge_of(records) is Ok,
        has_field(master_of(records).fields, name),
        name != accounts_name(),
    ensures
        lookup(merge_of(records)->Ok_0.merged_record.fields, name) == lookup(
            master_of(records).fields,
            name,
        ),
{
    let sorted = newest_first(records);
    let gathered = ValueView::Sequence(gathered_accounts(sorted));
    let with_accounts = put(sorted[0].fields, accounts_name(), gathered);
    lemma_lookup_put(sorted[0].fields, accounts_name(), gathered, name);
    lemma_absorb_all_keeps(with_accounts, sorted.skip(1), name);
}

/// A carried-over field that the master lacks comes from the first of the
/// other records, newest first, that has it.
pub proof fn lemma_missing_field_filled(records: Seq<RecordView>, at: int, name: Seq<char>)
    requires
        merge_of(records) is Ok,
        1 <= at < records.len(),
        carried_over(name),
        !has_field(master_of(records).fields, name),
        has_field(newest_first(records)[at].fields, name),
        forall|j: int| 1 <= j < at ==> !has_field((#[trigger] newest_first(records)[j]).fields, name),
    ensures
        lookup(merge_of(records)->Ok_0.merged_record.fields, name) == lookup(
            newest_first(records)[at].fields,
            name,
        ),
{
    let sorted = newest_first(records);
    lemma_newest_first_len(records);
    let gathered = ValueView::Sequence(gathered_accounts(sorted));
    let with_accounts = put(sorted[0].fields, accounts_name(), gathered);
    let others = sorted.skip(1);
    lemma_lookup_put(sorted[0].fields, accounts_name(), gathered, name);
    assert(others[at - 1] == sorted[at]);
    assert forall|j: int| 0 <= j < at - 1 implies !has_field((#[trigger] others[j]).fields, name) by {
        assert(others[j] == sorted[j + 1]);
    }
    lemma_first_supplier_wins(with_accounts, others, at - 1, name);
}

/// The merged record has the master's identifier, and every other record of
/// the group is to be deleted.
pub proof fn lemma_outcome_shape(records: Seq<RecordView>)
    requires
        merge_of(records) is Ok,
    ensures
        merge_of(records)->Ok_0.merged_record.id == master_of(records).id,
        merge_of(records)->Ok_0.to_delete == ids_of(newest_first(records).skip(1)),
        merge_of(records)->Ok_0.to_delete.len() == records.len() - 1,
{
    lemma_newest_first_len(records);
}

/// The merged record has the master's timestamp.
pub proof fn lemma_merged_keeps_timestamp(records: Seq<RecordView>)
    requires
        merge_of(records) is Ok,
    ensures
        updated_at_of(merge_of(records)->Ok_0.merged_record.fields) == updated_at_of(
            master_of(records).fields,
        ),
        updated_at_of(merge_of(records)->Ok_0.merged_record.fields) is Some,
{
    reveal_strlit("updatedAt");
    reveal_strlit("accounts");
    assert(updated_at_name() != accounts_name()) by {
        assert(updated_at_name().len() == 9);
        assert(accounts_name().len() == 8);
    }
    lemma_master_is_newest(records, 0);
    let master = master_of(records);
    let at = choose|at: int| 0 <= at < records.len() && records[at] == master;
    assert(timestamped(records[at]));
    lemma_master_fields_win(records, updated_at_name());
}

/// A merged record on its own merges into itself, and nothing is to be
/// deleted.
pub proof fn lemma_merged_record_is_settled(records: Seq<RecordView>)
    requires
        merge_of(records) is Ok,
    ensures
        merge_of(seq![merge_of(records)->Ok_0.merged_record]) == Ok::<
            MergeOutcomeView,
            MergeError,
        >(
            MergeOutcomeView {
                merged_record: merge_of(records)->Ok_0.merged_record,
                to_delete: Seq::empty(),
            },
        ),
{
    let merged = merge_of(records)->Ok_0.merged_record;
    let alone = seq![merged];
    lemma_merged_keeps_timestamp(records);
    lemma_accounts_complete(records);
    assert(all_timestamped(alone));
    assert(alone.drop_last() =~= Seq::<RecordView>::empty());
    assert(newest_first(alone) =~= alone) by {
        assert(newest_first(alone.drop_last()) =~= Seq::<RecordView>::empty());
    }
    assert(gathered_accounts(alone) =~= accounts_of(merged.fields)) by {
        assert(gathered_accounts(alone.drop_last()) =~= Seq::<ValueView>::empty());
    }
    let held = ValueView::Sequence(accounts_of(merged.fields));
    crate::record::lemma_index_of(merged.fields, accounts_name());
    assert(put(merged.fields, accounts_name(), held) =~= merged.fields);
    assert(alone.skip(1) =~= Seq::<RecordView>::empty());
    assert(ids_of(alone.skip(1)) =~= Seq::<u128>::empty());
    let again = merge_of(alone)->Ok_0;
    assert(again.merged_record.fields == merged.fields);
    assert(again.merged_record == merged);
    assert(again == (MergeOutcomeView { merged_record: merged, to_delete: Seq::empty() }));
}

/// Records with distinct identifiers, rearranged, have distinct identifiers.
pub proof fn lemma_rearranged_ids_stay_distinct(a: Seq<RecordView>, b: Seq<RecordView>)
    requires
        a.to_multiset() == b.to_multiset(),
        ids_distinct(a),
    ensures
        ids_distinct(b),
{
    broadcast use vstd::seq_lib::to_multiset_contains;

    assert(a.no_duplicates());
    a.lemma_multiset_has_no_duplicates();
    b.lemma_multiset_has_no_duplicates_conv();
    assert forall|i: int, j: int| 0 <= i < j < b.len() implies (#[trigger] b[i]).id != (
    #[trigger] b[j]).id by {
        assert(b[i] != b[j]);
        assert(b.contains(b[i]) && b.contains(b[j]));
        assert(b.to_multiset().count(b[i]) > 0 && b.to_multiset().count(b[j]) > 0);
        assert(a.contains(b[i]) && a.contains(b[j]));
        let k = choose|k: int| 0 <= k < a.len() && a[k] == b[i];
        let l = choose|l: int| 0 <= l < a.len() && a[l] == b[j];
        if k < l {
            assert(a[k].id != a[l].id);
        } else if l < k {
            assert(a[l].id != a[k].id);
        }
    }
}

/// Two orderings of the same records with distinct identifiers agree.
pub proof fn lemma_ordered_rearrangements_agree(x: Seq<RecordView>, y: Seq<RecordView>)
    requires
        x.to_multiset() == y.to_multiset(),
        is_ordered(x),
        is_ordered(y),
        ids_distinct(x),
        ids_distinct(y),
    ensures
        x == y,
    decreases x.len(),
{
    broadcast use vstd::seq_lib::to_multiset_contains;

    vstd::seq_lib::to_multiset_len(x);
    vstd::seq_lib::to_multiset_len(y);
    if x.len() == 0 {
        assert(x =~= y);
    } else {
        assert(x.contains(x[0]) && y.contains(y[0]));
        assert(x.to_multiset().count(x[0]) > 0 && y.to_multiset().count(y[0]) > 0);
        assert(y.contains(x[0]) && x.contains(y[0]));
        let i = choose|i: int| 0 <= i < x.len() && x[i] == y[0];
        let j = choose|j: int| 0 <= j < y.len() && y[j] == x[0];
        if i > 0 && j > 0 {
            assert(!ranks_before(x[i], x[0]));
            assert(!ranks_before(y[j], y[0]));
            assert(x[0].id != x[i].id);
        }
        assert(x[0] == y[0]);
        let x_rest = x.drop_first();
        let y_rest = y.drop_first();
        vstd::seq_lib::to_multiset_remove(x, 0);
        vstd::seq_lib::to_multiset_remove(y, 0);
        assert(x.remove(0) =~= x_rest);
        assert(y.remove(0) =~= y_rest);
        assert(is_ordered(x_rest)) by {
            assert forall|i: int, j: int| 0 <= i < j < x_rest.len() implies !ranks_before(
                #[trigger] x_rest[j],
                #[trigger] x_rest[i],
            ) by {
                assert(x_rest[i] == x[i + 1] && x_rest[j] == x[j + 1]);
            }
        }
        assert(is_ordered(y_rest)) by {
            assert forall|i: int, j: int| 0 <= i < j < y_rest.len() implies !ranks_before(
                #[trigger] y_rest[j],
                #[trigger] y_rest[i],
            ) by {
                assert(y_rest[i] == y[i + 1] && y_rest[j] == y[j + 1]);
            }
        }
        assert(ids_distinct(x_rest)) by {
            assert forall|i: int, j: int| 0 <= i < j < x_rest.len() implies (
            #[trigger] x_rest[i]).id != (#[trigger] x_rest[j]).id by {
                assert(x_rest[i] == x[i + 1] && x_rest[j] == x[j + 1]);
            }
        }
        assert(ids_distinct(y_rest)) by {
            assert forall|i: int, j: int| 0 <= i < j < y_rest.len() implies (
            #[trigger] y_rest[i]).id != (#[trigger] y_rest[j]).id by {
                assert(y_rest[i] == y[i + 1] && y_rest[j] == y[j + 1]);
            }
        }
        lemma_ordered_rearrangements_agree(x_rest, y_rest);
        assert(x =~= seq![x[0]] + x_rest);
        assert(y =~= seq![y[0]] + y_rest);
    }
}

/// The merge of a group does not depend on the order in which its records
/// are given, as long as their identifiers are distinct.
pub proof fn lemma_merge_ignores_input_order(a: Seq<RecordView>, b: Seq<RecordView>)
    requires
        a.to_multiset() == b.to_multiset(),
        ids_distinct(a),
    ensures
        newest_first(a) == newest_first(b),
        merge_of(a) == merge_of(b),
{
    broadcast use vstd::seq_lib::to_multiset_contains;

    vstd::seq_lib::to_multiset_len(a);
    vstd::seq_lib::to_multiset_len(b);
    lemma_rearranged_ids_stay_distinct(a, b);
    lemma_newest_first_rearranges(a);
    lemma_newest_first_rearranges(b);
    lemma_newest_first_is_ordered(a);
    lemma_newest_first_is_ordered(b);
    lemma_rearranged_ids_stay_distinct(a, newest_first(a));
    lemma_rearranged_ids_stay_distinct(b, newest_first(b));
    lemma_ordered_rearrangements_agree(newest_first(a), newest_first(b));
    if all_timestamped(a) {
        assert forall|i: int| 0 <= i < b.len() implies timestamped(#[trigger] b[i]) by {
            assert(b.contains(b[i]));
            assert(b.to_multiset().count(b[i]) > 0);
            assert(a.contains(b[i]));
            let k = choose|k: int| 0 <= k < a.len() && a[k] == b[i];
            assert(timestamped(a[k]));
        }
    }
    if all_timestamped(b) {
        assert forall|i: int| 0 <= i < a.len() implies timestamped(#[trigger] a[i]) by {
            assert(a.contains(a[i]));
            assert(a.to_multiset().count(a[i]) > 0);
            assert(b.contains(a[i]));
            let k = choose|k: int| 0 <= k < b.len() && b[k] == a[i];
            assert(timestamped(b[k]));
        }
    }
}

/// The gathered accounts begin with the accounts of the first record.
pub proof fn lemma_gathered_accounts_begin(records: Seq<RecordView>)
    requires
        records.len() > 0,
    ensures
        accounts_of(records[0].fields).len() <= gathered_accounts(records).len(),
        gathered_accounts(records).take(accounts_of(records[0].fields).len() as int)
            == accounts_of(records[0].fields),
    decreases records.len(),
{
    let first = accounts_of(records[0].fields);
    if records.len() == 1 {
        assert(records.drop_last() =~= Seq::<RecordView>::empty());
        assert(gathered_accounts(records.drop_last()) =~= Seq::<ValueView>::empty());
        assert(gathered_accounts(records) =~= first);
        assert(first.take(first.len() as int) =~= first);
    } else {
        lemma_gathered_accounts_begin(records.drop_last());
        assert(records.drop_last()[0] == records[0]);
        assert(gathered_accounts(records).take(first.len() as int) =~= gathered_accounts(
            records.drop_last(),
        ).take(first.len() as int));
    }
}

/// The accounts of the merged record begin with the accounts of the master,
/// unchanged.
pub proof fn lemma_master_accounts_lead(records: Seq<RecordView>)
    requires
        merge_of(records) is Ok,
    ensures
        accounts_of(master_of(records).fields).len() <= accounts_of(
            merge_of(records)->Ok_0.merged_record.fields,
        ).len(),
        accounts_of(merge_of(records)->Ok_0.merged_record.fields).take(
            accounts_of(master_of(records).fields).len() as int,
        ) == accounts_of(master_of(records).fields),
{
    lemma_newest_first_len(records);
    lemma_accounts_complete(records);
    lemma_gathered_accounts_begin(newest_first(records));
}

/// Absorbing a donor leaves a mapping a mapping.
pub proof fn lemma_absorb_keeps_names_distinct(fields: Fields, donor: Fields)
    requires
        names_distinct(fields),
    ensures
        names_distinct(absorb(fields, donor)),
    decreases donor.len(),
{
    if donor.len() > 0 {
        let so_far = absorb(fields, donor.drop_last());
        lemma_absorb_keeps_names_distinct(fields, donor.drop_last());
        crate::record::lemma_index_of(so_far, donor.last().0);
    }
}

/// Where the master is a mapping, so is the merged record: no field name
/// occurs twice.
pub proof fn lemma_merged_record_is_mapping(records: Seq<RecordView>)
    requires
        merge_of(records) is Ok,
        names_distinct(master_of(records).fields),
    ensures
        names_distinct(merge_of(records)->Ok_0.merged_record.fields),
{
    let sorted = newest_first(records);
    let gathered = ValueView::Sequence(gathered_accounts(sorted));
    crate::record::lemma_put_keeps_names_distinct(sorted[0].fields, accounts_name(), gathered);
    lemma_absorb_all_keeps_names_distinct(
        put(sorted[0].fields, accounts_name(), gathered),
        sorted.skip(1),
    );
}

/// Absorbing donors leaves a mapping a mapping.
pub proof fn lemma_absorb_all_keeps_names_distinct(fields: Fields, donors: Seq<RecordView>)
    requires
        names_distinct(fields),
    ensures
        names_distinct(absorb_all(fields, donors)),
    decreases donors.len(),
{
    if donors.len() > 0 {
        lemma_absorb_all_keeps_names_distinct(fields, donors.drop_last());
        lemma_absorb_keeps_names_distinct(
            absorb_all(fields, donors.drop_last()),
            donors.last().fields,
        );
    }
}

} // verus!
