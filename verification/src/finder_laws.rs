//! The duplicate groups of a store are determined: two answers that meet
//! what `find_groups` promises are the same. No phone number is found
//! twice.

use crate::batch::phones_distinct;
use crate::coordinator::phones_of;
use crate::finder::are_first_groups;
use crate::finder::lemma_outranks_total;
use crate::finder::listed;
use crate::finder::occurrences;
use crate::finder::outranks;
use crate::finder::DuplicateGroup;
use crate::finder::DuplicateGroupView;
use crate::merger::merge_of;
use crate::persist::settled;
use crate::record::RecordView;
use crate::store::ids_distinct;
use crate::store::with_phone;
use crate::store_laws::lemma_one_record_left;
use crate::window::TimeWindow;
use vstd::prelude::*;

verus! {

/// Whether the two lists have the same groups at the first `n` places.
pub open spec fn agree_below(a: Seq<DuplicateGroup>, b: Seq<DuplicateGroup>, n: int) -> bool {
    forall|j: int| 0 <= j < n ==> j < a.len() && j < b.len() && (#[trigger] a[j])@ == b[j]@
}

/// Where two answers agree up to a place and both go on, the group that one
/// has there does not outrank the group that the other has there.
proof fn lemma_neither_is_ahead(
    a: Seq<DuplicateGroup>,
    b: Seq<DuplicateGroup>,
    records: Seq<RecordView>,
    window: Option<TimeWindow>,
    limit: nat,
    at: int,
)
    requires
        are_first_groups(a, records, window, limit),
        are_first_groups(b, records, window, limit),
        agree_below(a, b, at),
        0 <= at < a.len(),
        at < b.len(),
    ensures
        !outranks(b[at]@, a[at]@),
{
    let phone = b[at].phone@;
    let there = DuplicateGroupView { phone, count: occurrences(records, window, phone) };
    assert(b[at]@ == there);
    lemma_outranks_total(a[at]@, b[at]@);
    if listed(a, phone) {
        let j = choose|j: int| 0 <= j < a.len() && (#[trigger] a[j]).phone@ == phone;
        assert(a[j]@ == there);
        if j < at {
            assert(a[j]@ == b[j]@);
            assert(outranks(b[j]@, b[at]@));
            lemma_outranks_total(b[j]@, b[at]@);
        } else if j > at {
            assert(outranks(a[at]@, a[j]@));
        }
    } else {
        assert(outranks(a[at]@, there));
    }
}

/// Where two answers agree up to a place and one goes on, the other goes on
/// with the same group.
proof fn lemma_agree_at(
    a: Seq<DuplicateGroup>,
    b: Seq<DuplicateGroup>,
    records: Seq<RecordView>,
    window: Option<TimeWindow>,
    limit: nat,
    at: int,
)
    requires
        are_first_groups(a, records, window, limit),
        are_first_groups(b, records, window, limit),
        agree_below(a, b, at),
        0 <= at < a.len(),
    ensures
        at < b.len(),
        a[at]@ == b[at]@,
{
    let phone = a[at].phone@;
    let here = DuplicateGroupView { phone, count: occurrences(records, window, phone) };
    assert(a[at]@ == here);
    if at >= b.len() {
        if listed(b, phone) {
            let m = choose|m: int| 0 <= m < b.len() && (#[trigger] b[m]).phone@ == phone;
            assert(a[m]@ == b[m]@);
            assert(outranks(a[m]@, a[at]@));
            lemma_outranks_total(a[m]@, a[at]@);
        }
        assert(false);
    }
    assert(agree_below(b, a, at)) by {
        assert forall|j: int| 0 <= j < at implies j < b.len() && j < a.len() && (
        #[trigger] b[j])@ == a[j]@ by {
            assert(a[j]@ == b[j]@);
        }
    }
    lemma_neither_is_ahead(a, b, records, window, limit, at);
    lemma_neither_is_ahead(b, a, records, window, limit, at);
    lemma_outranks_total(a[at]@, b[at]@);
    assert(a[at].phone@ == b[at].phone@);
    assert(b[at]@ == here);
}

/// Two answers agree as far as one of them goes.
proof fn lemma_agree_below(
    a: Seq<DuplicateGroup>,
    b: Seq<DuplicateGroup>,
    records: Seq<RecordView>,
    window: Option<TimeWindow>,
    limit: nat,
    n: int,
)
    requires
        are_first_groups(a, records, window, limit),
        are_first_groups(b, records, window, limit),
        0 <= n <= a.len(),
    ensures
        agree_below(a, b, n),
    decreases n,
{
    if n > 0 {
        lemma_agree_below(a, b, records, window, limit, n - 1);
        lemma_agree_at(a, b, records, window, limit, n - 1);
    }
}

/// What `find_groups` promises determines its answer: two lists that are
/// the first duplicate groups of the same records hold the same phone
/// numbers with the same counts, in the same order.
pub proof fn lemma_first_groups_are_unique(
    a: Seq<DuplicateGroup>,
    b: Seq<DuplicateGroup>,
    records: Seq<RecordView>,
    window: Option<TimeWindow>,
    limit: nat,
)
    requires
        are_first_groups(a, records, window, limit),
        are_first_groups(b, records, window, limit),
    ensures
        a.len() == b.len(),
        forall|i: int| 0 <= i < a.len() ==> (#[trigger] a[i])@ == b[i]@,
{
    lemma_agree_below(a, b, records, window, limit, a.len() as int);
    lemma_agree_below(b, a, records, window, limit, b.len() as int);
    if a.len() > 0 {
        assert(a[a.len() - 1]@ == b[a.len() - 1]@);
    }
    if b.len() > 0 {
        assert(b[b.len() - 1]@ == a[b.len() - 1]@);
    }
}

/// The duplicate groups are found with distinct phone numbers.
pub proof fn lemma_first_groups_have_distinct_phones(
    groups: Seq<DuplicateGroup>,
    records: Seq<RecordView>,
    window: Option<TimeWindow>,
    limit: nat,
)
    requires
        are_first_groups(groups, records, window, limit),
    ensures
        phones_distinct(phones_of(groups)),
{
    assert forall|i: int, j: int| 0 <= i < j < groups.len() implies phones_of(groups)[i]
        != phones_of(groups)[j] by {
        lemma_outranks_total(groups[i]@, groups[j]@);
        crate::text::lemma_text_order_total(groups[i].phone@, groups[j].phone@);
        assert(outranks(groups[i]@, groups[j]@));
    }
}


/// Without a window, a phone number is counted once for each record that
/// has it.
pub proof fn lemma_occurrences_are_the_group(records: Seq<RecordView>, phone: Seq<char>)
    ensures
        occurrences(records, None, phone) == with_phone(records, phone).len(),
    decreases records.len(),
{
    if records.len() > 0 {
        lemma_occurrences_are_the_group(records.drop_last(), phone);
    }
}

/// A window only leaves records out.
pub proof fn lemma_window_counts_fewer(
    records: Seq<RecordView>,
    window: Option<TimeWindow>,
    phone: Seq<char>,
)
    ensures
        occurrences(records, window, phone) <= occurrences(records, None, phone),
    decreases records.len(),
{
    if records.len() > 0 {
        lemma_window_counts_fewer(records.drop_last(), window, phone);
    }
}

/// Once a group was merged and the merge written, its phone number is no
/// duplicate any more: it is not found again, with or without a window.
pub proof fn lemma_merged_group_is_not_found_again(
    store: Seq<RecordView>,
    phone: Seq<char>,
    groups: Seq<DuplicateGroup>,
    window: Option<TimeWindow>,
    limit: nat,
)
    requires
        ids_distinct(store),
        merge_of(with_phone(store, phone)) is Ok,
        are_first_groups(groups, settled(store, phone), window, limit),
    ensures
        !listed(groups, phone),
{
    let after = settled(store, phone);
    lemma_one_record_left(store, phone);
    lemma_occurrences_are_the_group(after, phone);
    lemma_window_counts_fewer(after, window, phone);
    if listed(groups, phone) {
        let i = choose|i: int| 0 <= i < groups.len() && (#[trigger] groups[i]).phone@ == phone;
        assert(groups[i].count == occurrences(after, window, groups[i].phone@));
    }
}

} // verus!
