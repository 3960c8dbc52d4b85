//! The groups of a batch do not touch each other: each ends as if it were
//! handled alone, and the report does not depend on their order.

use crate::batch::outcome_for;
use crate::batch::outcomes_after;
use crate::batch::phones_distinct;
use crate::batch::store_after;
use crate::persist::settled;
use crate::record::RecordView;
use crate::report::report_of;
use crate::report::TaskOutcomeView;
use crate::report_laws::lemma_report_ignores_order;
use crate::report_laws::same_outcomes;
use crate::store::ids_distinct;
use crate::store::with_phone;
use crate::store_laws::lemma_one_record_left;
use crate::store_laws::lemma_other_groups_untouched;
use vstd::prelude::*;
use vstd::seq_lib::to_multiset_build;
use vstd::seq_lib::to_multiset_len;
use vstd::seq_lib::to_multiset_remove;

verus! {

/// Handling groups keeps the identifiers in the store distinct.
pub proof fn lemma_store_after_keeps_ids_distinct(store: Seq<RecordView>, phones: Seq<Seq<char>>)
    requires
        ids_distinct(store),
    ensures
        ids_distinct(store_after(store, phones)),
    decreases phones.len(),
{
    if phones.len() > 0 {
        let earlier = store_after(store, phones.drop_last());
        lemma_store_after_keeps_ids_distinct(store, phones.drop_last());
        if crate::merger::merge_of(with_phone(earlier, phones.last())) is Ok {
            lemma_one_record_left(earlier, phones.last());
        }
    }
}

/// Handling other groups leaves the records of a phone number as they are.
pub proof fn lemma_other_groups_leave_phone(
    store: Seq<RecordView>,
    phones: Seq<Seq<char>>,
    phone: Seq<char>,
)
    requires
        ids_distinct(store),
        !phones.contains(phone),
    ensures
        with_phone(store_after(store, phones), phone) == with_phone(store, phone),
    decreases phones.len(),
{
    if phones.len() > 0 {
        let earlier = phones.drop_last();
        assert(!earlier.contains(phone)) by {
            if earlier.contains(phone) {
                let at = choose|at: int| 0 <= at < earlier.len() && earlier[at] == phone;
                assert(phones[at] == phone);
            }
        }
        assert(phones[phones.len() - 1] != phone);
        lemma_other_groups_leave_phone(store, earlier, phone);
        lemma_store_after_keeps_ids_distinct(store, earlier);
        lemma_other_groups_untouched(store_after(store, earlier), phones.last(), phone);
    }
}

/// Each group of a batch ends as it would end if it were handled alone,
/// whatever groups were handled before it.
pub proof fn lemma_groups_end_on_their_own(store: Seq<RecordView>, phones: Seq<Seq<char>>, at: int)
    requires
        ids_distinct(store),
        phones_distinct(phones),
        0 <= at < phones.len(),
    ensures
        outcomes_after(store, phones).len() == phones.len(),
        outcomes_after(store, phones)[at] == outcome_for(store, phones[at]),
    decreases phones.len(),
{
    let earlier = phones.drop_last();
    lemma_outcomes_len(store, phones);
    lemma_outcomes_len(store, earlier);
    if at == phones.len() - 1 {
        assert(!earlier.contains(phones.last())) by {
            if earlier.contains(phones.last()) {
                let k = choose|k: int| 0 <= k < earlier.len() && earlier[k] == phones.last();
                assert(phones[k] != phones[phones.len() - 1]);
            }
        }
        lemma_other_groups_leave_phone(store, earlier, phones.last());
    } else {
        assert(phones_distinct(earlier)) by {
            assert forall|i: int, j: int| 0 <= i < j < earlier.len() implies earlier[i]
                != earlier[j] by {
                assert(phones[i] != phones[j]);
            }
        }
        assert(earlier[at] == phones[at]);
        lemma_groups_end_on_their_own(store, earlier, at);
    }
}

/// A batch has one outcome for each group.
pub proof fn lemma_outcomes_len(store: Seq<RecordView>, phones: Seq<Seq<char>>)
    ensures
        outcomes_after(store, phones).len() == phones.len(),
    decreases phones.len(),
{
    if phones.len() > 0 {
        lemma_outcomes_len(store, phones.drop_last());
    }
}

/// The outcomes of the groups, each handled alone.
pub open spec fn outcomes_alone(store: Seq<RecordView>, phones: Seq<Seq<char>>) -> Seq<
    TaskOutcomeView,
> {
    Seq::new(phones.len(), |i: int| outcome_for(store, phones[i]))
}

/// The same phone numbers in another order have the same outcomes, in
/// another order.
proof fn lemma_outcomes_alone_rearranged(
    store: Seq<RecordView>,
    a: Seq<Seq<char>>,
    b: Seq<Seq<char>>,
)
    requires
        a.to_multiset() == b.to_multiset(),
    ensures
        outcomes_alone(store, a).to_multiset() == outcomes_alone(store, b).to_multiset(),
    decreases a.len(),
{
    broadcast use vstd::seq_lib::to_multiset_contains;

    to_multiset_len(a);
    to_multiset_len(b);
    if a.len() == 0 {
        assert(outcomes_alone(store, a) =~= outcomes_alone(store, b));
    } else {
        let last = a.last();
        assert(a.contains(last)) by {
            assert(a[a.len() - 1] == last);
        }
        assert(a.to_multiset().count(last) > 0);
        assert(b.contains(last));
        let at = choose|at: int| 0 <= at < b.len() && b[at] == last;
        to_multiset_remove(a, a.len() - 1);
        to_multiset_remove(b, at);
        assert(a.remove(a.len() - 1) =~= a.drop_last());
        lemma_outcomes_alone_rearranged(store, a.drop_last(), b.remove(at));
        let all_a = outcomes_alone(store, a);
        let all_b = outcomes_alone(store, b);
        assert(all_a =~= outcomes_alone(store, a.drop_last()).push(outcome_for(store, last)));
        to_multiset_build(outcomes_alone(store, a.drop_last()), outcome_for(store, last));
        to_multiset_remove(all_b, at);
        assert(all_b.remove(at) =~= outcomes_alone(store, b.remove(at)));
        assert(all_b[at] == outcome_for(store, last));
        assert(all_a.to_multiset() =~= all_b.to_multiset());
    }
}

/// The order in which the groups of a batch are handled does not change
/// what the report tells.
pub proof fn lemma_batch_ignores_order(
    store: Seq<RecordView>,
    a: Seq<Seq<char>>,
    b: Seq<Seq<char>>,
)
    requires
        ids_distinct(store),
        phones_distinct(a),
        phones_distinct(b),
        a.to_multiset() == b.to_multiset(),
    ensures
        same_outcomes(
            report_of(outcomes_after(store, a)),
            report_of(outcomes_after(store, b)),
        ),
{
    lemma_outcomes_len(store, a);
    lemma_outcomes_len(store, b);
    assert(outcomes_after(store, a) =~= outcomes_alone(store, a)) by {
        assert forall|i: int| 0 <= i < a.len() implies outcomes_after(store, a)[i]
            == outcomes_alone(store, a)[i] by {
            lemma_groups_end_on_their_own(store, a, i);
        }
    }
    assert(outcomes_after(store, b) =~= outcomes_alone(store, b)) by {
        assert forall|i: int| 0 <= i < b.len() implies outcomes_after(store, b)[i]
            == outcomes_alone(store, b)[i] by {
            lemma_groups_end_on_their_own(store, b, i);
        }
    }
    lemma_outcomes_alone_rearranged(store, a, b);
    lemma_report_ignores_order(outcomes_after(store, a), outcomes_after(store, b));
}

} // verus!
