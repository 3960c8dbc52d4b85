//! A report does not depend on the order in which the groups ended.

use crate::report::report_of;
use crate::report::BatchReportView;
use crate::report::TaskOutcomeView;
use vstd::multiset::Multiset;
use vstd::prelude::*;
use vstd::seq_lib::lemma_multiset_commutative;
use vstd::seq_lib::to_multiset_build;
use vstd::seq_lib::to_multiset_len;
use vstd::seq_lib::to_multiset_remove;

verus! {

/// Whether `whole` counts what `part` and `other` count together, and lists
/// the failures of both.
pub open spec fn adds_up(whole: BatchReportView, part: BatchReportView, other: BatchReportView) -> bool {
    &&& whole.merged == part.merged + other.merged
    &&& whole.skipped_empty == part.skipped_empty + other.skipped_empty
    &&& whole.failed == part.failed + other.failed
    &&& whole.failures.to_multiset() == part.failures.to_multiset().add(
        other.failures.to_multiset(),
    )
    &&& whole.delete_failures.to_multiset() == part.delete_failures.to_multiset().add(
        other.delete_failures.to_multiset(),
    )
}

/// Whether two reports tell the same: the same counts, and the same
/// failures, in whatever order.
pub open spec fn same_outcomes(a: BatchReportView, b: BatchReportView) -> bool {
    &&& a.merged == b.merged
    &&& a.skipped_empty == b.skipped_empty
    &&& a.failed == b.failed
    &&& a.failures.to_multiset() == b.failures.to_multiset()
    &&& a.delete_failures.to_multiset() == b.delete_failures.to_multiset()
}

/// The report of one group on its own.
pub open spec fn report_of_one(outcome: TaskOutcomeView) -> BatchReportView {
    BatchReportView::empty().counting(outcome)
}

/// Nothing makes an empty multiset.
proof fn lemma_nothing<A>(s: Seq<A>)
    requires
        s.len() == 0,
    ensures
        s.to_multiset() == Multiset::<A>::empty(),
{
    to_multiset_len(s);
    vstd::multiset::lemma_multiset_empty_len(s.to_multiset());
}

/// Counting one more group adds that group's own report.
pub proof fn lemma_counting_adds_up(report: BatchReportView, outcome: TaskOutcomeView)
    ensures
        adds_up(report.counting(outcome), report, report_of_one(outcome)),
{
    let one = report_of_one(outcome);
    let more = report.counting(outcome);
    let none = BatchReportView::empty();
    lemma_nothing(none.failures);
    lemma_nothing(none.delete_failures);
    lemma_multiset_commutative(
        report.delete_failures,
        crate::report::deletes_of(outcome.phone, outcome.delete_failures),
    );
    lemma_multiset_commutative(
        none.delete_failures,
        crate::report::deletes_of(outcome.phone, outcome.delete_failures),
    );
    assert(more.delete_failures.to_multiset() =~= report.delete_failures.to_multiset().add(
        one.delete_failures.to_multiset(),
    ));
    if more.failures != report.failures {
        let failure = more.failures.last();
        assert(more.failures == report.failures.push(failure));
        assert(one.failures == none.failures.push(failure));
        to_multiset_build(report.failures, failure);
        to_multiset_build(none.failures, failure);
        assert(more.failures.to_multiset() =~= report.failures.to_multiset().add(
            one.failures.to_multiset(),
        ));
    } else {
        assert(one.failures == none.failures);
        assert(more.failures.to_multiset() =~= report.failures.to_multiset().add(
            one.failures.to_multiset(),
        ));
    }
}

/// Taking one group out of a report takes out that group's own report.
pub proof fn lemma_report_without_one(outcomes: Seq<TaskOutcomeView>, at: int)
    requires
        0 <= at < outcomes.len(),
    ensures
        adds_up(report_of(outcomes), report_of(outcomes.remove(at)), report_of_one(outcomes[at])),
    decreases outcomes.len(),
{
    let last = outcomes.len() - 1;
    if at == last {
        assert(outcomes.remove(at) =~= outcomes.drop_last());
        lemma_counting_adds_up(report_of(outcomes.drop_last()), outcomes.last());
    } else {
        let earlier = outcomes.drop_last();
        let fewer = outcomes.remove(at);
        assert(fewer.drop_last() =~= earlier.remove(at));
        assert(fewer.last() == outcomes.last());
        assert(earlier[at] == outcomes[at]);
        lemma_report_without_one(earlier, at);
        lemma_counting_adds_up(report_of(earlier), outcomes.last());
        lemma_counting_adds_up(report_of(earlier.remove(at)), outcomes.last());
        let whole = report_of(outcomes);
        let part = report_of(fewer);
        let one = report_of_one(outcomes[at]);
        assert(whole.failures.to_multiset() =~= part.failures.to_multiset().add(
            one.failures.to_multiset(),
        ));
        assert(whole.delete_failures.to_multiset() =~= part.delete_failures.to_multiset().add(
            one.delete_failures.to_multiset(),
        ));
    }
}

/// The order in which the groups ended does not change what the report
/// tells: the same outcomes in another order give the same counts and the
/// same failures.
pub proof fn lemma_report_ignores_order(a: Seq<TaskOutcomeView>, b: Seq<TaskOutcomeView>)
    requires
        a.to_multiset() == b.to_multiset(),
    ensures
        same_outcomes(report_of(a), report_of(b)),
    decreases a.len(),
{
    broadcast use vstd::seq_lib::to_multiset_contains;

    to_multiset_len(a);
    to_multiset_len(b);
    if a.len() == 0 {
        assert(b =~= a);
    } else {
        let last = a.last();
        assert(a.contains(last)) by {
            assert(a[a.len() - 1] == last);
        }
        assert(a.to_multiset().count(last) > 0);
        assert(b.contains(last));
        let at = choose|at: int| 0 <= at < b.len() && b[at] == last;
        to_multiset_remove(a, a.len() - 1);
        to_multiset_remove(b, at);
        assert(a.remove(a.len() - 1) =~= a.drop_last());
        lemma_report_ignores_order(a.drop_last(), b.remove(at));
        lemma_counting_adds_up(report_of(a.drop_last()), last);
        lemma_report_without_one(b, at);
    }
}

} // verus!
