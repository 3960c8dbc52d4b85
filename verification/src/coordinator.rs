//! Starting the groups of a batch in a bounded number of tasks.
//!
//! The coordinator decides which group starts next and notes how each group
//! ended. It never has more groups in flight than its limit, never two
//! groups with one phone number in flight, starts every group once, in
//! order, and goes on when a group fails. Whoever runs the tasks asks it for
//! the next group, and tells it when a task has ended.

use crate::finder::DuplicateGroup;
use crate::report::report_of;
use crate::report::BatchReport;
use crate::report::BatchReportView;
use crate::report::TaskOutcome;
use crate::report::TaskOutcomeView;
use crate::text::same_text;
use vstd::prelude::*;
use vstd::seq_lib::to_multiset_build;
use vstd::seq_lib::to_multiset_remove;

verus! {

/// The phone numbers of the groups, in order.
pub open spec fn phones_of(groups: Seq<DuplicateGroup>) -> Seq<Seq<char>> {
    Seq::new(groups.len(), |i: int| groups[i].phone@)
}

/// The phone numbers of the groups that ended, in the order in which they
/// ended.
pub open spec fn settled_phones(outcomes: Seq<TaskOutcomeView>) -> Seq<Seq<char>> {
    Seq::new(outcomes.len(), |i: int| outcomes[i].phone)
}

/// The first position of `phone` among `phones`, or their number if it is
/// not among them.
pub open spec fn first_of(phones: Seq<Seq<char>>, phone: Seq<char>) -> int
    decreases phones.len(),
{
    if phones.len() == 0 {
        0
    } else if phones[0] == phone {
        0
    } else {
        1 + first_of(phones.drop_first(), phone)
    }
}

/// What a [`Coordinator`] is.
#[verifier::ext_equal]
pub ghost struct CoordinatorView {
    /// The phone numbers of the groups of the batch, in the order in which
    /// they start.
    pub phones: Seq<Seq<char>>,
    /// How many groups have started.
    pub started: nat,
    /// The phone numbers of the groups that have started and not ended.
    pub in_flight: Seq<Seq<char>>,
    /// How many groups may be in flight at once.
    pub limit: nat,
    /// How the groups that ended did end, in the order in which they ended.
    pub settled: Seq<TaskOutcomeView>,
}

impl CoordinatorView {
    /// The state before any group has started.
    pub open spec fn start(phones: Seq<Seq<char>>, limit: nat) -> CoordinatorView {
        CoordinatorView {
            phones,
            started: 0,
            in_flight: Seq::empty(),
            limit,
            settled: Seq::empty(),
        }
    }

    /// What holds of every coordinator: no more groups are in flight than
    /// the limit allows, no two of them have the same phone number, and the
    /// groups that have started are those in flight and those that ended,
    /// each once.
    pub open spec fn wf(self) -> bool {
        &&& self.limit >= 1
        &&& self.started <= self.phones.len()
        &&& self.in_flight.len() <= self.limit
        &&& self.in_flight.no_duplicates()
        &&& self.in_flight.len() + self.settled.len() == self.started
        &&& self.in_flight.to_multiset().add(settled_phones(self.settled).to_multiset())
            == self.phones.take(self.started as int).to_multiset()
    }

    /// Whether a group can start: one is left, the limit is not reached,
    /// and no group with the phone number of the next one is in flight.
    pub open spec fn can_start(self) -> bool {
        &&& self.started < self.phones.len()
        &&& self.in_flight.len() < self.limit
        &&& !self.awaits(self.phones[self.started as int])
    }

    /// The state after the next group has started.
    pub open spec fn after_start(self) -> CoordinatorView {
        CoordinatorView {
            phones: self.phones,
            started: self.started + 1,
            in_flight: self.in_flight.push(self.phones[self.started as int]),
            limit: self.limit,
            settled: self.settled,
        }
    }

    /// Whether a group with this phone number is in flight.
    pub open spec fn awaits(self, phone: Seq<char>) -> bool {
        first_of(self.in_flight, phone) < self.in_flight.len()
    }

    /// The state after a group that was in flight has ended.
    pub open spec fn settled_with(self, outcome: TaskOutcomeView) -> CoordinatorView {
        CoordinatorView {
            phones: self.phones,
            started: self.started,
            in_flight: self.in_flight.remove(first_of(self.in_flight, outcome.phone)),
            limit: self.limit,
            settled: self.settled.push(outcome),
        }
    }

    /// Whether every group has started and ended.
    pub open spec fn finished(self) -> bool {
        self.started >= self.phones.len() && self.in_flight.len() == 0
    }

    /// The report of the groups that ended so far.
    pub open spec fn report(self) -> BatchReportView {
        report_of(self.settled)
    }
}

/// What `first_of` finds: the first occurrence, and none before it.
pub proof fn lemma_first_of(phones: Seq<Seq<char>>, phone: Seq<char>)
    ensures
        0 <= first_of(phones, phone) <= phones.len(),
        forall|k: int| 0 <= k < first_of(phones, phone) ==> (#[trigger] phones[k]) != phone,
        first_of(phones, phone) < phones.len() ==> phones[first_of(phones, phone)] == phone,
    decreases phones.len(),
{
    if phones.len() > 0 && phones[0] != phone {
        let rest = phones.drop_first();
        lemma_first_of(rest, phone);
        assert forall|k: int| 0 <= k < first_of(phones, phone) implies (#[trigger] phones[k])
            != phone by {
            if k > 0 {
                assert(phones[k] == rest[k - 1]);
            }
        }
    }
}

/// A position with `phone` that no occurrence precedes is the one that
/// `first_of` finds; so is the end, where there is no occurrence.
pub proof fn lemma_first_of_is(phones: Seq<Seq<char>>, phone: Seq<char>, at: int)
    requires
        0 <= at <= phones.len(),
        forall|k: int| 0 <= k < at ==> (#[trigger] phones[k]) != phone,
        at < phones.len() ==> phones[at] == phone,
    ensures
        first_of(phones, phone) == at,
    decreases phones.len(),
{
    if phones.len() > 0 && at > 0 {
        let rest = phones.drop_first();
        assert(phones[0] != phone);
        assert forall|k: int| 0 <= k < at - 1 implies (#[trigger] rest[k]) != phone by {
            assert(rest[k] == phones[k + 1]);
        }
        lemma_first_of_is(rest, phone, at - 1);
    }
}

/// No phone numbers make an empty multiset.
proof fn lemma_no_phones(phones: Seq<Seq<char>>)
    requires
        phones.len() == 0,
    ensures
        phones.to_multiset() == vstd::multiset::Multiset::<Seq<char>>::empty(),
{
    vstd::seq_lib::to_multiset_len(phones);
    vstd::multiset::lemma_multiset_empty_len(phones.to_multiset());
}

/// Starting a group keeps a coordinator well-formed.
pub proof fn lemma_start_keeps_wf(state: CoordinatorView)
    requires
        state.wf(),
        state.can_start(),
    ensures
        state.after_start().wf(),
{
    let next = state.phones[state.started as int];
    let after = state.after_start();
    lemma_first_of(state.in_flight, next);
    to_multiset_build(state.in_flight, next);
    to_multiset_build(state.phones.take(state.started as int), next);
    assert(state.phones.take(state.started as int + 1) =~= state.phones.take(state.started as int).push(
        next,
    ));
    assert(after.in_flight.to_multiset().add(settled_phones(after.settled).to_multiset())
        =~= state.phones.take(state.started as int + 1).to_multiset());
}

/// The end of a group that was in flight keeps a coordinator well-formed.
pub proof fn lemma_settle_keeps_wf(state: CoordinatorView, outcome: TaskOutcomeView)
    requires
        state.wf(),
        state.awaits(outcome.phone),
    ensures
        state.settled_with(outcome).wf(),
{
    let at = first_of(state.in_flight, outcome.phone);
    let after = state.settled_with(outcome);
    lemma_first_of(state.in_flight, outcome.phone);
    to_multiset_remove(state.in_flight, at);
    to_multiset_build(settled_phones(state.settled), outcome.phone);
    assert(settled_phones(after.settled) =~= settled_phones(state.settled).push(outcome.phone));
    vstd::seq_lib::to_multiset_contains(state.in_flight, outcome.phone);
    assert(state.in_flight.contains(outcome.phone));
    assert(after.in_flight.to_multiset().add(settled_phones(after.settled).to_multiset())
        =~= state.in_flight.to_multiset().add(settled_phones(state.settled).to_multiset()));
}

/// Once a batch is finished, every group has ended, each once.
pub proof fn lemma_finished_settles_every_group(state: CoordinatorView)
    requires
        state.wf(),
        state.finished(),
    ensures
        settled_phones(state.settled).to_multiset() == state.phones.to_multiset(),
        state.settled.len() == state.phones.len(),
        state.report().total() == state.phones.len(),
{
    assert(state.phones.take(state.started as int) =~= state.phones);
    lemma_no_phones(state.in_flight);
    assert(state.in_flight.to_multiset().add(settled_phones(state.settled).to_multiset())
        =~= settled_phones(state.settled).to_multiset());
    crate::report::lemma_report_counts_every_group(state.settled);
}

/// The scheduling of the groups of one batch.
pub struct Coordinator {
    queue: Vec<String>,
    started: usize,
    in_flight: Vec<String>,
    max_concurrency: usize,
    report: BatchReport,
    settled: Ghost<Seq<TaskOutcomeView>>,
}

impl View for Coordinator {
    type V = CoordinatorView;

    closed spec fn view(&self) -> CoordinatorView {
        CoordinatorView {
            phones: Seq::new(self.queue@.len(), |i: int| self.queue@[i]@),
            started: self.started as nat,
            in_flight: Seq::new(self.in_flight@.len(), |i: int| self.in_flight@[i]@),
            limit: self.max_concurrency as nat,
            settled: self.settled@,
        }
    }
}

impl Coordinator {
    /// What holds of every coordinator that [`Coordinator::new`] and the
    /// methods build.
    pub closed spec fn wf(&self) -> bool {
        &&& self@.wf()
        &&& self.report@ == report_of(self.settled@)
    }

    /// A well-formed coordinator is seen as a well-formed state.
    pub proof fn lemma_wf(&self)
        requires
            self.wf(),
        ensures
            self@.wf(),
    {
    }

    /// A coordinator for `groups`, in their order, with at most
    /// `max_concurrency` of them in flight at once.
    pub fn new(groups: &Vec<DuplicateGroup>, max_concurrency: usize) -> (coordinator: Coordinator)
        requires
            max_concurrency >= 1,
        ensures
            coordinator.wf(),
            coordinator@ == CoordinatorView::start(phones_of(groups@), max_concurrency as nat),
    {
        let mut queue: Vec<String> = Vec::new();
        let mut i: usize = 0;
        while i < groups.len()
            invariant
                i <= groups.len(),
                queue.len() == i,
                forall|k: int| 0 <= k < i ==> (#[trigger] queue[k])@ == groups[k].phone@,
            decreases groups.len() - i,
        {
            queue.push(groups[i].phone.clone());
            i += 1;
        }
        let coordinator = Coordinator {
            queue,
            started: 0,
            in_flight: Vec::new(),
            max_concurrency,
            report: BatchReport::new(),
            settled: Ghost(Seq::empty()),
        };
        proof {
            assert(coordinator@.phones =~= phones_of(groups@));
            lemma_no_phones(coordinator@.in_flight);
            lemma_no_phones(coordinator@.phones.take(0));
            lemma_no_phones(settled_phones(coordinator@.settled));
            assert(coordinator@.in_flight.to_multiset().add(
                settled_phones(coordinator@.settled).to_multiset(),
            ) =~= coordinator@.phones.take(0).to_multiset());
        }
        coordinator
    }

    /// The phone number of the group that starts next, if one is left and
    /// the limit is not reached.
    pub fn start_next(&mut self) -> (phone: Option<String>)
        requires
            old(self).wf(),
        ensures
            final(self).wf(),
            phone is Some <==> old(self)@.can_start(),
            phone matches Some(p) ==> p@ == old(self)@.phones[old(self)@.started as int]
                && final(self)@ == old(self)@.after_start(),
            phone is None ==> final(self)@ == old(self)@,
    {
        if self.started < self.queue.len() && self.in_flight.len() < self.max_concurrency
            && self.position_in_flight(self.queue[self.started].as_str()).is_none() {
            let ghost before = self@;
            let phone = self.queue[self.started].clone();
            self.in_flight.push(phone.clone());
            self.started = self.started + 1;
            proof {
                assert(self@.in_flight =~= before.in_flight.push(phone@));
                assert(self@.phones =~= before.phones);
                lemma_start_keeps_wf(before);
            }
            Some(phone)
        } else {
            None
        }
    }

    /// Notes how a group that is in flight ended, and frees its place. Says
    /// whether a group with that phone number was in flight; if none was,
    /// nothing is noted.
    pub fn settle(&mut self, outcome: TaskOutcome) -> (accepted: bool)
        requires
            old(self).wf(),
        ensures
            final(self).wf(),
            accepted == old(self)@.awaits(outcome@.phone),
            final(self)@ == if accepted {
                old(self)@.settled_with(outcome@)
            } else {
                old(self)@
            },
    {
        let ghost before = self@;
        let at = match self.position_in_flight(outcome.phone.as_str()) {
            Some(at) => at,
            None => {
                return false;
            },
        };
        proof {
            crate::report::lemma_report_counts_every_group(self.settled@);
            lemma_settle_keeps_wf(before, outcome@);
        }
        self.in_flight.remove(at);
        self.settled = Ghost(self.settled@.push(outcome@));
        self.report.record(outcome);
        proof {
            assert(self@.in_flight =~= before.in_flight.remove(at as int));
            assert(self@.phones =~= before.phones);
            assert(self.settled@.drop_last() =~= before.settled);
        }
        true
    }

    /// The place among the groups in flight of the one with this phone
    /// number, if there is one.
    fn position_in_flight(&self, phone: &str) -> (at: Option<usize>)
        ensures
            at is Some <==> self@.awaits(phone@),
            at matches Some(i) ==> i == first_of(self@.in_flight, phone@),
    {
        let mut at: usize = 0;
        while at < self.in_flight.len()
            invariant
                at <= self.in_flight.len(),
                forall|k: int| 0 <= k < at ==> (#[trigger] self@.in_flight[k]) != phone@,
            decreases self.in_flight.len() - at,
        {
            if same_text(self.in_flight[at].as_str(), phone) {
                proof {
                    lemma_first_of_is(self@.in_flight, phone@, at as int);
                }
                return Some(at);
            }
            at += 1;
        }
        proof {
            lemma_first_of_is(self@.in_flight, phone@, at as int);
        }
        None
    }

    /// How many groups are in flight.
    pub fn in_flight(&self) -> (n: usize)
        ensures
            n == self@.in_flight.len(),
    {
        self.in_flight.len()
    }

    /// Whether every group has started and ended.
    pub fn is_finished(&self) -> (finished: bool)
        ensures
            finished == self@.finished(),
    {
        self.started >= self.queue.len() && self.in_flight.len() == 0
    }

    /// The report of the groups that ended so far.
    pub fn report(&self) -> (report: &BatchReport)
        requires
            self.wf(),
        ensures
            report@ == self@.report(),
    {
        &self.report
    }

    /// Ends the batch and hands out its report.
    pub fn finish(self) -> (report: BatchReport)
        requires
            self.wf(),
        ensures
            report@ == self@.report(),
    {
        self.report
    }
}

} // verus!
