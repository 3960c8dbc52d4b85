//! Finding the phone numbers that more than one record has.
//!
//! The groups come with the largest first, and among groups of one size in
//! the order of their phone numbers; at most as many as asked for.

use crate::record::updated_at_of;
use crate::record::RecordView;
use crate::store::has_phone;
use crate::store::Store;
use crate::text::lemma_text_order_total;
use crate::text::lemma_text_order_transitive;
use crate::text::same_text;
use crate::text::text_before;
use crate::text::text_precedes;
use crate::window::TimeWindow;
use vstd::prelude::*;

verus! {

/// A phone number with the number of records that have it.
#[derive(Debug, PartialEq, Eq)]
pub struct DuplicateGroup {
    pub phone: String,
    pub count: usize,
}

/// What a [`DuplicateGroup`] is.
pub ghost struct DuplicateGroupView {
    pub phone: Seq<char>,
    pub count: nat,
}

impl View for DuplicateGroup {
    type V = DuplicateGroupView;

    open spec fn view(&self) -> DuplicateGroupView {
        DuplicateGroupView { phone: self.phone@, count: self.count as nat }
    }
}

/// Whether the scan looks at the record: always without a window, and with
/// one where the record's timestamp lies in it.
pub open spec fn scanned(record: RecordView, window: Option<TimeWindow>) -> bool {
    match window {
        None => true,
        Some(w) => updated_at_of(record.fields) is Some && w.covers(
            updated_at_of(record.fields)->Some_0,
        ),
    }
}

/// The number of scanned records whose phone number is `phone`.
pub open spec fn occurrences(
    records: Seq<RecordView>,
    window: Option<TimeWindow>,
    phone: Seq<char>,
) -> nat
    decreases records.len(),
{
    if records.len() == 0 {
        0
    } else {
        occurrences(records.drop_last(), window, phone) + if scanned(records.last(), window)
            && has_phone(records.last(), phone) {
            1nat
        } else {
            0nat
        }
    }
}

/// The order of the groups: the larger first, and of two groups of one size
/// the one whose phone number comes first.
pub open spec fn outranks(a: DuplicateGroupView, b: DuplicateGroupView) -> bool {
    a.count > b.count || (a.count == b.count && text_precedes(a.phone, b.phone))
}

/// Whether a group with this phone number is among `groups`.
pub open spec fn listed(groups: Seq<DuplicateGroup>, phone: Seq<char>) -> bool {
    exists|i: int| 0 <= i < groups.len() && (#[trigger] groups[i]).phone@ == phone
}

/// Whether `groups` are the first `limit` duplicate groups of the records:
/// each is a phone number that at least two scanned records have, with their
/// number; they stand in their order; and whatever duplicate group is left
/// out comes after all of them, and is left out only because `limit` is
/// reached.
pub open spec fn are_first_groups(
    groups: Seq<DuplicateGroup>,
    records: Seq<RecordView>,
    window: Option<TimeWindow>,
    limit: nat,
) -> bool {
    &&& groups.len() <= limit
    &&& forall|i: int|
        0 <= i < groups.len() ==> (#[trigger] groups[i]).count >= 2 && groups[i].count
            == occurrences(records, window, groups[i].phone@)
    &&& forall|i: int, j: int|
        0 <= i < j < groups.len() ==> outranks((#[trigger] groups[i])@, (#[trigger] groups[j])@)
    &&& forall|phone: Seq<char>|
        #![trigger occurrences(records, window, phone)]
        occurrences(records, window, phone) >= 2 && !listed(groups, phone) ==> groups.len()
            == limit && forall|i: int|
            0 <= i < groups.len() ==> outranks(
                (#[trigger] groups[i])@,
                DuplicateGroupView { phone, count: occurrences(records, window, phone) },
            )
}

/// Of two groups with different phone numbers one outranks the other.
pub proof fn lemma_outranks_total(a: DuplicateGroupView, b: DuplicateGroupView)
    ensures
        a.phone == b.phone || outranks(a, b) || outranks(b, a),
        !(outranks(a, b) && outranks(b, a)),
{
    lemma_text_order_total(a.phone, b.phone);
}

/// The order of the groups is transitive.
pub proof fn lemma_outranks_transitive(
    a: DuplicateGroupView,
    b: DuplicateGroupView,
    c: DuplicateGroupView,
)
    requires
        outranks(a, b),
        outranks(b, c),
    ensures
        outranks(a, c),
{
    if a.count == b.count && b.count == c.count {
        lemma_text_order_transitive(a.phone, b.phone, c.phone);
    }
}

/// No more records have a phone number than there are records.
pub proof fn lemma_occurrences_bound(
    records: Seq<RecordView>,
    window: Option<TimeWindow>,
    phone: Seq<char>,
)
    ensures
        occurrences(records, window, phone) <= records.len(),
    decreases records.len(),
{
    if records.len() > 0 {
        lemma_occurrences_bound(records.drop_last(), window, phone);
    }
}

/// Whether the tally is that of the records: one entry for each phone number
/// that a scanned record has, with the number of those records.
spec fn is_tally(
    tally: Seq<DuplicateGroup>,
    records: Seq<RecordView>,
    window: Option<TimeWindow>,
) -> bool {
    &&& forall|t: int|
        0 <= t < tally.len() ==> (#[trigger] tally[t]).count >= 1 && tally[t].count == occurrences(
            records,
            window,
            tally[t].phone@,
        )
    &&& one_entry_each(tally)
    &&& forall|phone: Seq<char>|
        #![trigger occurrences(records, window, phone)]
        occurrences(records, window, phone) >= 1 ==> listed(tally, phone)
}

/// Whether the scan looks at `record`, and if so, its phone number.
fn scanned_phone<'a>(record: &'a crate::record::Record, window: &Option<TimeWindow>) -> (phone:
    Option<&'a str>)
    ensures
        phone is Some <==> scanned(record@, *window) && crate::record::phone_of(record@.fields)
            is Some,
        phone matches Some(p) ==> has_phone(record@, p@),
{
    let inside = match window {
        None => true,
        Some(w) => match record.updated_at() {
            Some(time) => w.contains(time),
            None => false,
        },
    };
    if inside {
        record.phone()
    } else {
        None
    }
}

/// The position of the entry for `phone` in the tally, if there is one.
fn tally_position(tally: &Vec<DuplicateGroup>, phone: &str) -> (at: Option<usize>)
    ensures
        at is Some <==> listed(tally@, phone@),
        at matches Some(t) ==> t < tally.len() && tally[t as int].phone@ == phone@,
{
    let mut t: usize = 0;
    while t < tally.len()
        invariant
            t <= tally.len(),
            forall|k: int| 0 <= k < t ==> (#[trigger] tally[k]).phone@ != phone@,
        decreases tally.len() - t,
    {
        if same_text(tally[t].phone.as_str(), phone) {
            return Some(t);
        }
        t += 1;
    }
    None
}

/// What one more record adds to the number of records with a phone number.
proof fn lemma_occurrences_step(
    records: Seq<RecordView>,
    window: Option<TimeWindow>,
    i: int,
    phone: Seq<char>,
)
    requires
        0 <= i < records.len(),
    ensures
        occurrences(records.take(i + 1), window, phone) == occurrences(
            records.take(i),
            window,
            phone,
        ) + if scanned(records[i], window) && has_phone(records[i], phone) {
            1nat
        } else {
            0nat
        },
{
    assert(records.take(i + 1).drop_last() =~= records.take(i));
    assert(records.take(i + 1).last() == records[i]);
}

/// A record that is not counted leaves the tally as it is.
proof fn lemma_tally_skips(
    tally: Seq<DuplicateGroup>,
    records: Seq<RecordView>,
    window: Option<TimeWindow>,
    i: int,
)
    requires
        0 <= i < records.len(),
        is_tally(tally, records.take(i), window),
        !(scanned(records[i], window) && crate::record::phone_of(records[i].fields) is Some),
    ensures
        is_tally(tally, records.take(i + 1), window),
{
    assert forall|phone: Seq<char>|
        #![trigger occurrences(records.take(i + 1), window, phone)]
        occurrences(records.take(i + 1), window, phone) == occurrences(
            records.take(i),
            window,
            phone,
        ) by {
        lemma_occurrences_step(records, window, i, phone);
    }
    assert forall|t: int| 0 <= t < tally.len() implies (#[trigger] tally[t]).count >= 1
        && tally[t].count == occurrences(records.take(i + 1), window, tally[t].phone@) by {
        lemma_occurrences_step(records, window, i, tally[t].phone@);
    }
}

/// A counted record whose phone number has an entry raises that entry by
/// one.
proof fn lemma_tally_bumps(
    before: Seq<DuplicateGroup>,
    after: Seq<DuplicateGroup>,
    records: Seq<RecordView>,
    window: Option<TimeWindow>,
    i: int,
    at: int,
)
    requires
        0 <= i < records.len(),
        is_tally(before, records.take(i), window),
        0 <= at < before.len(),
        scanned(records[i], window),
        has_phone(records[i], before[at].phone@),
        after.len() == before.len(),
        after[at].phone@ == before[at].phone@,
        after[at].count == before[at].count + 1,
        forall|s: int| 0 <= s < before.len() && s != at ==> (#[trigger] after[s]) == before[s],
    ensures
        is_tally(after, records.take(i + 1), window),
{
    let phone = before[at].phone@;
    assert forall|s: int| 0 <= s < after.len() implies (#[trigger] after[s]).phone@
        == before[s].phone@ by {}
    assert forall|s: int| 0 <= s < after.len() implies (#[trigger] after[s]).count >= 1
        && after[s].count == occurrences(records.take(i + 1), window, after[s].phone@) by {
        lemma_occurrences_step(records, window, i, after[s].phone@);
        if s != at {
            assert(after[s] == before[s]);
            if s < at {
                assert(before[s].phone@ != before[at].phone@);
            } else {
                assert(before[at].phone@ != before[s].phone@);
            }
        }
    }
    assert(one_entry_each(after)) by {
        assert forall|r: int, s: int| 0 <= r < s < after.len() implies (#[trigger] after[r]).phone@
            != (#[trigger] after[s]).phone@ by {
            assert(after[r].phone@ == before[r].phone@);
            assert(after[s].phone@ == before[s].phone@);
            assert(before[r].phone@ != before[s].phone@);
        }
    }
    assert forall|other: Seq<char>|
        #![trigger occurrences(records.take(i + 1), window, other)]
        occurrences(records.take(i + 1), window, other) >= 1 implies listed(after, other) by {
        lemma_occurrences_step(records, window, i, other);
        if other == phone {
            assert(after[at].phone@ == other);
        } else {
            assert(occurrences(records.take(i), window, other) >= 1);
            let s = choose|s: int| 0 <= s < before.len() && (#[trigger] before[s]).phone@ == other;
            assert(after[s].phone@ == other);
        }
    }
}

/// A counted record whose phone number has no entry adds one with the
/// count one.
proof fn lemma_tally_grows(
    before: Seq<DuplicateGroup>,
    entry: DuplicateGroup,
    records: Seq<RecordView>,
    window: Option<TimeWindow>,
    i: int,
)
    requires
        0 <= i < records.len(),
        is_tally(before, records.take(i), window),
        scanned(records[i], window),
        has_phone(records[i], entry.phone@),
        !listed(before, entry.phone@),
        entry.count == 1,
    ensures
        is_tally(before.push(entry), records.take(i + 1), window),
{
    let after = before.push(entry);
    let last = before.len() as int;
    assert(occurrences(records.take(i), window, entry.phone@) == 0);
    assert forall|s: int| 0 <= s < after.len() implies (#[trigger] after[s]).count >= 1
        && after[s].count == occurrences(records.take(i + 1), window, after[s].phone@) by {
        lemma_occurrences_step(records, window, i, after[s].phone@);
        if s < last {
            assert(after[s] == before[s]);
        }
    }
    assert(one_entry_each(after)) by {
        assert forall|r: int, s: int| 0 <= r < s < after.len() implies (#[trigger] after[r]).phone@
            != (#[trigger] after[s]).phone@ by {
            assert(after[r] == before[r]);
            if s < last {
                assert(after[s] == before[s]);
                assert(before[r].phone@ != before[s].phone@);
            }
        }
    }
    assert forall|other: Seq<char>|
        #![trigger occurrences(records.take(i + 1), window, other)]
        occurrences(records.take(i + 1), window, other) >= 1 implies listed(after, other) by {
        lemma_occurrences_step(records, window, i, other);
        if other == entry.phone@ {
            assert(after[last].phone@ == other);
        } else {
            assert(occurrences(records.take(i), window, other) >= 1);
            let s = choose|s: int| 0 <= s < before.len() && (#[trigger] before[s]).phone@ == other;
            assert(after[s].phone@ == other);
        }
    }
}

/// Counts, for each phone number, the scanned records that have it.
fn tally_phones(store: &Store, window: &Option<TimeWindow>) -> (tally: Vec<DuplicateGroup>)
    ensures
        is_tally(tally@, store@, *window),
{
    let mut tally: Vec<DuplicateGroup> = Vec::new();
    let n = store.len();
    let mut i: usize = 0;
    while i < n
        invariant
            i <= n,
            n == store@.len(),
            is_tally(tally@, store@.take(i as int), *window),
        decreases n - i,
    {
        let ghost before = tally@;
        let counted = match store.record_at(i) {
            Some(record) => scanned_phone(record, window),
            None => None,
        };
        match counted {
            Some(phone) => {
                match tally_position(&tally, phone) {
                    Some(at) => {
                        proof {
                            lemma_occurrences_bound(store@.take(i as int), *window, phone@);
                        }
                        let count = tally[at].count + 1;
                        tally.set(at, DuplicateGroup { phone: phone.to_owned(), count });
                        proof {
                            lemma_tally_bumps(before, tally@, store@, *window, i as int, at as int);
                        }
                    },
                    None => {
                        let entry = DuplicateGroup { phone: phone.to_owned(), count: 1 };
                        proof {
                            lemma_tally_grows(before, entry, store@, *window, i as int);
                        }
                        tally.push(entry);
                    },
                }
            },
            None => {
                proof {
                    lemma_tally_skips(before, store@, *window, i as int);
                }
            },
        }
        i += 1;
    }
    assert(store@.take(n as int) =~= store@);
    tally
}

/// Whether the group outranks a group with the given phone number and size.
fn ranks_ahead(group: &DuplicateGroup, phone: &str, count: usize) -> (ahead: bool)
    ensures
        ahead == outranks(group@, DuplicateGroupView { phone: phone@, count: count as nat }),
{
    group.count > count || (group.count == count && text_before(group.phone.as_str(), phone))
}

/// Whether the group is one of the first `seen` entries of the tally, and a
/// duplicate group.
spec fn from_tally(group: DuplicateGroup, tally: Seq<DuplicateGroup>, seen: int) -> bool {
    exists|t: int| 0 <= t < seen && (#[trigger] tally[t])@ == group@ && tally[t].count >= 2
}

/// Whether the groups stand in their order.
spec fn in_order(ranked: Seq<DuplicateGroup>) -> bool {
    forall|i: int, j: int|
        0 <= i < j < ranked.len() ==> outranks((#[trigger] ranked[i])@, (#[trigger] ranked[j])@)
}

/// Whether every one of the groups outranks `other`.
spec fn all_outrank(ranked: Seq<DuplicateGroup>, other: DuplicateGroupView) -> bool {
    forall|i: int| 0 <= i < ranked.len() ==> outranks((#[trigger] ranked[i])@, other)
}

/// Whether `ranked` are the first `limit` duplicate groups among the first
/// `seen` entries of the tally.
spec fn ranks_tally(
    ranked: Seq<DuplicateGroup>,
    tally: Seq<DuplicateGroup>,
    seen: int,
    limit: nat,
) -> bool {
    &&& ranked.len() <= limit
    &&& forall|i: int| 0 <= i < ranked.len() ==> from_tally(#[trigger] ranked[i], tally, seen)
    &&& in_order(ranked)
    &&& forall|t: int|
        0 <= t < seen && (#[trigger] tally[t]).count >= 2 && !listed(ranked, tally[t].phone@)
            ==> ranked.len() == limit && all_outrank(ranked, tally[t]@)
}

/// The ranked groups after `group` was put at `at` and the list cut back to
/// `limit` groups.
spec fn placed(ranked: Seq<DuplicateGroup>, group: DuplicateGroup, at: int, limit: nat) -> Seq<
    DuplicateGroup,
> {
    if ranked.len() + 1 > limit {
        ranked.insert(at, group).drop_last()
    } else {
        ranked.insert(at, group)
    }
}

/// Whether `longer` is `ranked` with `group` put at `at`.
spec fn grown(
    ranked: Seq<DuplicateGroup>,
    longer: Seq<DuplicateGroup>,
    group: DuplicateGroup,
    at: int,
) -> bool {
    &&& 0 <= at <= ranked.len()
    &&& longer.len() == ranked.len() + 1
    &&& longer[at] == group
    &&& forall|i: int| 0 <= i < at ==> (#[trigger] longer[i]) == ranked[i]
    &&& forall|i: int| at < i < longer.len() ==> (#[trigger] longer[i]) == ranked[i - 1]
}

/// Whether the phone numbers of the tally are distinct.
spec fn one_entry_each(tally: Seq<DuplicateGroup>) -> bool {
    forall|s: int, t: int|
        0 <= s < t < tally.len() ==> (#[trigger] tally[s]).phone@ != (#[trigger] tally[t]).phone@
}

/// A group that is an entry of the tally has another phone number than a
/// later entry.
proof fn lemma_new_phone(
    group: DuplicateGroup,
    tally: Seq<DuplicateGroup>,
    seen: int,
)
    requires
        one_entry_each(tally),
        0 <= seen < tally.len(),
        from_tally(group, tally, seen),
    ensures
        group.phone@ != tally[seen].phone@,
{
    let t = choose|t: int| 0 <= t < seen && (#[trigger] tally[t])@ == group@ && tally[t].count >= 2;
    assert(tally[t].phone@ != tally[seen].phone@);
}

/// Two entries of the tally with one phone number are one entry.
proof fn lemma_same_entry(
    group: DuplicateGroup,
    tally: Seq<DuplicateGroup>,
    seen: int,
    t: int,
)
    requires
        one_entry_each(tally),
        0 <= t < seen <= tally.len(),
        from_tally(group, tally, seen),
        tally[t].phone@ == group.phone@,
    ensures
        tally[t]@ == group@,
{
    let s = choose|s: int| 0 <= s < seen && (#[trigger] tally[s])@ == group@ && tally[s].count >= 2;
    if s < t {
        assert(tally[s].phone@ != tally[t].phone@);
    } else if t < s {
        assert(tally[t].phone@ != tally[s].phone@);
    }
}

/// The group that was put at its place outranks every group behind it.
proof fn lemma_ahead_of_the_rest(
    ranked: Seq<DuplicateGroup>,
    tally: Seq<DuplicateGroup>,
    seen: int,
    group: DuplicateGroup,
    at: int,
    behind: int,
)
    requires
        in_order(ranked),
        one_entry_each(tally),
        0 <= seen < tally.len(),
        group@ == tally[seen]@,
        from_tally(ranked[at], tally, seen),
        0 <= at <= behind < ranked.len(),
        !outranks(ranked[at]@, group@),
    ensures
        outranks(group@, ranked[behind]@),
{
    lemma_new_phone(ranked[at], tally, seen);
    lemma_outranks_total(group@, ranked[at]@);
    if behind > at {
        assert(outranks(ranked[at]@, ranked[behind]@));
        lemma_outranks_transitive(group@, ranked[at]@, ranked[behind]@);
    }
}

/// With the group put at its place the groups stand in their order.
proof fn lemma_grown_in_order(
    ranked: Seq<DuplicateGroup>,
    longer: Seq<DuplicateGroup>,
    group: DuplicateGroup,
    at: int,
)
    requires
        grown(ranked, longer, group, at),
        in_order(ranked),
        forall|j: int| 0 <= j < at ==> outranks((#[trigger] ranked[j])@, group@),
        forall|j: int| at <= j < ranked.len() ==> outranks(group@, (#[trigger] ranked[j])@),
    ensures
        in_order(longer),
{
    assert forall|i: int, j: int| 0 <= i < j < longer.len() implies outranks(
        (#[trigger] longer[i])@,
        (#[trigger] longer[j])@,
    ) by {
        if i < at && j < at {
            assert(longer[i] == ranked[i] && longer[j] == ranked[j]);
        } else if i < at && j == at {
            assert(longer[i] == ranked[i]);
        } else if i < at {
            assert(longer[i] == ranked[i] && longer[j] == ranked[j - 1]);
        } else if i == at {
            assert(longer[j] == ranked[j - 1]);
        } else {
            assert(longer[i] == ranked[i - 1] && longer[j] == ranked[j - 1]);
        }
    }
}

/// With the group put at its place every group is an entry of the tally.
proof fn lemma_grown_from_tally(
    ranked: Seq<DuplicateGroup>,
    longer: Seq<DuplicateGroup>,
    tally: Seq<DuplicateGroup>,
    seen: int,
    group: DuplicateGroup,
    at: int,
    i: int,
)
    requires
        grown(ranked, longer, group, at),
        0 <= seen < tally.len(),
        group@ == tally[seen]@,
        tally[seen].count >= 2,
        forall|j: int| 0 <= j < ranked.len() ==> from_tally(#[trigger] ranked[j], tally, seen),
        0 <= i < longer.len(),
    ensures
        from_tally(longer[i], tally, seen + 1),
{
    if i == at {
        assert(tally[seen]@ == longer[i]@);
    } else {
        let from = if i < at { i } else { i - 1 };
        assert(longer[i] == ranked[from]);
        assert(from_tally(ranked[from], tally, seen));
        let t = choose|t: int|
            0 <= t < seen && (#[trigger] tally[t])@ == ranked[from]@ && tally[t].count >= 2;
        assert(tally[t]@ == longer[i]@);
    }
}

/// A phone number that is listed stays listed when a group is put in.
proof fn lemma_grown_lists(
    ranked: Seq<DuplicateGroup>,
    longer: Seq<DuplicateGroup>,
    group: DuplicateGroup,
    at: int,
    phone: Seq<char>,
)
    requires
        grown(ranked, longer, group, at),
        listed(ranked, phone) || group.phone@ == phone,
    ensures
        listed(longer, phone),
{
    if group.phone@ == phone {
        assert(longer[at].phone@ == phone);
    } else {
        let w = choose|w: int| 0 <= w < ranked.len() && (#[trigger] ranked[w]).phone@ == phone;
        let to = if w < at { w } else { w + 1 };
        assert(longer[to] == ranked[w]);
    }
}

/// After the last group was cut off, a duplicate group of the tally that is
/// not listed comes after every group that is.
proof fn lemma_cut_leaves_the_first(
    ranked: Seq<DuplicateGroup>,
    longer: Seq<DuplicateGroup>,
    tally: Seq<DuplicateGroup>,
    seen: int,
    limit: nat,
    group: DuplicateGroup,
    at: int,
    t: int,
    i: int,
)
    requires
        ranks_tally(ranked, tally, seen, limit),
        grown(ranked, longer, group, at),
        in_order(longer),
        one_entry_each(tally),
        0 <= seen < tally.len(),
        group@ == tally[seen]@,
        forall|j: int| 0 <= j < longer.len() ==> from_tally(#[trigger] longer[j], tally, seen + 1),
        0 <= t < seen + 1,
        tally[t].count >= 2,
        !listed(longer.drop_last(), tally[t].phone@),
        0 <= i < longer.len() - 1,
    ensures
        outranks(longer[i]@, tally[t]@),
{
    let last = longer.len() - 1;
    let result = longer.drop_last();
    if tally[t].phone@ == longer[last].phone@ {
        lemma_same_entry(longer[last], tally, seen + 1, t);
        assert(outranks(longer[i]@, longer[last]@));
    } else {
        if listed(longer, tally[t].phone@) {
            let w = choose|w: int|
                0 <= w < longer.len() && (#[trigger] longer[w]).phone@ == tally[t].phone@;
            assert(result[w] == longer[w]);
            assert(false);
        }
        if listed(ranked, tally[t].phone@) || group.phone@ == tally[t].phone@ {
            lemma_grown_lists(ranked, longer, group, at, tally[t].phone@);
        }
        assert(t != seen);
        assert(all_outrank(ranked, tally[t]@));
        if i == at {
            assert(longer[last] == ranked[last - 1]);
            assert(outranks(longer[i]@, longer[last]@));
            assert(outranks(ranked[last - 1]@, tally[t]@));
            lemma_outranks_transitive(longer[i]@, longer[last]@, tally[t]@);
        } else if i < at {
            assert(longer[i] == ranked[i]);
        } else {
            assert(longer[i] == ranked[i - 1]);
        }
    }
}

/// Putting the next duplicate group of the tally at its place, and cutting
/// the list back to `limit` groups, gives the first groups among one more
/// entry of the tally.
proof fn lemma_placed_ranks_tally(
    ranked: Seq<DuplicateGroup>,
    tally: Seq<DuplicateGroup>,
    seen: int,
    limit: nat,
    group: DuplicateGroup,
    at: int,
)
    requires
        ranks_tally(ranked, tally, seen, limit),
        0 <= seen < tally.len(),
        one_entry_each(tally),
        group@ == tally[seen]@,
        tally[seen].count >= 2,
        0 <= at <= ranked.len(),
        forall|j: int| 0 <= j < at ==> outranks((#[trigger] ranked[j])@, group@),
        at < ranked.len() ==> !outranks(ranked[at]@, group@),
    ensures
        ranks_tally(placed(ranked, group, at, limit), tally, seen + 1, limit),
{
    let longer = ranked.insert(at, group);
    let result = placed(ranked, group, at, limit);
    assert(grown(ranked, longer, group, at));
    assert forall|j: int| at <= j < ranked.len() implies outranks(group@, (#[trigger] ranked[j])@) by {
        lemma_ahead_of_the_rest(ranked, tally, seen, group, at, j);
    }
    lemma_grown_in_order(ranked, longer, group, at);
    assert forall|i: int| 0 <= i < longer.len() implies from_tally(
        #[trigger] longer[i],
        tally,
        seen + 1,
    ) by {
        lemma_grown_from_tally(ranked, longer, tally, seen, group, at, i);
    }
    if ranked.len() + 1 > limit {
        assert(result.len() == limit);
        assert forall|i: int| 0 <= i < result.len() implies from_tally(
            #[trigger] result[i],
            tally,
            seen + 1,
        ) by {
            assert(result[i] == longer[i]);
        }
        assert(in_order(result)) by {
            assert forall|i: int, j: int| 0 <= i < j < result.len() implies outranks(
                (#[trigger] result[i])@,
                (#[trigger] result[j])@,
            ) by {
                assert(result[i] == longer[i] && result[j] == longer[j]);
            }
        }
        assert forall|t: int|
            0 <= t < seen + 1 && (#[trigger] tally[t]).count >= 2 && !listed(
                result,
                tally[t].phone@,
            ) implies result.len() == limit && all_outrank(result, tally[t]@) by {
            assert forall|i: int| 0 <= i < result.len() implies outranks(
                (#[trigger] result[i])@,
                tally[t]@,
            ) by {
                assert(result[i] == longer[i]);
                lemma_cut_leaves_the_first(ranked, longer, tally, seen, limit, group, at, t, i);
            }
        }
    } else {
        assert forall|t: int|
            0 <= t < seen + 1 && (#[trigger] tally[t]).count >= 2 implies listed(
            result,
            tally[t].phone@,
        ) by {
            if t < seen && !listed(ranked, tally[t].phone@) {
                assert(ranked.len() == limit);
            }
            lemma_grown_lists(ranked, longer, group, at, tally[t].phone@);
        }
    }
}

/// The phone numbers that at least two records have, the most frequent
/// first and among equally frequent ones in the order of the phone numbers,
/// at most `max_groups` of them.
///
/// With a window, only records whose timestamp lies in it are counted.
/// Records without a phone number are not counted. Nothing is changed.
pub fn find_groups(store: &Store, window: Option<TimeWindow>, max_groups: usize) -> (groups: Vec<
    DuplicateGroup,
>)
    ensures
        are_first_groups(groups@, store@, window, max_groups as nat),
{
    let tally = tally_phones(store, &window);
    let ghost records = store@;
    let ghost limit = max_groups as nat;
    let mut ranked: Vec<DuplicateGroup> = Vec::new();
    let mut k: usize = 0;
    while k < tally.len()
        invariant
            k <= tally.len(),
            limit == max_groups as nat,
            is_tally(tally@, records, window),
            ranks_tally(ranked@, tally@, k as int, limit),
        decreases tally.len() - k,
    {
        let candidate = &tally[k];
        if candidate.count >= 2 {
            let ghost earlier = ranked@;
            let mut at: usize = 0;
            while at < ranked.len() && ranks_ahead(
                &ranked[at],
                candidate.phone.as_str(),
                candidate.count,
            )
                invariant
                    at <= ranked.len(),
                    forall|j: int| 0 <= j < at ==> outranks((#[trigger] ranked[j])@, candidate@),
                decreases ranked.len() - at,
            {
                at += 1;
            }
            let group = DuplicateGroup { phone: candidate.phone.clone(), count: candidate.count };
            proof {
                lemma_placed_ranks_tally(earlier, tally@, k as int, limit, group, at as int);
            }
            ranked.insert(at, group);
            if ranked.len() > max_groups {
                ranked.pop();
                assert(ranked@ =~= placed(earlier, group, at as int, limit));
            }
        } else {
            proof {
                lemma_skipped_ranks_tally(ranked@, tally@, k as int, limit);
            }
        }
        k += 1;
    }
    proof {
        lemma_ranking_is_first_groups(ranked@, tally@, records, window, limit);
    }
    ranked
}

/// An entry of the tally that is no duplicate group changes nothing.
proof fn lemma_skipped_ranks_tally(
    ranked: Seq<DuplicateGroup>,
    tally: Seq<DuplicateGroup>,
    seen: int,
    limit: nat,
)
    requires
        ranks_tally(ranked, tally, seen, limit),
        0 <= seen < tally.len(),
        tally[seen].count < 2,
    ensures
        ranks_tally(ranked, tally, seen + 1, limit),
{
    assert forall|i: int| 0 <= i < ranked.len() implies from_tally(
        #[trigger] ranked[i],
        tally,
        seen + 1,
    ) by {
        assert(from_tally(ranked[i], tally, seen));
        let t = choose|t: int|
            0 <= t < seen && (#[trigger] tally[t])@ == ranked[i]@ && tally[t].count >= 2;
        assert(tally[t]@ == ranked[i]@);
    }
}

/// The first groups of the whole tally are the first duplicate groups of
/// the records.
proof fn lemma_ranking_is_first_groups(
    ranked: Seq<DuplicateGroup>,
    tally: Seq<DuplicateGroup>,
    records: Seq<RecordView>,
    window: Option<TimeWindow>,
    limit: nat,
)
    requires
        is_tally(tally, records, window),
        ranks_tally(ranked, tally, tally.len() as int, limit),
    ensures
        are_first_groups(ranked, records, window, limit),
{
    assert forall|i: int| 0 <= i < ranked.len() implies (#[trigger] ranked[i]).count >= 2
        && ranked[i].count == occurrences(records, window, ranked[i].phone@) by {
        assert(from_tally(ranked[i], tally, tally.len() as int));
        let t = choose|t: int|
            0 <= t < tally.len() && (#[trigger] tally[t])@ == ranked[i]@ && tally[t].count >= 2;
        assert(tally[t].count == occurrences(records, window, tally[t].phone@));
    }
    assert forall|phone: Seq<char>|
        #![trigger occurrences(records, window, phone)]
        occurrences(records, window, phone) >= 2 && !listed(ranked, phone) implies ranked.len()
        == limit && forall|i: int|
        0 <= i < ranked.len() ==> outranks(
            (#[trigger] ranked[i])@,
            DuplicateGroupView { phone, count: occurrences(records, window, phone) },
        ) by {
        assert(listed(tally, phone));
        let t = choose|t: int| 0 <= t < tally.len() && (#[trigger] tally[t]).phone@ == phone;
        assert(tally[t].count == occurrences(records, window, tally[t].phone@));
        assert(tally[t]@ == (DuplicateGroupView {
            phone,
            count: occurrences(records, window, phone),
        }));
        assert(all_outrank(ranked, tally[t]@));
    }
}

} // verus!
