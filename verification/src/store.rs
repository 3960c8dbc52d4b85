//! A collection of records held in memory, with the operations that merging
//! asks of a store: find by phone number, replace, delete.

use crate::error::MergeError;
use crate::merger::views;
use crate::record::phone_of;
use crate::record::Record;
use crate::record::RecordView;
use crate::text::same_text;
use vstd::prelude::*;

verus! {

/// No identifier occurs twice.
pub open spec fn ids_distinct(records: Seq<RecordView>) -> bool {
    forall|i: int, j: int|
        0 <= i < j < records.len() ==> (#[trigger] records[i]).id != (#[trigger] records[j]).id
}

/// The first position of a record with identifier `id`, or the number of
/// records if there is none.
pub open spec fn position_of(records: Seq<RecordView>, id: u128) -> int
    decreases records.len(),
{
    if records.len() == 0 {
        0
    } else if records[0].id == id {
        0
    } else {
        1 + position_of(records.drop_first(), id)
    }
}

/// Whether a record with identifier `id` is held.
pub open spec fn holds(records: Seq<RecordView>, id: u128) -> bool {
    position_of(records, id) < records.len()
}

/// Whether the record's phone number is `phone`.
pub open spec fn has_phone(record: RecordView, phone: Seq<char>) -> bool {
    phone_of(record.fields) == Some(phone)
}

/// The records whose phone number is `phone`, in the order of the store.
pub open spec fn with_phone(records: Seq<RecordView>, phone: Seq<char>) -> Seq<RecordView>
    decreases records.len(),
{
    if records.len() == 0 {
        Seq::empty()
    } else {
        let earlier = with_phone(records.drop_last(), phone);
        if has_phone(records.last(), phone) {
            earlier.push(records.last())
        } else {
            earlier
        }
    }
}

/// The records after `document` has replaced the record with its identifier.
/// Where there is no such record, `document` is added if `upsert` is set, and
/// nothing changes if it is not.
pub open spec fn replaced(records: Seq<RecordView>, document: RecordView, upsert: bool) -> Seq<
    RecordView,
> {
    if holds(records, document.id) {
        records.update(position_of(records, document.id), document)
    } else if upsert {
        records.push(document)
    } else {
        records
    }
}

/// The records without the one with identifier `id`.
pub open spec fn without(records: Seq<RecordView>, id: u128) -> Seq<RecordView> {
    if holds(records, id) {
        records.remove(position_of(records, id))
    } else {
        records
    }
}

/// What `position_of` finds: the first record with the identifier, and none
/// before it.
pub proof fn lemma_position_of(records: Seq<RecordView>, id: u128)
    ensures
        0 <= position_of(records, id) <= records.len(),
        forall|k: int| 0 <= k < position_of(records, id) ==> (#[trigger] records[k]).id != id,
        position_of(records, id) < records.len() ==> records[position_of(records, id)].id == id,
    decreases records.len(),
{
    if records.len() > 0 && records[0].id != id {
        let rest = records.drop_first();
        lemma_position_of(rest, id);
        assert forall|k: int| 0 <= k < position_of(records, id) implies (#[trigger] records[k]).id
            != id by {
            if k > 0 {
                assert(records[k] == rest[k - 1]);
            }
        }
    }
}

/// A position with the identifier that no such record precedes is the one
/// `position_of` finds; so is the end, where there is no such record.
pub proof fn lemma_position_of_is(records: Seq<RecordView>, id: u128, at: int)
    requires
        0 <= at <= records.len(),
        forall|k: int| 0 <= k < at ==> (#[trigger] records[k]).id != id,
        at < records.len() ==> records[at].id == id,
    ensures
        position_of(records, id) == at,
    decreases records.len(),
{
    if records.len() > 0 && at > 0 {
        let rest = records.drop_first();
        assert(records[0].id != id);
        assert forall|k: int| 0 <= k < at - 1 implies (#[trigger] rest[k]).id != id by {
            assert(rest[k] == records[k + 1]);
        }
        lemma_position_of_is(rest, id, at - 1);
    }
}

/// Replacing a record, or adding one under a new identifier, keeps the
/// identifiers distinct.
pub proof fn lemma_replaced_keeps_ids_distinct(
    records: Seq<RecordView>,
    document: RecordView,
    upsert: bool,
)
    requires
        ids_distinct(records),
    ensures
        ids_distinct(replaced(records, document, upsert)),
{
    lemma_position_of(records, document.id);
}

/// Deleting a record keeps the identifiers distinct.
pub proof fn lemma_without_keeps_ids_distinct(records: Seq<RecordView>, id: u128)
    requires
        ids_distinct(records),
    ensures
        ids_distinct(without(records, id)),
{
    lemma_position_of(records, id);
    if holds(records, id) {
        let at = position_of(records, id);
        let fewer = records.remove(at);
        assert forall|i: int, j: int| 0 <= i < j < fewer.len() implies (#[trigger] fewer[i]).id != (
        #[trigger] fewer[j]).id by {
            let from_i = if i < at { i } else { i + 1 };
            let from_j = if j < at { j } else { j + 1 };
            assert(fewer[i] == records[from_i]);
            assert(fewer[j] == records[from_j]);
        }
    }
}

/// A collection of records. No two of them have the same identifier.
#[derive(Debug, PartialEq, Eq)]
pub struct Store {
    records: Vec<Record>,
}

impl View for Store {
    type V = Seq<RecordView>;

    closed spec fn view(&self) -> Seq<RecordView> {
        views(self.records@)
    }
}

impl Store {
    /// The identifiers in the store are distinct. Every store that
    /// [`Store::new`] and the methods build is so.
    pub open spec fn wf(&self) -> bool {
        ids_distinct(self@)
    }

    /// An empty store.
    pub fn new() -> (store: Store)
        ensures
            store@ == Seq::<RecordView>::empty(),
            store.wf(),
    {
        let store = Store { records: Vec::new() };
        assert(store@ =~= Seq::<RecordView>::empty());
        store
    }

    /// The number of records.
    pub fn len(&self) -> (n: usize)
        ensures
            n == self@.len(),
    {
        self.records.len()
    }

    /// The position of the record with identifier `id`, if it is held.
    pub fn position(&self, id: u128) -> (at: Option<usize>)
        ensures
            at is Some <==> holds(self@, id),
            at matches Some(i) ==> i == position_of(self@, id),
    {
        let mut i: usize = 0;
        while i < self.records.len()
            invariant
                i <= self.records.len(),
                forall|k: int| 0 <= k < i ==> (#[trigger] self@[k]).id != id,
            decreases self.records.len() - i,
        {
            if self.records[i].id() == id {
                proof {
                    lemma_position_of_is(self@, id, i as int);
                }
                return Some(i);
            }
            i += 1;
        }
        proof {
            lemma_position_of_is(self@, id, i as int);
        }
        None
    }

    /// The record with identifier `id`, if it is held.
    pub fn get(&self, id: u128) -> (record: Option<&Record>)
        ensures
            record is Some <==> holds(self@, id),
            record matches Some(r) ==> r@ == self@[position_of(self@, id)],
    {
        match self.position(id) {
            Some(i) => Some(&self.records[i]),
            None => None,
        }
    }

    /// The record at position `at`, if there are that many.
    pub fn record_at(&self, at: usize) -> (record: Option<&Record>)
        ensures
            record is Some <==> at < self@.len(),
            record matches Some(r) ==> r@ == self@[at as int],
    {
        if at < self.records.len() {
            Some(&self.records[at])
        } else {
            None
        }
    }

    /// Adds `record` at the end, unless its identifier is taken.
    pub fn insert(&mut self, record: Record) -> (added: bool)
        ensures
            added == !holds(old(self)@, record@.id),
            final(self)@ == if added {
                old(self)@.push(record@)
            } else {
                old(self)@
            },
            old(self).wf() ==> final(self).wf(),
    {
        proof {
            lemma_position_of(self@, record@.id);
        }
        match self.position(record.id()) {
            Some(_) => false,
            None => {
                let ghost before = self@;
                self.records.push(record);
                assert(self@ =~= before.push(record@));
                true
            },
        }
    }

    /// Copies of the records whose phone number is `phone`, in the order of
    /// the store.
    pub fn find_by_phone(&self, phone: &str) -> (found: Vec<Record>)
        ensures
            views(found@) == with_phone(self@, phone@),
    {
        let mut found: Vec<Record> = Vec::new();
        let mut i: usize = 0;
        assert(views(found@) =~= with_phone(self@.take(0), phone@));
        while i < self.records.len()
            invariant
                i <= self.records.len(),
                views(found@) == with_phone(self@.take(i as int), phone@),
            decreases self.records.len() - i,
        {
            proof {
                assert(self@.take(i + 1).drop_last() =~= self@.take(i as int));
                assert(self@.take(i + 1).last() == self@[i as int]);
            }
            let record = &self.records[i];
            let matches = match record.phone() {
                Some(p) => same_text(p, phone),
                None => false,
            };
            if matches {
                let ghost earlier = views(found@);
                found.push(record.duplicate());
                assert(views(found@) =~= earlier.push(record@));
            }
            i += 1;
        }
        assert(self@.take(self.records.len() as int) =~= self@);
        found
    }

    /// Puts `document` in the place of the record with its identifier. Where
    /// there is no such record, `document` is added if `upsert` is set, and
    /// the call fails with `NotFound` if it is not.
    pub fn replace(&mut self, document: Record, upsert: bool) -> (result: Result<(), MergeError>)
        ensures
            final(self)@ == replaced(old(self)@, document@, upsert),
            result is Err <==> !upsert && !holds(old(self)@, document@.id),
            result matches Err(e) ==> e == MergeError::NotFound,
            old(self).wf() ==> final(self).wf(),
    {
        let ghost before = self@;
        proof {
            lemma_position_of(before, document@.id);
            if self.wf() {
                lemma_replaced_keeps_ids_distinct(before, document@, upsert);
            }
        }
        match self.position(document.id()) {
            Some(i) => {
                self.records.set(i, document);
                assert(self@ =~= before.update(i as int, document@));
                Ok(())
            },
            None => {
                if upsert {
                    self.records.push(document);
                    assert(self@ =~= before.push(document@));
                    Ok(())
                } else {
                    Err(MergeError::NotFound)
                }
            },
        }
    }

    /// Deletes the record with identifier `id`. Says whether there was one;
    /// that there was none is no failure.
    pub fn delete(&mut self, id: u128) -> (removed: bool)
        ensures
            final(self)@ == without(old(self)@, id),
            removed == holds(old(self)@, id),
            old(self).wf() ==> final(self).wf(),
    {
        let ghost before = self@;
        proof {
            lemma_position_of(before, id);
            if self.wf() {
                lemma_without_keeps_ids_distinct(before, id);
            }
        }
        match self.position(id) {
            Some(i) => {
                self.records.remove(i);
                assert(self@ =~= before.remove(i as int));
                true
            },
            None => false,
        }
    }
}

} // verus!
