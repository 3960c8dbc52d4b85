//! Records: an identifier and an ordered mapping of field names to values.

use crate::text::same_text;
use crate::value::Value;
use crate::value::ValueView;
use vstd::prelude::*;

verus! {

/// The fields of a record as mathematics: names with values, in order.
pub type Fields = Seq<(Seq<char>, ValueView)>;

/// What a [`Record`] is: its identifier and its fields.
#[verifier::ext_equal]
pub ghost struct RecordView {
    pub id: u128,
    pub fields: Fields,
}

/// The name of the field that holds the grouping key.
pub open spec fn phone_name() -> Seq<char> {
    "phone"@
}

/// The name of the field that holds the time of the last update.
pub open spec fn updated_at_name() -> Seq<char> {
    "updatedAt"@
}

/// The name of the field that holds the per-provider accounts.
pub open spec fn accounts_name() -> Seq<char> {
    "accounts"@
}

/// The first position at which `name` occurs among `fields`, or their number
/// if it does not occur.
pub open spec fn index_of(fields: Fields, name: Seq<char>) -> int
    decreases fields.len(),
{
    if fields.len() == 0 {
        0
    } else if fields[0].0 == name {
        0
    } else {
        1 + index_of(fields.drop_first(), name)
    }
}

/// Whether a field called `name` is present.
pub open spec fn has_field(fields: Fields, name: Seq<char>) -> bool {
    index_of(fields, name) < fields.len()
}

/// The value held under `name`, if any.
pub open spec fn lookup(fields: Fields, name: Seq<char>) -> Option<ValueView> {
    if has_field(fields, name) {
        Some(fields[index_of(fields, name)].1)
    } else {
        None
    }
}

/// `fields` with `value` under `name`: in the place of the present value, or
/// at the end where the name is new.
pub open spec fn put(fields: Fields, name: Seq<char>, value: ValueView) -> Fields {
    if has_field(fields, name) {
        fields.update(index_of(fields, name), (name, value))
    } else {
        fields.push((name, value))
    }
}

/// No name occurs twice.
pub open spec fn names_distinct(fields: Fields) -> bool {
    forall|i: int, j: int|
        0 <= i < j < fields.len() ==> (#[trigger] fields[i]).0 != (#[trigger] fields[j]).0
}

/// The time of the last update, where the field holds a timestamp.
pub open spec fn updated_at_of(fields: Fields) -> Option<int> {
    match lookup(fields, updated_at_name()) {
        Some(ValueView::Timestamp(t)) => Some(t),
        _ => None,
    }
}

/// The accounts, where the field holds a sequence; none otherwise.
pub open spec fn accounts_of(fields: Fields) -> Seq<ValueView> {
    match lookup(fields, accounts_name()) {
        Some(ValueView::Sequence(items)) => items,
        _ => Seq::empty(),
    }
}

/// The phone number, where the field holds text.
pub open spec fn phone_of(fields: Fields) -> Option<Seq<char>> {
    match lookup(fields, phone_name()) {
        Some(ValueView::Text(p)) => Some(p),
        _ => None,
    }
}

/// What `index_of` finds: the first occurrence, and nothing before it.
pub proof fn lemma_index_of(fields: Fields, name: Seq<char>)
    ensures
        0 <= index_of(fields, name) <= fields.len(),
        forall|k: int| 0 <= k < index_of(fields, name) ==> (#[trigger] fields[k]).0 != name,
        index_of(fields, name) < fields.len() ==> fields[index_of(fields, name)].0 == name,
    decreases fields.len(),
{
    if fields.len() > 0 && fields[0].0 != name {
        let rest = fields.drop_first();
        lemma_index_of(rest, name);
        assert forall|k: int| 0 <= k < index_of(fields, name) implies (#[trigger] fields[k]).0
            != name by {
            if k > 0 {
                assert(fields[k] == rest[k - 1]);
            }
        }
    }
}

/// A position with `name` that no occurrence precedes is the one `index_of`
/// finds; so is the end, where there is no occurrence.
pub proof fn lemma_index_of_is(fields: Fields, name: Seq<char>, at: int)
    requires
        0 <= at <= fields.len(),
        forall|k: int| 0 <= k < at ==> (#[trigger] fields[k]).0 != name,
        at < fields.len() ==> fields[at].0 == name,
    ensures
        index_of(fields, name) == at,
    decreases fields.len(),
{
    if fields.len() > 0 && at > 0 {
        let rest = fields.drop_first();
        assert(fields[0].0 != name);
        assert forall|k: int| 0 <= k < at - 1 implies (#[trigger] rest[k]).0 != name by {
            assert(rest[k] == fields[k + 1]);
        }
        lemma_index_of_is(rest, name, at - 1);
    }
}

/// What a name finds after one more field is added at the end.
pub proof fn lemma_lookup_push(fields: Fields, entry: (Seq<char>, ValueView), name: Seq<char>)
    ensures
        has_field(fields.push(entry), name) == (has_field(fields, name) || entry.0 == name),
        lookup(fields.push(entry), name) == if has_field(fields, name) {
            lookup(fields, name)
        } else if entry.0 == name {
            Some(entry.1)
        } else {
            None
        },
{
    let longer = fields.push(entry);
    lemma_index_of(fields, name);
    let at = index_of(fields, name);
    if at < fields.len() {
        assert forall|k: int| 0 <= k < at implies (#[trigger] longer[k]).0 != name by {
            assert(longer[k] == fields[k]);
        }
        assert(longer[at] == fields[at]);
        lemma_index_of_is(longer, name, at);
    } else {
        assert forall|k: int| 0 <= k < fields.len() implies (#[trigger] longer[k]).0 != name by {
            assert(longer[k] == fields[k]);
        }
        if entry.0 == name {
            lemma_index_of_is(longer, name, fields.len() as int);
        } else {
            lemma_index_of_is(longer, name, longer.len() as int);
        }
    }
}

/// What a name finds after a value is put under a name.
pub proof fn lemma_lookup_put(fields: Fields, name: Seq<char>, value: ValueView, other: Seq<char>)
    ensures
        has_field(put(fields, name, value), other) == (other == name || has_field(fields, other)),
        lookup(put(fields, name, value), other) == if other == name {
            Some(value)
        } else {
            lookup(fields, other)
        },
{
    lemma_index_of(fields, name);
    if has_field(fields, name) {
        let changed = put(fields, name, value);
        let at = index_of(fields, name);
        lemma_index_of(fields, other);
        let found = index_of(fields, other);
        assert forall|k: int| 0 <= k < found implies (#[trigger] changed[k]).0 != other by {
            assert(changed[k].0 == fields[k].0);
        }
        if found < fields.len() {
            assert(changed[found].0 == fields[found].0);
        }
        lemma_index_of_is(changed, other, found);
    } else {
        lemma_lookup_push(fields, (name, value), other);
    }
}

/// Putting a value under a name leaves a mapping a mapping.
pub proof fn lemma_put_keeps_names_distinct(fields: Fields, name: Seq<char>, value: ValueView)
    requires
        names_distinct(fields),
    ensures
        names_distinct(put(fields, name, value)),
{
    lemma_index_of(fields, name);
}

/// A stored document.
#[derive(Debug, PartialEq, Eq)]
pub struct Record {
    id: u128,
    fields: Vec<(String, Value)>,
}

impl View for Record {
    type V = RecordView;

    closed spec fn view(&self) -> RecordView {
        RecordView {
            id: self.id,
            fields: Seq::new(
                self.fields@.len(),
                |i: int| (self.fields@[i].0@, self.fields@[i].1@),
            ),
        }
    }
}

impl Record {
    /// A record is a mapping: no field name occurs twice. Every record that
    /// [`Record::new`] and [`Record::insert`] build is one.
    pub open spec fn wf(&self) -> bool {
        names_distinct(self@.fields)
    }

    /// A record with the given identifier and no fields.
    pub fn new(id: u128) -> (record: Record)
        ensures
            record@ == (RecordView { id, fields: Seq::empty() }),
            record.wf(),
    {
        let record = Record { id, fields: Vec::new() };
        assert(record@.fields =~= Seq::empty());
        record
    }

    /// The identifier.
    pub fn id(&self) -> (id: u128)
        ensures
            id == self@.id,
    {
        self.id
    }

    /// The number of fields.
    pub fn len(&self) -> (n: usize)
        ensures
            n == self@.fields.len(),
    {
        self.fields.len()
    }

    /// The field at position `at`, if there are that many.
    pub fn field_at(&self, at: usize) -> (field: Option<(&str, &Value)>)
        ensures
            at < self@.fields.len() <==> field is Some,
            field matches Some(f) ==> (f.0@, f.1@) == self@.fields[at as int],
    {
        if at < self.fields.len() {
            let entry = &self.fields[at];
            Some((entry.0.as_str(), &entry.1))
        } else {
            None
        }
    }

    /// The position of the field called `name`, if it is present.
    pub fn position(&self, name: &str) -> (at: Option<usize>)
        ensures
            at is Some <==> has_field(self@.fields, name@),
            at matches Some(i) ==> i == index_of(self@.fields, name@),
    {
        let mut i: usize = 0;
        while i < self.fields.len()
            invariant
                i <= self.fields.len(),
                forall|k: int| 0 <= k < i ==> (#[trigger] self@.fields[k]).0 != name@,
            decreases self.fields.len() - i,
        {
            if same_text(self.fields[i].0.as_str(), name) {
                proof {
                    lemma_index_of_is(self@.fields, name@, i as int);
                }
                return Some(i);
            }
            i += 1;
        }
        proof {
            lemma_index_of_is(self@.fields, name@, i as int);
        }
        None
    }

    /// Whether a field called `name` is present.
    pub fn contains_key(&self, name: &str) -> (present: bool)
        ensures
            present == has_field(self@.fields, name@),
    {
        self.position(name).is_some()
    }

    /// The value held under `name`, if any.
    pub fn get(&self, name: &str) -> (value: Option<&Value>)
        ensures
            value is Some <==> has_field(self@.fields, name@),
            value matches Some(v) ==> Some(v@) == lookup(self@.fields, name@),
    {
        match self.position(name) {
            Some(i) => Some(&self.fields[i].1),
            None => None,
        }
    }

    /// Puts `value` under `name`: in the place of the present value, or at the
    /// end where the name is new.
    pub fn insert(&mut self, name: String, value: Value)
        ensures
            final(self)@ == (RecordView {
                id: old(self)@.id,
                fields: put(old(self)@.fields, name@, value@),
            }),
            old(self).wf() ==> final(self).wf(),
    {
        proof {
            lemma_index_of(self@.fields, name@);
            if self.wf() {
                lemma_put_keeps_names_distinct(self@.fields, name@, value@);
            }
        }
        let ghost before = self@.fields;
        match self.position(name.as_str()) {
            Some(i) => {
                self.fields.set(i, (name, value));
                assert(self@.fields =~= put(before, name@, value@));
            },
            None => {
                self.fields.push((name, value));
                assert(self@.fields =~= put(before, name@, value@));
            },
        }
    }

    /// A deep copy.
    pub fn duplicate(&self) -> (copy: Record)
        ensures
            copy@ == self@,
    {
        let mut fields: Vec<(String, Value)> = Vec::new();
        let mut i: usize = 0;
        while i < self.fields.len()
            invariant
                i <= self.fields.len(),
                fields.len() == i,
                forall|k: int|
                    0 <= k < i ==> (#[trigger] fields@[k]).0@ == self.fields@[k].0@ && fields@[k].1@
                        == self.fields@[k].1@,
            decreases self.fields.len() - i,
        {
            fields.push((self.fields[i].0.clone(), self.fields[i].1.duplicate()));
            i += 1;
        }
        let ghost image = Seq::new(fields@.len(), |i: int| (fields@[i].0@, fields@[i].1@));
        assert(image =~= self@.fields);
        Record { id: self.id, fields }
    }

    /// The time of the last update, where the field holds a timestamp.
    pub fn updated_at(&self) -> (time: Option<i64>)
        ensures
            time is Some <==> updated_at_of(self@.fields) is Some,
            time matches Some(t) ==> Some(t as int) == updated_at_of(self@.fields),
    {
        match self.get("updatedAt") {
            Some(Value::Timestamp(t)) => Some(*t),
            _ => None,
        }
    }

    /// The phone number, where the field holds text.
    pub fn phone(&self) -> (phone: Option<&str>)
        ensures
            phone is Some <==> phone_of(self@.fields) is Some,
            phone matches Some(p) ==> Some(p@) == phone_of(self@.fields),
    {
        match self.get("phone") {
            Some(Value::Text(p)) => Some(p.as_str()),
            _ => None,
        }
    }

    /// The accounts, where the field holds a sequence.
    pub fn accounts(&self) -> (accounts: Option<&Vec<Value>>)
        ensures
            accounts is Some <==> lookup(self@.fields, accounts_name()) is Some
                && lookup(self@.fields, accounts_name())->Some_0 is Sequence,
            accounts matches Some(items) ==> crate::value::views_of(items@) == accounts_of(
                self@.fields,
            ),
    {
        match self.get("accounts") {
            Some(Value::Sequence(items)) => {
                assert(crate::value::views_of(items@) =~= accounts_of(self@.fields));
                Some(items)
            },
            _ => None,
        }
    }
}

} // verus!
